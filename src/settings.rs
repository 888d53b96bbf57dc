//! The fixed parameters of one evolution run.
use vstd::prelude::*;
use vstd::std_specs::cmp::PartialOrdSpec;

verus! {

/// The parameters of an evolution run, fixed for its whole length.
#[derive(Clone)]
pub struct EvolutionSettings<T> {
    /// How many mutants to inject each generation.
    /// A mutant is a new randomly generated instance, always included in reproduction.
    pub mutant_count: usize,
    /// How many instances to carry over between generations.
    pub survivor_count: usize,
    /// How many instances to have each generation.
    pub instance_count: usize,
    /// The rating that is good enough to stop at.
    pub good_enough: T,
}

impl<T: PartialOrd> EvolutionSettings<T> {
    /// Whether `rating` is at or below the good-enough rating, the condition on
    /// which an evolution run stops.
    pub fn converged(&self, rating: &T) -> (r: bool)
        ensures
            T::obeys_partial_cmp_spec() ==> (r <==> rating.partial_cmp_spec(&self.good_enough) matches Some(
                core::cmp::Ordering::Less | core::cmp::Ordering::Equal,
            )),
    {
        *rating <= self.good_enough
    }
}

} // verus!
