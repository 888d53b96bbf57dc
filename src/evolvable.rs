//! The capability contract of an evolvable type, and the generation step built on it.
use rand::seq::SliceRandom;
use rayon::iter::{IndexedParallelIterator, IntoParallelRefIterator, ParallelIterator};
use vstd::prelude::*;
use crate::population::{
    kept, lemma_kept_count, lemma_kept_members, lemma_kept_picked, picked,
    retain_ranked,
};
use crate::ranking::{
    best_entries, best_of, functional, rates, lemma_best_entries, lemma_best_never_worsens, min_len,
    order_of, rank, total_over,
};
use core::cmp::Ordering;
use vstd::std_specs::cmp::PartialOrdSpec;
use crate::settings::EvolutionSettings;

verus! {

/// A rating for each member of `of`, computed in parallel.
/// Relies on rayon's indexed parallel iterators: `enumerate` pairs each member
/// with its index, `map` applies `rate` to it, and `collect` into a `Vec` keeps
/// the index order.
#[verifier::external_body]
fn rate_all<T: Sync, R: Send, F: Fn(&T) -> R + Sync>(of: &[T], rate: F) -> (r: Vec<(usize, R)>)
    requires
        forall|v: &T| #[trigger] rate.requires((v,)),
    ensures
        r@.len() == of@.len(),
        forall|i: int|
            0 <= i < of@.len() ==> (#[trigger] r@[i]).0 == i && rate.ensures((&of@[i],), r@[i].1),
{
    of.par_iter().enumerate().map(|(n, v)| (n, rate(v))).collect()
}

/// `a` and `b` stand at two distinct positions of `pool`.
pub open spec fn two_members<T>(pool: Seq<T>, a: T, b: T) -> bool {
    exists|i: int, j: int|
        0 <= i < pool.len() && 0 <= j < pool.len() && i != j && a == #[trigger] pool[i] && b
            == #[trigger] pool[j]
}

/// Two members of `pool` at distinct positions, drawn at random.
/// Relies on rand's `SliceRandom::choose_multiple`, which samples distinct
/// indices and yields `min(amount, len)` members.
#[verifier::external_body]
fn choose_parents<T>(pool: &Vec<T>) -> (r: (&T, &T))
    requires
        pool@.len() >= 2,
    ensures
        two_members(pool@, *r.0, *r.1),
{
    let parents: Vec<&T> = pool.choose_multiple(&mut rand::thread_rng(), 2).collect();
    (parents[0], parents[1])
}

/// Whether a parent pool of `pool` members can refill a population to
/// `instance_count`: it already reaches that size, or it holds two parents to mix.
pub open spec fn parents_available(pool: int, instance_count: int) -> bool {
    pool >= 2 || pool >= instance_count
}

/// `c` is a value that `mixed` allows for two members at distinct positions
/// of `pool`.
pub open spec fn child_of<T>(pool: Seq<T>, c: T, mixed: spec_fn(T, T, T) -> bool) -> bool {
    exists|a: T, b: T| two_members(pool, a, b) && #[trigger] mixed(a, b, c)
}

/// `next` is what a generation step makes of population `prev` after ranking
/// it as `ranking`: it begins with the members of `prev` that `ranking` names,
/// one for each entry, in their order in `prev`; then `mutant_count` values
/// that `generated` allows; then, while survivors and mutants fall short of
/// `instance_count`, children that `mixed` allows for two members at distinct
/// positions of that survivor-and-mutant pool, up to `instance_count`.
pub open spec fn next_generation<T, R>(
    prev: Seq<T>,
    ranking: Seq<(usize, R)>,
    mutant_count: nat,
    instance_count: nat,
    next: Seq<T>,
    generated: spec_fn(T) -> bool,
    mixed: spec_fn(T, T, T) -> bool,
) -> bool {
    let survivors = kept(prev, picked(ranking));
    let pool = survivors.len() + mutant_count;
    &&& survivors.len() == ranking.len()
    &&& next.subrange(0, survivors.len() as int) == survivors
    &&& next.len() == if pool < instance_count {
        instance_count
    } else {
        pool
    }
    &&& forall|i: int| survivors.len() <= i < pool ==> generated(#[trigger] next[i])
    &&& forall|i: int|
        pool <= i < next.len() ==> child_of(next.subrange(0, pool as int), #[trigger] next[i], mixed)
}

/// After a generation step the population holds at least `instance_count`
/// members; its leading survivors are members of the previous population that
/// the ranking names, the best-ranked member among them; and, where rating is
/// deterministic and totally ordered, no survivor is rated above a member of
/// the previous population that was left out.
pub proof fn lemma_generation_survivors<T, R: PartialOrd>(
    prev: Seq<T>,
    rating: spec_fn(T, R) -> bool,
    ranking: Seq<(usize, R)>,
    survivor_count: nat,
    mutant_count: nat,
    instance_count: nat,
    next: Seq<T>,
    generated: spec_fn(T) -> bool,
    mixed: spec_fn(T, T, T) -> bool,
)
    requires
        best_of(prev, rating, ranking, survivor_count),
        next_generation(prev, ranking, mutant_count, instance_count, next, generated, mixed),
    ensures
        next.len() >= instance_count,
        next.len() >= ranking.len() + mutant_count,
        forall|i: int|
            0 <= i < ranking.len() ==> exists|l: int|
                0 <= l < ranking.len() && #[trigger] next[i] == prev[ranking[l].0 as int],
        ranking.len() >= 1 ==> next.subrange(0, ranking.len() as int).contains(
            prev[ranking[0].0 as int],
        ),
        R::obeys_partial_cmp_spec() && functional(rating) && total_over(prev, rating) ==> forall|
            i: int,
            y: int,
            q: R,
            p: R,
        |
            0 <= i < ranking.len() && 0 <= y < prev.len() && !picked(ranking).contains(y)
                && #[trigger] rating(next[i], q) && #[trigger] rating(prev[y], p) ==> order_of(q, p)
                != Ordering::Greater,
{
    let survivors = kept(prev, picked(ranking));
    let ix = ranking.map_values(|p: (usize, R)| p.0 as int);
    lemma_best_entries(prev, rating, ranking, survivor_count);
    lemma_kept_members(prev, picked(ranking));
    lemma_kept_picked(prev, picked(ranking));
    assert forall|i: int| 0 <= i < ranking.len() implies exists|l: int|
        0 <= l < ranking.len() && #[trigger] next[i] == prev[ranking[l].0 as int] by {
        assert(next[i] == survivors[i]);
        let m = choose|m: int|
            0 <= m < prev.len() && picked(ranking).contains(m) && #[trigger] survivors[i] == prev[m];
        assert(ix.contains(m));
        let l = choose|l: int| 0 <= l < ix.len() && ix[l] == m;
        assert(ranking[l].0 as int == m);
    }
    if ranking.len() >= 1 {
        assert(ix[0] == ranking[0].0 as int);
        assert(picked(ranking).contains(ranking[0].0 as int));
    }
    if R::obeys_partial_cmp_spec() && functional(rating) && total_over(prev, rating) {
        assert forall|i: int, y: int, q: R, p: R|
            0 <= i < ranking.len() && 0 <= y < prev.len() && !picked(ranking).contains(y)
                && #[trigger] rating(next[i], q) && #[trigger] rating(prev[y], p) implies order_of(q, p)
            != Ordering::Greater by {
            let l = choose|l: int| 0 <= l < ranking.len() && #[trigger] next[i] == prev[ranking[l].0 as int];
            assert(rating(prev[ranking[l].0 as int], ranking[l].1));
            assert(q == ranking[l].1);
            assert(order_of(ranking[l].1, p) != Ordering::Greater);
        }
    }
}

/// The best rating never gets worse from one generation step to the next:
/// where rating is deterministic and totally ordered on the new population,
/// the best rating of the population that a step made is no worse than the
/// best rating that step ranked.
pub proof fn lemma_generations_never_worsen<T, R: PartialOrd>(
    prev: Seq<T>,
    rating: spec_fn(T, R) -> bool,
    ranking: Seq<(usize, R)>,
    survivor_count: nat,
    mutant_count: nat,
    instance_count: nat,
    next: Seq<T>,
    generated: spec_fn(T) -> bool,
    mixed: spec_fn(T, T, T) -> bool,
    next_ranking: Seq<(usize, R)>,
    next_survivor_count: nat,
)
    requires
        R::obeys_partial_cmp_spec(),
        functional(rating),
        total_over(next, rating),
        best_of(prev, rating, ranking, survivor_count),
        ranking.len() >= 1,
        next_generation(prev, ranking, mutant_count, instance_count, next, generated, mixed),
        best_of(next, rating, next_ranking, next_survivor_count),
        next_survivor_count >= 1,
    ensures
        next_ranking.len() >= 1,
        order_of(next_ranking[0].1, ranking[0].1) != Ordering::Greater,
{
    lemma_best_entries(prev, rating, ranking, survivor_count);
    lemma_generation_survivors(
        prev,
        rating,
        ranking,
        survivor_count,
        mutant_count,
        instance_count,
        next,
        generated,
        mixed,
    );
    let best = prev[ranking[0].0 as int];
    assert(rating(best, ranking[0].1));
    let sub = next.subrange(0, ranking.len() as int);
    let i = choose|i: int| 0 <= i < sub.len() && sub[i] == best;
    assert(next[i] == best);
    assert(rating(next[i], ranking[0].1));
    lemma_best_never_worsens(next, rating, next_ranking, next_survivor_count, ranking[0].1);
}

/// A type that can be evolved: generated at random, rated (lower is better),
/// and mixed with another instance.
pub trait Evolvable: Sized + Send + Sync + Clone + 'static {
    /// A rating for an instance.
    type Rating: PartialOrd + Sized + Send + Sync + core::fmt::Display + Clone + 'static;

    /// Generates a new random instance.
    fn gen() -> Self;

    /// Rates an instance.
    fn rate(&self) -> Self::Rating;

    /// Mixes two instances into a child.
    fn mix(a: &Self, b: &Self) -> Self;

    /// The best `amt` members of `of` (all of them when there are fewer), as
    /// (index, rating) pairs, ascending by rating.
    fn best(of: &[Self], amt: usize) -> (r: Vec<(usize, Self::Rating)>)
        ensures
            best_of(of@, |x: Self, q: Self::Rating| call_ensures(Self::rate, (&x,), q), r@, amt as nat),
            best_entries(of@, |x: Self, q: Self::Rating| call_ensures(Self::rate, (&x,), q), r@, amt as nat),
    {
        let rated = rate_all(of, Self::rate);
        proof {
            assert forall|i: int| 0 <= i < rated@.len() implies (#[trigger] rated@[i]).0 == i && (
            |x: Self, q: Self::Rating| call_ensures(Self::rate, (&x,), q))(of@[i], rated@[i].1) by {}
            assert(rates(of@, rated@, |x: Self, q: Self::Rating| call_ensures(Self::rate, (&x,), q)));
        }
        let r = rank(rated, amt);
        proof {
            lemma_best_entries(of@, |x: Self, q: Self::Rating| call_ensures(Self::rate, (&x,), q), r@, amt as nat);
        }
        r
    }

    /// Runs one generation on `previous_generation` and returns the best rating
    /// seen in it before selection.
    fn run_generation(
        previous_generation: &mut Vec<Self>,
        settings: &EvolutionSettings<Self::Rating>,
    ) -> (r: Self::Rating)
        requires
            old(previous_generation)@.len() >= 1,
            settings.survivor_count >= 1,
            parents_available(
                min_len(settings.survivor_count as nat, old(previous_generation)@.len())
                    + settings.mutant_count,
                settings.instance_count as int,
            ),
        ensures
            final(previous_generation)@.len() >= settings.instance_count,
            exists|ranking: Seq<(usize, Self::Rating)>|
                best_of(
                    old(previous_generation)@,
                    |x: Self, q: Self::Rating| call_ensures(Self::rate, (&x,), q),
                    ranking,
                    settings.survivor_count as nat,
                ) && best_entries(
                    old(previous_generation)@,
                    |x: Self, q: Self::Rating| call_ensures(Self::rate, (&x,), q),
                    ranking,
                    settings.survivor_count as nat,
                ) && ranking.len() >= 1 && r == (#[trigger] ranking[0]).1 && next_generation(
                    old(previous_generation)@,
                    ranking,
                    settings.mutant_count as nat,
                    settings.instance_count as nat,
                    final(previous_generation)@,
                    |x: Self| call_ensures(Self::gen, (), x),
                    |a: Self, b: Self, c: Self| call_ensures(Self::mix, (&a, &b), c),
                ),
    {
        let ghost prev = previous_generation@;
        let mut best = Self::best(previous_generation.as_slice(), settings.survivor_count);
        let ghost ranking = best@;
        let ghost survivors = kept(prev, picked(best@));
        proof {
            lemma_kept_count(prev, best@);
        }
        // Purge the unfit.
        retain_ranked(previous_generation, &best);
        // Add new mutants.
        let ghost k = survivors.len() as int;
        let mut m: usize = 0;
        while m < settings.mutant_count
            invariant
                m <= settings.mutant_count,
                k == survivors.len(),
                previous_generation@.len() == k + m,
                previous_generation@.subrange(0, k) == survivors,
                forall|i: int|
                    k <= i < k + m ==> (|x: Self| call_ensures(Self::gen, (), x))(#[trigger] previous_generation@[i]),
            decreases settings.mutant_count - m,
        {
            let ghost before = previous_generation@;
            let mutant = Self::gen();
            previous_generation.push(mutant);
            assert(previous_generation@.subrange(0, k) =~= before.subrange(0, k));
            assert(forall|i: int| k <= i < k + m ==> previous_generation@[i] == before[i]);
            m = m + 1;
        }
        // Fill up with children of the pool.
        let ghost pool = previous_generation@;
        let mut new: Vec<Self> = Vec::new();
        while new.len() + previous_generation.len() < settings.instance_count
            invariant
                previous_generation@ == pool,
                parents_available(pool.len() as int, settings.instance_count as int),
                new@.len() + pool.len() <= if pool.len() < settings.instance_count {
                    settings.instance_count as int
                } else {
                    pool.len() as int
                },
                forall|j: int|
                    0 <= j < new@.len() ==> child_of(pool, #[trigger] new@[j], |a: Self, b: Self, c: Self| call_ensures(Self::mix, (&a, &b), c)),
            decreases settings.instance_count - new@.len() - pool.len(),
        {
            let parents = choose_parents(previous_generation);
            let child = Self::mix(parents.0, parents.1);
            assert((|a: Self, b: Self, c: Self| call_ensures(Self::mix, (&a, &b), c))(*parents.0, *parents.1, child));
            assert(child_of(pool, child, |a: Self, b: Self, c: Self| call_ensures(Self::mix, (&a, &b), c)));
            new.push(child);
        }
        let ghost children = new@;
        previous_generation.append(&mut new);
        proof {
            let next = previous_generation@;
            assert(next =~= pool + children);
            assert(next.subrange(0, pool.len() as int) =~= pool);
            assert(next.subrange(0, k) =~= pool.subrange(0, k));
            assert forall|i: int| pool.len() <= i < next.len() implies child_of(
                next.subrange(0, pool.len() as int),
                #[trigger] next[i],
                |a: Self, b: Self, c: Self| call_ensures(Self::mix, (&a, &b), c),
            ) by {
                assert(next[i] == children[i - pool.len()]);
            }
            assert(next_generation(
                prev,
                ranking,
                settings.mutant_count as nat,
                settings.instance_count as nat,
                next,
                |x: Self| call_ensures(Self::gen, (), x),
                |a: Self, b: Self, c: Self| call_ensures(Self::mix, (&a, &b), c),
            ));
        }
        let first = best.swap_remove(0);
        first.1
    }

    /// Generates an all-new population of `instance_count` mutants.
    fn seed(settings: &EvolutionSettings<Self::Rating>) -> (r: Vec<Self>)
        ensures
            r@.len() == settings.instance_count,
            forall|i: int| 0 <= i < r@.len() ==> (|x: Self| call_ensures(Self::gen, (), x))(#[trigger] r@[i]),
    {
        let mut generation: Vec<Self> = Vec::new();
        let mut n: usize = 0;
        while n < settings.instance_count
            invariant
                n <= settings.instance_count,
                generation@.len() == n,
                forall|i: int| 0 <= i < n ==> (|x: Self| call_ensures(Self::gen, (), x))(#[trigger] generation@[i]),
            decreases settings.instance_count - n,
        {
            let mutant = Self::gen();
            generation.push(mutant);
            n = n + 1;
        }
        generation
    }
}

} // verus!
