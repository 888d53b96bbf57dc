use revolve::{EvolutionSettings, Evolvable};
use rand::Rng;

/// A candidate that records where it came from.
#[derive(Clone, Debug, PartialEq)]
struct Tagged {
    value: i64,
    mutant: bool,
    parents: Option<(i64, i64)>,
}

impl Evolvable for Tagged {
    type Rating = i64;

    fn gen() -> Self {
        Tagged { value: rand::thread_rng().gen_range(1000..2000), mutant: true, parents: None }
    }

    fn rate(&self) -> i64 {
        self.value
    }

    fn mix(a: &Self, b: &Self) -> Self {
        Tagged { value: a.value + b.value, mutant: false, parents: Some((a.value, b.value)) }
    }
}

fn plain(value: i64) -> Tagged {
    Tagged { value, mutant: false, parents: None }
}

fn settings(mutant_count: usize, survivor_count: usize, instance_count: usize) -> EvolutionSettings<i64> {
    EvolutionSettings { mutant_count, survivor_count, instance_count, good_enough: 0 }
}

#[test]
fn generation_keeps_best_survivors_in_order() {
    let mut pop: Vec<Tagged> = vec![50, 10, 40, 20, 30, 60].into_iter().map(plain).collect();
    let r = Tagged::run_generation(&mut pop, &settings(2, 3, 10));
    assert_eq!(r, 10);
    assert_eq!(pop.len(), 10);
    let firsts: Vec<i64> = pop[..3].iter().map(|c| c.value).collect();
    assert_eq!(firsts, vec![10, 20, 30]);
}

#[test]
fn generation_injects_exactly_mutant_count() {
    let mut pop: Vec<Tagged> = (1..=20).map(plain).collect();
    Tagged::run_generation(&mut pop, &settings(4, 5, 20));
    assert_eq!(pop.len(), 20);
    assert!(pop[..5].iter().all(|c| !c.mutant && c.parents.is_none()));
    assert!(pop[5..9].iter().all(|c| c.mutant));
    assert!(pop[9..].iter().all(|c| !c.mutant && c.parents.is_some()));
    assert_eq!(pop.iter().filter(|c| c.mutant).count(), 4);
}

#[test]
fn children_have_two_distinct_parents_from_pool() {
    let mut pop: Vec<Tagged> = vec![plain(1), plain(2), plain(3)];
    Tagged::run_generation(&mut pop, &settings(0, 2, 30));
    assert_eq!(pop.len(), 30);
    for c in &pop[2..] {
        let (a, b) = c.parents.unwrap();
        assert_ne!(a, b);
        assert!([1, 2].contains(&a) && [1, 2].contains(&b));
        assert_eq!(c.value, 3);
    }
}

#[test]
fn full_pool_makes_no_children() {
    let mut pop: Vec<Tagged> = (1..=10).map(plain).collect();
    Tagged::run_generation(&mut pop, &settings(6, 8, 10));
    assert_eq!(pop.len(), 14);
    assert!(pop.iter().all(|c| c.parents.is_none()));
}

#[test]
fn survivor_count_over_length_keeps_everyone() {
    let mut pop: Vec<Tagged> = vec![plain(3), plain(1)];
    let r = Tagged::run_generation(&mut pop, &settings(1, 5, 4));
    assert_eq!(r, 1);
    assert_eq!(pop.len(), 4);
    assert_eq!(pop[0].value, 3);
    assert_eq!(pop[1].value, 1);
    assert!(pop[2].mutant);
}

#[test]
fn seed_makes_instance_count_mutants() {
    let pop = Tagged::seed(&settings(1, 1, 7));
    assert_eq!(pop.len(), 7);
    assert!(pop.iter().all(|c| c.mutant));
    assert!(Tagged::seed(&settings(1, 1, 0)).is_empty());
}

#[derive(Clone, Debug, PartialEq)]
struct Near(i64);

impl Evolvable for Near {
    type Rating = i64;

    fn gen() -> Self {
        Near(rand::thread_rng().gen_range(0..1000))
    }

    fn rate(&self) -> i64 {
        (self.0 - 421).abs()
    }

    fn mix(a: &Self, b: &Self) -> Self {
        Near((a.0 + b.0) / 2)
    }
}

#[test]
fn best_rating_never_worsens_across_generations() {
    let s = EvolutionSettings { mutant_count: 2, survivor_count: 4, instance_count: 20, good_enough: 0i64 };
    let mut pop = Near::seed(&s);
    let mut last = i64::MAX;
    for _ in 0..50 {
        let r = Near::run_generation(&mut pop, &s);
        assert!(r <= last);
        last = r;
    }
}
