use revolve::population::retain_ranked;
use revolve::ranking::{compare_ratings, rank};
use revolve::{EvolutionSettings, Evolvable};
use std::cmp::Ordering;

#[derive(Clone, Debug, PartialEq)]
struct Num(i64);

impl Evolvable for Num {
    type Rating = i64;

    fn gen() -> Self {
        Num(0)
    }

    fn rate(&self) -> i64 {
        (self.0 - 10).abs()
    }

    fn mix(a: &Self, b: &Self) -> Self {
        Num((a.0 + b.0) / 2)
    }
}

#[test]
fn rank_sorts_ascending_and_keeps_amount() {
    let rated = vec![(0usize, 5i64), (1, 3), (2, 9), (3, 1)];
    let top = rank(rated, 2);
    assert_eq!(top, vec![(3, 1), (1, 3)]);
}

#[test]
fn rank_with_amount_over_length_returns_all_sorted() {
    let rated = vec![(0usize, 5i64), (1, 3), (2, 9)];
    let top = rank(rated, 10);
    assert_eq!(top, vec![(1, 3), (0, 5), (2, 9)]);
}

#[test]
fn rank_of_nothing_is_empty() {
    let rated: Vec<(usize, i64)> = vec![];
    assert_eq!(rank(rated, 3), vec![]);
}

#[test]
fn rank_zero_amount_is_empty() {
    let rated = vec![(0usize, 5i64), (1, 3)];
    assert_eq!(rank(rated, 0), vec![]);
}

#[test]
fn rank_keeps_equal_ratings() {
    let rated = vec![(0usize, 4i64), (1, 4), (2, 1)];
    let top = rank(rated, 3);
    assert_eq!(top[0], (2, 1));
    let mut rest = vec![top[1].0, top[2].0];
    rest.sort();
    assert_eq!(rest, vec![0, 1]);
    assert_eq!(top[1].1, 4);
    assert_eq!(top[2].1, 4);
}

#[test]
fn incomparable_ratings_compare_equal() {
    assert_eq!(compare_ratings(&f64::NAN, &1.0), Ordering::Equal);
    assert_eq!(compare_ratings(&1.0, &2.0), Ordering::Less);
    assert_eq!(compare_ratings(&3, &2), Ordering::Greater);
}

#[test]
fn rank_with_nan_keeps_every_entry() {
    let rated = vec![(0usize, 2.0f64), (1, f64::NAN), (2, 1.0)];
    let top = rank(rated, 3);
    let mut ix: Vec<usize> = top.iter().map(|p| p.0).collect();
    ix.sort();
    assert_eq!(ix, vec![0, 1, 2]);
}

#[test]
fn best_ranks_population_by_rating() {
    let pop = vec![Num(0), Num(12), Num(10), Num(30), Num(7)];
    let top = Num::best(&pop, 3);
    assert_eq!(top, vec![(2, 0), (1, 2), (4, 3)]);
}

#[test]
fn best_returned_ratings_not_above_left_out() {
    let pop: Vec<Num> = (0..40).map(|i| Num((i * 37) % 23)).collect();
    let top = Num::best(&pop, 7);
    assert_eq!(top.len(), 7);
    for w in top.windows(2) {
        assert!(w[0].1 <= w[1].1);
    }
    let worst = top.last().unwrap().1;
    for (i, c) in pop.iter().enumerate() {
        if !top.iter().any(|p| p.0 == i) {
            assert!(worst <= c.rate());
        }
    }
}

#[test]
fn best_with_amount_over_length_returns_everything() {
    let pop = vec![Num(20), Num(9)];
    let top = Num::best(&pop, 5);
    assert_eq!(top, vec![(1, 1), (0, 10)]);
}

#[test]
fn retain_keeps_named_members_in_order() {
    let mut pop = vec!['a', 'b', 'c', 'd', 'e'];
    let ranking = vec![(3usize, 0i64), (0, 1), (4, 2)];
    retain_ranked(&mut pop, &ranking);
    assert_eq!(pop, vec!['a', 'd', 'e']);
}

#[test]
fn retain_with_empty_ranking_empties() {
    let mut pop = vec![1, 2, 3];
    let ranking: Vec<(usize, i64)> = vec![];
    retain_ranked(&mut pop, &ranking);
    assert!(pop.is_empty());
}

#[test]
fn converged_compares_at_or_below() {
    let s = EvolutionSettings { mutant_count: 1, survivor_count: 1, instance_count: 2, good_enough: 5i64 };
    assert!(s.converged(&5));
    assert!(s.converged(&4));
    assert!(!s.converged(&6));
    let f = EvolutionSettings { mutant_count: 1, survivor_count: 1, instance_count: 2, good_enough: 0.01f64 };
    assert!(!f.converged(&f64::NAN));
    assert!(f.converged(&0.005));
}

#[derive(Clone, Debug, PartialEq)]
struct Own(i32);

impl Evolvable for Own {
    type Rating = i32;

    fn gen() -> Self {
        Own(0)
    }

    fn rate(&self) -> i32 {
        self.0
    }

    fn mix(a: &Self, _b: &Self) -> Self {
        Own(a.0)
    }
}

#[test]
fn best_two_of_three() {
    assert_eq!(Own::best(&[Own(3), Own(1), Own(2)], 2), vec![(1, 1), (2, 2)]);
}

#[test]
fn best_more_than_available() {
    assert_eq!(Own::best(&[Own(2), Own(0)], 5), vec![(1, 0), (0, 2)]);
}
