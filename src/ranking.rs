//! Ranking of rated population members: ascending by rating, lower is better.
use core::cmp::Ordering;
use rayon::slice::ParallelSliceMut;
use vstd::prelude::*;
use vstd::std_specs::cmp::PartialOrdSpec;
use crate::population::{distinct_below, picked};

verus! {

/// The order used to rank two ratings: their partial order, with incomparable
/// ratings treated as equal.
pub open spec fn order_of<R: PartialOrd>(a: R, b: R) -> Ordering {
    match a.partial_cmp_spec(&b) {
        Some(o) => o,
        None => Ordering::Equal,
    }
}

/// Compares two ratings as `order_of` does.
pub fn compare_ratings<R: PartialOrd>(a: &R, b: &R) -> (r: Ordering)
    ensures
        R::obeys_partial_cmp_spec() ==> r == order_of(*a, *b),
{
    match a.partial_cmp(b) {
        Some(o) => o,
        None => Ordering::Equal,
    }
}


/// The order with its sides swapped.
pub open spec fn flipped(o: Ordering) -> Ordering {
    match o {
        Ordering::Less => Ordering::Greater,
        Ordering::Equal => Ordering::Equal,
        Ordering::Greater => Ordering::Less,
    }
}

/// `order_of` is a total order on the ratings of `s`: swapping two ratings
/// flips their order, and each of less, equal and greater is transitive.
pub open spec fn total_on<R: PartialOrd>(s: Seq<(usize, R)>) -> bool {
    &&& forall|i: int, j: int|
        0 <= i < s.len() && 0 <= j < s.len() ==> #[trigger] order_of(s[i].1, s[j].1) == flipped(
            order_of(s[j].1, s[i].1),
        )
    &&& forall|i: int, j: int, k: int|
        0 <= i < s.len() && 0 <= j < s.len() && 0 <= k < s.len() && #[trigger] order_of(
            s[i].1,
            s[j].1,
        ) == #[trigger] order_of(s[j].1, s[k].1) ==> order_of(s[i].1, s[k].1) == order_of(
            s[i].1,
            s[j].1,
        )
}

/// No rating of `s` is greater than a rating that comes after it.
pub open spec fn sorted_by_rating<R: PartialOrd>(s: Seq<(usize, R)>) -> bool {
    forall|i: int, j: int|
        0 <= i < j < s.len() ==> #[trigger] order_of(s[i].1, s[j].1) != Ordering::Greater
}

/// The smaller of a count and a length.
pub open spec fn min_len(amt: nat, len: nat) -> nat {
    if amt < len {
        amt
    } else {
        len
    }
}

/// `top` is the best `amt` entries of `all` (all of them when `amt` is larger):
/// entries of `all`, and, where the ratings of `all` are totally ordered,
/// ascending by rating, none rated above an entry of `all` left out.
pub open spec fn ranked<R: PartialOrd>(all: Seq<(usize, R)>, top: Seq<(usize, R)>, amt: nat) -> bool {
    &&& top.len() == min_len(amt, all.len())
    &&& top.to_multiset().subset_of(all.to_multiset())
    &&& R::obeys_partial_cmp_spec() && total_on(all) ==> {
        &&& sorted_by_rating(top)
        &&& forall|x: (usize, R), i: int|
            #![trigger top.to_multiset().count(x), top[i]]
            top.to_multiset().count(x) < all.to_multiset().count(x) && 0 <= i < top.len()
                ==> order_of(top[i].1, x.1) != Ordering::Greater
    }
}

/// `all` pairs each member of `of`, in index order, with its index and a
/// rating that `rating` allows for it.
pub open spec fn rates<T, R>(of: Seq<T>, all: Seq<(usize, R)>, rating: spec_fn(T, R) -> bool) -> bool {
    &&& all.len() == of.len()
    &&& forall|i: int| 0 <= i < all.len() ==> (#[trigger] all[i]).0 == i && rating(of[i], all[i].1)
}

/// `rating` allows at most one rating for each member: rating is deterministic.
pub open spec fn functional<T, R>(rating: spec_fn(T, R) -> bool) -> bool {
    forall|x: T, a: R, b: R| #[trigger] rating(x, a) && #[trigger] rating(x, b) ==> a == b
}

/// `order_of` is a total order on every rating that `rating` allows for the
/// members of `of`: no two are incomparable in a way that breaks the order.
pub open spec fn total_over<T, R: PartialOrd>(of: Seq<T>, rating: spec_fn(T, R) -> bool) -> bool {
    &&& forall|i: int, j: int, a: R, b: R|
        0 <= i < of.len() && 0 <= j < of.len() && #[trigger] rating(of[i], a) && #[trigger] rating(
            of[j],
            b,
        ) ==> order_of(a, b) == flipped(order_of(b, a))
    &&& forall|i: int, j: int, k: int, a: R, b: R, c: R|
        0 <= i < of.len() && 0 <= j < of.len() && 0 <= k < of.len() && #[trigger] rating(of[i], a)
            && #[trigger] rating(of[j], b) && #[trigger] rating(of[k], c) && order_of(a, b)
            == order_of(b, c) ==> order_of(a, c) == order_of(a, b)
}

/// `top` is the best `amt` entries of a rating of each member of `of`.
pub open spec fn best_of<T, R: PartialOrd>(
    of: Seq<T>,
    rating: spec_fn(T, R) -> bool,
    top: Seq<(usize, R)>,
    amt: nat,
) -> bool {
    exists|all: Seq<(usize, R)>| #[trigger] rates(of, all, rating) && ranked(all, top, amt)
}

/// What the best `amt` entries of `of` are, stated over the members themselves:
/// `min(amt, len)` entries naming distinct members, each with a rating of its
/// own member; ascending when the ratings are totally ordered; and, when rating
/// is also deterministic, none rated above a member left out, and the first
/// rated no worse than any member.
pub open spec fn best_entries<T, R: PartialOrd>(
    of: Seq<T>,
    rating: spec_fn(T, R) -> bool,
    top: Seq<(usize, R)>,
    amt: nat,
) -> bool {
    &&& top.len() == min_len(amt, of.len())
    &&& distinct_below(top, of.len())
    &&& forall|j: int| 0 <= j < top.len() ==> rating(of[(#[trigger] top[j]).0 as int], top[j].1)
    &&& R::obeys_partial_cmp_spec() && total_over(of, rating) ==> sorted_by_rating(top)
    &&& R::obeys_partial_cmp_spec() && total_over(of, rating) && functional(rating) ==> {
        &&& forall|j: int, i: int, q: R|
            0 <= j < top.len() && 0 <= i < of.len() && !picked(top).contains(i) && #[trigger] rating(
                of[i],
                q,
            ) ==> order_of(#[trigger] top[j].1, q) != Ordering::Greater
        &&& top.len() > 0 ==> forall|i: int, q: R|
            0 <= i < of.len() && #[trigger] rating(of[i], q) ==> order_of(top[0].1, q)
                != Ordering::Greater
    }
}

/// The best entries of a rating of each member satisfy `best_entries`.
pub proof fn lemma_best_entries<T, R: PartialOrd>(
    of: Seq<T>,
    rating: spec_fn(T, R) -> bool,
    top: Seq<(usize, R)>,
    amt: nat,
)
    requires
        best_of(of, rating, top, amt),
    ensures
        best_entries(of, rating, top, amt),
{
    broadcast use vstd::seq_lib::group_to_multiset_ensures;
    broadcast use vstd::multiset::group_multiset_axioms;

    let n = of.len();
    let all = choose|all: Seq<(usize, R)>| #[trigger] rates(of, all, rating) && ranked(all, top, amt);
    assert(all.no_duplicates());
    all.lemma_multiset_has_no_duplicates();
    assert forall|x: (usize, R)| top.to_multiset().contains(x) implies top.to_multiset().count(x)
        == 1 by {
        assert(all.to_multiset().count(x) > 0);
    }
    top.lemma_multiset_has_no_duplicates_conv();
    assert forall|i: int| 0 <= i < top.len() implies (#[trigger] top[i]).0 < n && all[top[i].0 as int] == top[i] by {
        assert(top.to_multiset().count(top[i]) > 0);
        assert(all.contains(top[i]));
    }
    assert(distinct_below(top, n));
    assert forall|j: int| 0 <= j < top.len() implies rating(of[(#[trigger] top[j]).0 as int], top[j].1) by {
        assert(all[top[j].0 as int] == top[j]);
    }
    if R::obeys_partial_cmp_spec() && total_over(of, rating) {
        assert(total_on(all)) by {
            assert forall|i: int, j: int|
                0 <= i < all.len() && 0 <= j < all.len() implies #[trigger] order_of(all[i].1, all[j].1) == flipped(
                order_of(all[j].1, all[i].1),
            ) by {
                assert(rating(of[i], all[i].1) && rating(of[j], all[j].1));
            }
            assert forall|i: int, j: int, k: int|
                0 <= i < all.len() && 0 <= j < all.len() && 0 <= k < all.len() && #[trigger] order_of(
                    all[i].1,
                    all[j].1,
                ) == #[trigger] order_of(all[j].1, all[k].1) implies order_of(all[i].1, all[k].1)
                == order_of(all[i].1, all[j].1) by {
                assert(rating(of[i], all[i].1) && rating(of[j], all[j].1) && rating(of[k], all[k].1));
            }
        }
        if functional(rating) {
            let ix = top.map_values(|p: (usize, R)| p.0 as int);
            assert forall|j: int, i: int, q: R|
                0 <= j < top.len() && 0 <= i < of.len() && !picked(top).contains(i) && #[trigger] rating(
                    of[i],
                    q,
                ) implies order_of(#[trigger] top[j].1, q) != Ordering::Greater by {
                assert(rating(of[i], all[i].1));
                assert(q == all[i].1);
                if top.to_multiset().count(all[i]) > 0 {
                    assert(top.contains(all[i]));
                    let l = choose|l: int| 0 <= l < top.len() && top[l] == all[i];
                    assert(ix[l] == i);
                    assert(ix.contains(i));
                }
                assert(all.to_multiset().count(all[i]) > 0);
                assert(top.to_multiset().count(all[i]) < all.to_multiset().count(all[i]));
                assert(top[j] == top[j]);
            }
            if top.len() > 0 {
                assert forall|i: int, q: R| 0 <= i < of.len() && #[trigger] rating(of[i], q) implies order_of(
                    top[0].1,
                    q,
                ) != Ordering::Greater by {
                    if picked(top).contains(i) {
                        assert(ix.contains(i));
                        let l = choose|l: int| 0 <= l < ix.len() && ix[l] == i;
                        assert(top[l].0 == i);
                        assert(rating(of[i], top[l].1));
                        assert(q == top[l].1);
                        assert(rating(of[top[0].0 as int], top[0].1));
                        assert(order_of(top[0].1, top[0].1) == flipped(order_of(top[0].1, top[0].1)));
                        if l > 0 {
                            assert(order_of(top[0].1, top[l].1) != Ordering::Greater);
                        }
                    } else {
                        assert(order_of(top[0].1, q) != Ordering::Greater);
                    }
                }
            }
        }
    }

}

/// The best rating never gets worse from one generation to the next: when
/// a population holds a member with rating `previous_best` and rating is
/// deterministic and totally ordered on it, the best entry of that population
/// is rated no worse than `previous_best`.
pub proof fn lemma_best_never_worsens<T, R: PartialOrd>(
    of: Seq<T>,
    rating: spec_fn(T, R) -> bool,
    top: Seq<(usize, R)>,
    amt: nat,
    previous_best: R,
)
    requires
        R::obeys_partial_cmp_spec(),
        functional(rating),
        total_over(of, rating),
        best_of(of, rating, top, amt),
        amt >= 1,
        exists|i: int| 0 <= i < of.len() && #[trigger] rating(of[i], previous_best),
    ensures
        top.len() >= 1,
        order_of(top[0].1, previous_best) != Ordering::Greater,
{
    lemma_best_entries(of, rating, top, amt);
    let i = choose|i: int| 0 <= i < of.len() && #[trigger] rating(of[i], previous_best);
}

/// Relies on rayon's `ParallelSliceMut::par_sort_by`: its merge sort only moves
/// elements, so the result is a permutation whatever the comparator does, and
/// it is sorted when the comparator is a total order on the elements.
#[verifier::external_body]
fn sort_by_rating<R: PartialOrd + Send + Sync>(v: &mut Vec<(usize, R)>)
    ensures
        final(v)@.to_multiset() == old(v)@.to_multiset(),
        R::obeys_partial_cmp_spec() && total_on(old(v)@) ==> sorted_by_rating(final(v)@),
{
    v.par_sort_by(|x, y| compare_ratings(&x.1, &y.1))
}

/// Sorts rated entries ascending by rating and keeps the first `amt`.
pub fn rank<R: PartialOrd + Send + Sync>(rated: Vec<(usize, R)>, amt: usize) -> (r: Vec<(usize, R)>)
    ensures
        ranked(rated@, r@, amt as nat),
{
    let mut v = rated;
    sort_by_rating(&mut v);
    let ghost sorted = v@;
    v.truncate(amt);
    proof {
        broadcast use vstd::seq_lib::group_to_multiset_ensures;
        broadcast use vstd::multiset::group_multiset_axioms;

        assert(sorted.len() == rated@.len()) by {
            vstd::seq_lib::to_multiset_len(sorted);
            vstd::seq_lib::to_multiset_len(rated@);
        }
        let k = v@.len() as int;
        assert(k == min_len(amt as nat, rated@.len()));
        let rest = sorted.subrange(k, sorted.len() as int);
        assert(sorted =~= v@ + rest);
        vstd::seq_lib::lemma_multiset_commutative(v@, rest);
        assert(v@.to_multiset().subset_of(rated@.to_multiset()));
        if R::obeys_partial_cmp_spec() && total_on(rated@) {
            assert(sorted_by_rating(v@)) by {
                assert forall|i: int, j: int| 0 <= i < j < v@.len() implies #[trigger] order_of(
                    v@[i].1,
                    v@[j].1,
                ) != Ordering::Greater by {
                    assert(v@[i] == sorted[i] && v@[j] == sorted[j]);
                }
            }
            assert forall|x: (usize, R), i: int|
                #![trigger v@.to_multiset().count(x), v@[i]]
                v@.to_multiset().count(x) < rated@.to_multiset().count(x) && 0 <= i < v@.len()
                    implies order_of(v@[i].1, x.1) != Ordering::Greater by {
                assert(rest.to_multiset().count(x) > 0);
                assert(rest.contains(x));
                let j = choose|j: int| 0 <= j < rest.len() && rest[j] == x;
                assert(sorted[k + j] == x);
                assert(order_of(sorted[i].1, sorted[k + j].1) != Ordering::Greater);
            }
        }
    }
    v
}

} // verus!
