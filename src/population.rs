//! Survivor selection: narrowing a population to the members a ranking names.
use vstd::prelude::*;
use vstd::set_lib::set_int_range;

verus! {

/// The population indices that a ranking names.
pub open spec fn picked<R>(ranking: Seq<(usize, R)>) -> Set<int> {
    ranking.map_values(|p: (usize, R)| p.0 as int).to_set()
}

/// Every index that `ranking` names is below `n`, and none is named twice.
pub open spec fn distinct_below<R>(ranking: Seq<(usize, R)>, n: nat) -> bool {
    &&& forall|i: int| 0 <= i < ranking.len() ==> (#[trigger] ranking[i]).0 < n
    &&& forall|i: int, j: int|
        0 <= i < ranking.len() && 0 <= j < ranking.len() && i != j ==> (#[trigger] ranking[i]).0
            != (#[trigger] ranking[j]).0
}

/// The members of `s` whose index is in `picks`, in their order in `s`.
pub open spec fn kept<T>(s: Seq<T>, picks: Set<int>) -> Seq<T>
    decreases s.len(),
{
    if s.len() == 0 {
        s
    } else {
        let rest = kept(s.drop_last(), picks);
        if picks.contains(s.len() - 1) {
            rest.push(s.last())
        } else {
            rest
        }
    }
}

/// Each member that `kept` retains is the member of the population at a
/// picked index.
pub proof fn lemma_kept_members<T>(s: Seq<T>, picks: Set<int>)
    ensures
        forall|i: int|
            0 <= i < kept(s, picks).len() ==> exists|m: int|
                0 <= m < s.len() && picks.contains(m) && #[trigger] kept(s, picks)[i] == s[m],
    decreases s.len(),
{
    if s.len() > 0 {
        lemma_kept_members(s.drop_last(), picks);
        let rest = kept(s.drop_last(), picks);
        assert forall|i: int| 0 <= i < kept(s, picks).len() implies exists|m: int|
            0 <= m < s.len() && picks.contains(m) && #[trigger] kept(s, picks)[i] == s[m] by {
            if i < rest.len() {
                assert(kept(s, picks)[i] == rest[i]);
                let m = choose|m: int|
                    0 <= m < s.drop_last().len() && picks.contains(m) && #[trigger] rest[i]
                        == s.drop_last()[m];
                assert(s[m] == s.drop_last()[m]);
            } else {
                assert(kept(s, picks)[i] == s[s.len() - 1]);
            }
        }
    }
}

/// `kept` retains the member at each picked index.
pub proof fn lemma_kept_picked<T>(s: Seq<T>, picks: Set<int>)
    ensures
        forall|i: int| 0 <= i < s.len() && picks.contains(i) ==> kept(s, picks).contains(#[trigger] s[i]),
    decreases s.len(),
{
    if s.len() > 0 {
        let rest = kept(s.drop_last(), picks);
        lemma_kept_picked(s.drop_last(), picks);
        assert forall|i: int| 0 <= i < s.len() && picks.contains(i) implies kept(s, picks).contains(
            #[trigger] s[i],
        ) by {
            if i < s.len() - 1 {
                assert(s.drop_last()[i] == s[i]);
                assert(rest.contains(s[i]));
                let j = choose|j: int| 0 <= j < rest.len() && rest[j] == s[i];
                assert(kept(s, picks)[j] == s[i]);
            } else {
                assert(kept(s, picks)[rest.len() as int] == s[i]);
            }
        }
    }
}

/// `kept` retains one member for each picked index below the population's length.
proof fn lemma_kept_len<T>(s: Seq<T>, picks: Set<int>)
    ensures
        set_int_range(0, s.len() as int).intersect(picks).finite(),
        kept(s, picks).len() == set_int_range(0, s.len() as int).intersect(picks).len(),
    decreases s.len(),
{
    let n = s.len() as int;
    let below = set_int_range(0, n).intersect(picks);
    vstd::set_lib::lemma_int_range(0, n);
    vstd::set_lib::lemma_len_subset(below, set_int_range(0, n));
    if n > 0 {
        lemma_kept_len(s.drop_last(), picks);
        let prev = set_int_range(0, n - 1).intersect(picks);
        if picks.contains(n - 1) {
            assert(below =~= prev.insert(n - 1));
        } else {
            assert(below =~= prev);
        }
    } else {
        assert(below =~= Set::empty());
    }
}

/// A ranking of distinct indices below the population's length keeps exactly
/// as many members as it names.
pub proof fn lemma_kept_count<T, R>(s: Seq<T>, ranking: Seq<(usize, R)>)
    requires
        distinct_below(ranking, s.len()),
    ensures
        kept(s, picked(ranking)).len() == ranking.len(),
{
    let ix = ranking.map_values(|p: (usize, R)| p.0 as int);
    lemma_kept_len(s, picked(ranking));
    assert(ix.no_duplicates());
    ix.unique_seq_to_set();
    assert(set_int_range(0, s.len() as int).intersect(picked(ranking)) =~= picked(ranking)) by {
        assert forall|i: int| picked(ranking).contains(i) implies 0 <= i < s.len() by {
            assert(ix.contains(i));
        }
    }
}

/// Whether `ranking` names index `n`.
fn names_index<R>(ranking: &Vec<(usize, R)>, n: usize) -> (r: bool)
    ensures
        r == picked(ranking@).contains(n as int),
{
    let ghost ix = ranking@.map_values(|p: (usize, R)| p.0 as int);
    let mut k: usize = 0;
    while k < ranking.len()
        invariant
            k <= ranking@.len(),
            ix == ranking@.map_values(|p: (usize, R)| p.0 as int),
            forall|j: int| 0 <= j < k ==> ranking@[j].0 != n,
        decreases ranking@.len() - k,
    {
        if ranking[k].0 == n {
            assert(ix[k as int] == n as int);
            return true;
        }
        k = k + 1;
    }
    assert(!ix.contains(n as int));
    false
}

/// Narrows `population` to the members whose index `ranking` names, keeping
/// their order.
pub fn retain_ranked<T, R>(population: &mut Vec<T>, ranking: &Vec<(usize, R)>)
    ensures
        final(population)@ == kept(old(population)@, picked(ranking@)),
{
    let ghost whole = population@;
    let ghost picks = picked(ranking@);
    let mut held: Vec<T> = Vec::new();
    let ghost mut tail: Seq<T> = Seq::empty();
    while population.len() > 0
        invariant
            population@ == whole.subrange(0, population@.len() as int),
            population@.len() <= whole.len(),
            picks == picked(ranking@),
            held@.len() == tail.len(),
            forall|j: int| 0 <= j < tail.len() ==> held@[j] == tail[tail.len() - 1 - j],
            kept(whole, picks) == kept(population@, picks) + tail,
        decreases population@.len(),
    {
        let ghost before = population@;
        let keep = names_index(ranking, population.len() - 1);
        let x = population.pop().unwrap();
        assert(before.drop_last() == population@);
        if keep {
            proof {
                assert(kept(before, picks) == kept(population@, picks).push(x));
                assert(kept(population@, picks).push(x) + tail =~= kept(population@, picks) + (
                seq![x] + tail));
                tail = seq![x] + tail;
            }
            held.push(x);
        } else {
            assert(kept(before, picks) == kept(population@, picks));
        }
    }
    assert(population@ =~= Seq::<T>::empty());
    assert(kept(population@, picks) =~= Seq::<T>::empty());
    assert(kept(whole, picks) =~= tail);
    while held.len() > 0
        invariant
            held@.len() <= tail.len(),
            population@ + held@.reverse() =~= tail,
            kept(whole, picks) == tail,
        decreases held@.len(),
    {
        let x = held.pop().unwrap();
        population.push(x);
    }
    proof {
        assert(held@.reverse() =~= Seq::<T>::empty());
    }
}

} // verus!
