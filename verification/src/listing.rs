//! Lists of line numbers: putting them in rising order and intersecting them.

use crate::trusted::sort_numbers;
use std::collections::HashSet;
use vstd::prelude::*;
use vstd::std_specs::hash::group_hash_axioms;

verus! {

/// Whether no element of `s` is larger than one behind it.
pub open spec fn ascending(s: Seq<usize>) -> bool {
    forall|i: int, j: int| 0 <= i <= j < s.len() ==> s[i] <= s[j]
}

/// Whether each element of `s` is smaller than all behind it, so that `s`
/// rises and holds nothing twice.
pub open spec fn strictly_ascending(s: Seq<usize>) -> bool {
    forall|i: int, j: int| 0 <= i < j < s.len() ==> s[i] < s[j]
}

/// A strictly rising sequence is determined by the set of its elements.
pub proof fn lemma_strictly_ascending_unique(a: Seq<usize>, b: Seq<usize>)
    requires
        strictly_ascending(a),
        strictly_ascending(b),
        a.to_set() == b.to_set(),
    ensures
        a == b,
    decreases a.len(),
{
    if a.len() == 0 {
        if b.len() > 0 {
            assert(b.to_set().contains(b[0]));
        }
    } else {
        assert(a.to_set().contains(a[0]));
        assert(a.to_set().contains(a.last()));
        assert(b.to_set().contains(b.last()));
        let a0 = a.drop_last();
        let b0 = b.drop_last();
        assert forall|x: usize| a0.to_set().contains(x) <==> b0.to_set().contains(x) by {
            if a0.contains(x) {
                let i = choose|i: int| 0 <= i < a0.len() && a0[i] == x;
                assert(a.to_set().contains(x));
                let j = choose|j: int| 0 <= j < b.len() && b[j] == x;
                assert(b0[j] == x);
            }
            if b0.contains(x) {
                let j = choose|j: int| 0 <= j < b0.len() && b0[j] == x;
                assert(b.to_set().contains(x));
                let i = choose|i: int| 0 <= i < a.len() && a[i] == x;
                assert(a0[i] == x);
            }
        }
        assert(a0.to_set() =~= b0.to_set());
        lemma_strictly_ascending_unique(a0, b0);
        assert(b =~= b0.push(b.last()));
    }
}

/// The numbers of `numbers` in rising order, each of them once.
pub fn ascending_listing(numbers: Vec<usize>) -> (listing: Vec<usize>)
    ensures
        strictly_ascending(listing@),
        listing@.to_set() == numbers@.to_set(),
{
    let mut sorted = numbers;
    sort_numbers(&mut sorted);
    proof {
        assert forall|n: usize| sorted@.contains(n) <==> numbers@.contains(n) by {
            vstd::seq_lib::to_multiset_contains(sorted@, n);
            vstd::seq_lib::to_multiset_contains(numbers@, n);
        }
    }
    let mut listing: Vec<usize> = Vec::new();
    let mut i: usize = 0;
    while i < sorted.len()
        invariant
            i <= sorted.len(),
            ascending(sorted@),
            strictly_ascending(listing@),
            listing@.to_set() == sorted@.take(i as int).to_set(),
            listing@.len() > 0 ==> i > 0 && listing@.last() == sorted@[i - 1],
        decreases sorted.len() - i,
    {
        let n = sorted[i];
        let ghost before = listing@;
        proof {
            assert(sorted@.take(i + 1) == sorted@.take(i as int).push(n));
            sorted@.take(i as int).lemma_push_to_set_commute(n);
        }
        if i == 0 || sorted[i - 1] != n {
            listing.push(n);
            proof {
                before.lemma_push_to_set_commute(n);
                assert forall|a: int, b: int| 0 <= a < b < listing@.len() implies listing@[a]
                    < listing@[b] by {
                    if b == listing@.len() - 1 {
                        assert(before.to_set().contains(before[a]));
                    }
                }
            }
        } else {
            proof {
                assert(sorted@.take(i as int)[i - 1] == n);
            }
        }
        i += 1;
    }
    proof {
        assert(sorted@.take(sorted@.len() as int) == sorted@);
    }
    listing
}

/// The test that a number passes when `others` holds it.
pub open spec fn held_by(others: Seq<usize>) -> spec_fn(usize) -> bool {
    |n: usize| others.contains(n)
}

/// Keeping the numbers that another sequence holds too leaves the numbers
/// that both hold.
pub proof fn lemma_filter_held_is_intersection(candidates: Seq<usize>, others: Seq<usize>)
    ensures
        candidates.filter(held_by(others)).to_set() == candidates.to_set().intersect(
            others.to_set(),
        ),
{
    let held = held_by(others);
    let common = candidates.filter(held);
    assert forall|n: usize| common.contains(n) <==> candidates.contains(n) && others.contains(
        n,
    ) by {
        if common.contains(n) {
            let i = choose|i: int| 0 <= i < common.len() && common[i] == n;
            candidates.lemma_filter_pred(held, i);
            candidates.lemma_filter_contains_rev(held, n);
        }
        if candidates.contains(n) && others.contains(n) {
            let i = choose|i: int| 0 <= i < candidates.len() && candidates[i] == n;
            candidates.lemma_filter_contains(held, i);
        }
    }
}

/// The numbers of `candidates` that `others` holds too, in the order and as
/// often as `candidates` holds them.
pub fn common_numbers(candidates: &Vec<usize>, others: &Vec<usize>) -> (common: Vec<usize>)
    ensures
        common@ == candidates@.filter(held_by(others@)),
        common@.to_set() == candidates@.to_set().intersect(others@.to_set()),
{
    broadcast use group_hash_axioms;

    let mut members: HashSet<usize> = HashSet::new();
    let mut i: usize = 0;
    while i < others.len()
        invariant
            i <= others.len(),
            members@ == others@.take(i as int).to_set(),
        decreases others.len() - i,
    {
        proof {
            assert(others@.take(i + 1) == others@.take(i as int).push(others@[i as int]));
            others@.take(i as int).lemma_push_to_set_commute(others@[i as int]);
        }
        members.insert(others[i]);
        i += 1;
    }
    proof {
        assert(others@.take(others@.len() as int) == others@);
    }
    let mut common: Vec<usize> = Vec::new();
    let mut k: usize = 0;
    while k < candidates.len()
        invariant
            k <= candidates.len(),
            members@ == others@.to_set(),
            common@ == candidates@.take(k as int).filter(held_by(others@)),
        decreases candidates.len() - k,
    {
        let n = candidates[k];
        proof {
            assert(candidates@.take(k + 1) == candidates@.take(k as int).push(n));
            candidates@.take(k as int).lemma_filter_push(n, held_by(others@));
        }
        if members.contains(&n) {
            common.push(n);
        }
        k += 1;
    }
    proof {
        assert(candidates@.take(candidates@.len() as int) == candidates@);
        lemma_filter_held_is_intersection(candidates@, others@);
    }
    common
}

} // verus!
