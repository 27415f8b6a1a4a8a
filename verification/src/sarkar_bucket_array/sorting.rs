//! Sorting, delegated to the standard library's unstable sorts.

use vstd::prelude::*;

verus! {

/// Storage ids in `e` are in nondecreasing order of the values they name.
pub open spec fn sorted_by_value(e: Seq<usize>, data: Seq<u64>) -> bool {
    forall|i: int, j: int|
        #![trigger e[i], e[j]]
        0 <= i <= j < e.len() ==> data[e[i] as int] <= data[e[j] as int]
}

/// Values in nondecreasing order.
pub open spec fn sorted_values(s: Seq<u64>) -> bool {
    forall|i: int, j: int| #![trigger s[i], s[j]] 0 <= i <= j < s.len() ==> s[i] <= s[j]
}

/// The value a storage id names.
pub fn value_at(data: &Vec<u64>, id: usize) -> (v: u64)
    requires
        (id as int) < data@.len(),
    ensures
        v == data@[id as int],
{
    data[id]
}

/// `<[usize]>::sort_unstable_by_key`, keyed by the value each id names.
/// Trusted to leave a permutation of the ids, in nondecreasing key order, as
/// the standard library documents; the key closure only calls `value_at`.
#[verifier::external_body]
pub fn sort_ids_by_value(ids: &mut Vec<usize>, data: &Vec<u64>)
    requires
        forall|k: int| 0 <= k < old(ids)@.len() ==> (old(ids)@[k] as int) < data@.len(),
    ensures
        final(ids)@.to_multiset() == old(ids)@.to_multiset(),
        sorted_by_value(final(ids)@, data@),
{
    ids.sort_unstable_by_key(|&id| value_at(data, id));
}

/// `<[u64]>::sort_unstable`. Trusted to leave a permutation of the values in
/// nondecreasing order, as the standard library documents.
#[verifier::external_body]
pub fn sort_values(values: &mut Vec<u64>)
    ensures
        final(values)@.to_multiset() == old(values)@.to_multiset(),
        sorted_values(final(values)@),
{
    values.sort_unstable();
}

/// `<[usize]>::sort_unstable`. Trusted to leave a permutation of the ids in
/// nondecreasing order, as the standard library documents.
#[verifier::external_body]
pub fn sort_ids(ids: &mut Vec<usize>)
    ensures
        final(ids)@.to_multiset() == old(ids)@.to_multiset(),
        forall|i: int, j: int|
            #![trigger final(ids)@[i], final(ids)@[j]]
            0 <= i <= j < final(ids)@.len() ==> final(ids)@[i] <= final(ids)@[j],
{
    ids.sort_unstable();
}

} // verus!
