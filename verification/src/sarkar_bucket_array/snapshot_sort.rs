//! The sorted snapshot: the live values in ascending order, read from the
//! per-width trees without touching the index.
//!
//! Bit width is monotone on unsigned values, so every value of width `w` is
//! below every value of width `w + 1`; sorting each width's values on its own
//! and concatenating the widths in order sorts the whole.

use vstd::prelude::*;
use super::bits::{bit_width_spec, lemma_width_order};
use super::index::{tree_ids_upto, Bwspi};
use super::model::{
    lemma_live_values_of_ids, lemma_sorted_is_sorted_live, lemma_values_perm, live_values,
    sorted_live, values_of,
};
use super::sorting::{sort_values, sorted_values};

verus! {

broadcast use vstd::seq_lib::group_to_multiset_ensures;

/// The live values in ascending order. Every tree must be clean.
pub(crate) fn sorted_snapshot(index: &Bwspi) -> (r: Vec<u64>)
    requires
        index.wf(),
        index.trees_clean(),
    ensures
        r@ == sorted_live(index.storage(), index.live()),
{
    let mut output: Vec<u64> = Vec::new();
    let mut w: usize = 0;
    proof {
        index.lemma_clean_partition();
        assert(tree_ids_upto(index.trees@, 0) =~= Seq::<usize>::empty());
        assert(values_of(Seq::<usize>::empty(), index.data@) =~= Seq::<u64>::empty());
    }
    while w < index.trees.len()
        invariant
            index.wf(),
            index.trees_clean(),
            w <= index.trees@.len(),
            output@.to_multiset() == values_of(
                tree_ids_upto(index.trees@, w as int),
                index.data@,
            ).to_multiset(),
            sorted_values(output@),
            forall|i: int| 0 <= i < output@.len() ==> bit_width_spec(#[trigger] output@[i]) < w,
        decreases index.trees@.len() - w,
    {
        proof {
            index.lemma_clean_partition();
        }
        let mut ids: Vec<usize> = Vec::new();
        index.trees[w].append_leaf_ids(&mut ids);
        let ghost tids = index.trees@[w as int].ids();
        proof {
            assert(ids@ =~= tids);
            assert forall|j: int| 0 <= j < tids.len() implies (#[trigger] tids[j] as int)
                < index.data@.len() && bit_width_spec(index.data@[tids[j] as int]) == w by {
                assert(tids.contains(tids[j]));
            }
        }
        let mut seg: Vec<u64> = Vec::new();
        let mut k: usize = 0;
        while k < ids.len()
            invariant
                ids@ == tids,
                k <= ids@.len(),
                forall|j: int|
                    0 <= j < tids.len() ==> (#[trigger] tids[j] as int) < index.data@.len()
                        && bit_width_spec(index.data@[tids[j] as int]) == w,
                seg@ == values_of(ids@.take(k as int), index.data@),
            decreases ids@.len() - k,
        {
            proof {
                assert(tids.contains(tids[k as int]));
            }
            seg.push(index.data[ids[k]]);
            proof {
                assert(ids@.take(k + 1) =~= ids@.take(k as int).push(ids@[k as int]));
                assert(seg@ =~= values_of(ids@.take(k + 1), index.data@));
            }
            k = k + 1;
        }
        proof {
            assert(ids@.take(k as int) =~= tids);
        }
        let ghost unsorted = seg@;
        sort_values(&mut seg);
        let ghost before = output@;
        let ghost sorted_seg = seg@;
        output.append(&mut seg);
        proof {
            assert forall|j: int| 0 <= j < sorted_seg.len() implies bit_width_spec(
                #[trigger] sorted_seg[j],
            ) == w by {
                let x = sorted_seg[j];
                assert(sorted_seg.to_multiset().count(x) > 0);
                assert(unsorted.to_multiset().count(x) > 0);
                let m = choose|m: int| 0 <= m < unsorted.len() && unsorted[m] == x;
                assert(unsorted[m] == index.data@[tids[m] as int]);
                assert(tids.contains(tids[m]));
            }
            assert forall|i: int, j: int|
                #![trigger output@[i], output@[j]]
                0 <= i <= j < output@.len() implies output@[i] <= output@[j] by {
                if j < before.len() {
                    assert(output@[i] == before[i] && output@[j] == before[j]);
                } else if i >= before.len() {
                    assert(output@[i] == sorted_seg[i - before.len()]);
                    assert(output@[j] == sorted_seg[j - before.len()]);
                } else {
                    assert(output@[i] == before[i]);
                    assert(output@[j] == sorted_seg[j - before.len()]);
                    lemma_width_order(before[i], sorted_seg[j - before.len()]);
                }
            }
            assert forall|i: int| 0 <= i < output@.len() implies bit_width_spec(
                #[trigger] output@[i],
            ) < w + 1 by {
                if i < before.len() {
                    assert(output@[i] == before[i]);
                } else {
                    assert(output@[i] == sorted_seg[i - before.len()]);
                }
            }
            let prev_ids = tree_ids_upto(index.trees@, w as int);
            assert(tree_ids_upto(index.trees@, w + 1) == prev_ids + tids);
            assert(values_of(prev_ids + tids, index.data@) =~= values_of(prev_ids, index.data@)
                + values_of(tids, index.data@));
            vstd::seq_lib::lemma_multiset_commutative(
                values_of(prev_ids, index.data@),
                values_of(tids, index.data@),
            );
            vstd::seq_lib::lemma_multiset_commutative(before, sorted_seg);
        }
        w = w + 1;
    }
    proof {
        index.lemma_clean_partition();
        let all = tree_ids_upto(index.trees@, w as int);
        lemma_values_perm(all, super::model::live_ids(index.live()), index.data@);
        lemma_live_values_of_ids(index.storage(), index.live());
        lemma_sorted_is_sorted_live(output@, index.storage(), index.live());
    }
    output
}

} // verus!
