//! Bucket scans: route the target to its bit-width bucket, then compare it
//! with the value of every storage id in that bucket.

use vstd::prelude::*;
use crate::sarkar_bucket_array::bits::{bit_width, bit_width_spec};
use crate::sarkar_bucket_array::model::holds;
use crate::sarkar_bucket_array::Bwspi;

verus! {

/// Whether some live entry holds `target`, found by scanning the storage ids
/// of the target's bit-width bucket.
pub fn simd_contains(bwspi: &Bwspi, target: u64) -> (r: bool)
    requires
        bwspi.wf(),
    ensures
        r == holds(bwspi.storage(), bwspi.live(), target),
{
    let bw = bit_width(target);
    let bucket = bwspi.bucket_indices(bw);
    let data = bwspi.data();
    proof {
        bwspi.lemma_view_lengths();
        assert forall|k: int| 0 <= k < bucket@.len() implies (#[trigger] bucket@[k] as int)
            < data@.len() by {
            assert(bucket@.contains(bucket@[k]));
        }
    }
    if bucket.len() == 0 {
        proof {
            if holds(bwspi.storage(), bwspi.live(), target) {
                let i = choose|i: int|
                    0 <= i < bwspi.storage().len() && bwspi.live()[i] && bwspi.storage()[i] == target;
                assert(bucket@.contains(i as usize));
            }
        }
        return false;
    }
    let r = scalar_scan(data, bucket, target);
    proof {
        if r {
            let k = choose|k: int| 0 <= k < bucket@.len() && data@[bucket@[k] as int] == target;
            assert(bucket@.contains(bucket@[k]));
        }
        if holds(bwspi.storage(), bwspi.live(), target) {
            let i = choose|i: int|
                0 <= i < bwspi.storage().len() && bwspi.live()[i] && bwspi.storage()[i] == target;
            assert(bucket@.contains(i as usize));
            let k = choose|k: int| 0 <= k < bucket@.len() && bucket@[k] == i as usize;
            assert(data@[bucket@[k] as int] == target);
        }
    }
    r
}

/// Whether the value of some storage id in `bucket` equals `target`.
fn scalar_scan(data: &[u64], bucket: &[usize], target: u64) -> (r: bool)
    requires
        forall|k: int| 0 <= k < bucket@.len() ==> (#[trigger] bucket@[k] as int) < data@.len(),
    ensures
        r == exists|k: int| 0 <= k < bucket@.len() && data@[#[trigger] bucket@[k] as int] == target,
{
    let mut i: usize = 0;
    while i < bucket.len()
        invariant
            i <= bucket@.len(),
            forall|k: int| 0 <= k < bucket@.len() ==> (#[trigger] bucket@[k] as int) < data@.len(),
            forall|k: int| 0 <= k < i ==> data@[#[trigger] bucket@[k] as int] != target,
        decreases bucket@.len() - i,
    {
        if data[bucket[i]] == target {
            return true;
        }
        i = i + 1;
    }
    false
}

} // verus!
