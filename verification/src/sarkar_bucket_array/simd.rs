//! Lookup entry point kept for callers of the accelerated search: leaves hold
//! at most 64 ids, so the tree lookup's short scan is the fast path.

use vstd::prelude::*;
use super::bits::bit_width_spec;
use super::index::{Bwspi, MAX_TREE_IDS};
use super::model::{holds, width_count};

verus! {

/// Whether some live entry holds `target`; the same as `Bwspi::contains`.
pub fn simd_contains(index: &mut Bwspi, target: u64) -> (r: bool)
    requires
        old(index).wf(),
        width_count(old(index).storage(), old(index).live(), bit_width_spec(target)) <= MAX_TREE_IDS,
    ensures
        final(index).wf(),
        final(index).storage() == old(index).storage(),
        final(index).live() == old(index).live(),
        r == holds(old(index).storage(), old(index).live(), target),
{
    index.contains(target)
}

} // verus!
