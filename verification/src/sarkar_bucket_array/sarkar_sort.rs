//! Sarkar Sort: sorts the live values in place, at the front of the data
//! store, by one global sort of the live storage ids followed by a cycle
//! permutation; then rebuilds the buckets for the new storage ids.

use vstd::prelude::*;
use super::index::{filled_leaves_upto, lemma_tree_ids_upto_len, tree_ids_upto, Bwspi, REMOVED_POSITION};
use super::model::{
    dead_before, dead_values, lemma_dead_before_mono, lemma_dead_before_step, lemma_dead_values_at,
    lemma_dead_values_len, lemma_live_count_bound, lemma_live_ids, lemma_live_values_of_ids, lemma_misplaced_bound,
    lemma_misplaced_update, lemma_sorted_is_sorted_live, lemma_values_perm, live_count, live_ids,
    live_prefix, misplaced, sorted_live, values_of, live_widths, active_widths_below, width_count,
};
use super::sorting::{sort_ids_by_value, sorted_by_value};

verus! {

broadcast use vstd::seq_lib::group_to_multiset_ensures;

/// What a Sarkar Sort did.
#[derive(Debug, Clone, Default)]
pub struct SarkarSortStats {
    /// The number of nonempty tree leaves whose ids were collected.
    pub buckets_sorted: usize,
    /// The number of swaps the cycle permutation made.
    pub swaps: usize,
}

/// Whether `p` maps `0..p.len()` one to one into itself.
pub open spec fn is_permutation(p: Seq<usize>) -> bool {
    &&& forall|i: int| 0 <= i < p.len() ==> (#[trigger] p[i] as int) < p.len()
    &&& forall|i: int, j: int| 0 <= i < p.len() && 0 <= j < p.len() && i != j ==> #[trigger] p[i] != #[trigger] p[j]
}

/// Where a Sarkar Sort sends each storage id: a live id to a position of
/// its value among the sorted live values, a removed id past the live ones
/// in storage order; one id to each position.
pub open spec fn sort_destinations(p: Seq<usize>, storage: Seq<u64>, live: Seq<bool>) -> bool {
    &&& p.len() == storage.len()
    &&& is_permutation(p)
    &&& forall|j: int|
        0 <= j < storage.len() && #[trigger] live[j] ==> (p[j] as int) < live_count(live)
            && sorted_live(storage, live)[p[j] as int] == storage[j]
    &&& forall|j: int|
        0 <= j < storage.len() && !#[trigger] live[j] ==> p[j] == live_count(live) + dead_before(
            live,
            j,
        )
}

/// `i` after `k` steps of `p`.
pub open spec fn iterate(p: Seq<usize>, i: int, k: nat) -> int
    decreases k,
{
    if k == 0 {
        i
    } else {
        p[iterate(p, i, (k - 1) as nat)] as int
    }
}

/// Following `p` from `j` arrives at `i`.
pub open spec fn reaches(p: Seq<usize>, j: int, i: int) -> bool {
    exists|k: nat| iterate(p, j, k) == i
}

/// `i` is the least index of a cycle of `p` with two or more members: `p`
/// moves it, and no smaller index arrives at it.
pub open spec fn cycle_leader(p: Seq<usize>, i: int) -> bool {
    &&& p[i] != i as usize
    &&& forall|j: int| 0 <= j < i ==> !#[trigger] reaches(p, j, i)
}

/// The cycles of `p` with two or more members whose least index is at least
/// `from`.
pub open spec fn leaders_from(p: Seq<usize>, from: int) -> nat
    decreases p.len() - from,
{
    if from < 0 || from >= p.len() {
        0
    } else {
        leaders_from(p, from + 1) + if cycle_leader(p, from) {
            1nat
        } else {
            0nat
        }
    }
}

/// The number of cycles of `p` with two or more members.
pub open spec fn moving_cycles(p: Seq<usize>) -> nat {
    leaders_from(p, 0)
}

proof fn lemma_iterate_shift(p: Seq<usize>, x: int, k: nat)
    ensures
        iterate(p, x, k + 1) == iterate(p, p[x] as int, k),
    decreases k,
{
    reveal_with_fuel(iterate, 2);
    if k > 0 {
        lemma_iterate_shift(p, x, (k - 1) as nat);
    }
}

proof fn lemma_iterate_fixed(p: Seq<usize>, x: int, k: nat)
    requires
        p[x] as int == x,
    ensures
        iterate(p, x, k) == x,
    decreases k,
{
    if k > 0 {
        lemma_iterate_fixed(p, x, (k - 1) as nat);
    }
}

/// The swap that puts `d = p[position]` in place, as a permutation: `q` sends
/// `position` to `p[d]` and fixes `d`.
pub open spec fn spliced(p: Seq<usize>, position: int) -> Seq<usize> {
    let d = p[position] as int;
    p.update(position, p[d]).update(d, d as usize)
}

/// A walk of `p` from `x` (not `d`) to `i` (not `d`) is still a walk of the
/// spliced permutation, with `d` left out.
proof fn lemma_splice_forward(p: Seq<usize>, position: int, x: int, i: int, k: nat)
    requires
        is_permutation(p),
        0 <= position < p.len(),
        p[position] != position as usize,
        0 <= x < p.len(),
        x != p[position] as int,
        i != p[position] as int,
        iterate(p, x, k) == i,
    ensures
        reaches(spliced(p, position), x, i),
    decreases k,
{
    let d = p[position] as int;
    let q = spliced(p, position);
    if k == 0 {
        assert(iterate(q, x, 0) == i);
    } else {
        lemma_iterate_shift(p, x, (k - 1) as nat);
        if x != position {
            let y = p[x] as int;
            assert(q[x] == p[x]);
            assert(y != d);
            lemma_splice_forward(p, position, y, i, (k - 1) as nat);
            let k2 = choose|k2: nat| iterate(q, y, k2) == i;
            lemma_iterate_shift(q, x, k2);
            assert(iterate(q, x, k2 + 1) == i);
        } else {
            assert(k >= 2) by {
                if k == 1 {
                    assert(iterate(p, d, 0) == d);
                }
            }
            lemma_iterate_shift(p, d, (k - 2) as nat);
            let z = p[d] as int;
            assert(z != d);
            assert(q[position] == p[d]);
            lemma_splice_forward(p, position, z, i, (k - 2) as nat);
            let k2 = choose|k2: nat| iterate(q, z, k2) == i;
            lemma_iterate_shift(q, position, k2);
            assert(iterate(q, position, k2 + 1) == i);
        }
    }
}

/// A walk of the spliced permutation from `x` to `i` (not `d`) is, with `d`
/// put back, a walk of `p`.
proof fn lemma_splice_back(p: Seq<usize>, position: int, x: int, i: int, k: nat)
    requires
        is_permutation(p),
        0 <= position < p.len(),
        p[position] != position as usize,
        0 <= x < p.len(),
        i != p[position] as int,
        iterate(spliced(p, position), x, k) == i,
    ensures
        reaches(p, x, i),
    decreases k,
{
    let d = p[position] as int;
    let q = spliced(p, position);
    if k == 0 {
        assert(iterate(p, x, 0) == i);
    } else {
        lemma_iterate_shift(q, x, (k - 1) as nat);
        if x == d {
            assert(q[d] == d as usize);
            lemma_iterate_fixed(q, d, (k - 1) as nat);
        } else if x == position {
            let z = p[d] as int;
            assert(q[position] == p[d]);
            lemma_splice_back(p, position, z, i, (k - 1) as nat);
            let k2 = choose|k2: nat| iterate(p, z, k2) == i;
            lemma_iterate_shift(p, d, k2);
            lemma_iterate_shift(p, position, k2 + 1);
            assert(iterate(p, position, k2 + 2) == i);
        } else {
            let y = p[x] as int;
            assert(q[x] == p[x]);
            lemma_splice_back(p, position, y, i, (k - 1) as nat);
            let k2 = choose|k2: nat| iterate(p, y, k2) == i;
            lemma_iterate_shift(p, x, k2);
            assert(iterate(p, x, k2 + 1) == i);
        }
    }
}

/// Past `position`, splicing keeps which indices lead a cycle.
proof fn lemma_splice_keeps_leaders(p: Seq<usize>, position: int, i: int)
    requires
        is_permutation(p),
        0 <= position < i < p.len(),
        p[position] != position as usize,
        i != p[position] as int,
    ensures
        cycle_leader(spliced(p, position), i) == cycle_leader(p, i),
{
    let d = p[position] as int;
    let q = spliced(p, position);
    assert(q[i] == p[i]);
    if cycle_leader(p, i) {
        assert forall|j: int| 0 <= j < i implies !#[trigger] reaches(q, j, i) by {
            if reaches(q, j, i) {
                let k = choose|k: nat| iterate(q, j, k) == i;
                lemma_splice_back(p, position, j, i, k);
            }
        }
    }
    if cycle_leader(q, i) {
        assert forall|j: int| 0 <= j < i implies !#[trigger] reaches(p, j, i) by {
            if reaches(p, j, i) {
                let k = choose|k: nat| iterate(p, j, k) == i;
                if j != d {
                    lemma_splice_forward(p, position, j, i, k);
                } else {
                    lemma_iterate_shift(p, position, k);
                    lemma_splice_forward(p, position, position, i, k + 1);
                    assert(reaches(q, position, i));
                }
            }
        }
    }
}

proof fn lemma_misplaced_none(p: Seq<usize>, k: int)
    requires
        0 <= k <= p.len(),
        forall|i: int| 0 <= i < k ==> #[trigger] p[i] == i as usize,
    ensures
        misplaced(p, k) == 0,
    decreases k,
{
    if k > 0 {
        lemma_misplaced_none(p, k - 1);
    }
}

proof fn lemma_leaders_agree(p: Seq<usize>, q: Seq<usize>, from: int)
    requires
        p.len() == q.len(),
        0 <= from,
        forall|i: int| from <= i < p.len() ==> cycle_leader(p, i) == cycle_leader(q, i),
    ensures
        leaders_from(p, from) == leaders_from(q, from),
    decreases p.len() - from,
{
    if from < p.len() {
        lemma_leaders_agree(p, q, from + 1);
    }
}

/// One swap of the cycle sort at `position` (every smaller index already in
/// place) leaves one cycle fewer exactly when it closes the cycle.
proof fn lemma_splice_leaders(p: Seq<usize>, position: int)
    requires
        is_permutation(p),
        0 <= position < p.len(),
        p[position] != position as usize,
        forall|j: int| 0 <= j < position ==> #[trigger] p[j] == j as usize,
    ensures
        leaders_from(spliced(p, position), position) + (if p[p[position] as int] == position as usize {
            1int
        } else {
            0int
        }) == leaders_from(p, position),
{
    let d = p[position] as int;
    let q = spliced(p, position);
    let z = p[d];
    assert(d > position) by {
        if d < position {
            assert(p[d] == d as usize);
        }
    }
    assert forall|j: int| 0 <= j < position implies !#[trigger] reaches(p, j, position) by {
        if reaches(p, j, position) {
            let k = choose|k: nat| iterate(p, j, k) == position;
            lemma_iterate_fixed(p, j, k);
        }
    }
    assert(cycle_leader(p, position));
    assert forall|j: int| 0 <= j < position implies !#[trigger] reaches(q, j, position) by {
        assert(q[j] == p[j]);
        if reaches(q, j, position) {
            let k = choose|k: nat| iterate(q, j, k) == position;
            lemma_iterate_fixed(q, j, k);
        }
    }
    assert(q[position] == z);
    assert(cycle_leader(q, position) == (z != position as usize));
    assert forall|i: int| position + 1 <= i < p.len() implies cycle_leader(p, i) == cycle_leader(
        q,
        i,
    ) by {
        if i == d {
            assert(q[d] == d as usize);
            lemma_iterate_shift(p, position, 0);
            assert(iterate(p, position, 1) == d);
            assert(reaches(p, position, d));
        } else {
            lemma_splice_keeps_leaders(p, position, i);
        }
    }
    lemma_leaders_agree(p, q, position + 1);
}

proof fn lemma_leaders_within_moved(p: Seq<usize>, from: int)
    requires
        0 <= from <= p.len(),
    ensures
        leaders_from(p, from) + misplaced(p, from) <= misplaced(p, p.len() as int),
    decreases p.len() - from,
{
    if from < p.len() {
        lemma_leaders_within_moved(p, from + 1);
    }
}

/// Every moving cycle has a moved index of its own (its least), so there are
/// no more moving cycles than moved indices, and none when nothing moves: a
/// cycle sort makes between no swaps and one swap per moved index.
pub proof fn law_moving_cycles_within_moved(p: Seq<usize>)
    ensures
        moving_cycles(p) <= misplaced(p, p.len() as int),
        misplaced(p, p.len() as int) == 0 ==> moving_cycles(p) == 0,
{
    lemma_leaders_within_moved(p, 0);
}

/// Moves `data[j]` to position `pos[j]` for every `j`, by following the
/// cycles of the permutation `pos`; leaves `pos` the identity. Returns the
/// number of swaps: one less than the members of each cycle that moves, so
/// the moved indices less the number of moving cycles.
fn apply_permutation(data: &mut Vec<u64>, pos: &mut Vec<usize>) -> (r: (usize, Ghost<Seq<usize>>))
    requires
        old(data)@.len() == old(pos)@.len(),
        old(pos)@.len() <= usize::MAX,
        is_permutation(old(pos)@),
    ensures
        final(data)@.len() == old(data)@.len(),
        final(pos)@.len() == old(pos)@.len(),
        forall|i: int| 0 <= i < final(pos)@.len() ==> #[trigger] final(pos)@[i] == i as usize,
        r.1@.len() == old(data)@.len(),
        forall|k: int|
            0 <= k < old(data)@.len() ==> (#[trigger] r.1@[k] as int) < old(data)@.len()
                && old(pos)@[r.1@[k] as int] == k as usize && final(data)@[k] == old(data)@[r.1@[k] as int],
        r.0 <= old(data)@.len(),
        r.0 == misplaced(old(pos)@, old(pos)@.len() as int) - moving_cycles(old(pos)@),
{
    let ghost n = data@.len();
    let ghost d0 = data@;
    let ghost p0 = pos@;
    let ghost mut orig: Seq<usize> = Seq::new(n, |i: int| i as usize);
    let mut swaps: usize = 0;
    let mut position: usize = 0;
    proof {
        lemma_misplaced_bound(p0, n as int);
    }
    while position < data.len()
        invariant
            n == data@.len(),
            n <= usize::MAX,
            pos@.len() == n,
            is_permutation(pos@),
            position <= n,
            forall|i: int| 0 <= i < position ==> #[trigger] pos@[i] == i as usize,
            orig.len() == n,
            forall|i: int| 0 <= i < n ==> (#[trigger] orig[i] as int) < n,
            forall|i: int| 0 <= i < n ==> #[trigger] data@[i] == d0[orig[i] as int],
            forall|i: int| 0 <= i < n ==> #[trigger] pos@[i] == p0[orig[i] as int],
            swaps + misplaced(pos@, n as int) <= n,
            swaps + misplaced(pos@, n as int) == misplaced(p0, n as int) - moving_cycles(p0)
                + leaders_from(pos@, position as int),
        decreases n - position,
    {
        while pos[position] != position
            invariant
                n == data@.len(),
                n <= usize::MAX,
                pos@.len() == n,
                is_permutation(pos@),
                position < n,
                forall|i: int| 0 <= i < position ==> #[trigger] pos@[i] == i as usize,
                orig.len() == n,
                forall|i: int| 0 <= i < n ==> (#[trigger] orig[i] as int) < n,
                forall|i: int| 0 <= i < n ==> #[trigger] data@[i] == d0[orig[i] as int],
                forall|i: int| 0 <= i < n ==> #[trigger] pos@[i] == p0[orig[i] as int],
                swaps + misplaced(pos@, n as int) <= n,
                swaps + misplaced(pos@, n as int) == misplaced(p0, n as int) - moving_cycles(p0)
                    + leaders_from(pos@, position as int),
            decreases misplaced(pos@, n as int),
        {
            let dest = pos[position];
            let ghost p = pos@;
            proof {
                assert(p[position as int] == dest);
                assert(p[dest as int] != dest);
                if (dest as int) < position {
                    assert(p[dest as int] == dest);
                }
            }
            let moved_value = data[position];
            let other_value = data[dest];
            data.set(position, other_value);
            data.set(dest, moved_value);
            let other_dest = pos[dest];
            pos.set(position, other_dest);
            pos.set(dest, dest);
            proof {
                let o = orig;
                orig = o.update(position as int, o[dest as int]).update(dest as int, o[position as int]);
                let p1 = p.update(position as int, other_dest);
                lemma_misplaced_update(p, n as int, position as int, other_dest);
                lemma_misplaced_update(p1, n as int, dest as int, dest);
                assert(p1[dest as int] == p[dest as int]);
                assert(misplaced(pos@, n as int) + 1 <= misplaced(p, n as int));
                assert(pos@ == p1.update(dest as int, dest));
                assert(pos@ == spliced(p, position as int));
                assert forall|j: int| 0 <= j < position implies #[trigger] p[j] == j as usize by {}
                lemma_splice_leaders(p, position as int);
                assert forall|i: int, j: int|
                    0 <= i < n && 0 <= j < n && i != j implies #[trigger] pos@[i] != #[trigger] pos@[j] by {
                    let si = if i == position { dest as int } else if i == dest { position as int } else { i };
                    let sj = if j == position { dest as int } else if j == dest { position as int } else { j };
                    assert(pos@[i] == p[si]);
                    assert(pos@[j] == p[sj]);
                }
                assert forall|i: int| 0 <= i < n implies (#[trigger] pos@[i] as int) < n by {
                    let si = if i == position { dest as int } else if i == dest { position as int } else { i };
                    assert(pos@[i] == p[si]);
                }
            }
            swaps = swaps + 1;
        }
        proof {
            assert(!cycle_leader(pos@, position as int));
        }
        position = position + 1;
    }
    proof {
        lemma_misplaced_none(pos@, n as int);
        assert forall|k: int| 0 <= k < n implies p0[orig[k] as int] == k as usize by {
            assert(pos@[k] == k as usize);
            assert(pos@[k] == p0[orig[k] as int]);
        }
    }
    (swaps, Ghost(orig))
}

/// Collects the ids of every tree and sorts them by value. Returns them with
/// the number of nonempty leaves they came from.
fn collect_sorted_ids(index: &Bwspi) -> (r: (Vec<usize>, usize))
    requires
        index.wf(),
        index.trees_clean(),
    ensures
        r.0@.to_multiset() == live_ids(index.live()).to_multiset(),
        r.0@.no_duplicates(),
        r.0@.len() == live_count(index.live()),
        forall|x: usize|
            #[trigger] r.0@.contains(x) <==> (x as int) < index.storage().len() && index.live()[x as int],
        sorted_by_value(r.0@, index.storage()),
        r.1 <= live_count(index.live()),
        (r.1 > 0) == (live_count(index.live()) > 0),
        r.1 == filled_leaves_upto(index.trees@, index.trees@.len() as int),
        r.1 >= live_widths(index.storage(), index.live()).len(),
{
    let ghost l0 = index.live();
    proof {
        index.lemma_clean_partition();
        lemma_live_ids(l0);
        vstd::seq_lib::to_multiset_len(tree_ids_upto(index.trees@, index.trees@.len() as int));
        vstd::seq_lib::to_multiset_len(live_ids(l0));
        assert(tree_ids_upto(index.trees@, 0) =~= Seq::<usize>::empty());
        assert(active_widths_below(index.storage(), index.live(), 0) =~= Set::<nat>::empty());
    }
    let ghost n_live = live_count(l0);
    let mut buckets_sorted: usize = 0;
    let mut all_ids: Vec<usize> = Vec::new();
    let mut w: usize = 0;
    while w < index.trees.len()
        invariant
            w <= index.trees@.len(),
            all_ids@ == tree_ids_upto(index.trees@, w as int),
            tree_ids_upto(index.trees@, index.trees@.len() as int).len() == n_live,
            n_live <= usize::MAX,
            buckets_sorted <= all_ids@.len(),
            (buckets_sorted > 0) == (all_ids@.len() > 0),
            buckets_sorted == filled_leaves_upto(index.trees@, w as int),
            index.wf(),
            index.trees_clean(),
            active_widths_below(index.storage(), index.live(), w as nat).finite(),
            buckets_sorted >= active_widths_below(index.storage(), index.live(), w as nat).len(),
        decreases index.trees@.len() - w,
    {
        let count = index.trees[w].append_leaf_ids(&mut all_ids);
        proof {
            lemma_tree_ids_upto_len(index.trees@, w + 1, index.trees@.len() as int);
            index.lemma_clean_tree_len(w as int);
            let prev = active_widths_below(index.storage(), index.live(), w as nat);
            let next = active_widths_below(index.storage(), index.live(), (w + 1) as nat);
            if width_count(index.storage(), index.live(), w as nat) > 0 {
                assert(next =~= prev.insert(w as nat));
            } else {
                assert(next =~= prev);
            }
        }
        buckets_sorted = buckets_sorted + count;
        w = w + 1;
    }
    proof {
        index.lemma_live_widths_in_trees();
    }
    let ghost collected = all_ids@;
    proof {
        assert forall|k: int| 0 <= k < collected.len() implies (collected[k] as int)
            < index.data@.len() by {
            assert(collected.to_multiset().count(collected[k]) > 0);
            assert(live_ids(l0).contains(collected[k]));
        }
    }
    sort_ids_by_value(&mut all_ids, &index.data);
    let ghost ids = all_ids@;
    proof {
        assert(ids.to_multiset() == live_ids(l0).to_multiset());
        assert forall|x: usize| ids.contains(x) <==> (x as int) < index.storage().len() && l0[x as int] by {
            assert(ids.contains(x) <==> ids.to_multiset().count(x) > 0);
            assert(live_ids(l0).contains(x) <==> live_ids(l0).to_multiset().count(x) > 0);
        }
        live_ids(l0).lemma_multiset_has_no_duplicates();
        assert forall|x: usize| ids.to_multiset().contains(x) implies ids.to_multiset().count(x)
            == 1 by {}
        ids.lemma_multiset_has_no_duplicates_conv();
        vstd::seq_lib::to_multiset_len(ids);
    }
    (all_ids, buckets_sorted)
}

/// Sorts the live values to the front of the store, in ascending order,
/// followed by the removed values in storage order; rebuilds the buckets.
/// Every tree must be clean.
pub(crate) fn sort_in_place(index: &mut Bwspi) -> (stats: SarkarSortStats)
    requires
        old(index).wf(),
        old(index).trees_clean(),
    ensures
        final(index).wf(),
        final(index).storage() == sorted_live(old(index).storage(), old(index).live()) + dead_values(
            old(index).storage(),
            old(index).live(),
        ),
        final(index).live() == live_prefix(
            old(index).storage().len(),
            live_count(old(index).live()),
        ),
        stats.buckets_sorted <= live_count(old(index).live()),
        (stats.buckets_sorted > 0) == (live_count(old(index).live()) > 0),
        stats.buckets_sorted == filled_leaves_upto(old(index).trees@, old(index).trees@.len() as int),
        stats.buckets_sorted >= live_widths(old(index).storage(), old(index).live()).len(),
        stats.swaps <= old(index).storage().len(),
        exists|p: Seq<usize>|
            #![trigger sort_destinations(p, old(index).storage(), old(index).live())]
            sort_destinations(p, old(index).storage(), old(index).live()) && stats.swaps == misplaced(
                p,
                p.len() as int,
            ) - moving_cycles(p),
{
    let ghost s0 = index.storage();
    let ghost l0 = index.live();
    let ghost n = s0.len();
    proof {
        index.lemma_clean_partition();
    }
    let n_live = index.live_len;
    let (all_ids, buckets_sorted) = collect_sorted_ids(index);
    let ghost ids = all_ids@;
    assign_destinations(index, &all_ids);
    let ghost p0 = index.bucket_positions@;
    let (swaps, Ghost(src)) = apply_permutation(&mut index.data, &mut index.bucket_positions);
    let ghost d1 = index.data@;
    proof {
        let sorted_vals = values_of(ids, s0);
        let dead = dead_values(s0, l0);
        lemma_dead_values_len(s0, l0);
        assert forall|k: int| 0 <= k < n implies #[trigger] d1[k] == (sorted_vals + dead)[k] by {
            let j = src[k] as int;
            if l0[j] {
                assert(ids[k] == j as usize);
                assert(sorted_vals[k] == s0[j]);
            } else {
                lemma_dead_values_at(s0, l0, j);
                assert(dead[k - n_live] == s0[j]);
            }
        }
        assert(d1 =~= sorted_vals + dead);
        assert forall|i: int, j: int|
            #![trigger sorted_vals[i], sorted_vals[j]]
            0 <= i <= j < sorted_vals.len() implies sorted_vals[i] <= sorted_vals[j] by {
            assert(s0[ids[i] as int] <= s0[ids[j] as int]);
        }
        lemma_values_perm(ids, live_ids(l0), s0);
        lemma_live_values_of_ids(s0, l0);
        lemma_sorted_is_sorted_live(sorted_vals, s0, l0);
        assert(sorted_vals =~= sorted_live(s0, l0));
        assert forall|j: int| 0 <= j < s0.len() && #[trigger] l0[j] implies (p0[j] as int) < live_count(l0)
            && sorted_live(s0, l0)[p0[j] as int] == s0[j] by {
            assert(ids[p0[j] as int] == j as usize);
            assert(sorted_vals[p0[j] as int] == s0[ids[p0[j] as int] as int]);
        }
        assert(sort_destinations(p0, s0, l0));
    }
    index.rebuild_buckets(n_live);
    SarkarSortStats { buckets_sorted, swaps }
}

/// Sets `pos[ids[m]] = m` for every `m`.
fn rank_ids(pos: &mut Vec<usize>, ids: &Vec<usize>)
    requires
        ids@.no_duplicates(),
        forall|k: int| 0 <= k < ids@.len() ==> (#[trigger] ids@[k] as int) < old(pos)@.len(),
    ensures
        final(pos)@.len() == old(pos)@.len(),
        forall|m: int| 0 <= m < ids@.len() ==> final(pos)@[#[trigger] ids@[m] as int] == m,
        forall|j: int|
            0 <= j < old(pos)@.len() && !ids@.contains(j as usize) ==> #[trigger] final(pos)@[j]
                == old(pos)@[j],
{
    let ghost n = pos@.len();
    let mut k: usize = 0;
    while k < ids.len()
        invariant
            pos@.len() == n,
            ids@.no_duplicates(),
            forall|q: int| 0 <= q < ids@.len() ==> (#[trigger] ids@[q] as int) < n,
            k <= ids@.len(),
            forall|m: int| 0 <= m < k ==> pos@[#[trigger] ids@[m] as int] == m,
            forall|j: int|
                0 <= j < n && !ids@.take(k as int).contains(j as usize) ==> #[trigger] pos@[j]
                    == old(pos)@[j],
        decreases ids@.len() - k,
    {
        let ghost before = pos@;
        let id = ids[k];
        proof {
            assert(ids@[k as int] == id);
        }
        pos.set(id, k);
        proof {
            assert forall|m: int| 0 <= m < k + 1 implies pos@[#[trigger] ids@[m] as int] == m by {
                if m < k {
                    assert(ids@[m] != ids@[k as int]);
                    assert(before[ids@[m] as int] == m);
                }
            }
            assert forall|j: int|
                0 <= j < n && !ids@.take(k + 1).contains(j as usize) implies #[trigger] pos@[j]
                == old(pos)@[j] by {
                assert(ids@.take(k + 1)[k as int] == ids@[k as int]);
                if ids@.take(k as int).contains(j as usize) {
                    let m = choose|m: int| 0 <= m < k && ids@.take(k as int)[m] == j as usize;
                    assert(ids@.take(k + 1)[m] == j as usize);
                }
            }
        }
        k = k + 1;
    }
    proof {
        assert(ids@.take(ids@.len() as int) =~= ids@);
    }
}

/// Gives each removed id (marked `REMOVED_POSITION`), in storage order, the
/// next destination from `n_live` on.
fn place_removed(pos: &mut Vec<usize>, n_live: usize, Ghost(live): Ghost<Seq<bool>>)
    requires
        old(pos)@.len() == live.len(),
        n_live == live_count(live),
        forall|j: int| 0 <= j < live.len() ==> (live[j] <==> #[trigger] old(pos)@[j] != REMOVED_POSITION),
    ensures
        final(pos)@.len() == old(pos)@.len(),
        forall|j: int|
            0 <= j < live.len() ==> #[trigger] final(pos)@[j] == if live[j] {
                old(pos)@[j] as int
            } else {
                n_live + dead_before(live, j)
            },
{
    let ghost n = live.len();
    let mut destination: usize = n_live;
    let mut source: usize = 0;
    proof {
        assert(live.take(0) =~= Seq::<bool>::empty());
    }
    while source < pos.len()
        invariant
            n == live.len(),
            pos@.len() == n,
            n_live == live_count(live),
            source <= n,
            destination == n_live + dead_before(live, source as int),
            forall|j: int| 0 <= j < n ==> (live[j] <==> #[trigger] old(pos)@[j] != REMOVED_POSITION),
            forall|j: int|
                0 <= j < source ==> #[trigger] pos@[j] == if live[j] {
                    old(pos)@[j] as int
                } else {
                    n_live + dead_before(live, j)
                },
            forall|j: int| source <= j < n ==> #[trigger] pos@[j] == old(pos)@[j],
        decreases n - source,
    {
        proof {
            lemma_dead_before_step(live, source as int);
            lemma_dead_before_mono(live, source + 1, n as int);
        }
        if pos[source] == REMOVED_POSITION {
            pos.set(source, destination);
            destination = destination + 1;
        }
        source = source + 1;
    }
}

/// Gives each live id its rank in `ids` as destination, and each removed
/// id, in storage order, the next destination after the live ones.
fn assign_destinations(index: &mut Bwspi, all_ids: &Vec<usize>)
    requires
        old(index).wf(),
        old(index).trees_clean(),
        all_ids@.no_duplicates(),
        all_ids@.len() == live_count(old(index).live()),
        forall|x: usize|
            #[trigger] all_ids@.contains(x) <==> (x as int) < old(index).storage().len() && old(
                index,
            ).live()[x as int],
    ensures
        final(index).data == old(index).data,
        final(index).crud_buckets == old(index).crud_buckets,
        final(index).trees == old(index).trees,
        final(index).tree_dirty == old(index).tree_dirty,
        final(index).live_len == old(index).live_len,
        final(index).bucket_positions@.len() == old(index).storage().len(),
        is_permutation(final(index).bucket_positions@),
        forall|j: int|
            0 <= j < old(index).storage().len() && #[trigger] old(index).live()[j] ==> (final(
            index).bucket_positions@[j] as int) < live_count(old(index).live())
                && all_ids@[final(index).bucket_positions@[j] as int] == j as usize,
        forall|j: int|
            0 <= j < old(index).storage().len() && !#[trigger] old(index).live()[j] ==> final(
            index).bucket_positions@[j] == live_count(old(index).live()) + dead_before(
                old(index).live(),
                j,
            ),
{
    let ghost l0 = index.live();
    let ghost n = index.storage().len();
    let ghost ids = all_ids@;
    proof {
        index.lemma_clean_partition();
        assert forall|k: int| 0 <= k < ids.len() implies (#[trigger] ids[k] as int) < n by {
            assert(ids.contains(ids[k]));
        }
    }
    let n_live = index.live_len;
    rank_ids(&mut index.bucket_positions, all_ids);
    let ghost pb = index.bucket_positions@;
    proof {
        assert forall|j: int| 0 <= j < n implies (l0[j] <==> #[trigger] pb[j] != REMOVED_POSITION) by {
            if l0[j] {
                assert(ids.contains(j as usize));
                let m = choose|m: int| 0 <= m < ids.len() && ids[m] == j as usize;
                assert(pb[ids[m] as int] == m);
            } else {
                assert(!ids.contains(j as usize));
            }
        }
    }
    place_removed(&mut index.bucket_positions, n_live, Ghost(l0));
    let ghost p0 = index.bucket_positions@;
    proof {
        assert forall|j: int| 0 <= j < n && #[trigger] l0[j] implies (p0[j] as int) < n_live
            && ids[p0[j] as int] == j as usize by {
            assert(ids.contains(j as usize));
            let m = choose|m: int| 0 <= m < ids.len() && ids[m] == j as usize;
            assert(pb[ids[m] as int] == m);
        }
        assert forall|j: int| 0 <= j < n && !#[trigger] l0[j] implies p0[j] == n_live + dead_before(
            l0,
            j,
        ) && n_live <= p0[j] < n by {
            lemma_dead_before_step(l0, j);
            lemma_dead_before_mono(l0, j + 1, n as int);
        }
        lemma_destinations_permutation(p0, l0, ids, n_live as int);
    }
}

/// Live ids sent to their distinct ranks below `n_live`, removed ids sent
/// past them in storage order: the destinations form a permutation.
#[verifier::spinoff_prover]
#[verifier::rlimit(30)]
proof fn lemma_destinations_permutation(p0: Seq<usize>, l0: Seq<bool>, ids: Seq<usize>, n_live: int)
    requires
        p0.len() == l0.len(),
        l0.len() <= usize::MAX,
        n_live == live_count(l0),
        forall|j: int| 0 <= j < l0.len() && #[trigger] l0[j] ==> (p0[j] as int) < n_live
            && ids[p0[j] as int] == j as usize,
        forall|j: int| 0 <= j < l0.len() && !#[trigger] l0[j] ==> p0[j] == n_live + dead_before(l0, j)
            && n_live <= p0[j] < l0.len(),
    ensures
        is_permutation(p0),
{
    let n = l0.len() as int;
    assert forall|i: int, j: int| 0 <= i < n && 0 <= j < n && i != j implies #[trigger] p0[i]
        != #[trigger] p0[j] by {
        if !l0[i] && !l0[j] {
            if i < j {
                lemma_dead_before_step(l0, i);
                lemma_dead_before_mono(l0, i + 1, j);
            } else {
                lemma_dead_before_step(l0, j);
                lemma_dead_before_mono(l0, j + 1, i);
            }
        } else if l0[i] && l0[j] {
            assert(ids[p0[i] as int] == i as usize);
            assert(ids[p0[j] as int] == j as usize);
        }
    }
    assert forall|i: int| 0 <= i < n implies (#[trigger] p0[i] as int) < n by {
        if l0[i] {
            lemma_live_count_bound(l0);
        }
    }
}

} // verus!
