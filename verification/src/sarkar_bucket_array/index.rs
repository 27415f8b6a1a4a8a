//! The index: an append-only data store plus, per bit width, a flat bucket
//! of storage ids (the source of truth for all mutations) and a lazily
//! rebuilt radix tree for lookups.

use vstd::prelude::*;
use super::bits::{bit_width, bit_width_spec};
use super::sarkar_sort::{self, moving_cycles, sort_destinations, SarkarSortStats};
use super::snapshot_sort;
use super::sorting::sort_ids;
use vstd::relations::{antisymmetric, reflexive, sorted_by, strongly_connected, total_ordering, transitive};
use super::heap::{
    capped, heap_bytes, lemma_capped_accumulate, lemma_capped_combine, lemma_total_nonneg, total,
    vec_capacity,
};
use super::laws::law_bucket_sizes_sum_to_len;
use super::flat_bucket::{
    filled_leaves, height, has_value, leaves_within_cap, lemma_filled_leaves_bounds, lemma_unsplit_tree_ids, lemma_wf_data_frame, node_budget,
    FlatBucket, LEAF_CAP,
};
use super::model::{
    dead_values, holds, ids_holding, lemma_ids_holding, lemma_live_count_bound,
    lemma_live_count_push, lemma_live_count_update, lemma_live_ids, lemma_live_prefix_count,
    lemma_same_members_perm, lemma_width_count_card, live_count, live_entries, live_ids,
    live_prefix, sorted_live, width_count, width_histogram, width_ids, width_total, live_widths,
    lemma_live_widths_card, active_widths_below, lemma_width_count_positive, misplaced,
};

verus! {

broadcast use vstd::seq_lib::group_to_multiset_ensures;

/// The bucket position recorded for a removed storage id.
pub const REMOVED_POSITION: usize = usize::MAX;

/// The most ids a lookup tree is built for. A tree built for `n` ids has at
/// most `1 + 12 n` nodes (`node_budget`), and node ids must stay below the
/// `u32` no-child mark; this is the largest `n` for which they do. A lookup
/// that builds the tree of a width asks that the width have no more live
/// entries than this.
pub const MAX_TREE_IDS: usize = 357_913_941;

pub struct Bwspi {
    pub(crate) data: Vec<u64>,
    /// Per bit width, the live storage ids of that width (in any order).
    pub(crate) crud_buckets: Vec<Vec<usize>>,
    /// Per storage id, its position in its bucket, or `REMOVED_POSITION`.
    pub(crate) bucket_positions: Vec<usize>,
    /// Per bit width, the lookup tree; valid unless marked dirty.
    pub(crate) trees: Vec<FlatBucket>,
    pub(crate) tree_dirty: Vec<bool>,
    pub(crate) live_len: usize,
}

/// Buckets and positions agree: every live id sits in the bucket of its
/// width at its recorded position, and every bucket entry is such an id.
pub open spec fn crud_ok(data: Seq<u64>, crud: Seq<Vec<usize>>, pos: Seq<usize>) -> bool {
    &&& pos.len() == data.len()
    &&& forall|i: int|
        0 <= i < data.len() && #[trigger] pos[i] != REMOVED_POSITION ==> {
            let w = bit_width_spec(data[i]) as int;
            &&& w < crud.len()
            &&& (pos[i] as int) < crud[w]@.len()
            &&& crud[w]@[pos[i] as int] == i
        }
    &&& forall|w: int, k: int|
        0 <= w < crud.len() && 0 <= k < crud[w]@.len() ==> {
            let i = #[trigger] crud[w]@[k];
            &&& (i as int) < data.len()
            &&& pos[i as int] == k
            &&& bit_width_spec(data[i as int]) == w
        }
}

/// The tree of width `w`, when not dirty, is well formed and holds exactly
/// the ids of bucket `w`.
pub open spec fn tree_ok(
    data: Seq<u64>,
    crud: Seq<Vec<usize>>,
    trees: Seq<FlatBucket>,
    dirty: Seq<bool>,
    w: int,
) -> bool {
    !dirty[w] ==> trees[w].wf(data) && trees[w].ids().to_multiset() == crud[w]@.to_multiset()
}

/// The ids of the buckets of widths below `k`, width by width.
pub open spec fn bucket_ids_upto(crud: Seq<Vec<usize>>, k: int) -> Seq<usize>
    decreases k,
{
    if k <= 0 {
        Seq::empty()
    } else {
        bucket_ids_upto(crud, k - 1) + crud[k - 1]@
    }
}

/// The ids of the trees of widths below `k`, width by width.
pub open spec fn tree_ids_upto(trees: Seq<FlatBucket>, k: int) -> Seq<usize>
    decreases k,
{
    if k <= 0 {
        Seq::empty()
    } else {
        tree_ids_upto(trees, k - 1) + trees[k - 1].ids()
    }
}

/// The nonempty leaves of the trees of widths below `k`.
pub open spec fn filled_leaves_upto(trees: Seq<FlatBucket>, k: int) -> nat
    decreases k,
{
    if k <= 0 {
        0
    } else {
        filled_leaves_upto(trees, k - 1) + filled_leaves(trees[k - 1].nodes@)
    }
}

/// The fewest nonempty leaves the tree of width `w` can have once every
/// dirty tree is rebuilt: a clean tree keeps its own, a rebuilt tree has one
/// when its width has a live entry.
pub open spec fn leaf_low(
    trees: Seq<FlatBucket>,
    dirty: Seq<bool>,
    storage: Seq<u64>,
    live: Seq<bool>,
    w: int,
) -> nat {
    if !dirty[w] {
        filled_leaves(trees[w].nodes@)
    } else if width_count(storage, live, w as nat) > 0 {
        1
    } else {
        0
    }
}

/// The most nonempty leaves the tree of width `w` can have once every dirty
/// tree is rebuilt: a clean tree keeps its own, a rebuilt tree of at most
/// `LEAF_CAP` ids is one leaf, and a larger one has at most one leaf per id.
pub open spec fn leaf_high(
    trees: Seq<FlatBucket>,
    dirty: Seq<bool>,
    storage: Seq<u64>,
    live: Seq<bool>,
    w: int,
) -> nat {
    if !dirty[w] {
        filled_leaves(trees[w].nodes@)
    } else if width_count(storage, live, w as nat) <= LEAF_CAP {
        if width_count(storage, live, w as nat) > 0 {
            1
        } else {
            0
        }
    } else {
        width_count(storage, live, w as nat)
    }
}

pub open spec fn leaf_low_upto(
    trees: Seq<FlatBucket>,
    dirty: Seq<bool>,
    storage: Seq<u64>,
    live: Seq<bool>,
    k: int,
) -> nat
    decreases k,
{
    if k <= 0 {
        0
    } else {
        leaf_low_upto(trees, dirty, storage, live, k - 1) + leaf_low(trees, dirty, storage, live, k - 1)
    }
}

pub open spec fn leaf_high_upto(
    trees: Seq<FlatBucket>,
    dirty: Seq<bool>,
    storage: Seq<u64>,
    live: Seq<bool>,
    k: int,
) -> nat
    decreases k,
{
    if k <= 0 {
        0
    } else {
        leaf_high_upto(trees, dirty, storage, live, k - 1) + leaf_high(trees, dirty, storage, live, k - 1)
    }
}

/// The least heap bytes the trees of widths below `k` hold: 4 bytes per
/// child slot and 8 per held id.
pub open spec fn tree_floor_upto(trees: Seq<FlatBucket>, k: int) -> int
    decreases k,
{
    if k <= 0 {
        0
    } else {
        tree_floor_upto(trees, k - 1) + 4 * trees[k - 1].child_slots@.len() + 8 * trees[k
            - 1].ids().len()
    }
}

/// The floor of the first `k` trees counts 8 bytes for each id of tree `w`
/// when `w < k`.
pub proof fn lemma_tree_floor_covers(trees: Seq<FlatBucket>, k: int, w: int)
    requires
        0 <= w < k <= trees.len(),
    ensures
        tree_floor_upto(trees, k) >= 8 * trees[w].ids().len(),
        tree_floor_upto(trees, k) >= 0,
    decreases k,
{
    lemma_tree_floor_nonneg(trees, k - 1);
    if w < k - 1 {
        lemma_tree_floor_covers(trees, k - 1, w);
    }
}

pub proof fn lemma_tree_floor_nonneg(trees: Seq<FlatBucket>, k: int)
    ensures
        tree_floor_upto(trees, k) >= 0,
    decreases k,
{
    if k > 0 {
        lemma_tree_floor_nonneg(trees, k - 1);
    }
}

/// The ids of the first `a` trees are no more than those of the first `b`.
pub proof fn lemma_tree_ids_upto_len(trees: Seq<FlatBucket>, a: int, b: int)
    requires
        0 <= a <= b,
    ensures
        tree_ids_upto(trees, a).len() <= tree_ids_upto(trees, b).len(),
    decreases b,
{
    if a < b {
        lemma_tree_ids_upto_len(trees, a, b - 1);
    }
}

/// The ascending order on storage ids, as a relation.
pub open spec fn usize_ascending() -> spec_fn(usize, usize) -> bool {
    |a: usize, b: usize| a <= b
}

proof fn lemma_usize_ascending_total()
    ensures
        total_ordering(usize_ascending()),
{
    let r = usize_ascending();
    assert(reflexive(r));
    assert(antisymmetric(r));
    assert(transitive(r));
    assert(strongly_connected(r));
}

/// A sequence of distinct ids below `n` has at most `n` elements.
proof fn lemma_unique_below(s: Seq<usize>, n: int)
    requires
        0 <= n,
        s.no_duplicates(),
        forall|k: int| 0 <= k < s.len() ==> (s[k] as int) < n,
    ensures
        s.len() <= n,
    decreases s.len(),
{
    if s.len() > 0 {
        let x = s.last();
        let t = s.drop_last();
        assert(s[s.len() - 1] == x);
        assert((x as int) < n);
        let u = t.map_values(|y: usize| if y as int == n - 1 { x } else { y });
        assert forall|k: int| 0 <= k < t.len() implies t[k] != x by {
            assert(s[k] == t[k]);
            assert(s[s.len() - 1] == x);
        }
        assert forall|a: int, b: int| 0 <= a < u.len() && 0 <= b < u.len() && a != b implies u[a]
            != u[b] by {
            assert(s[a] == t[a]);
            assert(s[b] == t[b]);
        }
        assert forall|k: int| 0 <= k < u.len() implies (u[k] as int) < n - 1 by {
            assert(s[k] == t[k]);
            assert(s[s.len() - 1] == x);
        }
        lemma_unique_below(u, n - 1);
    }
}

/// Under `crud_ok`, bucket `w` holds distinct ids, at most one per storage id.
proof fn lemma_crud_bucket_bound(
    data: Seq<u64>,
    crud: Seq<Vec<usize>>,
    pos: Seq<usize>,
    w: int,
)
    requires
        crud_ok(data, crud, pos),
        0 <= w < crud.len(),
    ensures
        crud[w]@.no_duplicates(),
        crud[w]@.len() <= data.len(),
{
    let b = crud[w]@;
    assert forall|a: int, c: int| 0 <= a < b.len() && 0 <= c < b.len() && a != c implies b[a]
        != b[c] by {
        assert(pos[b[a] as int] == a);
        assert(pos[b[c] as int] == c);
    }
    lemma_unique_below(b, data.len() as int);
}

/// Swapping the last element into position `p` and dropping the last removes
/// exactly the element at `p`.
proof fn lemma_swap_remove_multiset(s: Seq<usize>, p: int)
    requires
        0 <= p < s.len(),
    ensures
        s.update(p, s.last()).drop_last().to_multiset() == s.to_multiset().remove(s[p]),
{
    broadcast use vstd::multiset::group_multiset_axioms;

    let t = s.update(p, s.last());
    assert(t.drop_last().push(t.last()) =~= t);
    assert(t.last() == s.last());
    let d = t.drop_last();
    assert(d.push(t.last()).to_multiset() == d.to_multiset().insert(t.last()));
    assert(t.to_multiset() == s.to_multiset().insert(s.last()).remove(s[p]));
    assert(s.contains(s[p]));
    assert(s.to_multiset().count(s[p]) > 0);
    let ms = s.to_multiset();
    assert forall|x: usize| #[trigger] d.to_multiset().count(x) == ms.remove(s[p]).count(x) by {
        assert(t.to_multiset().count(x) == d.to_multiset().insert(s.last()).count(x));
        assert(t.to_multiset().count(x) == ms.insert(s.last()).remove(s[p]).count(x));
        assert(ms.insert(s.last()).count(s[p]) > 0);
    }
    assert(d.to_multiset() =~= ms.remove(s[p]));
}

impl Bwspi {
    /// The value stored under each storage id, live or removed.
    pub closed spec fn storage(&self) -> Seq<u64> {
        self.data@
    }

    /// Whether each storage id is live.
    pub closed spec fn live(&self) -> Seq<bool> {
        self.bucket_positions@.map_values(|p: usize| p != REMOVED_POSITION)
    }

    /// The index's invariant: buckets and positions agree, every clean tree
    /// holds its bucket's ids, the live count is kept, and the last bucket is
    /// nonempty.
    pub closed spec fn wf(&self) -> bool {
        &&& self.inv()
        &&& (self.crud_buckets@.len() == 0 || self.crud_buckets@.last()@.len() > 0)
    }

    /// Everything `wf` asks but that the last bucket be nonempty.
    spec fn inv(&self) -> bool {
        &&& self.data@.len() < usize::MAX
        &&& crud_ok(self.data@, self.crud_buckets@, self.bucket_positions@)
        &&& self.crud_buckets@.len() == self.trees@.len()
        &&& self.crud_buckets@.len() == self.tree_dirty@.len()
        &&& self.crud_buckets@.len() <= 65
        &&& self.live_len == live_count(self.live())
        &&& forall|w: int|
            0 <= w < self.crud_buckets@.len() ==> #[trigger] tree_ok(
                self.data@,
                self.crud_buckets@,
                self.trees@,
                self.tree_dirty@,
                w,
            )
    }

    /// Storage and liveness have one entry per storage id.
    pub proof fn lemma_view_lengths(&self)
        requires
            self.wf(),
        ensures
            self.live().len() == self.storage().len(),
            self.storage().len() < usize::MAX,
    {
    }

    /// Bucket `w` holds distinct ids, at most one per storage id.
    proof fn lemma_bucket_bound(&self, w: int)
        requires
            self.inv(),
            0 <= w < self.crud_buckets@.len(),
        ensures
            self.crud_buckets@[w]@.no_duplicates(),
            self.crud_buckets@[w]@.len() <= self.data@.len(),
            self.crud_buckets@[w]@.len() <= MAX_TREE_IDS ==> node_budget(
                self.crud_buckets@[w]@.len() as int,
            ) < 0xffff_ffff,
    {
        lemma_crud_bucket_bound(self.data@, self.crud_buckets@, self.bucket_positions@, w);
    }

    /// A live id is exactly an id of the bucket of its width.
    proof fn lemma_bucket_member(&self, w: int, id: usize)
        requires
            self.inv(),
            0 <= w < self.crud_buckets@.len(),
        ensures
            self.crud_buckets@[w]@.contains(id) <==> (id as int) < self.data@.len()
                && self.live()[id as int] && bit_width_spec(self.data@[id as int]) == w,
    {
        if self.crud_buckets@[w]@.contains(id) {
            let k = choose|k: int|
                0 <= k < self.crud_buckets@[w]@.len() && self.crud_buckets@[w]@[k] == id;
            self.lemma_bucket_bound(w);
            assert(self.bucket_positions@[id as int] == k);
        }
        if (id as int) < self.data@.len() && self.live()[id as int] && bit_width_spec(
            self.data@[id as int],
        ) == w {
            assert(self.bucket_positions@[id as int] != REMOVED_POSITION);
            let k = self.bucket_positions@[id as int] as int;
            assert(self.crud_buckets@[w]@[k] == id);
        }
    }

    /// A clean tree holds exactly the live ids of its width.
    proof fn lemma_tree_member(&self, w: int, id: usize)
        requires
            self.inv(),
            0 <= w < self.crud_buckets@.len(),
            !self.tree_dirty@[w],
        ensures
            self.trees@[w].ids().contains(id) <==> (id as int) < self.data@.len()
                && self.live()[id as int] && bit_width_spec(self.data@[id as int]) == w,
    {
        assert(tree_ok(self.data@, self.crud_buckets@, self.trees@, self.tree_dirty@, w));
        self.lemma_bucket_member(w, id);
        let t = self.trees@[w].ids();
        let b = self.crud_buckets@[w]@;
        assert(t.to_multiset().count(id) == b.to_multiset().count(id));
    }

    /// Some live id of width `w` holds `t` exactly when the clean tree of that
    /// width has an id naming `t`.
    proof fn lemma_tree_has_value(&self, w: int, t: u64)
        requires
            self.inv(),
            0 <= w < self.crud_buckets@.len(),
            !self.tree_dirty@[w],
            bit_width_spec(t) == w,
        ensures
            has_value(self.trees@[w].ids(), self.data@, t) <==> holds(
                self.storage(),
                self.live(),
                t,
            ),
    {
        let ids = self.trees@[w].ids();
        if has_value(ids, self.data@, t) {
            let k = choose|k: int| 0 <= k < ids.len() && self.data@[ids[k] as int] == t;
            self.lemma_tree_member(w, ids[k]);
            assert(self.live()[ids[k] as int]);
        }
        if holds(self.storage(), self.live(), t) {
            let i = choose|i: int|
                0 <= i < self.storage().len() && self.live()[i] && self.storage()[i] == t;
            self.lemma_tree_member(w, i as usize);
            let k = choose|k: int| 0 <= k < ids.len() && ids[k] == i as usize;
            assert(self.data@[ids[k] as int] == t);
        }
    }

    /// No live id holds a value whose width has no bucket.
    proof fn lemma_no_bucket_no_value(&self, t: u64)
        requires
            self.inv(),
            bit_width_spec(t) >= self.crud_buckets@.len(),
        ensures
            !holds(self.storage(), self.live(), t),
    {
        if holds(self.storage(), self.live(), t) {
            let i = choose|i: int|
                0 <= i < self.storage().len() && self.live()[i] && self.storage()[i] == t;
            assert(self.bucket_positions@[i] != REMOVED_POSITION);
        }
    }

    /// An empty index.
    pub fn new() -> (r: Self)
        ensures
            r.wf(),
            r.storage() == Seq::<u64>::empty(),
            r.live() == Seq::<bool>::empty(),
            forall|w: int| #[trigger] r.tree_stale(w),
    {
        Self::with_capacity(0)
    }

    /// An empty index with room for `capacity` values before reallocating.
    pub fn with_capacity(capacity: usize) -> (r: Self)
        ensures
            r.wf(),
            r.storage() == Seq::<u64>::empty(),
            r.live() == Seq::<bool>::empty(),
            forall|w: int| #[trigger] r.tree_stale(w),
    {
        let r = Bwspi {
            data: Vec::with_capacity(capacity),
            crud_buckets: Vec::new(),
            bucket_positions: Vec::with_capacity(capacity),
            trees: Vec::new(),
            tree_dirty: Vec::new(),
            live_len: 0,
        };
        proof {
            assert(r.live() =~= Seq::<bool>::empty());
        }
        r
    }

    /// Grows the per-width tables so that bucket `width` exists; new buckets
    /// are empty and their trees dirty.
    fn ensure_width(&mut self, width: usize)
        requires
            old(self).crud_buckets@.len() == old(self).trees@.len(),
            old(self).crud_buckets@.len() == old(self).tree_dirty@.len(),
            width <= 64,
            old(self).crud_buckets@.len() <= 65,
        ensures
            final(self).data == old(self).data,
            final(self).bucket_positions == old(self).bucket_positions,
            final(self).live_len == old(self).live_len,
            final(self).crud_buckets@.len() == if width < old(self).crud_buckets@.len() {
                old(self).crud_buckets@.len() as int
            } else {
                width + 1
            },
            final(self).trees@.len() == final(self).crud_buckets@.len(),
            final(self).tree_dirty@.len() == final(self).crud_buckets@.len(),
            forall|w: int|
                0 <= w < old(self).crud_buckets@.len() ==> #[trigger] final(self).crud_buckets@[w]
                    == old(self).crud_buckets@[w],
            forall|w: int|
                0 <= w < old(self).crud_buckets@.len() ==> #[trigger] final(self).trees@[w] == old(
                    self,
                ).trees@[w],
            forall|w: int|
                0 <= w < old(self).crud_buckets@.len() ==> #[trigger] final(self).tree_dirty@[w]
                    == old(self).tree_dirty@[w],
            forall|w: int|
                old(self).crud_buckets@.len() <= w < final(self).crud_buckets@.len() ==> (
                #[trigger] final(self).crud_buckets@[w])@.len() == 0 && final(self).tree_dirty@[w],
    {
        while self.crud_buckets.len() <= width
            invariant
                self.data == old(self).data,
                self.bucket_positions == old(self).bucket_positions,
                self.live_len == old(self).live_len,
                width <= 64,
                old(self).crud_buckets@.len() <= self.crud_buckets@.len(),
                self.crud_buckets@.len() <= if width < old(self).crud_buckets@.len() {
                    old(self).crud_buckets@.len() as int
                } else {
                    width + 1
                },
                self.trees@.len() == self.crud_buckets@.len(),
                self.tree_dirty@.len() == self.crud_buckets@.len(),
                forall|w: int|
                    0 <= w < old(self).crud_buckets@.len() ==> #[trigger] self.crud_buckets@[w]
                        == old(self).crud_buckets@[w],
                forall|w: int|
                    0 <= w < old(self).crud_buckets@.len() ==> #[trigger] self.trees@[w] == old(
                        self,
                    ).trees@[w],
                forall|w: int|
                    0 <= w < old(self).crud_buckets@.len() ==> #[trigger] self.tree_dirty@[w]
                        == old(self).tree_dirty@[w],
                forall|w: int|
                    old(self).crud_buckets@.len() <= w < self.crud_buckets@.len() ==> (
                    #[trigger] self.crud_buckets@[w])@.len() == 0 && self.tree_dirty@[w],
            decreases width + 1 - self.crud_buckets@.len(),
        {
            self.crud_buckets.push(Vec::new());
            self.trees.push(FlatBucket::new());
            self.tree_dirty.push(true);
        }
    }

    /// Rebuilds the tree of `width` when a lookup needs it and it is dirty.
    fn ensure_tree_clean(&mut self, width: usize)
        requires
            old(self).wf(),
            width_count(old(self).storage(), old(self).live(), width as nat) <= MAX_TREE_IDS,
        ensures
            final(self).wf(),
            final(self).data == old(self).data,
            final(self).crud_buckets == old(self).crud_buckets,
            final(self).bucket_positions == old(self).bucket_positions,
            final(self).live_len == old(self).live_len,
            final(self).trees@.len() == old(self).trees@.len(),
            final(self).tree_dirty@.len() == old(self).tree_dirty@.len(),
            (width as int) < final(self).tree_dirty@.len() ==> !final(self).tree_dirty@[width as int],
            forall|w: int|
                0 <= w < old(self).tree_dirty@.len() && w != width ==> #[trigger] final(
                self).tree_dirty@[w] == old(self).tree_dirty@[w],
            old(self).tree_stale(width as int) ==> (final(self).root_split(width as int)
                <==> width_count(final(self).storage(), final(self).live(), width as nat) > LEAF_CAP),
            old(self).tree_stale(width as int) ==> final(self).leaves_capped(width as int),
            !((width as int) < old(self).tree_dirty@.len() && old(self).tree_dirty@[width as int])
                ==> *final(self) == *old(self),
            forall|v: int|
                0 <= v < old(self).trees@.len() && v != width ==> #[trigger] final(self).trees@[v]
                    == old(self).trees@[v],
            (width as int) < old(self).tree_dirty@.len() && old(self).tree_dirty@[width as int] && 0
                < width_count(old(self).storage(), old(self).live(), width as nat) <= LEAF_CAP
                ==> filled_leaves(final(self).trees@[width as int].nodes@) == 1,
    {
        proof {
            self.lemma_bucket_len(width as int);
        }
        if width < self.tree_dirty.len() && self.tree_dirty[width] {
            proof {
                self.lemma_bucket_bound(width as int);
            }
            let t = FlatBucket::build_from(&self.crud_buckets[width], &self.data);
            self.trees.set(width, t);
            self.tree_dirty.set(width, false);
            proof {
                assert forall|w: int| 0 <= w < self.crud_buckets@.len() implies #[trigger] tree_ok(
                    self.data@,
                    self.crud_buckets@,
                    self.trees@,
                    self.tree_dirty@,
                    w,
                ) by {
                    if w != width {
                        assert(tree_ok(
                            old(self).data@,
                            old(self).crud_buckets@,
                            old(self).trees@,
                            old(self).tree_dirty@,
                            w,
                        ));
                    }
                }
                assert(self.live() == old(self).live());
            }
        }
    }

    /// Appends `value`; returns its storage id. A clean tree of the value's
    /// width takes the id in place.
    pub fn insert(&mut self, value: u64) -> (index: usize)
        requires
            old(self).wf(),
            old(self).storage().len() + 1 < usize::MAX,
        ensures
            final(self).wf(),
            index == old(self).storage().len(),
            final(self).storage() == old(self).storage().push(value),
            final(self).live() == old(self).live().push(true),
            forall|w: int| #[trigger] old(self).tree_stale(w) ==> final(self).tree_stale(w),
    {
        self.append_entry(value, true)
    }

    /// Appends `values` in order, each under the next storage id. The trees
    /// of the widths they touch are left to be rebuilt on the next lookup.
    pub fn insert_bulk(&mut self, values: &[u64])
        requires
            old(self).wf(),
            old(self).storage().len() + values@.len() < usize::MAX,
        ensures
            final(self).wf(),
            final(self).storage() == old(self).storage() + values@,
            final(self).live() == old(self).live() + Seq::new(values@.len(), |k: int| true),
            forall|w: int| #[trigger] old(self).tree_stale(w) ==> final(self).tree_stale(w),
            forall|k: int|
                0 <= k < values@.len() ==> final(self).tree_stale(
                    bit_width_spec(#[trigger] values@[k]) as int,
                ),
    {
        let mut k: usize = 0;
        while k < values.len()
            invariant
                self.wf(),
                k <= values@.len(),
                old(self).storage().len() + values@.len() < usize::MAX,
                self.storage() == old(self).storage() + values@.take(k as int),
                self.live() == old(self).live() + Seq::new(k as nat, |j: int| true),
                forall|w: int| #[trigger] old(self).tree_stale(w) ==> self.tree_stale(w),
                forall|j: int|
                    0 <= j < k ==> self.tree_stale(bit_width_spec(#[trigger] values@[j]) as int),
            decreases values@.len() - k,
        {
            let ghost before = *self;
            self.append_entry(values[k], false);
            proof {
                assert(values@.take(k + 1) =~= values@.take(k as int).push(values@[k as int]));
                assert(Seq::new((k + 1) as nat, |j: int| true) =~= Seq::new(k as nat, |j: int| true).push(true));
                assert(self.storage() =~= old(self).storage() + values@.take(k + 1));
                assert(self.live() =~= old(self).live() + Seq::new((k + 1) as nat, |j: int| true));
            }
            k = k + 1;
        }
        proof {
            assert(values@.take(k as int) =~= values@);
        }
    }

    /// Appends `value` under the next storage id. When `surgical`, a clean
    /// tree of the value's width takes the id in place; otherwise that tree
    /// is marked dirty.
    fn append_entry(&mut self, value: u64, surgical: bool) -> (index: usize)
        requires
            old(self).wf(),
            old(self).storage().len() + 1 < usize::MAX,
        ensures
            final(self).wf(),
            index == old(self).storage().len(),
            final(self).storage() == old(self).storage().push(value),
            final(self).live() == old(self).live().push(true),
            forall|w: int| #[trigger] old(self).tree_stale(w) ==> final(self).tree_stale(w),
            !surgical ==> final(self).tree_stale(bit_width_spec(value) as int),
    {
        let index = self.data.len();
        self.data.push(value);
        let width = bit_width(value);
        self.ensure_width(width);
        let ghost mid = *self;
        let k0 = self.crud_buckets[width].len();
        proof {
            if (width as int) < old(self).crud_buckets@.len() {
                old(self).lemma_bucket_bound(width as int);
            }
            lemma_live_count_bound(old(self).live());
        }
        self.bucket_positions.push(k0);
        self.crud_buckets[width].push(index);
        proof {
            self.lemma_insert_crud(
                old(self).data@,
                old(self).crud_buckets@,
                old(self).bucket_positions@,
                mid.crud_buckets@,
                width as int,
                value,
            );
            assert(self.data@.take(old(self).data@.len() as int) =~= old(self).data@);
            assert forall|w: int| 0 <= w < self.crud_buckets@.len() && w != width implies #[trigger] tree_ok(
                self.data@,
                self.crud_buckets@,
                self.trees@,
                self.tree_dirty@,
                w,
            ) by {
                assert(self.trees@[w] == mid.trees@[w]);
                assert(self.tree_dirty@[w] == mid.tree_dirty@[w]);
                assert(self.crud_buckets@[w] == mid.crud_buckets@[w]);
                if w < old(self).crud_buckets@.len() {
                    assert(mid.crud_buckets@[w] == old(self).crud_buckets@[w]);
                    assert(mid.trees@[w] == old(self).trees@[w]);
                    assert(mid.tree_dirty@[w] == old(self).tree_dirty@[w]);
                    if !old(self).tree_dirty@[w] {
                        Self::lemma_tree_frame(*old(self), w, self.data@);
                    }
                } else {
                    assert(mid.crud_buckets@[w]@.len() == 0);
                    assert(mid.tree_dirty@[w]);
                }
            }
            if (width as int) < old(self).crud_buckets@.len() {
                assert(mid.crud_buckets@[width as int] == old(self).crud_buckets@[width as int]);
                assert(mid.trees@[width as int] == old(self).trees@[width as int]);
                assert(mid.tree_dirty@[width as int] == old(self).tree_dirty@[width as int]);
                if !self.tree_dirty@[width as int] {
                    Self::lemma_tree_frame(*old(self), width as int, self.data@);
                }
            } else {
                assert(mid.tree_dirty@[width as int]);
            }
        }
        let ghost pre = *self;
        if !self.tree_dirty[width] {
            let ok = surgical && self.trees[width].surgical_insert(value, index, &self.data);
            if !ok {
                self.tree_dirty.set(width, true);
            }
        }
        self.live_len = self.live_len + 1;
        proof {
            assert(self.live() =~= old(self).live().push(true));
            lemma_live_count_push(old(self).live(), true);
            assert forall|w: int| 0 <= w < self.crud_buckets@.len() implies #[trigger] tree_ok(
                self.data@,
                self.crud_buckets@,
                self.trees@,
                self.tree_dirty@,
                w,
            ) by {
                if w != width {
                    assert(self.trees@[w] == pre.trees@[w]);
                    assert(self.tree_dirty@[w] == pre.tree_dirty@[w]);
                    assert(tree_ok(pre.data@, pre.crud_buckets@, pre.trees@, pre.tree_dirty@, w));
                } else if !self.tree_dirty@[w] {
                    assert(!pre.tree_dirty@[w]);
                    assert(pre.trees@[w].ids().to_multiset() =~= mid.crud_buckets@[w]@.to_multiset());
                    assert(self.crud_buckets@[w]@ == mid.crud_buckets@[w]@.push(index));
                    assert(self.crud_buckets@[w]@.to_multiset() =~= mid.crud_buckets@[w]@.to_multiset().insert(index));
                }
            }
            assert forall|w: int| #[trigger] old(self).tree_stale(w) implies self.tree_stale(w) by {
                if 0 <= w < self.tree_dirty@.len() {
                    if w < old(self).tree_dirty@.len() {
                        assert(mid.tree_dirty@[w] == old(self).tree_dirty@[w]);
                    } else {
                        assert(mid.crud_buckets@[w]@.len() == 0);
                    }
                    assert(mid.tree_dirty@[w]);
                    if w != width {
                        assert(self.tree_dirty@[w] == pre.tree_dirty@[w]);
                    }
                }
            }
        }
        index
    }

    /// A clean tree stays valid over a new data store that agrees with the
    /// old one on every live id of the tree's width.
    proof fn lemma_tree_frame(prev: Bwspi, w: int, d2: Seq<u64>)
        requires
            prev.inv(),
            0 <= w < prev.crud_buckets@.len(),
            !prev.tree_dirty@[w],
            forall|id: int|
                0 <= id < prev.data@.len() && #[trigger] prev.live()[id] && bit_width_spec(
                    prev.data@[id],
                ) == w ==> id < d2.len() && d2[id] == prev.data@[id],
        ensures
            prev.trees@[w].wf(d2),
            prev.trees@[w].ids().to_multiset() == prev.crud_buckets@[w]@.to_multiset(),
    {
        assert(tree_ok(prev.data@, prev.crud_buckets@, prev.trees@, prev.tree_dirty@, w));
        assert forall|id: usize| #[trigger] prev.trees@[w].ids().contains(id) implies (id as int)
            < d2.len() && d2[id as int] == prev.data@[id as int] by {
            prev.lemma_tree_member(w, id);
            assert(prev.live()[id as int]);
        }
        lemma_wf_data_frame(prev.trees@[w], prev.data@, d2);
    }

    /// The bucket bookkeeping after appending `value` under a fresh storage id
    /// and pushing that id onto its width's bucket.
    proof fn lemma_insert_crud(
        &self,
        data0: Seq<u64>,
        crud0: Seq<Vec<usize>>,
        pos0: Seq<usize>,
        crud1: Seq<Vec<usize>>,
        width: int,
        value: u64,
    )
        requires
            crud_ok(data0, crud0, pos0),
            self.data@ == data0.push(value),
            width == bit_width_spec(value),
            0 <= width < crud1.len(),
            crud1.len() >= crud0.len(),
            forall|w: int| 0 <= w < crud0.len() ==> #[trigger] crud1[w] == crud0[w],
            forall|w: int| crud0.len() <= w < crud1.len() ==> (#[trigger] crud1[w])@.len() == 0,
            self.crud_buckets@.len() == crud1.len(),
            forall|w: int| 0 <= w < crud1.len() && w != width ==> #[trigger] self.crud_buckets@[w] == crud1[w],
            self.crud_buckets@[width]@ == crud1[width]@.push(data0.len() as usize),
            self.bucket_positions@ == pos0.push(crud1[width]@.len() as usize),
            data0.len() < REMOVED_POSITION,
            crud1[width]@.len() <= data0.len(),
        ensures
            crud_ok(self.data@, self.crud_buckets@, self.bucket_positions@),
    {
        let n = data0.len() as int;
        assert forall|i: int|
            0 <= i < self.data@.len() && #[trigger] self.bucket_positions@[i] != REMOVED_POSITION implies {
            let w = bit_width_spec(self.data@[i]) as int;
            &&& w < self.crud_buckets@.len()
            &&& (self.bucket_positions@[i] as int) < self.crud_buckets@[w]@.len()
            &&& self.crud_buckets@[w]@[self.bucket_positions@[i] as int] == i
        } by {
            if i < n {
                assert(pos0[i] != REMOVED_POSITION);
                let w = bit_width_spec(data0[i]) as int;
                assert(crud1[w] == crud0[w]);
            }
        }
        assert forall|w: int, k: int|
            0 <= w < self.crud_buckets@.len() && 0 <= k < self.crud_buckets@[w]@.len() implies {
            let i = #[trigger] self.crud_buckets@[w]@[k];
            &&& (i as int) < self.data@.len()
            &&& self.bucket_positions@[i as int] == k
            &&& bit_width_spec(self.data@[i as int]) == w
        } by {
            if w < crud0.len() && !(w == width && k == crud1[width]@.len()) {
                assert(self.crud_buckets@[w]@[k] == crud0[w]@[k]);
            }
        }
    }

    /// Removes the live id `index` from its bucket by a swap with the bucket's
    /// last entry, and records it removed. The tree of `width` is marked dirty
    /// unless `keep_tree_clean`, for callers that already removed the id from
    /// the tree.
    fn crud_unlink_inner(&mut self, index: usize, width: usize, keep_tree_clean: bool)
        requires
            crud_ok(old(self).data@, old(self).crud_buckets@, old(self).bucket_positions@),
            old(self).crud_buckets@.len() == old(self).tree_dirty@.len(),
            (index as int) < old(self).data@.len(),
            old(self).bucket_positions@[index as int] != REMOVED_POSITION,
            width == bit_width_spec(old(self).data@[index as int]),
        ensures
            final(self).data == old(self).data,
            final(self).trees == old(self).trees,
            final(self).live_len == old(self).live_len,
            final(self).tree_dirty@ == if keep_tree_clean {
                old(self).tree_dirty@
            } else {
                old(self).tree_dirty@.update(width as int, true)
            },
            final(self).bucket_positions@.len() == old(self).bucket_positions@.len(),
            final(self).live() == old(self).live().update(index as int, false),
            final(self).crud_buckets@.len() == old(self).crud_buckets@.len(),
            forall|w: int|
                0 <= w < old(self).crud_buckets@.len() && w != width ==> #[trigger] final(self).crud_buckets@[w] == old(self).crud_buckets@[w],
            final(self).crud_buckets@[width as int]@.to_multiset() == old(
                self,
            ).crud_buckets@[width as int]@.to_multiset().remove(index),
            crud_ok(final(self).data@, final(self).crud_buckets@, final(self).bucket_positions@),
    {
        let ghost data = self.data@;
        let ghost crud0 = self.crud_buckets@;
        let ghost pos0 = self.bucket_positions@;
        let position = self.bucket_positions[index];
        proof {
            assert(pos0[index as int] != REMOVED_POSITION);
        }
        let last = self.crud_buckets[width].len() - 1;
        let moved = self.crud_buckets[width][last];
        proof {
            assert(crud0[width as int]@[last as int] == moved);
            assert(pos0[moved as int] == last);
            lemma_swap_remove_multiset(crud0[width as int]@, position as int);
        }
        self.crud_buckets[width].swap_remove(position);
        if moved != index {
            self.bucket_positions.set(moved, position);
        }
        self.bucket_positions.set(index, REMOVED_POSITION);
        if !keep_tree_clean {
            self.tree_dirty.set(width, true);
        }
        proof {
            let crud1 = self.crud_buckets@;
            let pos1 = self.bucket_positions@;
            let b0 = crud0[width as int]@;
            assert(crud1[width as int]@ == b0.update(position as int, b0.last()).drop_last());
            assert forall|i: int|
                0 <= i < data.len() && #[trigger] pos1[i] != REMOVED_POSITION implies {
                let w = bit_width_spec(data[i]) as int;
                &&& w < crud1.len()
                &&& (pos1[i] as int) < crud1[w]@.len()
                &&& crud1[w]@[pos1[i] as int] == i
            } by {
                assert(i != index);
                if i == moved {
                    assert(pos1[i] == position);
                } else {
                    assert(pos1[i] == pos0[i]);
                    assert(pos0[i] != REMOVED_POSITION);
                    let w = bit_width_spec(data[i]) as int;
                    if w == width {
                        assert(pos0[i] != position);
                        assert(pos0[i] != last);
                    }
                }
            }
            assert forall|w: int, k: int| 0 <= w < crud1.len() && 0 <= k < crud1[w]@.len() implies {
                let i = #[trigger] crud1[w]@[k];
                &&& (i as int) < data.len()
                &&& pos1[i as int] == k
                &&& bit_width_spec(data[i as int]) == w
            } by {
                if w != width {
                    assert(crud1[w] == crud0[w]);
                    let i = crud0[w]@[k];
                    assert(pos0[i as int] == k);
                } else if k == position {
                    assert(crud1[w]@[k] == moved);
                } else {
                    let i = b0[k];
                    assert(crud1[w]@[k] == i);
                    assert(pos0[i as int] == k);
                }
            }
            assert(self.live() =~= old(self).live().update(index as int, false));
        }
    }

    /// Removes the live id `index` from its bucket and marks that tree dirty.
    fn crud_unlink(&mut self, index: usize, width: usize)
        requires
            crud_ok(old(self).data@, old(self).crud_buckets@, old(self).bucket_positions@),
            old(self).crud_buckets@.len() == old(self).tree_dirty@.len(),
            (index as int) < old(self).data@.len(),
            old(self).bucket_positions@[index as int] != REMOVED_POSITION,
            width == bit_width_spec(old(self).data@[index as int]),
        ensures
            final(self).data == old(self).data,
            final(self).trees == old(self).trees,
            final(self).live_len == old(self).live_len,
            final(self).tree_dirty@ == old(self).tree_dirty@.update(width as int, true),
            final(self).bucket_positions@.len() == old(self).bucket_positions@.len(),
            final(self).live() == old(self).live().update(index as int, false),
            final(self).crud_buckets@.len() == old(self).crud_buckets@.len(),
            forall|w: int|
                0 <= w < old(self).crud_buckets@.len() && w != width ==> #[trigger] final(self).crud_buckets@[w]
                    == old(self).crud_buckets@[w],
            final(self).crud_buckets@[width as int]@.to_multiset() == old(
                self,
            ).crud_buckets@[width as int]@.to_multiset().remove(index),
            crud_ok(final(self).data@, final(self).crud_buckets@, final(self).bucket_positions@),
    {
        self.crud_unlink_inner(index, width, false);
    }

    /// Appends the removed id `index` to the bucket of `width`, its value's
    /// width, growing the tables if needed, and marks that tree dirty.
    fn crud_link(&mut self, index: usize, width: usize)
        requires
            crud_ok(old(self).data@, old(self).crud_buckets@, old(self).bucket_positions@),
            old(self).crud_buckets@.len() == old(self).trees@.len(),
            old(self).crud_buckets@.len() == old(self).tree_dirty@.len(),
            old(self).crud_buckets@.len() <= 65,
            old(self).data@.len() < usize::MAX,
            (index as int) < old(self).data@.len(),
            old(self).bucket_positions@[index as int] == REMOVED_POSITION,
            width == bit_width_spec(old(self).data@[index as int]),
            width <= 64,
        ensures
            final(self).data == old(self).data,
            final(self).live_len == old(self).live_len,
            final(self).bucket_positions@.len() == old(self).bucket_positions@.len(),
            final(self).bucket_positions@[index as int] != REMOVED_POSITION,
            forall|i: int|
                0 <= i < old(self).bucket_positions@.len() && i != index ==> #[trigger] final(self).bucket_positions@[i] == old(self).bucket_positions@[i],
            final(self).crud_buckets@.len() == if (width as int) < old(
                self,
            ).crud_buckets@.len() {
                old(self).crud_buckets@.len() as int
            } else {
                width + 1
            },
            final(self).trees@.len() == final(self).crud_buckets@.len(),
            final(self).tree_dirty@.len() == final(self).crud_buckets@.len(),
            forall|w: int|
                0 <= w < old(self).crud_buckets@.len() && w != width ==> #[trigger] final(self).crud_buckets@[w] == old(self).crud_buckets@[w],
            forall|w: int|
                0 <= w < old(self).crud_buckets@.len() ==> #[trigger] final(self).trees@[w] == old(
                    self,
                ).trees@[w],
            forall|w: int|
                0 <= w < old(self).crud_buckets@.len() && w != width ==> #[trigger] final(self).tree_dirty@[w] == old(self).tree_dirty@[w],
            forall|w: int|
                old(self).crud_buckets@.len() <= w < final(self).crud_buckets@.len() ==> #[trigger] final(self).tree_dirty@[w],
            final(self).tree_dirty@[width as int],
            crud_ok(final(self).data@, final(self).crud_buckets@, final(self).bucket_positions@),
    {
        let ghost data = self.data@;
        let ghost crud0 = self.crud_buckets@;
        let ghost pos0 = self.bucket_positions@;
        self.ensure_width(width);
        let ghost crud1 = self.crud_buckets@;
        let ghost dirty1 = self.tree_dirty@;
        let k = self.crud_buckets[width].len();
        proof {
            if (width as int) < crud0.len() {
                lemma_crud_bucket_bound(data, crud0, pos0, width as int);
                assert(crud1[width as int] == crud0[width as int]);
            } else {
                assert(crud1[width as int]@.len() == 0);
            }
        }
        self.bucket_positions.set(index, k);
        self.crud_buckets[width].push(index);
        self.tree_dirty.set(width, true);
        proof {
            assert forall|w: int| crud0.len() <= w < self.crud_buckets@.len() implies #[trigger] self.tree_dirty@[w] by {
                assert(crud1[w]@.len() == 0);
            }
            let crud2 = self.crud_buckets@;
            let pos2 = self.bucket_positions@;
            assert forall|i: int|
                0 <= i < data.len() && #[trigger] pos2[i] != REMOVED_POSITION implies {
                let w = bit_width_spec(data[i]) as int;
                &&& w < crud2.len()
                &&& (pos2[i] as int) < crud2[w]@.len()
                &&& crud2[w]@[pos2[i] as int] == i
            } by {
                if i != index {
                    assert(pos2[i] == pos0[i]);
                    let w = bit_width_spec(data[i]) as int;
                    assert(crud1[w] == crud0[w]);
                }
            }
            assert forall|w: int, j: int| 0 <= w < crud2.len() && 0 <= j < crud2[w]@.len() implies {
                let i = #[trigger] crud2[w]@[j];
                &&& (i as int) < data.len()
                &&& pos2[i as int] == j
                &&& bit_width_spec(data[i as int]) == w
            } by {
                if !(w == width && j == k) {
                    if w < crud0.len() {
                        assert(crud1[w] == crud0[w]);
                        assert(crud2[w]@[j] == crud0[w]@[j]);
                        let i = crud0[w]@[j];
                        assert(pos0[i as int] == j);
                    } else {
                        assert(crud1[w]@.len() == 0);
                    }
                }
            }
        }
    }

    /// Drops trailing empty buckets (with their trees).
    fn shrink_trailing(&mut self)
        requires
            old(self).inv(),
        ensures
            final(self).wf(),
            final(self).data == old(self).data,
            final(self).bucket_positions == old(self).bucket_positions,
            final(self).live_len == old(self).live_len,
    {
        while self.crud_buckets.len() > 0 && self.crud_buckets[self.crud_buckets.len() - 1].len()
            == 0
            invariant
                self.inv(),
                self.data == old(self).data,
                self.bucket_positions == old(self).bucket_positions,
                self.live_len == old(self).live_len,
            decreases self.crud_buckets@.len(),
        {
            let ghost prev = *self;
            let _ = self.crud_buckets.pop();
            let _ = self.trees.pop();
            let _ = self.tree_dirty.pop();
            proof {
                let n = self.crud_buckets@.len() as int;
                assert forall|i: int|
                    0 <= i < self.data@.len() && #[trigger] self.bucket_positions@[i]
                        != REMOVED_POSITION implies {
                    let w = bit_width_spec(self.data@[i]) as int;
                    &&& w < self.crud_buckets@.len()
                    &&& (self.bucket_positions@[i] as int) < self.crud_buckets@[w]@.len()
                    &&& self.crud_buckets@[w]@[self.bucket_positions@[i] as int] == i
                } by {
                    let w = bit_width_spec(self.data@[i]) as int;
                    assert(prev.bucket_positions@[i] != REMOVED_POSITION);
                    assert(w != n);
                    assert(self.crud_buckets@[w] == prev.crud_buckets@[w]);
                }
                assert forall|w: int, k: int|
                    0 <= w < self.crud_buckets@.len() && 0 <= k < self.crud_buckets@[w]@.len() implies {
                    let i = #[trigger] self.crud_buckets@[w]@[k];
                    &&& (i as int) < self.data@.len()
                    &&& self.bucket_positions@[i as int] == k
                    &&& bit_width_spec(self.data@[i as int]) == w
                } by {
                    assert(self.crud_buckets@[w] == prev.crud_buckets@[w]);
                }
                assert forall|w: int| 0 <= w < self.crud_buckets@.len() implies #[trigger] tree_ok(
                    self.data@,
                    self.crud_buckets@,
                    self.trees@,
                    self.tree_dirty@,
                    w,
                ) by {
                    assert(tree_ok(
                        prev.data@,
                        prev.crud_buckets@,
                        prev.trees@,
                        prev.tree_dirty@,
                        w,
                    ));
                    assert(self.crud_buckets@[w] == prev.crud_buckets@[w]);
                    assert(self.trees@[w] == prev.trees@[w]);
                    assert(self.tree_dirty@[w] == prev.tree_dirty@[w]);
                }
                assert(self.live() == prev.live());
            }
        }
    }

    /// After the tree of `w` and bucket `w` both lost the live id `i`, and
    /// the count was decremented, everything but trailing emptiness holds.
    proof fn lemma_after_unlink(&self, prev: Bwspi, w: int, i: usize)
        requires
            prev.inv(),
            0 <= w < prev.crud_buckets@.len(),
            !prev.tree_dirty@[w],
            (i as int) < prev.data@.len(),
            prev.live()[i as int],
            bit_width_spec(prev.data@[i as int]) == w,
            self.data == prev.data,
            crud_ok(self.data@, self.crud_buckets@, self.bucket_positions@),
            self.crud_buckets@.len() == prev.crud_buckets@.len(),
            self.trees@.len() == prev.trees@.len(),
            self.tree_dirty@ == prev.tree_dirty@,
            forall|v: int|
                0 <= v < prev.crud_buckets@.len() && v != w ==> #[trigger] self.crud_buckets@[v]
                    == prev.crud_buckets@[v],
            forall|v: int|
                0 <= v < prev.crud_buckets@.len() && v != w ==> #[trigger] self.trees@[v]
                    == prev.trees@[v],
            self.crud_buckets@[w]@.to_multiset() == prev.crud_buckets@[w]@.to_multiset().remove(i),
            self.trees@[w].wf(self.data@),
            self.trees@[w].ids().to_multiset() == prev.trees@[w].ids().to_multiset().remove(i),
            self.live() == prev.live().update(i as int, false),
            self.live_len + 1 == prev.live_len,
        ensures
            self.inv(),
    {
        assert(tree_ok(prev.data@, prev.crud_buckets@, prev.trees@, prev.tree_dirty@, w));
        assert forall|v: int| 0 <= v < self.crud_buckets@.len() implies #[trigger] tree_ok(
            self.data@,
            self.crud_buckets@,
            self.trees@,
            self.tree_dirty@,
            v,
        ) by {
            if v != w {
                assert(tree_ok(prev.data@, prev.crud_buckets@, prev.trees@, prev.tree_dirty@, v));
            }
        }
        lemma_live_count_update(prev.live(), i as int, false);
    }

    /// Removes one live entry holding `target`; returns whether there was one.
    pub fn remove(&mut self, target: u64) -> (r: bool)
        requires
            old(self).wf(),
            width_count(old(self).storage(), old(self).live(), bit_width_spec(target)) <= MAX_TREE_IDS,
        ensures
            final(self).wf(),
            final(self).storage() == old(self).storage(),
            r == holds(old(self).storage(), old(self).live(), target),
            r ==> exists|id: int|
                0 <= id < old(self).storage().len() && old(self).live()[id] && old(
                    self,
                ).storage()[id] == target && final(self).live() == old(self).live().update(
                    id,
                    false,
                ),
            !r ==> final(self).live() == old(self).live(),
    {
        let w = bit_width(target);
        if w >= self.crud_buckets.len() {
            proof {
                self.lemma_no_bucket_no_value(target);
            }
            return false;
        }
        self.ensure_tree_clean(w);
        proof {
            assert(self.live() == old(self).live());
            self.lemma_tree_has_value(w as int, target);
            assert(tree_ok(self.data@, self.crud_buckets@, self.trees@, self.tree_dirty@, w as int));
        }
        let ghost pre = *self;
        let found = self.trees[w].surgical_remove(target, &self.data);
        match found {
            None => {
                proof {
                    assert(self.trees@ =~= pre.trees@);
                }
                false
            },
            Some(i) => {
                proof {
                    pre.lemma_tree_member(w as int, i);
                    lemma_live_count_update(pre.live(), i as int, false);
                }
                let ghost mid = *self;
                self.crud_unlink_inner(i, w, true);
                self.live_len = self.live_len - 1;
                proof {
                    assert forall|v: int|
                        0 <= v < pre.crud_buckets@.len() && v != w implies #[trigger] self.trees@[v]
                        == pre.trees@[v] by {
                        assert(mid.trees@[v] == pre.trees@[v]);
                    }
                    self.lemma_after_unlink(pre, w as int, i);
                }
                self.shrink_trailing();
                true
            },
        }
    }

    /// Removes the entry with storage id `index`; returns whether it was live.
    pub fn remove_at(&mut self, index: usize) -> (r: bool)
        requires
            old(self).wf(),
            (index as int) < old(self).storage().len() && old(self).live()[index as int] ==> width_count(
                old(self).storage(),
                old(self).live(),
                bit_width_spec(old(self).storage()[index as int]),
            ) <= MAX_TREE_IDS,
        ensures
            final(self).wf(),
            final(self).storage() == old(self).storage(),
            r == ((index as int) < old(self).storage().len() && old(self).live()[index as int]),
            final(self).live() == if r {
                old(self).live().update(index as int, false)
            } else {
                old(self).live()
            },
    {
        if index >= self.bucket_positions.len() {
            return false;
        }
        if self.bucket_positions[index] == REMOVED_POSITION {
            return false;
        }
        let value = self.data[index];
        let width = bit_width(value);
        self.ensure_tree_clean(width);
        proof {
            assert(self.live() == old(self).live());
            assert(self.bucket_positions@[index as int] != REMOVED_POSITION);
            assert(tree_ok(
                self.data@,
                self.crud_buckets@,
                self.trees@,
                self.tree_dirty@,
                width as int,
            ));
            self.lemma_tree_member(width as int, index);
            lemma_live_count_update(self.live(), index as int, false);
        }
        let ghost pre = *self;
        let removed = self.trees[width].surgical_remove_id(value, index, &self.data);
        let ghost mid = *self;
        self.crud_unlink_inner(index, width, true);
        self.live_len = self.live_len - 1;
        proof {
            assert(removed);
            assert forall|v: int|
                0 <= v < pre.crud_buckets@.len() && v != width implies #[trigger] self.trees@[v]
                == pre.trees@[v] by {
                assert(mid.trees@[v] == pre.trees@[v]);
            }
            self.lemma_after_unlink(pre, width as int, index);
        }
        self.shrink_trailing();
        true
    }

    /// Sets the value of the live id `index` to `new_value`; returns whether
    /// `index` was live.
    pub fn update_at(&mut self, index: usize, new_value: u64) -> (r: bool)
        requires
            old(self).wf(),
        ensures
            final(self).wf(),
            r == ((index as int) < old(self).storage().len() && old(self).live()[index as int]),
            final(self).live() == old(self).live(),
            final(self).storage() == if r {
                old(self).storage().update(index as int, new_value)
            } else {
                old(self).storage()
            },
    {
        if index >= self.bucket_positions.len() {
            return false;
        }
        if self.bucket_positions[index] == REMOVED_POSITION {
            return false;
        }
        let old_value = self.data[index];
        let old_width = bit_width(old_value);
        let new_width = bit_width(new_value);
        proof {
            assert(self.bucket_positions@[index as int] != REMOVED_POSITION);
        }
        if old_width == new_width {
            self.data.set(index, new_value);
            self.tree_dirty.set(old_width, true);
            proof {
                let d = self.data@;
                assert forall|i: int|
                    0 <= i < d.len() && #[trigger] self.bucket_positions@[i] != REMOVED_POSITION implies {
                    let w = bit_width_spec(d[i]) as int;
                    &&& w < self.crud_buckets@.len()
                    &&& (self.bucket_positions@[i] as int) < self.crud_buckets@[w]@.len()
                    &&& self.crud_buckets@[w]@[self.bucket_positions@[i] as int] == i
                } by {
                    assert(old(self).bucket_positions@[i] != REMOVED_POSITION);
                }
                assert forall|w: int, k: int|
                    0 <= w < self.crud_buckets@.len() && 0 <= k < self.crud_buckets@[w]@.len() implies {
                    let i = #[trigger] self.crud_buckets@[w]@[k];
                    &&& (i as int) < d.len()
                    &&& self.bucket_positions@[i as int] == k
                    &&& bit_width_spec(d[i as int]) == w
                } by {
                    let i = self.crud_buckets@[w]@[k];
                    assert(old(self).bucket_positions@[i as int] == k);
                }
                self.lemma_frame_other_trees(*old(self), index, old_width as int, old_width as int);
                assert(self.live() == old(self).live());
            }
            return true;
        }
        let ghost pre = *self;
        self.crud_unlink(index, old_width);
        let ghost mid = *self;
        self.data.set(index, new_value);
        proof {
            let d = self.data@;
            assert forall|i: int|
                0 <= i < d.len() && #[trigger] self.bucket_positions@[i] != REMOVED_POSITION implies {
                let w = bit_width_spec(d[i]) as int;
                &&& w < self.crud_buckets@.len()
                &&& (self.bucket_positions@[i] as int) < self.crud_buckets@[w]@.len()
                &&& self.crud_buckets@[w]@[self.bucket_positions@[i] as int] == i
            } by {
                assert(self.live()[i] == pre.live().update(index as int, false)[i]);
                assert(i != index);
            }
            assert forall|w: int, k: int|
                0 <= w < self.crud_buckets@.len() && 0 <= k < self.crud_buckets@[w]@.len() implies {
                let i = #[trigger] self.crud_buckets@[w]@[k];
                &&& (i as int) < d.len()
                &&& self.bucket_positions@[i as int] == k
                &&& bit_width_spec(d[i as int]) == w
            } by {
                let i = self.crud_buckets@[w]@[k];
                assert(mid.crud_buckets@[w]@[k] == i);
                assert(mid.bucket_positions@[i as int] == k);
                lemma_crud_bucket_bound(mid.data@, mid.crud_buckets@, mid.bucket_positions@, w);
                assert(self.live()[i as int] == pre.live().update(index as int, false)[i as int]);
            }
        }
        let ghost linked_from = *self;
        self.crud_link(index, new_width);
        proof {
            assert forall|i: int| 0 <= i < self.live().len() implies self.live()[i] == pre.live()[i] by {
                if i != index {
                    assert(self.bucket_positions@[i] == linked_from.bucket_positions@[i]);
                    assert(linked_from.live()[i] == pre.live().update(index as int, false)[i]);
                }
            }
            assert(self.live() =~= pre.live());
            self.lemma_frame_other_trees(pre, index, old_width as int, new_width as int);
        }
        self.shrink_trailing();
        true
    }

    /// After the value of live id `index` changed from width `ow` to width
    /// `nw`, with the bookkeeping redone and both of those trees dirty, the
    /// other trees still hold, and so does everything but trailing emptiness.
    proof fn lemma_frame_other_trees(&self, prev: Bwspi, index: usize, ow: int, nw: int)
        requires
            prev.inv(),
            (index as int) < prev.data@.len(),
            prev.live()[index as int],
            bit_width_spec(prev.data@[index as int]) == ow,
            self.data@.len() == prev.data@.len(),
            bit_width_spec(self.data@[index as int]) == nw,
            forall|i: int| 0 <= i < prev.data@.len() && i != index ==> #[trigger] self.data@[i] == prev.data@[i],
            crud_ok(self.data@, self.crud_buckets@, self.bucket_positions@),
            self.crud_buckets@.len() == self.trees@.len(),
            self.crud_buckets@.len() == self.tree_dirty@.len(),
            self.crud_buckets@.len() <= 65,
            self.live() == prev.live(),
            self.live_len == prev.live_len,
            forall|w: int|
                0 <= w < prev.crud_buckets@.len() && w != ow && w != nw ==> #[trigger] self.crud_buckets@[w]
                    == prev.crud_buckets@[w],
            forall|w: int|
                0 <= w < prev.crud_buckets@.len() && w != ow && w != nw ==> #[trigger] self.trees@[w]
                    == prev.trees@[w],
            forall|w: int|
                0 <= w < prev.crud_buckets@.len() && w != ow && w != nw ==> #[trigger] self.tree_dirty@[w]
                    == prev.tree_dirty@[w],
            forall|w: int|
                prev.crud_buckets@.len() <= w < self.crud_buckets@.len() ==> #[trigger] self.tree_dirty@[w],
            0 <= ow < self.tree_dirty@.len() && self.tree_dirty@[ow],
            0 <= nw < self.tree_dirty@.len() && self.tree_dirty@[nw],
        ensures
            self.inv(),
    {
        assert forall|w: int| 0 <= w < self.crud_buckets@.len() implies #[trigger] tree_ok(
            self.data@,
            self.crud_buckets@,
            self.trees@,
            self.tree_dirty@,
            w,
        ) by {
            if w < prev.crud_buckets@.len() && w != ow && w != nw && !self.tree_dirty@[w] {
                Self::lemma_tree_frame(prev, w, self.data@);
            }
        }
    }

    /// Replaces the value of one live entry holding `old_value` with
    /// `new_value`; returns whether there was one.
    pub fn update(&mut self, old_value: u64, new_value: u64) -> (r: bool)
        requires
            old(self).wf(),
            width_count(old(self).storage(), old(self).live(), bit_width_spec(old_value)) <= MAX_TREE_IDS,
        ensures
            final(self).wf(),
            final(self).live() == old(self).live(),
            r == holds(old(self).storage(), old(self).live(), old_value),
            r ==> exists|id: int|
                0 <= id < old(self).storage().len() && old(self).live()[id] && old(
                    self,
                ).storage()[id] == old_value && final(self).storage() == old(
                    self,
                ).storage().update(id, new_value),
            !r ==> final(self).storage() == old(self).storage(),
    {
        let w = bit_width(old_value);
        self.ensure_tree_clean(w);
        proof {
            assert(self.live() == old(self).live());
        }
        if w >= self.trees.len() {
            proof {
                self.lemma_no_bucket_no_value(old_value);
            }
            return false;
        }
        proof {
            self.lemma_tree_has_value(w as int, old_value);
            assert(tree_ok(self.data@, self.crud_buckets@, self.trees@, self.tree_dirty@, w as int));
        }
        match self.trees[w].lsb_find(old_value, &self.data) {
            None => false,
            Some(i) => {
                proof {
                    self.lemma_tree_member(w as int, i);
                }
                self.update_at(i, new_value)
            },
        }
    }

    /// Rebuilds every dirty tree.
    fn rebuild_all_dirty(&mut self)
        requires
            old(self).wf(),
            forall|w: nat| #[trigger] width_count(old(self).storage(), old(self).live(), w) <= MAX_TREE_IDS,
        ensures
            final(self).wf(),
            final(self).data == old(self).data,
            final(self).crud_buckets == old(self).crud_buckets,
            final(self).bucket_positions == old(self).bucket_positions,
            final(self).live_len == old(self).live_len,
            forall|w: int| 0 <= w < final(self).tree_dirty@.len() ==> !#[trigger] final(self).tree_dirty@[w],
            old(self).trees_clean() ==> *final(self) == *old(self),
            final(self).trees@.len() == old(self).trees@.len(),
            forall|v: int|
                0 <= v < old(self).trees@.len() && !old(self).tree_dirty@[v]
                    ==> #[trigger] final(self).trees@[v] == old(self).trees@[v],
            forall|v: int|
                0 <= v < old(self).trees@.len() && old(self).tree_dirty@[v] && 0 < width_count(
                    old(self).storage(),
                    old(self).live(),
                    v as nat,
                ) <= LEAF_CAP ==> filled_leaves(#[trigger] final(self).trees@[v].nodes@) == 1,
    {
        proof {
            old(self).lemma_view_lengths();
        }
        let mut w: usize = 0;
        while w < self.tree_dirty.len()
            invariant
                self.wf(),
                self.data == old(self).data,
                self.crud_buckets == old(self).crud_buckets,
                self.bucket_positions == old(self).bucket_positions,
                self.live_len == old(self).live_len,
                w <= self.tree_dirty@.len(),
                forall|v: int| 0 <= v < w ==> !#[trigger] self.tree_dirty@[v],
                forall|v: nat| #[trigger] width_count(self.storage(), self.live(), v) <= MAX_TREE_IDS,
                old(self).trees_clean() ==> *self == *old(self),
                self.trees@.len() == old(self).trees@.len(),
                self.tree_dirty@.len() == old(self).tree_dirty@.len(),
                self.storage() == old(self).storage(),
                self.live() == old(self).live(),
                forall|v: int|
                    w <= v < old(self).trees@.len() ==> #[trigger] self.trees@[v] == old(self).trees@[v]
                        && self.tree_dirty@[v] == old(self).tree_dirty@[v],
                forall|v: int|
                    0 <= v < w && !old(self).tree_dirty@[v] ==> #[trigger] self.trees@[v] == old(
                        self,
                    ).trees@[v],
                forall|v: int|
                    0 <= v < w && old(self).tree_dirty@[v] && 0 < width_count(
                        old(self).storage(),
                        old(self).live(),
                        v as nat,
                    ) <= LEAF_CAP ==> filled_leaves(#[trigger] self.trees@[v].nodes@) == 1,
            decreases self.tree_dirty@.len() - w,
        {
            let ghost before = self.tree_dirty@;
            let ghost prev = *self;
            self.ensure_tree_clean(w);
            proof {
                assert(self.live() == prev.live());
                assert forall|v: int| w + 1 <= v < old(self).trees@.len() implies #[trigger] self.trees@[v]
                    == old(self).trees@[v] && self.tree_dirty@[v] == old(self).tree_dirty@[v] by {
                    assert(self.trees@[v] == prev.trees@[v]);
                }
                assert forall|v: int| 0 <= v < w + 1 && !old(self).tree_dirty@[v] implies #[trigger] self.trees@[v]
                    == old(self).trees@[v] by {
                    if v < w {
                        assert(self.trees@[v] == prev.trees@[v]);
                    } else {
                        assert(prev.trees@[v] == old(self).trees@[v] && prev.tree_dirty@[v] == old(
                            self,
                        ).tree_dirty@[v]);
                    }
                }
                assert forall|v: int|
                    0 <= v < w + 1 && old(self).tree_dirty@[v] && 0 < width_count(
                        old(self).storage(),
                        old(self).live(),
                        v as nat,
                    ) <= LEAF_CAP implies filled_leaves(#[trigger] self.trees@[v].nodes@) == 1 by {
                    if v < w {
                        assert(self.trees@[v] == prev.trees@[v]);
                    }
                }
                assert forall|v: int| 0 <= v < w + 1 implies !#[trigger] self.tree_dirty@[v] by {
                    if v < w {
                        assert(!before[v]);
                    }
                }
            }
            w = w + 1;
        }
    }

    /// The live entries as (storage id, value) pairs, in storage order.
    pub fn iter(&self) -> (r: Vec<(usize, u64)>)
        requires
            self.wf(),
        ensures
            r@ == live_entries(self.storage(), self.live()),
    {
        let mut out: Vec<(usize, u64)> = Vec::new();
        let mut i: usize = 0;
        while i < self.data.len()
            invariant
                i <= self.data@.len(),
                self.bucket_positions@.len() == self.data@.len(),
                out@ == live_entries(self.storage().take(i as int), self.live().take(i as int)),
            decreases self.data@.len() - i,
        {
            if self.bucket_positions[i] != REMOVED_POSITION {
                out.push((i, self.data[i]));
            }
            proof {
                let s1 = self.storage().take(i + 1);
                let l1 = self.live().take(i + 1);
                assert(s1.drop_last() =~= self.storage().take(i as int));
                assert(l1.drop_last() =~= self.live().take(i as int));
                assert(l1.last() == (self.bucket_positions@[i as int] != REMOVED_POSITION));
            }
            i = i + 1;
        }
        proof {
            assert(self.storage().take(i as int) =~= self.storage());
            assert(self.live().take(i as int) =~= self.live());
        }
        out
    }

    /// Bucket `w` holds as many ids as there are live entries of width `w`;
    /// widths without a bucket have none.
    proof fn lemma_bucket_len(&self, w: int)
        requires
            self.inv(),
            0 <= w,
        ensures
            w < self.crud_buckets@.len() ==> self.crud_buckets@[w]@.len() == width_count(
                self.storage(),
                self.live(),
                w as nat,
            ),
            w >= self.crud_buckets@.len() ==> width_count(self.storage(), self.live(), w as nat)
                == 0,
    {
        lemma_width_count_card(self.storage(), self.live(), w as nat);
        let ids = width_ids(self.storage(), self.live(), w as nat);
        if w < self.crud_buckets@.len() {
            let b = self.crud_buckets@[w]@;
            self.lemma_bucket_bound(w);
            b.unique_seq_to_set();
            assert forall|id: usize| b.to_set().contains(id) == ids.contains(id) by {
                self.lemma_bucket_member(w, id);
            }
            assert(b.to_set() =~= ids);
        } else {
            assert forall|id: usize| !ids.contains(id) by {
                if ids.contains(id) {
                    assert(self.bucket_positions@[id as int] != REMOVED_POSITION);
                }
            }
            assert(ids =~= Set::<usize>::empty());
        }
    }

    /// The number of bucket slots: one past the widest live value's width,
    /// or 0 when nothing is live.
    pub fn bucket_slots(&self) -> (r: usize)
        requires
            self.wf(),
        ensures
            forall|i: int|
                0 <= i < self.storage().len() && #[trigger] self.live()[i] ==> bit_width_spec(
                    self.storage()[i],
                ) < r,
            r > 0 ==> width_count(self.storage(), self.live(), (r - 1) as nat) > 0,
    {
        proof {
            assert forall|i: int|
                0 <= i < self.storage().len() && #[trigger] self.live()[i] implies bit_width_spec(
                self.storage()[i],
            ) < self.crud_buckets@.len() by {
                assert(self.bucket_positions@[i] != REMOVED_POSITION);
            }
            if self.crud_buckets@.len() > 0 {
                self.lemma_bucket_len(self.crud_buckets@.len() - 1);
            }
        }
        self.crud_buckets.len()
    }

    /// The number of live entries of bit width `width`.
    pub fn bucket_size(&self, width: usize) -> (r: usize)
        requires
            self.wf(),
        ensures
            r == width_count(self.storage(), self.live(), width as nat),
    {
        proof {
            self.lemma_bucket_len(width as int);
        }
        if width < self.crud_buckets.len() {
            self.crud_buckets[width].len()
        } else {
            0
        }
    }

    /// The histogram of widths below `n` equals that below the bucket count
    /// when `n` is past the last bucket.
    proof fn lemma_histogram_past_buckets(&self, n: nat)
        requires
            self.inv(),
            n >= self.crud_buckets@.len(),
        ensures
            width_histogram(self.storage(), self.live(), n) == width_histogram(
                self.storage(),
                self.live(),
                self.crud_buckets@.len() as nat,
            ),
        decreases n,
    {
        if n > self.crud_buckets@.len() {
            self.lemma_bucket_len(n - 1);
            self.lemma_histogram_past_buckets((n - 1) as nat);
            assert(width_histogram(self.storage(), self.live(), n) =~= width_histogram(
                self.storage(),
                self.live(),
                (n - 1) as nat,
            ));
        }
    }

    /// Per nonempty bucket, in increasing width order, the width and its
    /// number of live entries.
    pub fn distribution_counts(&self) -> (r: Vec<(usize, usize)>)
        requires
            self.wf(),
        ensures
            r@ == width_histogram(self.storage(), self.live(), 65),
    {
        let mut out: Vec<(usize, usize)> = Vec::new();
        let mut w: usize = 0;
        while w < self.crud_buckets.len()
            invariant
                self.wf(),
                w <= self.crud_buckets@.len(),
                out@ == width_histogram(self.storage(), self.live(), w as nat),
            decreases self.crud_buckets@.len() - w,
        {
            proof {
                self.lemma_bucket_len(w as int);
            }
            let count = self.crud_buckets[w].len();
            if count > 0 {
                out.push((w, count));
            }
            w = w + 1;
        }
        proof {
            self.lemma_histogram_past_buckets(65);
        }
        out
    }

    /// The number of bit widths with at least one live entry.
    pub fn active_bucket_count(&self) -> (r: usize)
        requires
            self.wf(),
        ensures
            r == width_histogram(self.storage(), self.live(), 65).len(),
            r == live_widths(self.storage(), self.live()).len(),
            (r == 0) == (live_count(self.live()) == 0),
    {
        proof {
            lemma_live_widths_card(self.storage(), self.live());
        }
        let mut count: usize = 0;
        let mut w: usize = 0;
        while w < self.crud_buckets.len()
            invariant
                self.wf(),
                w <= self.crud_buckets@.len(),
                count == width_histogram(self.storage(), self.live(), w as nat).len(),
                count <= w,
            decreases self.crud_buckets@.len() - w,
        {
            proof {
                self.lemma_bucket_len(w as int);
            }
            if self.crud_buckets[w].len() > 0 {
                count = count + 1;
            }
            w = w + 1;
        }
        proof {
            self.lemma_histogram_past_buckets(65);
        }
        count
    }

    /// The largest number of live entries sharing one bit width.
    pub fn max_bucket_size(&self) -> (r: usize)
        requires
            self.wf(),
        ensures
            forall|w: nat| #[trigger] width_count(self.storage(), self.live(), w) <= r,
            exists|w: nat| #[trigger] width_count(self.storage(), self.live(), w) == r,
    {
        let mut best: usize = 0;
        let mut w: usize = 0;
        proof {
            self.lemma_bucket_len(100);
        }
        while w < self.crud_buckets.len()
            invariant
                self.wf(),
                w <= self.crud_buckets@.len(),
                forall|v: nat| v < w ==> #[trigger] width_count(self.storage(), self.live(), v) <= best,
                exists|v: nat| #[trigger] width_count(self.storage(), self.live(), v) == best,
            decreases self.crud_buckets@.len() - w,
        {
            proof {
                self.lemma_bucket_len(w as int);
            }
            if self.crud_buckets[w].len() > best {
                best = self.crud_buckets[w].len();
            }
            w = w + 1;
        }
        proof {
            assert forall|v: nat| #[trigger] width_count(self.storage(), self.live(), v) <= best by {
                if v >= self.crud_buckets@.len() {
                    self.lemma_bucket_len(v as int);
                }
            }
        }
        best
    }

    /// No tree is waiting for a rebuild.
    pub(crate) open spec fn trees_clean(&self) -> bool {
        forall|w: int| 0 <= w < self.tree_dirty@.len() ==> !#[trigger] self.tree_dirty@[w]
    }

    /// The ids of buckets `0..k` are distinct, and are the live ids of width
    /// below `k`.
    proof fn lemma_bucket_ids_upto(&self, k: int)
        requires
            self.inv(),
            0 <= k <= self.crud_buckets@.len(),
        ensures
            bucket_ids_upto(self.crud_buckets@, k).no_duplicates(),
            forall|id: usize|
                #[trigger] bucket_ids_upto(self.crud_buckets@, k).contains(id) <==> (id as int)
                    < self.data@.len() && self.live()[id as int] && bit_width_spec(
                    self.data@[id as int],
                ) < k,
        decreases k,
    {
        if k > 0 {
            self.lemma_bucket_ids_upto(k - 1);
            let a = bucket_ids_upto(self.crud_buckets@, k - 1);
            let b = self.crud_buckets@[k - 1]@;
            self.lemma_bucket_bound(k - 1);
            assert forall|i: int, j: int| 0 <= i < a.len() && 0 <= j < b.len() implies a[i]
                != b[j] by {
                assert(a.contains(a[i]));
                assert(b.contains(b[j]));
                self.lemma_bucket_member(k - 1, b[j]);
            }
            vstd::seq_lib::lemma_no_dup_in_concat(a, b);
            assert forall|id: usize|
                #[trigger] bucket_ids_upto(self.crud_buckets@, k).contains(id) <==> (id as int)
                    < self.data@.len() && self.live()[id as int] && bit_width_spec(
                    self.data@[id as int],
                ) < k by {
                self.lemma_bucket_member(k - 1, id);
                if (a + b).contains(id) {
                    let j = choose|j: int| 0 <= j < (a + b).len() && (a + b)[j] == id;
                    if j < a.len() {
                        assert(a.contains(id));
                    } else {
                        assert(b[j - a.len()] == id);
                    }
                }
                if a.contains(id) {
                    let j = choose|j: int| 0 <= j < a.len() && a[j] == id;
                    assert((a + b)[j] == id);
                }
                if b.contains(id) {
                    let j = choose|j: int| 0 <= j < b.len() && b[j] == id;
                    assert((a + b)[a.len() + j] == id);
                }
            }
        } else {
            assert forall|id: usize| !#[trigger] bucket_ids_upto(self.crud_buckets@, k).contains(
                id,
            ) by {}
        }
    }

    /// A clean tree holds as many ids as its width has live entries.
    pub(crate) proof fn lemma_clean_tree_len(&self, w: int)
        requires
            self.wf(),
            self.trees_clean(),
            0 <= w < self.trees@.len(),
        ensures
            self.trees@[w].ids().len() == width_count(self.storage(), self.live(), w as nat),
    {
        assert(tree_ok(self.data@, self.crud_buckets@, self.trees@, self.tree_dirty@, w));
        vstd::seq_lib::to_multiset_len(self.trees@[w].ids());
        vstd::seq_lib::to_multiset_len(self.crud_buckets@[w]@);
        self.lemma_bucket_len(w);
    }

    /// The widths of the live values are the widths below the tree count
    /// that have live entries.
    pub(crate) proof fn lemma_live_widths_in_trees(&self)
        requires
            self.wf(),
        ensures
            live_widths(self.storage(), self.live()) == active_widths_below(
                self.storage(),
                self.live(),
                self.trees@.len() as nat,
            ),
    {
        assert forall|w: nat| #[trigger] live_widths(self.storage(), self.live()).contains(w)
            <==> active_widths_below(self.storage(), self.live(), self.trees@.len() as nat).contains(
            w,
        ) by {
            lemma_width_count_positive(self.storage(), self.live(), w);
            self.lemma_bucket_len(w as int);
        }
        assert(live_widths(self.storage(), self.live()) =~= active_widths_below(
            self.storage(),
            self.live(),
            self.trees@.len() as nat,
        ));
    }

    /// With every tree clean, the trees together hold each live id once,
    /// each tree only ids of its own width.
    pub(crate) proof fn lemma_clean_partition(&self)
        requires
            self.wf(),
            self.trees_clean(),
        ensures
            self.trees@.len() == self.crud_buckets@.len(),
            self.storage() == self.data@,
            self.storage().len() < usize::MAX,
            self.storage().len() == self.live().len(),
            self.bucket_positions@.len() == self.data@.len(),
            forall|j: int|
                0 <= j < self.data@.len() ==> (#[trigger] self.live()[j] <==> self.bucket_positions@[j]
                    != REMOVED_POSITION),
            self.live_len == live_count(self.live()),
            self.crud_buckets@.len() == self.tree_dirty@.len(),
            self.crud_buckets@.len() <= 65,
            forall|w: int| 0 <= w < self.trees@.len() ==> (#[trigger] self.trees@[w]).wf(self.data@),
            forall|w: int, id: usize|
                0 <= w < self.trees@.len() && #[trigger] self.trees@[w].ids().contains(id) ==> (
                id as int) < self.data@.len() && bit_width_spec(self.data@[id as int]) == w,
            tree_ids_upto(self.trees@, self.trees@.len() as int).to_multiset() == live_ids(
                self.live(),
            ).to_multiset(),
    {
        let n = self.crud_buckets@.len() as int;
        assert forall|w: int| 0 <= w < self.trees@.len() implies (#[trigger] self.trees@[w]).wf(
            self.data@,
        ) by {
            assert(tree_ok(self.data@, self.crud_buckets@, self.trees@, self.tree_dirty@, w));
        }
        assert forall|w: int, id: usize|
            0 <= w < self.trees@.len() && #[trigger] self.trees@[w].ids().contains(id) implies (
            id as int) < self.data@.len() && bit_width_spec(self.data@[id as int]) == w by {
            self.lemma_tree_member(w, id);
        }
        self.lemma_tree_ids_match(n);
        self.lemma_bucket_ids_upto(n);
        lemma_live_ids(self.live());
        assert forall|id: usize| #[trigger] bucket_ids_upto(self.crud_buckets@, n).contains(id)
            <==> live_ids(self.live()).contains(id) by {
            if (id as int) < self.data@.len() && self.live()[id as int] {
                assert(self.bucket_positions@[id as int] != REMOVED_POSITION);
            }
        }
        lemma_same_members_perm(bucket_ids_upto(self.crud_buckets@, n), live_ids(self.live()));
    }

    /// The trees of widths below `k`, all clean, hold the ids of the buckets
    /// of those widths.
    proof fn lemma_tree_ids_match(&self, k: int)
        requires
            self.inv(),
            self.trees_clean(),
            0 <= k <= self.crud_buckets@.len(),
        ensures
            tree_ids_upto(self.trees@, k).to_multiset() == bucket_ids_upto(
                self.crud_buckets@,
                k,
            ).to_multiset(),
        decreases k,
    {
        if k > 0 {
            self.lemma_tree_ids_match(k - 1);
            assert(tree_ok(self.data@, self.crud_buckets@, self.trees@, self.tree_dirty@, k - 1));
            vstd::seq_lib::lemma_multiset_commutative(
                tree_ids_upto(self.trees@, k - 1),
                self.trees@[k - 1].ids(),
            );
            vstd::seq_lib::lemma_multiset_commutative(
                bucket_ids_upto(self.crud_buckets@, k - 1),
                self.crud_buckets@[k - 1]@,
            );
        }
    }

    /// Rebuilds the buckets from scratch for a store whose first `n_live`
    /// entries are the live ones; every tree is left dirty.
    pub(crate) fn rebuild_buckets(&mut self, n_live: usize)
        requires
            old(self).data@.len() < usize::MAX,
            old(self).bucket_positions@.len() == old(self).data@.len(),
            old(self).crud_buckets@.len() == old(self).trees@.len(),
            old(self).crud_buckets@.len() == old(self).tree_dirty@.len(),
            old(self).crud_buckets@.len() <= 65,
            n_live <= old(self).data@.len(),
            old(self).live_len == n_live,
        ensures
            final(self).wf(),
            final(self).storage() == old(self).data@,
            final(self).live() == live_prefix(old(self).data@.len(), n_live as nat),
    {
        let mut w: usize = 0;
        while w < self.crud_buckets.len()
            invariant
                self.data == old(self).data,
                self.live_len == old(self).live_len,
                self.bucket_positions == old(self).bucket_positions,
                self.crud_buckets@.len() == old(self).crud_buckets@.len(),
                self.trees@.len() == self.crud_buckets@.len(),
                self.tree_dirty@.len() == self.crud_buckets@.len(),
                w <= self.crud_buckets@.len(),
                forall|v: int| 0 <= v < w ==> (#[trigger] self.crud_buckets@[v])@.len() == 0,
                forall|v: int| 0 <= v < w ==> #[trigger] self.tree_dirty@[v],
            decreases self.crud_buckets@.len() - w,
        {
            self.crud_buckets[w].clear();
            self.tree_dirty.set(w, true);
            w = w + 1;
        }
        let mut i: usize = 0;
        while i < self.bucket_positions.len()
            invariant
                self.data == old(self).data,
                self.live_len == old(self).live_len,
                self.bucket_positions@.len() == old(self).data@.len(),
                self.crud_buckets@.len() == old(self).crud_buckets@.len(),
                self.trees@.len() == self.crud_buckets@.len(),
                self.tree_dirty@.len() == self.crud_buckets@.len(),
                forall|v: int|
                    0 <= v < self.crud_buckets@.len() ==> (#[trigger] self.crud_buckets@[v])@.len()
                        == 0,
                forall|v: int| 0 <= v < self.tree_dirty@.len() ==> #[trigger] self.tree_dirty@[v],
                i <= self.bucket_positions@.len(),
                forall|j: int| 0 <= j < i ==> #[trigger] self.bucket_positions@[j] == REMOVED_POSITION,
            decreases self.bucket_positions@.len() - i,
        {
            self.bucket_positions.set(i, REMOVED_POSITION);
            i = i + 1;
        }
        proof {
            assert(crud_ok(self.data@, self.crud_buckets@, self.bucket_positions@));
        }
        let mut location: usize = 0;
        while location < n_live
            invariant
                self.data == old(self).data,
                self.live_len == n_live,
                n_live <= self.data@.len(),
                self.data@.len() < usize::MAX,
                self.bucket_positions@.len() == self.data@.len(),
                crud_ok(self.data@, self.crud_buckets@, self.bucket_positions@),
                self.crud_buckets@.len() == self.trees@.len(),
                self.crud_buckets@.len() == self.tree_dirty@.len(),
                self.crud_buckets@.len() <= 65,
                forall|v: int| 0 <= v < self.tree_dirty@.len() ==> #[trigger] self.tree_dirty@[v],
                location <= n_live,
                forall|j: int|
                    0 <= j < self.data@.len() ==> (#[trigger] self.bucket_positions@[j]
                        != REMOVED_POSITION) == (j < location),
            decreases n_live - location,
        {
            let width = bit_width(self.data[location]);
            let ghost before = *self;
            self.crud_link(location, width);
            proof {
                assert forall|v: int| 0 <= v < self.tree_dirty@.len() implies #[trigger] self.tree_dirty@[v] by {
                    if v < before.crud_buckets@.len() && v != width {
                        assert(before.tree_dirty@[v]);
                    }
                }
                assert forall|j: int| 0 <= j < self.data@.len() implies (
                #[trigger] self.bucket_positions@[j] != REMOVED_POSITION) == (j < location + 1) by {
                    if j != location {
                        assert(self.bucket_positions@[j] == before.bucket_positions@[j]);
                    }
                }
            }
            location = location + 1;
        }
        proof {
            let n = self.data@.len();
            assert(self.live() =~= live_prefix(n, n_live as nat));
            lemma_live_prefix_count(n, n_live as nat);
            assert forall|v: int| 0 <= v < self.crud_buckets@.len() implies #[trigger] tree_ok(
                self.data@,
                self.crud_buckets@,
                self.trees@,
                self.tree_dirty@,
                v,
            ) by {
                assert(self.tree_dirty@[v]);
            }
            assert(self.inv());
        }
        self.shrink_trailing();
    }

    /// The live values in ascending order. Rebuilds dirty trees first; the
    /// stored values and their ids are untouched.
    pub fn sorted_snapshot(&mut self) -> (r: Vec<u64>)
        requires
            old(self).wf(),
            forall|w: nat| #[trigger] width_count(old(self).storage(), old(self).live(), w) <= MAX_TREE_IDS,
        ensures
            final(self).wf(),
            final(self).storage() == old(self).storage(),
            final(self).live() == old(self).live(),
            r@ == sorted_live(old(self).storage(), old(self).live()),
    {
        self.rebuild_all_dirty();
        proof {
            assert(self.live() == old(self).live());
        }
        snapshot_sort::sorted_snapshot(self)
    }

    /// Sorts the store in place: the live values move, in ascending order,
    /// to storage ids `0..len()`, the removed values follow in their old
    /// order, and the index is rebuilt for the new ids.
    pub fn sarkar_sort(&mut self) -> (stats: SarkarSortStats)
        requires
            old(self).wf(),
            forall|w: nat| #[trigger] width_count(old(self).storage(), old(self).live(), w) <= MAX_TREE_IDS,
        ensures
            final(self).wf(),
            final(self).storage() == sorted_live(old(self).storage(), old(self).live())
                + dead_values(old(self).storage(), old(self).live()),
            final(self).live() == live_prefix(
                old(self).storage().len(),
                live_count(old(self).live()),
            ),
            stats.buckets_sorted <= live_count(old(self).live()),
            (stats.buckets_sorted > 0) == (live_count(old(self).live()) > 0),
            stats.swaps <= old(self).storage().len(),
            old(self).rebuilt_leaves_low() <= stats.buckets_sorted <= old(self).rebuilt_leaves_high(),
            exists|p: Seq<usize>|
                #![trigger sort_destinations(p, old(self).storage(), old(self).live())]
                sort_destinations(p, old(self).storage(), old(self).live()) && stats.swaps
                    == misplaced(p, p.len() as int) - moving_cycles(p),
            stats.buckets_sorted >= live_widths(old(self).storage(), old(self).live()).len(),
            old(self).trees_built() ==> stats.buckets_sorted == old(self).filled_leaf_total(),
    {
        self.rebuild_all_dirty();
        proof {
            assert(self.live() == old(self).live());
            Self::lemma_rebuilt_leaves(*old(self), *self, self.trees@.len() as int);
        }
        sarkar_sort::sort_in_place(self)
    }

    /// The same as `sarkar_sort`.
    pub fn sort_in_place(&mut self) -> (stats: SarkarSortStats)
        requires
            old(self).wf(),
            forall|w: nat| #[trigger] width_count(old(self).storage(), old(self).live(), w) <= MAX_TREE_IDS,
        ensures
            final(self).wf(),
            final(self).storage() == sorted_live(old(self).storage(), old(self).live())
                + dead_values(old(self).storage(), old(self).live()),
            final(self).live() == live_prefix(
                old(self).storage().len(),
                live_count(old(self).live()),
            ),
            stats.buckets_sorted <= live_count(old(self).live()),
            (stats.buckets_sorted > 0) == (live_count(old(self).live()) > 0),
            stats.swaps <= old(self).storage().len(),
            old(self).rebuilt_leaves_low() <= stats.buckets_sorted <= old(self).rebuilt_leaves_high(),
            exists|p: Seq<usize>|
                #![trigger sort_destinations(p, old(self).storage(), old(self).live())]
                sort_destinations(p, old(self).storage(), old(self).live()) && stats.swaps
                    == misplaced(p, p.len() as int) - moving_cycles(p),
            stats.buckets_sorted >= live_widths(old(self).storage(), old(self).live()).len(),
            old(self).trees_built() ==> stats.buckets_sorted == old(self).filled_leaf_total(),
    {
        self.sarkar_sort()
    }

    /// The heap bytes the index holds, by capacity (`heap_bytes` of the
    /// capacities of its vectors and the bytes of its trees), saturating at
    /// `usize::MAX`: at least the store and its positions, 8 bytes each per
    /// storage id, and 8 bytes per live id in the buckets.
    pub fn memory_usage_bytes(&self) -> (r: usize)
        requires
            self.wf(),
        ensures
            r >= capped(16 * self.storage().len() as int + 8 * live_count(self.live()) as int),
            r >= capped(
                16 * self.storage().len() as int + 8 * live_count(self.live()) as int
                    + self.tree_heap_floor(),
            ),
            forall|w: int|
                !#[trigger] self.tree_stale(w) ==> r >= capped(
                    16 * self.storage().len() as int + 8 * live_count(self.live()) as int + 8
                        * width_count(self.storage(), self.live(), w as nat),
                ),
    {
        let data_cap = vec_capacity(&self.data);
        let pos_cap = vec_capacity(&self.bucket_positions);
        let mut bucket_caps: Vec<usize> = Vec::new();
        let mut w: usize = 0;
        proof {
            assert(width_total(self.storage(), self.live(), 0) == 0);
        }
        while w < self.crud_buckets.len()
            invariant
                self.wf(),
                w <= self.crud_buckets@.len(),
                bucket_caps@.len() == w,
                total(bucket_caps@) >= width_total(self.storage(), self.live(), w as nat),
            decreases self.crud_buckets@.len() - w,
        {
            let c = vec_capacity(&self.crud_buckets[w]);
            proof {
                self.lemma_bucket_len(w as int);
                assert(bucket_caps@.push(c).drop_last() =~= bucket_caps@);
            }
            bucket_caps.push(c);
            w = w + 1;
        }
        let mut tree_bytes: Vec<usize> = Vec::new();
        let mut t: usize = 0;
        while t < self.trees.len()
            invariant
                t <= self.trees@.len(),
                tree_bytes@.len() == t,
                total(tree_bytes@) >= 0,
                capped(total(tree_bytes@)) >= capped(tree_floor_upto(self.trees@, t as int)),
            decreases self.trees@.len() - t,
        {
            let b = self.trees[t].tree_overhead_bytes();
            let ghost before = tree_bytes@;
            tree_bytes.push(b);
            proof {
                assert(tree_bytes@.drop_last() =~= before);
                lemma_tree_floor_nonneg(self.trees@, t as int);
                lemma_capped_accumulate(
                    total(before),
                    tree_floor_upto(self.trees@, t as int),
                    b as int,
                    (4 * self.trees@[t as int].child_slots@.len() + 8 * self.trees@[t as int].ids().len()) as int,
                );
            }
            t = t + 1;
        }
        let table_cap = vec_capacity(&self.crud_buckets);
        let trees_cap = vec_capacity(&self.trees);
        let dirty_cap = vec_capacity(&self.tree_dirty);
        let r = heap_bytes(
            data_cap,
            pos_cap,
            table_cap,
            core::mem::size_of::<Vec<usize>>(),
            bucket_caps.as_slice(),
            trees_cap,
            core::mem::size_of::<FlatBucket>(),
            tree_bytes.as_slice(),
            dirty_cap,
        );
        proof {
            self.lemma_width_total_past_buckets(65);
            law_bucket_sizes_sum_to_len(self.storage(), self.live());
            lemma_total_nonneg(tree_bytes@);
            let lc = live_count(self.live()) as int;
            let n = self.storage().len() as int;
            assert(table_cap * core::mem::size_of::<Vec<usize>>() >= 0) by (nonlinear_arith);
            assert(trees_cap * core::mem::size_of::<FlatBucket>() >= 0) by (nonlinear_arith);
            assert(8 * data_cap + 8 * pos_cap + 8 * total(bucket_caps@) >= 16 * n + 8 * lc);
            let a = 8 * data_cap + 8 * pos_cap + table_cap * core::mem::size_of::<Vec<usize>>() + 8
                * total(bucket_caps@) + trees_cap * core::mem::size_of::<FlatBucket>() + dirty_cap;
            lemma_tree_floor_nonneg(self.trees@, self.trees@.len() as int);
            lemma_capped_combine(a, 16 * n + 8 * lc, total(tree_bytes@), self.tree_heap_floor());
            assert(r == capped(a + total(tree_bytes@)));
            assert forall|w: int| !#[trigger] self.tree_stale(w) implies r >= capped(
                16 * n + 8 * lc + 8 * width_count(self.storage(), self.live(), w as nat),
            ) by {
                self.law_built_tree_counts_in_heap(w);
            }
        }
        r
    }

    /// The least heap bytes the trees hold: 4 bytes per child slot and 8 per
    /// id held, over every tree.
    pub closed spec fn tree_heap_floor(&self) -> int {
        tree_floor_upto(self.trees@, self.trees@.len() as int)
    }

    /// The trees' heap floor is never negative, and a built tree counts 8
    /// bytes for every live entry of its width: the lookup trees take part
    /// in the heap usage.
    pub proof fn law_built_tree_counts_in_heap(&self, width: int)
        requires
            self.wf(),
            !self.tree_stale(width),
        ensures
            self.tree_heap_floor() >= 8 * width_count(self.storage(), self.live(), width as nat),
            self.tree_heap_floor() >= 0,
    {
        assert(tree_ok(self.data@, self.crud_buckets@, self.trees@, self.tree_dirty@, width));
        vstd::seq_lib::to_multiset_len(self.trees@[width].ids());
        vstd::seq_lib::to_multiset_len(self.crud_buckets@[width]@);
        self.lemma_bucket_len(width);
        lemma_tree_floor_covers(self.trees@, self.trees@.len() as int, width);
    }

    /// The count of live entries of widths below `n` is that below the
    /// bucket count when `n` is past the last bucket.
    proof fn lemma_width_total_past_buckets(&self, n: nat)
        requires
            self.inv(),
            n >= self.crud_buckets@.len(),
        ensures
            width_total(self.storage(), self.live(), n) == width_total(
                self.storage(),
                self.live(),
                self.crud_buckets@.len() as nat,
            ),
        decreases n,
    {
        if n > self.crud_buckets@.len() {
            self.lemma_bucket_len(n - 1);
            self.lemma_width_total_past_buckets((n - 1) as nat);
        }
    }

    /// Whether the tree of `width` is to be built afresh by the next lookup of
    /// that width: it has never been built, or a change marked it dirty.
    pub closed spec fn tree_stale(&self, width: int) -> bool {
        !(0 <= width < self.tree_dirty@.len()) || self.tree_dirty@[width]
    }

    /// Every live leaf of the tree of `width` holds at most `LEAF_CAP` ids or
    /// has spent all 64 routing bits (so that its ids share one value).
    pub closed spec fn leaves_capped(&self, width: int) -> bool {
        0 <= width < self.trees@.len() ==> leaves_within_cap(self.trees@[width].nodes@)
    }

    /// The fewest nonempty leaves the trees have once every dirty tree is
    /// rebuilt.
    pub closed spec fn rebuilt_leaves_low(&self) -> nat {
        leaf_low_upto(self.trees@, self.tree_dirty@, self.storage(), self.live(), self.trees@.len() as int)
    }

    /// The most nonempty leaves the trees have once every dirty tree is
    /// rebuilt.
    pub closed spec fn rebuilt_leaves_high(&self) -> nat {
        leaf_high_upto(self.trees@, self.tree_dirty@, self.storage(), self.live(), self.trees@.len() as int)
    }

    /// The nonempty leaves of the trees after rebuilding lie between the two
    /// bounds.
    proof fn lemma_rebuilt_leaves(prev: Bwspi, mid: Bwspi, k: int)
        requires
            prev.wf(),
            mid.wf(),
            mid.trees_clean(),
            mid.storage() == prev.storage(),
            mid.live() == prev.live(),
            mid.trees@.len() == prev.trees@.len(),
            0 <= k <= prev.trees@.len(),
            forall|v: int|
                0 <= v < prev.trees@.len() && !prev.tree_dirty@[v] ==> #[trigger] mid.trees@[v]
                    == prev.trees@[v],
            forall|v: int|
                0 <= v < prev.trees@.len() && prev.tree_dirty@[v] && 0 < width_count(
                    prev.storage(),
                    prev.live(),
                    v as nat,
                ) <= LEAF_CAP ==> filled_leaves(#[trigger] mid.trees@[v].nodes@) == 1,
        ensures
            leaf_low_upto(prev.trees@, prev.tree_dirty@, prev.storage(), prev.live(), k)
                <= filled_leaves_upto(mid.trees@, k) <= leaf_high_upto(
                prev.trees@,
                prev.tree_dirty@,
                prev.storage(),
                prev.live(),
                k,
            ),
        decreases k,
    {
        if k > 0 {
            Self::lemma_rebuilt_leaves(prev, mid, k - 1);
            let v = k - 1;
            if prev.tree_dirty@[v] {
                mid.lemma_clean_tree_len(v);
                lemma_filled_leaves_bounds(mid.trees@[v].nodes@);
                assert(mid.trees@[v].nodes@ == mid.trees@[v].nodes@);
            } else {
                assert(mid.trees@[v] == prev.trees@[v]);
            }
        }
    }

    /// When every tree is built, the bounds meet at the trees' own count.
    pub proof fn law_built_trees_fix_leaf_count(&self)
        requires
            self.wf(),
            self.trees_built(),
        ensures
            self.rebuilt_leaves_low() == self.filled_leaf_total(),
            self.rebuilt_leaves_high() == self.filled_leaf_total(),
    {
        self.lemma_leaf_bounds_clean(self.trees@.len() as int);
    }

    proof fn lemma_leaf_bounds_clean(&self, k: int)
        requires
            self.wf(),
            self.trees_clean(),
            0 <= k <= self.trees@.len(),
        ensures
            leaf_low_upto(self.trees@, self.tree_dirty@, self.storage(), self.live(), k)
                == filled_leaves_upto(self.trees@, k),
            leaf_high_upto(self.trees@, self.tree_dirty@, self.storage(), self.live(), k)
                == filled_leaves_upto(self.trees@, k),
        decreases k,
    {
        if k > 0 {
            self.lemma_leaf_bounds_clean(k - 1);
        }
    }

    /// When no dirty tree has more than `LEAF_CAP` live entries of its width
    /// (each rebuilds as a single leaf), the bounds meet: the count is exact.
    pub proof fn law_small_rebuilds_fix_leaf_count(&self)
        requires
            self.wf(),
            forall|w: int|
                #[trigger] self.tree_stale(w) ==> width_count(self.storage(), self.live(), w as nat)
                    <= LEAF_CAP,
        ensures
            self.rebuilt_leaves_low() == self.rebuilt_leaves_high(),
    {
        self.lemma_leaf_bounds_small(self.trees@.len() as int);
    }

    proof fn lemma_leaf_bounds_small(&self, k: int)
        requires
            self.wf(),
            forall|w: int|
                #[trigger] self.tree_stale(w) ==> width_count(self.storage(), self.live(), w as nat)
                    <= LEAF_CAP,
            0 <= k <= self.trees@.len(),
        ensures
            leaf_low_upto(self.trees@, self.tree_dirty@, self.storage(), self.live(), k)
                == leaf_high_upto(self.trees@, self.tree_dirty@, self.storage(), self.live(), k),
        decreases k,
    {
        if k > 0 {
            self.lemma_leaf_bounds_small(k - 1);
            assert(self.tree_stale(k - 1) == self.tree_dirty@[k - 1]);
        }
    }

    /// Every width with a live entry adds at least one leaf: the rebuilt
    /// trees have at least as many nonempty leaves as there are live widths.
    pub proof fn law_rebuilt_leaves_cover_widths(&self)
        requires
            self.wf(),
        ensures
            self.rebuilt_leaves_low() >= live_widths(self.storage(), self.live()).len(),
    {
        self.lemma_live_widths_in_trees();
        self.lemma_leaf_low_widths(self.trees@.len() as int);
    }

    proof fn lemma_leaf_low_widths(&self, k: int)
        requires
            self.wf(),
            0 <= k <= self.trees@.len(),
        ensures
            active_widths_below(self.storage(), self.live(), k as nat).finite(),
            leaf_low_upto(self.trees@, self.tree_dirty@, self.storage(), self.live(), k)
                >= active_widths_below(self.storage(), self.live(), k as nat).len(),
        decreases k,
    {
        if k == 0 {
            assert(active_widths_below(self.storage(), self.live(), 0) =~= Set::<nat>::empty());
        } else {
            self.lemma_leaf_low_widths(k - 1);
            let v = k - 1;
            let prev = active_widths_below(self.storage(), self.live(), v as nat);
            let next = active_widths_below(self.storage(), self.live(), k as nat);
            if width_count(self.storage(), self.live(), v as nat) > 0 {
                assert(next =~= prev.insert(v as nat));
                if !self.tree_dirty@[v] {
                    assert(tree_ok(self.data@, self.crud_buckets@, self.trees@, self.tree_dirty@, v));
                    vstd::seq_lib::to_multiset_len(self.trees@[v].ids());
                    vstd::seq_lib::to_multiset_len(self.crud_buckets@[v]@);
                    self.lemma_bucket_len(v);
                    lemma_filled_leaves_bounds(self.trees@[v].nodes@);
                }
            } else {
                assert(next =~= prev);
            }
        }
    }

    /// Whether every bucket's tree is built and current.
    pub closed spec fn trees_built(&self) -> bool {
        self.trees_clean()
    }

    /// The number of nonempty leaves over all the trees.
    pub closed spec fn filled_leaf_total(&self) -> nat {
        filled_leaves_upto(self.trees@, self.trees@.len() as int)
    }

    /// Whether the tree of `width` exists and its root has children.
    pub closed spec fn root_split(&self, width: int) -> bool {
        &&& 0 <= width < self.trees@.len()
        &&& self.trees@[width].nodes@.len() > 0
        &&& !self.trees@[width].nodes@[0].is_leaf()
    }

    /// The height of the tree of `width`; 0 when it has no nodes or does not
    /// exist.
    pub closed spec fn tree_height(&self, width: int) -> nat {
        if 0 <= width < self.trees@.len() && self.trees@[width].nodes@.len() > 0 {
            height(self.trees@[width].nodes@, self.trees@[width].child_slots@, 0)
        } else {
            0
        }
    }

    /// A built tree of capped leaves whose root has not split is one leaf, so
    /// its width has at most `LEAF_CAP` live entries.
    pub proof fn lemma_unsplit_tree_is_small(&self, width: int)
        requires
            self.wf(),
            !self.tree_stale(width),
            self.leaves_capped(width),
            !self.root_split(width),
        ensures
            width_count(self.storage(), self.live(), width as nat) <= LEAF_CAP,
    {
        assert(tree_ok(self.data@, self.crud_buckets@, self.trees@, self.tree_dirty@, width));
        let t = self.trees@[width];
        lemma_unsplit_tree_ids(t, self.data@);
        vstd::seq_lib::to_multiset_len(t.ids());
        vstd::seq_lib::to_multiset_len(self.crud_buckets@[width]@);
        self.lemma_bucket_len(width);
    }

    /// A tree has height zero exactly when its root has not split.
    pub proof fn lemma_split_iff_tall(&self, width: int)
        ensures
            self.root_split(width) <==> self.tree_height(width) > 0,
    {
    }

    /// Whether the tree of `width` has split its root into children.
    pub fn tree_has_split(&self, width: usize) -> (r: bool)
        requires
            self.wf(),
        ensures
            r == self.root_split(width as int),
    {
        width < self.trees.len() && self.trees[width].has_split()
    }

    /// The height of the tree of `width` (0 when there is none).
    pub fn tree_max_depth(&self, width: usize) -> (r: usize)
        requires
            self.wf(),
        ensures
            r == self.tree_height(width as int),
    {
        if width < self.trees.len() {
            self.trees[width].max_depth()
        } else {
            0
        }
    }

    /// The storage ids of the live entries of bit width `width`, in bucket
    /// order.
    pub fn bucket_indices(&self, width: usize) -> (r: &[usize])
        requires
            self.wf(),
        ensures
            r@.no_duplicates(),
            forall|id: usize|
                #[trigger] r@.contains(id) <==> (id as int) < self.storage().len() && self.live()[id as int]
                    && bit_width_spec(self.storage()[id as int]) == width,
    {
        if width < self.crud_buckets.len() {
            proof {
                self.lemma_bucket_bound(width as int);
                assert forall|id: usize|
                    #[trigger] self.crud_buckets@[width as int]@.contains(id) <==> (id as int) < self.storage().len()
                        && self.live()[id as int] && bit_width_spec(self.storage()[id as int]) == width by {
                    self.lemma_bucket_member(width as int, id);
                }
            }
            self.crud_buckets[width].as_slice()
        } else {
            proof {
                assert forall|id: usize|
                    !((id as int) < self.storage().len() && self.live()[id as int] && bit_width_spec(
                        self.storage()[id as int],
                    ) == width) by {
                    if (id as int) < self.storage().len() && self.live()[id as int] {
                        assert(self.bucket_positions@[id as int] != REMOVED_POSITION);
                    }
                }
            }
            &[]
        }
    }

    /// The value of a live storage id.
    pub fn get(&self, index: usize) -> (r: Option<u64>)
        requires
            self.wf(),
        ensures
            r == if (index as int) < self.storage().len() && self.live()[index as int] {
                Some(self.storage()[index as int])
            } else {
                None::<u64>
            },
    {
        if index < self.bucket_positions.len() && self.bucket_positions[index] != REMOVED_POSITION {
            Some(self.data[index])
        } else {
            None
        }
    }

    /// Whether some live entry holds `target`.
    pub fn contains(&mut self, target: u64) -> (r: bool)
        requires
            old(self).wf(),
            width_count(old(self).storage(), old(self).live(), bit_width_spec(target)) <= MAX_TREE_IDS,
        ensures
            final(self).wf(),
            final(self).storage() == old(self).storage(),
            final(self).live() == old(self).live(),
            r == holds(old(self).storage(), old(self).live(), target),
            old(self).tree_stale(bit_width_spec(target) as int) ==> (final(self).root_split(
                bit_width_spec(target) as int,
            ) <==> width_count(old(self).storage(), old(self).live(), bit_width_spec(target))
                > LEAF_CAP),
            old(self).tree_stale(bit_width_spec(target) as int) ==> final(self).leaves_capped(
                bit_width_spec(target) as int,
            ),
    {
        let w = bit_width(target);
        self.ensure_tree_clean(w);
        proof {
            assert(self.live() == old(self).live());
        }
        if w >= self.trees.len() {
            proof {
                self.lemma_no_bucket_no_value(target);
            }
            return false;
        }
        proof {
            self.lemma_tree_has_value(w as int, target);
            assert(tree_ok(self.data@, self.crud_buckets@, self.trees@, self.tree_dirty@, w as int));
        }
        self.trees[w].lsb_contains(target, &self.data)
    }

    /// Some live storage id holding `target`, if any.
    pub fn find(&mut self, target: u64) -> (r: Option<usize>)
        requires
            old(self).wf(),
            width_count(old(self).storage(), old(self).live(), bit_width_spec(target)) <= MAX_TREE_IDS,
        ensures
            final(self).wf(),
            final(self).storage() == old(self).storage(),
            final(self).live() == old(self).live(),
            match r {
                Some(id) => (id as int) < old(self).storage().len() && old(self).live()[id as int]
                    && old(self).storage()[id as int] == target,
                None => !holds(old(self).storage(), old(self).live(), target),
            },
            old(self).tree_stale(bit_width_spec(target) as int) ==> (final(self).root_split(
                bit_width_spec(target) as int,
            ) <==> width_count(old(self).storage(), old(self).live(), bit_width_spec(target))
                > LEAF_CAP),
            old(self).tree_stale(bit_width_spec(target) as int) ==> final(self).leaves_capped(
                bit_width_spec(target) as int,
            ),
    {
        let w = bit_width(target);
        self.ensure_tree_clean(w);
        proof {
            assert(self.live() == old(self).live());
        }
        if w >= self.trees.len() {
            proof {
                self.lemma_no_bucket_no_value(target);
            }
            return None;
        }
        proof {
            self.lemma_tree_has_value(w as int, target);
            assert(tree_ok(self.data@, self.crud_buckets@, self.trees@, self.tree_dirty@, w as int));
        }
        let r = self.trees[w].lsb_find(target, &self.data);
        proof {
            if let Some(id) = r {
                self.lemma_tree_member(w as int, id);
            }
        }
        r
    }

    /// Every live storage id holding `target`, ascending.
    pub fn find_all(&mut self, target: u64) -> (r: Vec<usize>)
        requires
            old(self).wf(),
            width_count(old(self).storage(), old(self).live(), bit_width_spec(target)) <= MAX_TREE_IDS,
        ensures
            final(self).wf(),
            final(self).storage() == old(self).storage(),
            final(self).live() == old(self).live(),
            r@ == ids_holding(old(self).storage(), old(self).live(), target),
            old(self).tree_stale(bit_width_spec(target) as int) ==> (final(self).root_split(
                bit_width_spec(target) as int,
            ) <==> width_count(old(self).storage(), old(self).live(), bit_width_spec(target))
                > LEAF_CAP),
            old(self).tree_stale(bit_width_spec(target) as int) ==> final(self).leaves_capped(
                bit_width_spec(target) as int,
            ),
    {
        let w = bit_width(target);
        self.ensure_tree_clean(w);
        proof {
            assert(self.live() == old(self).live());
            lemma_ids_holding(self.storage(), self.live(), target);
        }
        if w >= self.trees.len() {
            proof {
                let h = ids_holding(self.storage(), self.live(), target);
                if h.len() > 0 {
                    assert(h.contains(h[0]));
                    self.lemma_no_bucket_no_value(target);
                }
            }
            return Vec::new();
        }
        proof {
            assert(tree_ok(self.data@, self.crud_buckets@, self.trees@, self.tree_dirty@, w as int));
            self.lemma_bucket_bound(w as int);
            let t = self.trees@[w as int].ids();
            let b = self.crud_buckets@[w as int]@;
            b.lemma_multiset_has_no_duplicates();
            t.lemma_multiset_has_no_duplicates_conv();
        }
        let mut r = self.trees[w].lsb_find_all(target, &self.data);
        let ghost found = r@;
        sort_ids(&mut r);
        proof {
            let h = ids_holding(self.storage(), self.live(), target);
            assert forall|id: usize| found.contains(id) <==> h.contains(id) by {
                self.lemma_tree_member(w as int, id);
            }
            assert(h.no_duplicates()) by {
                assert forall|i: int, j: int| 0 <= i < h.len() && 0 <= j < h.len() && i != j implies h[i]
                    != h[j] by {
                    if i < j {
                        assert(h[i] < h[j]);
                    } else {
                        assert(h[j] < h[i]);
                    }
                }
            }
            lemma_same_members_perm(found, h);
            lemma_usize_ascending_total();
            assert(sorted_by(r@, usize_ascending())) by {
                assert forall|i: int, j: int| 0 <= i < j < r@.len() implies #[trigger] (usize_ascending())(
                    r@[i],
                    r@[j],
                ) by {
                    assert(r@[i] <= r@[j]);
                }
            }
            assert(sorted_by(h, usize_ascending())) by {
                assert forall|i: int, j: int| 0 <= i < j < h.len() implies #[trigger] (usize_ascending())(
                    h[i],
                    h[j],
                ) by {
                    assert(h[i] < h[j]);
                }
            }
            vstd::seq_lib::lemma_sorted_unique(r@, h, usize_ascending());
        }
        r
    }

    /// The number of live entries.
    pub fn len(&self) -> (r: usize)
        requires
            self.wf(),
        ensures
            r == live_count(self.live()),
    {
        self.live_len
    }

    /// The number of storage ids ever handed out.
    pub fn storage_len(&self) -> (r: usize)
        requires
            self.wf(),
        ensures
            r == self.storage().len(),
    {
        self.data.len()
    }

    /// Whether no entry is live.
    pub fn is_empty(&self) -> (r: bool)
        requires
            self.wf(),
        ensures
            r == (live_count(self.live()) == 0),
    {
        self.live_len == 0
    }

    /// The whole data store, removed entries included.
    pub fn data(&self) -> (r: &[u64])
        requires
            self.wf(),
        ensures
            r@ == self.storage(),
    {
        self.data.as_slice()
    }
}

impl Default for Bwspi {
    /// An empty index.
    fn default() -> (r: Self)
        ensures
            r.wf(),
            r.storage() == Seq::<u64>::empty(),
            r.live() == Seq::<bool>::empty(),
    {
        Self::new()
    }
}

} // verus!
