//! The dense LSB radix tree that answers lookups inside one bit-width bucket.
//!
//! Nodes live in one flat vector; node 0 is the root. A node routes by the six
//! bits `bit_offset..bit_offset + 6` of a value; each internal node owns 64
//! consecutive child slots. Leaves hold storage ids sorted by value.
//!
//! Every live node carries (as ghost state) the low-bit prefix that all values
//! routed through it share. The structural invariant states, per node and per
//! pair of nodes, what routing by prefixes needs: children extend their
//! parent's prefix by their slot, a live node below an internal node is
//! reachable through the matching slot, and no live node lies at or below a
//! live leaf other than the leaf itself.

use vstd::prelude::*;
use vstd::multiset::Multiset;
use super::sorting::{sort_ids_by_value, sorted_by_value};
use super::heap::{capped, lemma_total_nonneg, total, tree_bytes, vec_capacity};
use super::bits::{
    lemma_slot_bit_cleared_empty,
    lemma_extend_prefix, lemma_no_slot_bit_in_zero, lemma_slot_bit_other, lemma_slot_of_fits,
    lemma_low_bits_full_width, lemma_low_bits_nest, lemma_low_bits_of_zero_width, lemma_low_bits_step, lemma_slot_bit_set,
    lemma_slot_of_bound, lemma_slot_of_low_bits, low_bits, slot_bit, slot_of,
};

verus! {

broadcast use vstd::seq_lib::group_to_multiset_ensures;

pub const SPLIT_BITS: u8 = 6;

pub const SPLIT_FANOUT: usize = 64;

pub const LEAF_CAP: usize = 64;

pub const NO_CHILD: u32 = 0xffff_ffff;

pub struct FlatNode {
    /// Storage ids at leaf level, sorted by value. Empty for internal nodes.
    pub entries: Vec<usize>,
    /// The node routes by bits `bit_offset .. bit_offset + 6`.
    pub bit_offset: u8,
    /// Bit `i` is set when child `i` exists. Zero means this node is a leaf.
    pub child_bitmap: u64,
    /// Start of this node's 64 child slots inside `FlatBucket::child_slots`.
    pub children_start: usize,
    /// The low `bit_offset` bits shared by every value routed to this node.
    pub prefix: Ghost<u64>,
    /// Whether the node is reachable from the root.
    pub live: Ghost<bool>,
}

pub struct FlatBucket {
    pub nodes: Vec<FlatNode>,
    pub child_slots: Vec<u32>,
}

impl FlatNode {
    pub open spec fn is_leaf(&self) -> bool {
        self.child_bitmap == 0
    }

    pub open spec fn bo(&self) -> u64 {
        self.bit_offset as u64
    }

    pub open spec fn has_child(&self, q: u64) -> bool {
        self.child_bitmap & slot_bit(q) != 0
    }

    pub open spec fn covers(&self, t: u64) -> bool {
        low_bits(t, self.bo()) == self.prefix@
    }

    /// What the node adds to the tree's contents: its entries when it is a leaf.
    pub open spec fn held(&self) -> Seq<usize> {
        if self.is_leaf() {
            self.entries@
        } else {
            Seq::empty()
        }
    }
}

/// Some id of `ids` names value `t`.
pub open spec fn has_value(ids: Seq<usize>, data: Seq<u64>, t: u64) -> bool {
    exists|k: int| 0 <= k < ids.len() && data[ids[k] as int] == t
}

pub open spec fn entries_ok(n: FlatNode, data: Seq<u64>) -> bool {
    &&& forall|k: int|
        0 <= k < n.entries@.len() ==> (#[trigger] n.entries@[k] as int) < data.len() && n.covers(
            data[n.entries@[k] as int],
        )
    &&& sorted_by_value(n.entries@, data)
}

pub open spec fn node_ok(nodes: Seq<FlatNode>, slots: Seq<u32>, data: Seq<u64>, i: int) -> bool {
    let n = nodes[i];
    &&& !n.is_leaf() ==> {
        &&& n.live@
        &&& n.bit_offset < 64
        &&& n.children_start % 64 == 0
        &&& n.children_start + 64 <= slots.len()
        &&& n.entries@.len() == 0
    }
    &&& !n.live@ ==> n.is_leaf() && n.entries@.len() == 0
    &&& n.live@ ==> n.bit_offset % 6 == 0 && n.bit_offset <= 66 && low_bits(n.prefix@, n.bo())
        == n.prefix@
    &&& entries_ok(n, data)
}

/// Slot `q` of internal node `i` leads to a live child one level down whose
/// prefix extends the parent's by `q`.
pub open spec fn link_ok(nodes: Seq<FlatNode>, slots: Seq<u32>, i: int, q: u64) -> bool {
    let n = nodes[i];
    let c = slots[n.children_start + q] as int;
    &&& 0 <= c < nodes.len()
    &&& (q << n.bo()) >> n.bo() == q
    &&& nodes[c].live@
    &&& nodes[c].bo() == n.bo() + 6
    &&& nodes[c].prefix@ == n.prefix@ | (q << n.bo())
}

pub open spec fn child_ok(nodes: Seq<FlatNode>, slots: Seq<u32>, i: int) -> bool {
    forall|q: u64| q < 64 && #[trigger] nodes[i].has_child(q) ==> link_ok(nodes, slots, i, q)
}

/// `m` lies in the region that `n` routes: deeper, and sharing `n`'s prefix.
pub open spec fn below(m: FlatNode, n: FlatNode) -> bool {
    n.bo() < m.bo() && low_bits(m.prefix@, n.bo()) == n.prefix@
}

pub open spec fn pair_ok(nodes: Seq<FlatNode>, a: int, b: int) -> bool {
    let na = nodes[a];
    let nb = nodes[b];
    &&& na.live@ && nb.live@ && a != b ==> !(na.bo() == nb.bo() && na.prefix@ == nb.prefix@)
    &&& na.live@ && na.is_leaf() && nb.live@ && a != b ==> !(na.bo() <= nb.bo() && low_bits(
        nb.prefix@,
        na.bo(),
    ) == na.prefix@)
    &&& na.live@ && !na.is_leaf() && nb.live@ && below(nb, na) ==> na.has_child(
        slot_of(nb.prefix@, na.bo()),
    )
    &&& !na.is_leaf() && !nb.is_leaf() && a != b ==> na.children_start != nb.children_start
}

pub open spec fn tree_wf(nodes: Seq<FlatNode>, slots: Seq<u32>, data: Seq<u64>) -> bool {
    &&& nodes.len() <= 0xffff_ffff
    &&& slots.len() % 64 == 0
    &&& slots.len() <= 64 * nodes.len()
    &&& nodes.len() > 0 ==> nodes[0].live@ && nodes[0].bit_offset == 0 && nodes[0].prefix@ == 0
    &&& forall|i: int|
        0 <= i < nodes.len() ==> #[trigger] node_ok(nodes, slots, data, i) && child_ok(
            nodes,
            slots,
            i,
        )
    &&& forall|a: int, b: int|
        0 <= a < nodes.len() && 0 <= b < nodes.len() ==> #[trigger] pair_ok(nodes, a, b)
}

/// The number of nodes holding at least one id: the nonempty leaves.
pub open spec fn filled_leaves(nodes: Seq<FlatNode>) -> nat
    decreases nodes.len(),
{
    if nodes.len() == 0 {
        0
    } else {
        filled_leaves(nodes.drop_last()) + if nodes.last().held().len() > 0 {
            1nat
        } else {
            0nat
        }
    }
}

/// There are no more nonempty leaves than held ids, and some exactly when
/// an id is held.
pub proof fn lemma_filled_leaves_bounds(nodes: Seq<FlatNode>)
    ensures
        filled_leaves(nodes) <= leaf_seq(nodes).len(),
        (filled_leaves(nodes) > 0) == (leaf_seq(nodes).len() > 0),
    decreases nodes.len(),
{
    if nodes.len() > 0 {
        lemma_filled_leaves_bounds(nodes.drop_last());
    }
}

/// The ids held by the leaves, in node order.
pub open spec fn leaf_seq(nodes: Seq<FlatNode>) -> Seq<usize>
    decreases nodes.len(),
{
    if nodes.len() == 0 {
        Seq::empty()
    } else {
        leaf_seq(nodes.drop_last()) + nodes.last().held()
    }
}

pub proof fn lemma_leaf_seq_concat(a: Seq<FlatNode>, b: Seq<FlatNode>)
    ensures
        leaf_seq(a + b) == leaf_seq(a) + leaf_seq(b),
    decreases b.len(),
{
    if b.len() == 0 {
        assert(a + b =~= a);
        assert(leaf_seq(a) + leaf_seq(b) =~= leaf_seq(a));
    } else {
        lemma_leaf_seq_concat(a, b.drop_last());
        assert((a + b).drop_last() =~= a + b.drop_last());
        assert((a + b).last() == b.last());
        assert(leaf_seq(a) + leaf_seq(b.drop_last()) + b.last().held() =~= leaf_seq(a) + (
        leaf_seq(b.drop_last()) + b.last().held()));
    }
}

pub proof fn lemma_leaf_seq_single(x: FlatNode)
    ensures
        leaf_seq(seq![x]) == x.held(),
{
    assert(seq![x].drop_last() =~= Seq::<FlatNode>::empty());
    assert(leaf_seq(Seq::<FlatNode>::empty()) + x.held() =~= x.held());
}

pub proof fn lemma_leaf_seq_split(nodes: Seq<FlatNode>, i: int)
    requires
        0 <= i < nodes.len(),
    ensures
        leaf_seq(nodes) == leaf_seq(nodes.take(i)) + nodes[i].held() + leaf_seq(
            nodes.skip(i + 1),
        ),
{
    assert(nodes =~= nodes.take(i) + seq![nodes[i]] + nodes.skip(i + 1));
    lemma_leaf_seq_concat(nodes.take(i) + seq![nodes[i]], nodes.skip(i + 1));
    lemma_leaf_seq_concat(nodes.take(i), seq![nodes[i]]);
    lemma_leaf_seq_single(nodes[i]);
}

pub proof fn lemma_leaf_seq_push(nodes: Seq<FlatNode>, x: FlatNode)
    ensures
        leaf_seq(nodes.push(x)) == leaf_seq(nodes) + x.held(),
{
    assert(nodes.push(x).drop_last() =~= nodes);
}

/// Replacing one node changes the contents by exactly that node's share.
pub proof fn lemma_leaf_seq_update(nodes: Seq<FlatNode>, i: int, x: FlatNode)
    requires
        0 <= i < nodes.len(),
    ensures
        leaf_seq(nodes.update(i, x)).to_multiset().add(nodes[i].held().to_multiset())
            == leaf_seq(nodes).to_multiset().add(x.held().to_multiset()),
{
    broadcast use vstd::seq_lib::lemma_multiset_commutative;
    broadcast use vstd::multiset::group_multiset_axioms;

    let u = nodes.update(i, x);
    lemma_leaf_seq_split(nodes, i);
    lemma_leaf_seq_split(u, i);
    assert(u.take(i) =~= nodes.take(i));
    assert(u.skip(i + 1) =~= nodes.skip(i + 1));
    let a = leaf_seq(nodes.take(i)).to_multiset();
    let b = leaf_seq(nodes.skip(i + 1)).to_multiset();
    let c = nodes[i].held().to_multiset();
    let d = x.held().to_multiset();
    assert(a.add(d).add(b).add(c) =~= a.add(c).add(b).add(d));
}

/// An id is in the contents exactly when some leaf holds it.
pub proof fn lemma_leaf_seq_member(nodes: Seq<FlatNode>, id: usize)
    ensures
        leaf_seq(nodes).contains(id) <==> exists|i: int, k: int|
            0 <= i < nodes.len() && 0 <= k < nodes[i].held().len() && nodes[i].held()[k]
                == id,
    decreases nodes.len(),
{
    if nodes.len() > 0 {
        let pre = nodes.drop_last();
        lemma_leaf_seq_member(pre, id);
        let l = leaf_seq(pre);
        let c = nodes.last().held();
        if leaf_seq(nodes).contains(id) {
            let j = choose|j: int| 0 <= j < leaf_seq(nodes).len() && leaf_seq(nodes)[j] == id;
            if j < l.len() {
                assert(l[j] == id);
                let (i, k) = choose|i: int, k: int|
                    0 <= i < pre.len() && 0 <= k < pre[i].held().len() && pre[i].held()[k]
                        == id;
                assert(nodes[i] == pre[i]);
            } else {
                assert(c[j - l.len()] == id);
                assert(nodes[nodes.len() - 1] == nodes.last());
            }
        }
        if exists|i: int, k: int|
            0 <= i < nodes.len() && 0 <= k < nodes[i].held().len() && nodes[i].held()[k]
                == id {
            let (i, k) = choose|i: int, k: int|
                0 <= i < nodes.len() && 0 <= k < nodes[i].held().len() && nodes[i].held()[k]
                    == id;
            if i < nodes.len() - 1 {
                assert(pre[i] == nodes[i]);
                assert(l.contains(id));
                let j = choose|j: int| 0 <= j < l.len() && l[j] == id;
                assert(leaf_seq(nodes)[j] == id);
            } else {
                assert(leaf_seq(nodes)[l.len() + k] == id);
            }
        }
    }
}

/// A leaf's entries occur among the contents at least as often as in the leaf.
pub proof fn lemma_leaf_count_bound(nodes: Seq<FlatNode>, i: int, id: usize)
    requires
        0 <= i < nodes.len(),
    ensures
        nodes[i].held().to_multiset().count(id) <= leaf_seq(nodes).to_multiset().count(id),
{
    broadcast use vstd::seq_lib::lemma_multiset_commutative;
    broadcast use vstd::multiset::group_multiset_axioms;

    lemma_leaf_seq_split(nodes, i);
}

/// When no node but `i` holds `id`, the contents hold `id` exactly as often
/// as node `i` does.
pub proof fn lemma_leaf_count_exact(nodes: Seq<FlatNode>, i: int, id: usize)
    requires
        0 <= i < nodes.len(),
        forall|j: int| 0 <= j < nodes.len() && j != i ==> !(#[trigger] nodes[j]).held().contains(id),
    ensures
        nodes[i].held().to_multiset().count(id) == leaf_seq(nodes).to_multiset().count(id),
{
    broadcast use vstd::seq_lib::lemma_multiset_commutative;
    broadcast use vstd::multiset::group_multiset_axioms;

    lemma_leaf_seq_split(nodes, i);
    let pre = nodes.take(i);
    let post = nodes.skip(i + 1);
    lemma_leaf_seq_member(pre, id);
    lemma_leaf_seq_member(post, id);
    if leaf_seq(pre).contains(id) {
        let (a, k) = choose|a: int, k: int|
            0 <= a < pre.len() && 0 <= k < pre[a].held().len() && pre[a].held()[k] == id;
        assert(pre[a] == nodes[a]);
        assert(nodes[a].held().contains(id));
    }
    if leaf_seq(post).contains(id) {
        let (a, k) = choose|a: int, k: int|
            0 <= a < post.len() && 0 <= k < post[a].held().len() && post[a].held()[k] == id;
        assert(post[a] == nodes[a + i + 1]);
        assert(nodes[a + i + 1].held().contains(id));
    }
}

impl FlatBucket {
    pub open spec fn wf(&self, data: Seq<u64>) -> bool {
        tree_wf(self.nodes@, self.child_slots@, data)
    }

    /// The storage ids the tree holds.
    pub open spec fn ids(&self) -> Seq<usize> {
        leaf_seq(self.nodes@)
    }
}

/// At most one live leaf routes a given value.
pub proof fn lemma_covering_leaf_unique(
    nodes: Seq<FlatNode>,
    slots: Seq<u32>,
    data: Seq<u64>,
    a: int,
    b: int,
    t: u64,
)
    requires
        tree_wf(nodes, slots, data),
        0 <= a < nodes.len(),
        0 <= b < nodes.len(),
        nodes[a].live@ && nodes[a].is_leaf() && nodes[a].covers(t),
        nodes[b].live@ && nodes[b].is_leaf() && nodes[b].covers(t),
    ensures
        a == b,
{
    if a != b {
        assert(pair_ok(nodes, a, b));
        assert(pair_ok(nodes, b, a));
        if nodes[a].bo() <= nodes[b].bo() {
            lemma_low_bits_nest(t, nodes[a].bo(), nodes[b].bo());
        } else {
            lemma_low_bits_nest(t, nodes[b].bo(), nodes[a].bo());
        }
    }
}

/// When routing stops at an internal node whose slot for `t` is empty, no
/// live leaf routes `t`.
pub proof fn lemma_dead_end(
    nodes: Seq<FlatNode>,
    slots: Seq<u32>,
    data: Seq<u64>,
    n: int,
    t: u64,
    l: int,
)
    requires
        tree_wf(nodes, slots, data),
        0 <= n < nodes.len(),
        0 <= l < nodes.len(),
        nodes[n].live@ && !nodes[n].is_leaf() && nodes[n].covers(t),
        !nodes[n].has_child(slot_of(t, nodes[n].bo())),
        nodes[l].live@ && nodes[l].is_leaf(),
    ensures
        !nodes[l].covers(t),
{
    if nodes[l].covers(t) {
        assert(pair_ok(nodes, l, n));
        assert(pair_ok(nodes, n, l));
        assert(node_ok(nodes, slots, data, n));
        assert(node_ok(nodes, slots, data, l));
        if nodes[l].bo() <= nodes[n].bo() {
            lemma_low_bits_nest(t, nodes[l].bo(), nodes[n].bo());
        } else {
            lemma_low_bits_nest(t, nodes[n].bo(), nodes[l].bo());
            lemma_slot_of_low_bits(t, nodes[n].bo(), nodes[l].bo());
        }
    }
}

/// The value of every id in the tree is routed to a live leaf holding the id.
pub proof fn lemma_id_in_routed_leaf(
    nodes: Seq<FlatNode>,
    slots: Seq<u32>,
    data: Seq<u64>,
    id: usize,
)
    requires
        tree_wf(nodes, slots, data),
        leaf_seq(nodes).contains(id),
    ensures
        exists|i: int, k: int|
            0 <= i < nodes.len() && nodes[i].live@ && nodes[i].is_leaf() && 0 <= k
                < nodes[i].entries@.len() && nodes[i].entries@[k] == id && (id as int) < data.len()
                && nodes[i].covers(data[id as int]),
{
    lemma_leaf_seq_member(nodes, id);
    let (i, k) = choose|i: int, k: int|
        0 <= i < nodes.len() && 0 <= k < nodes[i].held().len() && nodes[i].held()[k] == id;
    assert(node_ok(nodes, slots, data, i));
    assert(nodes[i].is_leaf());
    assert(nodes[i].entries@[k] == id);
    assert(nodes[i].live@);
}

/// Position of the first entry whose value is at least `t`.
fn lower_bound(entries: &Vec<usize>, data: &Vec<u64>, t: u64) -> (r: usize)
    requires
        forall|k: int| 0 <= k < entries@.len() ==> (entries@[k] as int) < data@.len(),
        sorted_by_value(entries@, data@),
    ensures
        r <= entries@.len(),
        forall|k: int| 0 <= k < r ==> data@[entries@[k] as int] < t,
        forall|k: int| r <= k < entries@.len() ==> data@[entries@[k] as int] >= t,
{
    let mut lo: usize = 0;
    let mut hi: usize = entries.len();
    while lo < hi
        invariant
            lo <= hi <= entries@.len(),
            forall|k: int| 0 <= k < entries@.len() ==> (entries@[k] as int) < data@.len(),
            sorted_by_value(entries@, data@),
            forall|k: int| 0 <= k < lo ==> data@[entries@[k] as int] < t,
            forall|k: int| hi <= k < entries@.len() ==> data@[entries@[k] as int] >= t,
        decreases hi - lo,
    {
        let mid = lo + (hi - lo) / 2;
        if data[entries[mid]] < t {
            assert forall|k: int| 0 <= k < mid + 1 implies data@[entries@[k] as int] < t by {
                assert(data@[entries@[k] as int] <= data@[entries@[mid as int] as int]);
            }
            lo = mid + 1;
        } else {
            assert forall|k: int| mid <= k < entries@.len() implies data@[entries@[k] as int]
                >= t by {
                assert(data@[entries@[mid as int] as int] <= data@[entries@[k] as int]);
            }
            hi = mid;
        }
    }
    lo
}

/// Position of the first entry whose value exceeds `t`.
fn upper_bound(entries: &Vec<usize>, data: &Vec<u64>, t: u64) -> (r: usize)
    requires
        forall|k: int| 0 <= k < entries@.len() ==> (entries@[k] as int) < data@.len(),
        sorted_by_value(entries@, data@),
    ensures
        r <= entries@.len(),
        forall|k: int| 0 <= k < r ==> data@[entries@[k] as int] <= t,
        forall|k: int| r <= k < entries@.len() ==> data@[entries@[k] as int] > t,
{
    let mut lo: usize = 0;
    let mut hi: usize = entries.len();
    while lo < hi
        invariant
            lo <= hi <= entries@.len(),
            forall|k: int| 0 <= k < entries@.len() ==> (entries@[k] as int) < data@.len(),
            sorted_by_value(entries@, data@),
            forall|k: int| 0 <= k < lo ==> data@[entries@[k] as int] <= t,
            forall|k: int| hi <= k < entries@.len() ==> data@[entries@[k] as int] > t,
        decreases hi - lo,
    {
        let mid = lo + (hi - lo) / 2;
        if data[entries[mid]] <= t {
            assert forall|k: int| 0 <= k < mid + 1 implies data@[entries@[k] as int] <= t by {
                assert(data@[entries@[k] as int] <= data@[entries@[mid as int] as int]);
            }
            lo = mid + 1;
        } else {
            assert forall|k: int| mid <= k < entries@.len() implies data@[entries@[k] as int]
                > t by {
                assert(data@[entries@[mid as int] as int] <= data@[entries@[k] as int]);
            }
            hi = mid;
        }
    }
    lo
}

impl FlatBucket {
    /// An empty tree, built on demand.
    pub fn new() -> (r: Self)
        ensures
            forall|d: Seq<u64>| #[trigger] r.wf(d),
            r.ids() == Seq::<usize>::empty(),
            r.nodes@.len() == 0,
    {
        FlatBucket { nodes: Vec::new(), child_slots: Vec::new() }
    }

    /// Routes `target` from the root to the leaf that would hold it.
    fn leaf_entries_for(&self, target: u64, Ghost(data): Ghost<Seq<u64>>) -> (r: Option<usize>)
        requires
            self.wf(data),
        ensures
            match r {
                Some(l) => (l as int) < self.nodes@.len() && self.nodes@[l as int].live@
                    && self.nodes@[l as int].is_leaf() && self.nodes@[l as int].covers(target),
                None => forall|l: int|
                    0 <= l < self.nodes@.len() && #[trigger] self.nodes@[l].live@
                        && self.nodes@[l].is_leaf() ==> !self.nodes@[l].covers(target),
            },
    {
        if self.nodes.len() == 0 {
            return None;
        }
        let mut node_idx: usize = 0;
        proof {
            lemma_low_bits_of_zero_width(target);
        }
        loop
            invariant
                self.wf(data),
                (node_idx as int) < self.nodes@.len(),
                self.nodes@[node_idx as int].live@,
                self.nodes@[node_idx as int].covers(target),
            decreases 70 - self.nodes@[node_idx as int].bit_offset,
        {
            let ghost nodes = self.nodes@;
            proof {
                assert(node_ok(nodes, self.child_slots@, data, node_idx as int));
                assert(child_ok(nodes, self.child_slots@, node_idx as int));
            }
            let node = &self.nodes[node_idx];
            if node.child_bitmap == 0 {
                return Some(node_idx);
            }
            assert(node.bit_offset < 64);
            proof {
                lemma_slot_of_bound(target, node.bo());
            }
            let child_pos = ((target >> (node.bit_offset as u64)) & 63u64) as usize;
            let bit = 1u64 << (child_pos as u64);
            if node.child_bitmap & bit == 0 {
                proof {
                    assert forall|l: int|
                        0 <= l < nodes.len() && #[trigger] nodes[l].live@
                            && nodes[l].is_leaf() implies !nodes[l].covers(target) by {
                        lemma_dead_end(nodes, self.child_slots@, data, node_idx as int, target, l);
                    }
                }
                return None;
            }
            let child_slot = node.children_start + child_pos;
            proof {
                let q = child_pos as u64;
                assert(nodes[node_idx as int].has_child(q));
                assert(link_ok(nodes, self.child_slots@, node_idx as int, q));
            }
            if child_slot >= self.child_slots.len() {
                return None;
            }
            let child_idx = self.child_slots[child_slot];
            if child_idx == NO_CHILD {
                return None;
            }
            proof {
                let n = nodes[node_idx as int];
                lemma_low_bits_step(target, n.bo());
            }
            node_idx = child_idx as usize;
        }
    }

    /// Whether some id in the tree names `target`.
    pub fn lsb_contains(&self, target: u64, data: &Vec<u64>) -> (r: bool)
        requires
            self.wf(data@),
        ensures
            r == has_value(self.ids(), data@, target),
    {
        match self.leaf_entries_for(target, Ghost(data@)) {
            None => {
                proof {
                    self.lemma_absent_without_leaf(data@, target);
                }
                false
            },
            Some(l) => {
                let entries = &self.nodes[l].entries;
                proof {
                    assert(node_ok(self.nodes@, self.child_slots@, data@, l as int));
                }
                let pos = lower_bound(entries, data, target);
                let found = pos < entries.len() && data[entries[pos]] == target;
                proof {
                    if found {
                        self.lemma_leaf_entry_in_ids(l as int, pos as int);
                    } else {
                        self.lemma_absent_past_lower_bound(data@, target, l as int, pos as int);
                    }
                }
                found
            },
        }
    }

    /// Some id of the tree that names `target`, if any.
    pub fn lsb_find(&self, target: u64, data: &Vec<u64>) -> (r: Option<usize>)
        requires
            self.wf(data@),
        ensures
            match r {
                Some(id) => self.ids().contains(id) && (id as int) < data@.len() && data@[id as int]
                    == target,
                None => !has_value(self.ids(), data@, target),
            },
    {
        match self.leaf_entries_for(target, Ghost(data@)) {
            None => {
                proof {
                    self.lemma_absent_without_leaf(data@, target);
                }
                None
            },
            Some(l) => {
                let entries = &self.nodes[l].entries;
                proof {
                    assert(node_ok(self.nodes@, self.child_slots@, data@, l as int));
                }
                let pos = lower_bound(entries, data, target);
                if pos < entries.len() && data[entries[pos]] == target {
                    proof {
                        self.lemma_leaf_entry_in_ids(l as int, pos as int);
                    }
                    Some(entries[pos])
                } else {
                    proof {
                        self.lemma_absent_past_lower_bound(data@, target, l as int, pos as int);
                    }
                    None
                }
            },
        }
    }

    /// Every id of the tree that names `target`.
    pub fn lsb_find_all(&self, target: u64, data: &Vec<u64>) -> (r: Vec<usize>)
        requires
            self.wf(data@),
        ensures
            forall|id: usize|
                #[trigger] r@.to_multiset().count(id) == if (id as int) < data@.len() && data@[id as int]
                    == target {
                    self.ids().to_multiset().count(id)
                } else {
                    0
                },
            forall|id: usize|
                r@.contains(id) <==> self.ids().contains(id) && (id as int) < data@.len()
                    && data@[id as int] == target,
            self.ids().no_duplicates() ==> r@.no_duplicates(),
    {
        let mut out: Vec<usize> = Vec::new();
        match self.leaf_entries_for(target, Ghost(data@)) {
            None => {
                proof {
                    assert forall|id: usize|
                        !(self.ids().contains(id) && (id as int) < data@.len() && data@[id as int]
                            == target) by {
                        if self.ids().contains(id) && (id as int) < data@.len() && data@[id as int]
                            == target {
                            let k = choose|k: int| 0 <= k < self.ids().len() && self.ids()[k] == id;
                            self.lemma_absent_without_leaf(data@, target);
                        }
                    }
                    assert(out@ =~= Seq::<usize>::empty());
                }
                out
            },
            Some(l) => {
                let entries = &self.nodes[l].entries;
                proof {
                    assert(node_ok(self.nodes@, self.child_slots@, data@, l as int));
                }
                let start = lower_bound(entries, data, target);
                let end = upper_bound(entries, data, target);
                let mut i = start;
                while i < end
                    invariant
                        start <= i <= end || (end < start && i == start),
                        end <= entries@.len(),
                        start <= entries@.len(),
                        out@ == entries@.subrange(start as int, i as int),
                    decreases end - i,
                {
                    out.push(entries[i]);
                    proof {
                        assert(entries@.subrange(start as int, i + 1) =~= entries@.subrange(
                            start as int,
                            i as int,
                        ).push(entries@[i as int]));
                    }
                    i = i + 1;
                }
                proof {
                    let ghost e = entries@;
                    if self.ids().no_duplicates() {
                        self.lemma_leaf_entries_unique(l as int);
                        assert forall|a: int, b: int|
                            0 <= a < out@.len() && 0 <= b < out@.len() && a != b implies out@[a]
                            != out@[b] by {
                            assert(out@[a] == e[start + a]);
                            assert(out@[b] == e[start + b]);
                        }
                    }
                    self.lemma_find_all_counts(data@, target, l as int, start as int, i as int, out@);
                    assert forall|id: usize|
                        out@.contains(id) <==> self.ids().contains(id) && (id as int) < data@.len()
                            && data@[id as int] == target by {
                        if out@.contains(id) {
                            let j = choose|j: int| 0 <= j < out@.len() && out@[j] == id;
                            assert(e[start + j] == id);
                            self.lemma_leaf_entry_in_ids(l as int, start + j);
                        }
                        if self.ids().contains(id) && (id as int) < data@.len() && data@[id as int]
                            == target {
                            let k = self.lemma_routed_leaf_holds(data@, target, l as int, id);
                            assert(start <= k < end);
                            assert(out@[k - start] == id);
                        }
                    }
                }
                out
            },
        }
    }

    proof fn lemma_leaf_entry_in_ids(&self, l: int, pos: int)
        requires
            0 <= l < self.nodes@.len(),
            self.nodes@[l].is_leaf(),
            0 <= pos < self.nodes@[l].entries@.len(),
        ensures
            self.ids().contains(self.nodes@[l].entries@[pos]),
    {
        let id = self.nodes@[l].entries@[pos];
        assert(self.nodes@[l].held()[pos] == id);
        lemma_leaf_seq_member(self.nodes@, id);
    }

    /// The run `start..end` of the leaf routing `target`, bounded by the
    /// entries below and above `target`, holds each id naming `target` as
    /// often as the tree does, and nothing else.
    proof fn lemma_find_all_counts(
        &self,
        data: Seq<u64>,
        target: u64,
        l: int,
        start: int,
        end: int,
        out: Seq<usize>,
    )
        requires
            self.wf(data),
            0 <= l < self.nodes@.len(),
            self.nodes@[l].live@ && self.nodes@[l].is_leaf() && self.nodes@[l].covers(target),
            0 <= start <= self.nodes@[l].entries@.len(),
            end == start || start <= end <= self.nodes@[l].entries@.len(),
            forall|k: int|
                0 <= k < start ==> data[self.nodes@[l].entries@[k] as int] < target,
            forall|k: int|
                start <= k < self.nodes@[l].entries@.len() ==> data[self.nodes@[l].entries@[k] as int]
                    >= target,
            forall|k: int| 0 <= k < end ==> data[self.nodes@[l].entries@[k] as int] <= target,
            forall|k: int|
                end <= k < self.nodes@[l].entries@.len() ==> data[self.nodes@[l].entries@[k] as int]
                    > target,
            out == self.nodes@[l].entries@.subrange(start, end),
        ensures
            forall|id: usize|
                #[trigger] out.to_multiset().count(id) == if (id as int) < data.len() && data[id as int]
                    == target {
                    self.ids().to_multiset().count(id)
                } else {
                    0
                },
    {
        broadcast use vstd::seq_lib::lemma_multiset_commutative;
        broadcast use vstd::multiset::group_multiset_axioms;

        let nodes = self.nodes@;
        let e = nodes[l].entries@;
        assert(node_ok(nodes, self.child_slots@, data, l));
        assert forall|id: usize| #[trigger] out.to_multiset().count(id) == if (id as int) < data.len()
            && data[id as int] == target {
            self.ids().to_multiset().count(id)
        } else {
            0
        } by {
            let a = e.subrange(0, start);
            let c = e.subrange(end, e.len() as int);
            if (id as int) < data.len() && data[id as int] == target {
                assert(e =~= a + out + c);
                if a.contains(id) {
                    let k = choose|k: int| 0 <= k < a.len() && a[k] == id;
                    assert(e[k] == id);
                }
                if c.contains(id) {
                    let k = choose|k: int| 0 <= k < c.len() && c[k] == id;
                    assert(e[end + k] == id);
                }
                assert(e.to_multiset().count(id) == out.to_multiset().count(id));
                assert forall|j: int| 0 <= j < nodes.len() && j != l implies !(
                #[trigger] nodes[j]).held().contains(id) by {
                    if nodes[j].held().contains(id) {
                        let k = choose|k: int| 0 <= k < nodes[j].held().len() && nodes[j].held()[k] == id;
                        assert(node_ok(nodes, self.child_slots@, data, j));
                        assert(nodes[j].entries@[k] == id);
                        lemma_covering_leaf_unique(nodes, self.child_slots@, data, j, l, target);
                    }
                }
                lemma_leaf_count_exact(nodes, l, id);
            } else {
                if out.contains(id) {
                    let k = choose|k: int| 0 <= k < out.len() && out[k] == id;
                    assert(e[start + k] == id);
                }
            }
        }
    }

    /// When no live leaf routes `target`, no id of the tree names it.
    proof fn lemma_absent_without_leaf(&self, data: Seq<u64>, target: u64)
        requires
            self.wf(data),
            forall|l: int|
                0 <= l < self.nodes@.len() && #[trigger] self.nodes@[l].live@
                    && self.nodes@[l].is_leaf() ==> !self.nodes@[l].covers(target),
        ensures
            !has_value(self.ids(), data, target),
    {
        if has_value(self.ids(), data, target) {
            let k = choose|k: int|
                0 <= k < self.ids().len() && data[self.ids()[k] as int] == target;
            lemma_id_in_routed_leaf(self.nodes@, self.child_slots@, data, self.ids()[k]);
        }
    }

    /// An id of the tree that names `target` sits in the leaf that routes
    /// `target`; returns its position there.
    proof fn lemma_routed_leaf_holds(&self, data: Seq<u64>, target: u64, l: int, id: usize) -> (k:
        int)
        requires
            self.wf(data),
            0 <= l < self.nodes@.len(),
            self.nodes@[l].live@ && self.nodes@[l].is_leaf() && self.nodes@[l].covers(target),
            self.ids().contains(id),
            (id as int) < data.len(),
            data[id as int] == target,
        ensures
            0 <= k < self.nodes@[l].entries@.len(),
            self.nodes@[l].entries@[k] == id,
    {
        lemma_id_in_routed_leaf(self.nodes@, self.child_slots@, data, id);
        let (i, k) = choose|i: int, k: int|
            0 <= i < self.nodes@.len() && self.nodes@[i].live@ && self.nodes@[i].is_leaf() && 0
                <= k < self.nodes@[i].entries@.len() && self.nodes@[i].entries@[k] == id && (
            id as int) < data.len() && self.nodes@[i].covers(data[id as int]);
        lemma_covering_leaf_unique(self.nodes@, self.child_slots@, data, i, l, target);
        k
    }

    /// When the routed leaf holds no entry for `target` at its lower bound, no id
    /// of the tree names `target`.
    proof fn lemma_absent_past_lower_bound(&self, data: Seq<u64>, target: u64, l: int, pos: int)
        requires
            self.wf(data),
            0 <= l < self.nodes@.len(),
            self.nodes@[l].live@ && self.nodes@[l].is_leaf() && self.nodes@[l].covers(target),
            0 <= pos <= self.nodes@[l].entries@.len(),
            forall|k: int|
                0 <= k < pos ==> data[self.nodes@[l].entries@[k] as int] < target,
            forall|k: int|
                pos <= k < self.nodes@[l].entries@.len() ==> data[self.nodes@[l].entries@[k] as int]
                    >= target,
            !(pos < self.nodes@[l].entries@.len() && data[self.nodes@[l].entries@[pos] as int]
                == target),
        ensures
            !has_value(self.ids(), data, target),
    {
        let e = self.nodes@[l].entries@;
        if has_value(self.ids(), data, target) {
            let j = choose|j: int| 0 <= j < self.ids().len() && data[self.ids()[j] as int] == target;
            let id = self.ids()[j];
            assert(self.ids().contains(id));
            assert(node_ok(self.nodes@, self.child_slots@, data, l));
            lemma_id_in_routed_leaf(self.nodes@, self.child_slots@, data, id);
            let k = self.lemma_routed_leaf_holds(data, target, l, id);
            assert(data[e[pos] as int] <= data[e[k] as int]);
        }
    }

    /// A tree without duplicate ids has none inside any one leaf.
    proof fn lemma_leaf_entries_unique(&self, l: int)
        requires
            0 <= l < self.nodes@.len(),
            self.nodes@[l].is_leaf(),
            self.ids().no_duplicates(),
        ensures
            self.nodes@[l].entries@.no_duplicates(),
    {
        let e = self.nodes@[l].entries@;
        self.ids().lemma_multiset_has_no_duplicates();
        assert forall|id: usize| e.to_multiset().count(id) <= 1 by {
            lemma_leaf_count_bound(self.nodes@, l, id);
        }
        e.lemma_multiset_has_no_duplicates_conv();
    }
}

/// The routing fields of two nodes agree (entries may differ).
pub open spec fn same_shape(x: FlatNode, y: FlatNode) -> bool {
    &&& x.bit_offset == y.bit_offset
    &&& x.child_bitmap == y.child_bitmap
    &&& x.children_start == y.children_start
    &&& x.prefix@ == y.prefix@
    &&& x.live@ == y.live@
}

/// Changing only the entries of nodes keeps every routing fact; the entry
/// facts must be shown for the changed nodes.
#[verifier::spinoff_prover]
pub proof fn lemma_wf_same_shape(
    nodes: Seq<FlatNode>,
    slots: Seq<u32>,
    data: Seq<u64>,
    nodes2: Seq<FlatNode>,
)
    requires
        tree_wf(nodes, slots, data),
        nodes2.len() == nodes.len(),
        forall|i: int| 0 <= i < nodes.len() ==> same_shape(#[trigger] nodes2[i], nodes[i]),
        forall|i: int|
            0 <= i < nodes.len() && #[trigger] nodes2[i].entries@ != nodes[i].entries@ ==> (
            nodes2[i].is_leaf() && nodes2[i].live@ && entries_ok(nodes2[i], data)),
    ensures
        tree_wf(nodes2, slots, data),
{
    assert forall|i: int| 0 <= i < nodes2.len() implies #[trigger] node_ok(nodes2, slots, data, i)
        && child_ok(nodes2, slots, i) by {
        lemma_same_shape_node(nodes, slots, data, nodes2, i);
    }
    assert forall|a: int, b: int|
        0 <= a < nodes2.len() && 0 <= b < nodes2.len() implies #[trigger] pair_ok(nodes2, a, b) by {
        assert(pair_ok(nodes, a, b));
        assert(same_shape(nodes2[a], nodes[a]));
        assert(same_shape(nodes2[b], nodes[b]));
    }
    if nodes.len() > 0 {
        assert(same_shape(nodes2[0], nodes[0]));
    }
    assert(nodes2.len() <= 0xffff_ffff);
}

proof fn lemma_same_shape_node(
    nodes: Seq<FlatNode>,
    slots: Seq<u32>,
    data: Seq<u64>,
    nodes2: Seq<FlatNode>,
    i: int,
)
    requires
        tree_wf(nodes, slots, data),
        nodes2.len() == nodes.len(),
        0 <= i < nodes.len(),
        forall|i: int| 0 <= i < nodes.len() ==> same_shape(#[trigger] nodes2[i], nodes[i]),
        forall|i: int|
            0 <= i < nodes.len() && #[trigger] nodes2[i].entries@ != nodes[i].entries@ ==> (
            nodes2[i].is_leaf() && nodes2[i].live@ && entries_ok(nodes2[i], data)),
    ensures
        node_ok(nodes2, slots, data, i),
        child_ok(nodes2, slots, i),
{
    assert(node_ok(nodes, slots, data, i));
    assert(child_ok(nodes, slots, i));
    assert(same_shape(nodes2[i], nodes[i]));
    assert forall|q: u64| q < 64 && #[trigger] nodes2[i].has_child(q) implies link_ok(
        nodes2,
        slots,
        i,
        q,
    ) by {
        assert(nodes[i].has_child(q));
        assert(link_ok(nodes, slots, i, q));
        let c = slots[nodes[i].children_start + q] as int;
        assert(same_shape(nodes2[c], nodes[c]));
    }
    if nodes2[i].entries@ == nodes[i].entries@ {
        assert(entries_ok(nodes[i], data));
        assert(nodes2[i].covers(0) == nodes[i].covers(0));
        assert forall|k: int| 0 <= k < nodes2[i].entries@.len() implies (
            #[trigger] nodes2[i].entries@[k] as int) < data.len() && nodes2[i].covers(
            data[nodes2[i].entries@[k] as int],
        ) by {
            assert(nodes[i].entries@[k] == nodes2[i].entries@[k]);
        }
    }
}

/// Distinct 64-aligned slot ranges do not overlap.
pub proof fn lemma_slot_ranges_disjoint(a: int, b: int, r: int, q: int)
    requires
        a % 64 == 0,
        b % 64 == 0,
        a != b,
        0 <= r < 64,
        0 <= q < 64,
    ensures
        a + r != b + q,
{
    assert(a + r != b + q) by (nonlinear_arith)
        requires
            a % 64 == 0,
            b % 64 == 0,
            a != b,
            0 <= r < 64,
            0 <= q < 64,
    ;
}

/// Live bit offsets are multiples of six, so a strictly deeper live node is
/// at least one level deeper.
proof fn lemma_levels_apart(nodes: Seq<FlatNode>, slots: Seq<u32>, data: Seq<u64>, a: int, b: int)
    requires
        tree_wf(nodes, slots, data),
        0 <= a < nodes.len(),
        0 <= b < nodes.len(),
        nodes[a].live@,
        nodes[b].live@,
        nodes[a].bo() < nodes[b].bo(),
    ensures
        nodes[a].bo() + 6 <= nodes[b].bo(),
{
    assert(node_ok(nodes, slots, data, a));
    assert(node_ok(nodes, slots, data, b));
}

/// Facts about a fresh leaf `n` hung under internal node `p` at slot `q`,
/// where the slot was empty: no old live node lies at or below it.
proof fn lemma_fresh_leaf_pairs(
    nodes: Seq<FlatNode>,
    slots: Seq<u32>,
    data: Seq<u64>,
    p: int,
    q: u64,
    n: FlatNode,
    b: int,
)
    requires
        tree_wf(nodes, slots, data),
        0 <= p < nodes.len(),
        0 <= b < nodes.len(),
        nodes[p].live@,
        !nodes[p].is_leaf(),
        q < 64,
        !nodes[p].has_child(q),
        (q << nodes[p].bo()) >> nodes[p].bo() == q,
        n.live@,
        n.bo() == nodes[p].bo() + 6,
        n.prefix@ == nodes[p].prefix@ | (q << nodes[p].bo()),
        nodes[b].live@,
    ensures
        !(n.bo() <= nodes[b].bo() && low_bits(nodes[b].prefix@, n.bo()) == n.prefix@),
        nodes[b].is_leaf() ==> !(nodes[b].bo() <= n.bo() && low_bits(n.prefix@, nodes[b].bo())
            == nodes[b].prefix@),
        !nodes[b].is_leaf() && below(n, nodes[b]) && b != p ==> nodes[b].has_child(
            slot_of(n.prefix@, nodes[b].bo()),
        ),
        low_bits(n.prefix@, nodes[p].bo()) == nodes[p].prefix@,
        slot_of(n.prefix@, nodes[p].bo()) == q,
        low_bits(n.prefix@, n.bo()) == n.prefix@,
{
    let bp = nodes[p].bo();
    let pp = nodes[p].prefix@;
    let pb = nodes[b].prefix@;
    let bb = nodes[b].bo();
    assert(node_ok(nodes, slots, data, p));
    assert(node_ok(nodes, slots, data, b));
    lemma_extend_prefix(pp, q, bp);
    assert(pair_ok(nodes, p, b));
    assert(pair_ok(nodes, b, p));
    // Nothing old lies at or below the new leaf: it would lie below `p` in slot `q`.
    if n.bo() <= bb && low_bits(pb, n.bo()) == n.prefix@ {
        lemma_low_bits_nest(pb, bp, n.bo());
        lemma_slot_of_low_bits(pb, bp, n.bo());
        assert(below(nodes[b], nodes[p]));
    }
    if nodes[b].is_leaf() && bb <= n.bo() && low_bits(n.prefix@, bb) == pb {
        if bb <= bp {
            lemma_low_bits_nest(n.prefix@, bb, bp);
        } else {
            lemma_levels_apart(nodes, slots, data, p, b);
            lemma_low_bits_nest(pb, bp, bb);
            lemma_slot_of_low_bits(pb, bp, bb);
            assert(below(nodes[b], nodes[p]));
        }
    }
    if !nodes[b].is_leaf() && below(n, nodes[b]) && b != p {
        if bb == bp {
            lemma_low_bits_nest(n.prefix@, bb, bp);
        } else if bb > bp {
            lemma_levels_apart(nodes, slots, data, p, b);
        } else {
            lemma_low_bits_nest(n.prefix@, bb, bp);
            lemma_slot_of_low_bits(n.prefix@, bb, bp);
            assert(below(nodes[p], nodes[b]));
        }
    }
}

/// Hanging a fresh leaf holding `id` under `p` at its empty slot `q` keeps the
/// tree well formed and adds `id` to its contents.
proof fn lemma_wf_after_new_leaf(
    nodes: Seq<FlatNode>,
    slots: Seq<u32>,
    data: Seq<u64>,
    p: int,
    q: u64,
    id: usize,
    nodes2: Seq<FlatNode>,
    slots2: Seq<u32>,
)
    requires
        tree_wf(nodes, slots, data),
        0 <= p < nodes.len(),
        nodes.len() + 1 <= 0xffff_ffff,
        nodes[p].live@,
        !nodes[p].is_leaf(),
        q < 64,
        !nodes[p].has_child(q),
        (q << nodes[p].bo()) >> nodes[p].bo() == q,
        (id as int) < data.len(),
        low_bits(data[id as int], (nodes[p].bo() + 6) as u64) == nodes[p].prefix@ | (q
            << nodes[p].bo()),
        nodes2.len() == nodes.len() + 1,
        forall|i: int| 0 <= i < nodes.len() && i != p ==> #[trigger] nodes2[i] == nodes[i],
        nodes2[p].entries@ == nodes[p].entries@,
        nodes2[p].bit_offset == nodes[p].bit_offset,
        nodes2[p].children_start == nodes[p].children_start,
        nodes2[p].prefix@ == nodes[p].prefix@,
        nodes2[p].live@ == nodes[p].live@,
        nodes2[p].child_bitmap == nodes[p].child_bitmap | slot_bit(q),
        nodes2[nodes.len() as int].entries@ == seq![id],
        nodes2[nodes.len() as int].bit_offset == nodes[p].bit_offset + 6,
        nodes2[nodes.len() as int].child_bitmap == 0,
        nodes2[nodes.len() as int].prefix@ == nodes[p].prefix@ | (q << nodes[p].bo()),
        nodes2[nodes.len() as int].live@,
        slots2 == slots.update(nodes[p].children_start + q, nodes.len() as u32),
    ensures
        tree_wf(nodes2, slots2, data),
        leaf_seq(nodes2).to_multiset() == leaf_seq(nodes).to_multiset().insert(id),
{
    broadcast use vstd::multiset::group_multiset_axioms;

    let nl = nodes.len() as int;
    let n = nodes2[nl];
    let np = nodes[p];
    assert(node_ok(nodes, slots, data, p));
    lemma_slot_bit_set(np.child_bitmap, q);
    lemma_extend_prefix(np.prefix@, q, np.bo());
    // Node-level facts.
    assert forall|i: int| 0 <= i < nodes2.len() implies #[trigger] node_ok(nodes2, slots2, data, i)
        && child_ok(nodes2, slots2, i) by {
        if i == nl {
            assert(node_ok(nodes2, slots2, data, i));
            assert forall|r: u64| r < 64 && #[trigger] nodes2[i].has_child(r) implies link_ok(
                nodes2,
                slots2,
                i,
                r,
            ) by {
                lemma_no_slot_bit_in_zero(r);
            }
        } else {
            assert(node_ok(nodes, slots, data, i));
            assert(child_ok(nodes, slots, i));
            assert(node_ok(nodes2, slots2, data, i));
            assert forall|r: u64| r < 64 && #[trigger] nodes2[i].has_child(r) implies link_ok(
                nodes2,
                slots2,
                i,
                r,
            ) by {
                if i == p && r == q {
                } else {
                    if i == p {
                        lemma_slot_bit_other(np.child_bitmap, q, r);
                    }
                    assert(nodes[i].has_child(r));
                    assert(link_ok(nodes, slots, i, r));
                    if nodes[i].is_leaf() {
                        lemma_no_slot_bit_in_zero(r);
                    }
                    if i != p {
                        assert(pair_ok(nodes, i, p));
                        assert(nodes[i].children_start != np.children_start);
                        lemma_slot_ranges_disjoint(
                            nodes[i].children_start as int,
                            np.children_start as int,
                            r as int,
                            q as int,
                        );
                    }
                    let c = slots[nodes[i].children_start + r] as int;
                    assert(slots2[nodes[i].children_start + r] == slots[nodes[i].children_start
                        + r]);
                    assert(nodes2[c].bo() == nodes[c].bo());
                }
            }
        }
    }
    assert forall|a: int, b: int|
        0 <= a < nodes2.len() && 0 <= b < nodes2.len() implies #[trigger] pair_ok(nodes2, a, b) by {
        if a == nl && b == nl {
        } else if a == nl {
            if nodes[b].live@ {
                lemma_fresh_leaf_pairs(nodes, slots, data, p, q, n, b);
            }
        } else if b == nl {
            if !nodes[a].live@ {
            } else {
            lemma_fresh_leaf_pairs(nodes, slots, data, p, q, n, a);
            assert(pair_ok(nodes, a, p));
            if nodes[a].live@ && nodes[a].bo() == n.bo() && nodes[a].prefix@ == n.prefix@ {
                assert(nodes[a].bo() <= n.bo());
            }
            }
        } else {
            assert(pair_ok(nodes, a, b));
            if a == p {
                if nodes2[a].live@ && !nodes2[a].is_leaf() && nodes2[b].live@ && below(
                    nodes2[b],
                    nodes2[a],
                ) {
                    let r = slot_of(nodes[b].prefix@, np.bo());
                    lemma_slot_of_bound(nodes[b].prefix@, np.bo());
                    if r != q {
                        lemma_slot_bit_other(np.child_bitmap, q, r);
                    }
                }
            }
        }
    }
    // Contents.
    let pushed = nodes.push(n);
    lemma_leaf_seq_push(nodes, n);
    assert(nodes2 =~= pushed.update(p, nodes2[p]));
    lemma_leaf_seq_update(pushed, p, nodes2[p]);
    assert(n.held() == seq![id]);
    assert(nodes2[p].held() =~= Seq::<usize>::empty());
    assert(pushed[p].held() =~= Seq::<usize>::empty());
    vstd::seq_lib::lemma_multiset_commutative(leaf_seq(nodes), seq![id]);
    assert(seq![id].to_multiset() =~= Multiset::<usize>::empty().insert(id)) by {
        assert(seq![id] =~= Seq::<usize>::empty().push(id));
    }
    let m0 = leaf_seq(nodes).to_multiset();
    let mp = leaf_seq(pushed).to_multiset();
    let m2 = leaf_seq(nodes2).to_multiset();
    assert(mp =~= m0.insert(id));
    assert(nodes2[p].held().to_multiset() =~= Multiset::<usize>::empty());
    assert(pushed[p].held().to_multiset() =~= Multiset::<usize>::empty());
    assert(m2.add(Multiset::<usize>::empty()) == mp.add(Multiset::<usize>::empty()));
    assert(m2 =~= m2.add(Multiset::<usize>::empty()));
    assert(mp =~= mp.add(Multiset::<usize>::empty()));
    assert(m2 =~= m0.insert(id));
}

/// Inserting `id` at its lower bound keeps a leaf sorted and routed.
proof fn lemma_entries_insert_ok(n: FlatNode, data: Seq<u64>, pos: int, id: usize, e2: Seq<usize>)
    requires
        entries_ok(n, data),
        0 <= pos <= n.entries@.len(),
        (id as int) < data.len(),
        n.covers(data[id as int]),
        forall|k: int| 0 <= k < pos ==> data[n.entries@[k] as int] < data[id as int],
        forall|k: int|
            pos <= k < n.entries@.len() ==> data[n.entries@[k] as int] >= data[id as int],
        e2 == n.entries@.insert(pos, id),
    ensures
        forall|k: int|
            0 <= k < e2.len() ==> (#[trigger] e2[k] as int) < data.len() && n.covers(
                data[e2[k] as int],
            ),
        sorted_by_value(e2, data),
{
    let e = n.entries@;
    assert forall|k: int| 0 <= k < e2.len() implies (#[trigger] e2[k] as int) < data.len()
        && n.covers(data[e2[k] as int]) by {
        if k < pos {
            assert(e2[k] == e[k]);
        } else if k > pos {
            assert(e2[k] == e[k - 1]);
        }
    }
    assert forall|i: int, j: int| 0 <= i <= j < e2.len() implies data[e2[i] as int] <= data[e2[j]
        as int] by {
        if i < pos {
            assert(e2[i] == e[i]);
        } else if i > pos {
            assert(e2[i] == e[i - 1]);
        }
        if j < pos {
            assert(e2[j] == e[j]);
        } else if j > pos {
            assert(e2[j] == e[j - 1]);
        }
        if i < pos && j < pos {
            assert(data[e[i] as int] <= data[e[j] as int]);
        }
        if i > pos && j > pos {
            assert(data[e[i - 1] as int] <= data[e[j - 1] as int]);
        }
    }
}

/// Position `pos` of `entries` comes before every entry holding `v` or more
/// and after every entry holding less.
pub open spec fn lower_position(entries: Seq<usize>, data: Seq<u64>, pos: int, v: u64) -> bool {
    &&& 0 <= pos <= entries.len()
    &&& forall|k: int| 0 <= k < pos ==> data[#[trigger] entries[k] as int] < v
    &&& forall|k: int| pos <= k < entries.len() ==> data[#[trigger] entries[k] as int] >= v
}

/// `t1` is `t0` with `id` inserted at `pos` of live leaf `l`; nothing else
/// changes.
pub open spec fn leaf_insertion(t0: FlatBucket, t1: FlatBucket, l: int, pos: int, id: usize) -> bool {
    &&& 0 <= l < t0.nodes@.len()
    &&& t0.nodes@[l].live@ && t0.nodes@[l].is_leaf()
    &&& 0 <= pos <= t0.nodes@[l].entries@.len()
    &&& t1.child_slots@ == t0.child_slots@
    &&& t1.nodes@.len() == t0.nodes@.len()
    &&& t1.nodes@[l].entries@ == t0.nodes@[l].entries@.insert(pos, id)
    &&& t1.nodes@[l].is_leaf() && t1.nodes@[l].live@
    &&& forall|j: int| 0 <= j < t0.nodes@.len() && j != l ==> #[trigger] t1.nodes@[j] == t0.nodes@[j]
}

/// `t1` is `t0` with a new leaf holding only `id`, appended and linked under
/// slot `q` of internal node `p`, which had no child there.
pub open spec fn leaf_attach(t0: FlatBucket, t1: FlatBucket, p: int, q: u64, id: usize) -> bool {
    let np = t0.nodes@[p];
    let o = t0.nodes@.len() as int;
    &&& 0 <= p < o
    &&& q < 64
    &&& np.live@ && !np.is_leaf() && !np.has_child(q)
    &&& t1.nodes@.len() == o + 1
    &&& t1.nodes@[o].entries@ == seq![id]
    &&& t1.nodes@[o].live@ && t1.nodes@[o].is_leaf()
    &&& t1.nodes@[o].bo() == np.bo() + 6
    &&& t1.nodes@[p].child_bitmap == np.child_bitmap | slot_bit(q)
    &&& t1.nodes@[p].entries@ == np.entries@
    &&& t1.nodes@[p].children_start == np.children_start
    &&& t1.child_slots@ == t0.child_slots@.update(np.children_start + q, o as u32)
    &&& forall|j: int| 0 <= j < o && j != p ==> #[trigger] t1.nodes@[j] == t0.nodes@[j]
}

impl FlatBucket {
    /// Inserts `storage_id` (whose value is `value`) in place, without a
    /// rebuild. Returns `false`, leaving the tree untouched, when the tree was
    /// never built or has no room for another node.
    pub fn surgical_insert(&mut self, value: u64, storage_id: usize, data: &Vec<u64>) -> (r: bool)
        requires
            old(self).wf(data@),
            (storage_id as int) < data@.len(),
            data@[storage_id as int] == value,
        ensures
            r ==> final(self).wf(data@) && final(self).ids().to_multiset() == old(
                self,
            ).ids().to_multiset().insert(storage_id),
            !r ==> *final(self) == *old(self),
            r <== old(self).nodes@.len() > 0 && old(self).nodes@.len() < 0xffff_ffff,
            r ==> (exists|l: int, pos: int|
                #![trigger leaf_insertion(*old(self), *final(self), l, pos, storage_id)]
                leaf_insertion(*old(self), *final(self), l, pos, storage_id) && old(
                    self,
                ).nodes@[l].covers(value) && lower_position(old(self).nodes@[l].entries@, data@, pos, value))
                || (exists|p: int, q: u64|
                #![trigger leaf_attach(*old(self), *final(self), p, q, storage_id)]
                leaf_attach(*old(self), *final(self), p, q, storage_id) && old(self).nodes@[p].covers(
                    value,
                ) && q == slot_of(value, old(self).nodes@[p].bo())),
    {
        if self.nodes.len() == 0 {
            return false;
        }
        let mut node_idx: usize = 0;
        proof {
            lemma_low_bits_of_zero_width(value);
        }
        loop
            invariant
                *self == *old(self),
                self.wf(data@),
                (storage_id as int) < data@.len(),
                data@[storage_id as int] == value,
                (node_idx as int) < self.nodes@.len(),
                self.nodes@[node_idx as int].live@,
                self.nodes@[node_idx as int].covers(value),
            decreases 70 - self.nodes@[node_idx as int].bit_offset,
        {
            let ghost nodes = self.nodes@;
            let ghost slots = self.child_slots@;
            proof {
                assert(node_ok(nodes, slots, data@, node_idx as int));
                assert(child_ok(nodes, slots, node_idx as int));
            }
            let bitmap = self.nodes[node_idx].child_bitmap;
            if bitmap == 0 {
                let pos = lower_bound(&self.nodes[node_idx].entries, data, value);
                self.nodes[node_idx].entries.insert(pos, storage_id);
                proof {
                    let n = nodes[node_idx as int];
                    let n2 = self.nodes@[node_idx as int];
                    lemma_entries_insert_ok(n, data@, pos as int, storage_id, n2.entries@);
                    assert(self.nodes@ == nodes.update(node_idx as int, n2));
                    assert forall|i: int| 0 <= i < nodes.len() implies same_shape(
                        #[trigger] self.nodes@[i],
                        nodes[i],
                    ) by {}
                    lemma_wf_same_shape(nodes, slots, data@, self.nodes@);
                    lemma_leaf_seq_update(nodes, node_idx as int, n2);
                    let mh = n.held().to_multiset();
                    let mh2 = n2.held().to_multiset();
                    assert(mh2 =~= mh.insert(storage_id));
                    let m1 = leaf_seq(nodes).to_multiset();
                    let m2 = self.ids().to_multiset();
                    assert(m2.add(mh) == m1.add(mh2));
                    assert forall|v: usize| m2.count(v) == m1.insert(storage_id).count(v) by {
                        assert(m2.add(mh).count(v) == m1.add(mh2).count(v));
                    }
                    assert(m2 =~= m1.insert(storage_id));
                    assert(leaf_insertion(*old(self), *self, node_idx as int, pos as int, storage_id));
                    assert(lower_position(nodes[node_idx as int].entries@, data@, pos as int, value));
                }
                return true;
            }
            let bit_offset = self.nodes[node_idx].bit_offset;
            let children_start = self.nodes[node_idx].children_start;
            proof {
                lemma_slot_of_bound(value, bit_offset as u64);
                lemma_slot_of_fits(value, bit_offset as u64);
            }
            let child_pos = ((value >> (bit_offset as u64)) & 63u64) as usize;
            let bit = 1u64 << (child_pos as u64);
            if bitmap & bit == 0 {
                if self.nodes.len() >= 0xffff_ffff {
                    return false;
                }
                let new_node_idx = self.nodes.len() as u32;
                let mut entries: Vec<usize> = Vec::new();
                entries.push(storage_id);
                let ghost q = child_pos as u64;
                let ghost new_prefix = nodes[node_idx as int].prefix@ | (q << (bit_offset as u64));
                self.nodes.push(
                    FlatNode {
                        entries,
                        bit_offset: bit_offset + SPLIT_BITS,
                        child_bitmap: 0,
                        children_start: 0,
                        prefix: Ghost(new_prefix),
                        live: Ghost(true),
                    },
                );
                let child_slot = children_start + child_pos;
                if child_slot < self.child_slots.len() {
                    self.child_slots.set(child_slot, new_node_idx);
                }
                self.nodes[node_idx].child_bitmap = bitmap | bit;
                proof {
                    lemma_low_bits_step(value, bit_offset as u64);
                    assert(self.nodes@[nodes.len() as int].entries@ =~= seq![storage_id]);
                    lemma_wf_after_new_leaf(
                        nodes,
                        slots,
                        data@,
                        node_idx as int,
                        q,
                        storage_id,
                        self.nodes@,
                        self.child_slots@,
                    );
                    assert(leaf_attach(*old(self), *self, node_idx as int, q, storage_id));
                }
                return true;
            }
            let child_slot = children_start + child_pos;
            proof {
                let q = child_pos as u64;
                assert(nodes[node_idx as int].has_child(q));
                assert(link_ok(nodes, slots, node_idx as int, q));
                lemma_low_bits_step(value, bit_offset as u64);
            }
            if child_slot >= self.child_slots.len() {
                return false;
            }
            let child_idx = self.child_slots[child_slot];
            if child_idx == NO_CHILD {
                return false;
            }
            node_idx = child_idx as usize;
        }
    }
}

/// Removing one entry keeps a leaf sorted and routed.
proof fn lemma_entries_remove_ok(n: FlatNode, data: Seq<u64>, pos: int, e2: Seq<usize>)
    requires
        entries_ok(n, data),
        0 <= pos < n.entries@.len(),
        e2 == n.entries@.remove(pos),
    ensures
        forall|k: int|
            0 <= k < e2.len() ==> (#[trigger] e2[k] as int) < data.len() && n.covers(
                data[e2[k] as int],
            ),
        sorted_by_value(e2, data),
{
    let e = n.entries@;
    assert forall|k: int| 0 <= k < e2.len() implies (#[trigger] e2[k] as int) < data.len()
        && n.covers(data[e2[k] as int]) by {
        if k < pos {
            assert(e2[k] == e[k]);
        } else {
            assert(e2[k] == e[k + 1]);
        }
    }
    assert forall|i: int, j: int| 0 <= i <= j < e2.len() implies data[e2[i] as int] <= data[e2[j]
        as int] by {
        let i0 = if i < pos { i } else { i + 1 };
        let j0 = if j < pos { j } else { j + 1 };
        assert(e2[i] == e[i0]);
        assert(e2[j] == e[j0]);
        assert(data[e[i0] as int] <= data[e[j0] as int]);
    }
}

/// Two distinct slots of a node lead to distinct children.
proof fn lemma_children_distinct(
    nodes: Seq<FlatNode>,
    slots: Seq<u32>,
    data: Seq<u64>,
    p: int,
    q: u64,
    r: u64,
)
    requires
        tree_wf(nodes, slots, data),
        0 <= p < nodes.len(),
        q < 64,
        r < 64,
        q != r,
        !nodes[p].is_leaf(),
        link_ok(nodes, slots, p, q),
        link_ok(nodes, slots, p, r),
    ensures
        slots[nodes[p].children_start + q] != slots[nodes[p].children_start + r],
{
    assert(node_ok(nodes, slots, data, p));
    let n = nodes[p];
    if n.live@ {
        lemma_extend_prefix(n.prefix@, q, n.bo());
        lemma_extend_prefix(n.prefix@, r, n.bo());
    }
}

/// Emptying leaf `l` and clearing its slot `q` in parent `p` keeps the tree
/// well formed; the leaf becomes unreachable.
proof fn lemma_wf_after_prune(
    nodes: Seq<FlatNode>,
    slots: Seq<u32>,
    data: Seq<u64>,
    l: int,
    p: int,
    q: u64,
    nodes2: Seq<FlatNode>,
)
    requires
        tree_wf(nodes, slots, data),
        0 <= l < nodes.len(),
        0 <= p < nodes.len(),
        q < 64,
        nodes[p].has_child(q),
        slots[nodes[p].children_start + q] == l,
        nodes[l].is_leaf(),
        nodes2.len() == nodes.len(),
        forall|i: int| 0 <= i < nodes.len() && i != p && i != l ==> #[trigger] nodes2[i]
            == nodes[i],
        nodes2[l].entries@.len() == 0,
        nodes2[l].child_bitmap == 0,
        !nodes2[l].live@,
        nodes2[p].entries@ == nodes[p].entries@,
        nodes2[p].bit_offset == nodes[p].bit_offset,
        nodes2[p].children_start == nodes[p].children_start,
        nodes2[p].prefix@ == nodes[p].prefix@,
        nodes2[p].live@ == nodes[p].live@,
        nodes2[p].child_bitmap == nodes[p].child_bitmap & !slot_bit(q),
    ensures
        tree_wf(nodes2, slots, data),
{
    let np = nodes[p];
    let nl = nodes[l];
    if np.is_leaf() {
        lemma_no_slot_bit_in_zero(q);
    }
    assert(node_ok(nodes, slots, data, p));
    assert(child_ok(nodes, slots, p));
    assert(link_ok(nodes, slots, p, q));
    assert(p != l);
    lemma_slot_bit_set(np.child_bitmap, q);
    assert(node_ok(nodes, slots, data, l));
    lemma_extend_prefix(np.prefix@, q, np.bo());
    // A live node other than `l` never takes slot `q` of `p`.
    assert forall|b: int|
        0 <= b < nodes.len() && b != l && #[trigger] nodes[b].live@ && below(
            nodes[b],
            np,
        ) implies slot_of(nodes[b].prefix@, np.bo()) != q by {
        if slot_of(nodes[b].prefix@, np.bo()) == q {
            lemma_levels_apart(nodes, slots, data, p, b);
            lemma_low_bits_step(nodes[b].prefix@, np.bo());
            assert(pair_ok(nodes, l, b));
        }
    }
    assert forall|i: int| 0 <= i < nodes2.len() implies #[trigger] node_ok(nodes2, slots, data, i)
        && child_ok(nodes2, slots, i) by {
        assert(node_ok(nodes, slots, data, i));
        assert(child_ok(nodes, slots, i));
        if i == l {
            assert forall|r: u64| r < 64 && #[trigger] nodes2[i].has_child(r) implies link_ok(
                nodes2,
                slots,
                i,
                r,
            ) by {
                lemma_no_slot_bit_in_zero(r);
            }
        } else {
            assert forall|r: u64| r < 64 && #[trigger] nodes2[i].has_child(r) implies link_ok(
                nodes2,
                slots,
                i,
                r,
            ) by {
                if i == p {
                    if r == q {
                    } else {
                        lemma_slot_bit_other(np.child_bitmap, q, r);
                        assert(np.has_child(r));
                        assert(link_ok(nodes, slots, p, r));
                        lemma_children_distinct(nodes, slots, data, p, q, r);
                    }
                } else {
                    assert(nodes[i].has_child(r));
                    if nodes[i].is_leaf() {
                        lemma_no_slot_bit_in_zero(r);
                    }
                    assert(link_ok(nodes, slots, i, r));
                    let c = slots[nodes[i].children_start + r] as int;
                    if c == l {
                        assert(node_ok(nodes, slots, data, i));
                        lemma_extend_prefix(nodes[i].prefix@, r, nodes[i].bo());
                        assert(pair_ok(nodes, i, p));
                    }
                }
            }
        }
    }
    assert forall|a: int, b: int|
        0 <= a < nodes2.len() && 0 <= b < nodes2.len() implies #[trigger] pair_ok(nodes2, a, b) by {
        assert(pair_ok(nodes, a, b));
        let na = nodes2[a];
        let nb = nodes2[b];
        if a == l || b == l {
            assert(!nodes2[l].live@);
        } else {
            assert(na.live@ == nodes[a].live@ && na.bo() == nodes[a].bo() && na.prefix@
                == nodes[a].prefix@);
            assert(nb.live@ == nodes[b].live@ && nb.bo() == nodes[b].bo() && nb.prefix@
                == nodes[b].prefix@);
            assert(na.live@ && nb.live@ && a != b ==> !(na.bo() == nb.bo() && na.prefix@
                == nb.prefix@));
            if a == p && nb.live@ && a != b {
                assert(nodes2[b] == nodes[b]);
                assert(pair_ok(nodes, b, p));
                assert(node_ok(nodes, slots, data, b));
                if below(nodes[b], np) {
                    let r = slot_of(nodes[b].prefix@, np.bo());
                    lemma_slot_of_bound(nodes[b].prefix@, np.bo());
                    assert(nodes[b].live@);
                    assert(r != q);
                    assert(np.has_child(r));
                    lemma_slot_bit_other(np.child_bitmap, q, r);
                    if na.is_leaf() {
                        lemma_slot_bit_cleared_empty(np.child_bitmap, q, r);
                    }
                }
                assert(na.live@ && na.is_leaf() && nb.live@ ==> !(na.bo() <= nb.bo()
                    && low_bits(nb.prefix@, na.bo()) == na.prefix@));
                assert(na.live@ && !na.is_leaf() && nb.live@ && below(nb, na) ==> na.has_child(
                    slot_of(nb.prefix@, na.bo()),
                ));
            }
            if a != p {
                assert(na == nodes[a]);
                assert(na.live@ && na.is_leaf() && nb.live@ && a != b ==> !(na.bo() <= nb.bo()
                    && low_bits(nb.prefix@, na.bo()) == na.prefix@));
                assert(na.live@ && !na.is_leaf() && nb.live@ && below(nb, na) ==> na.has_child(
                    slot_of(nb.prefix@, na.bo()),
                ));
            }
            if b == p && !na.is_leaf() && !nb.is_leaf() {
                assert(!nodes[b].is_leaf());
            }
            assert(!na.is_leaf() && !nb.is_leaf() && a != b ==> na.children_start
                != nb.children_start);
        }
    }
}

/// Child slot `q` of node `p` leads to node `l`.
pub open spec fn parent_link(t: FlatBucket, p: int, q: u64, l: int) -> bool {
    &&& 0 <= p < t.nodes@.len()
    &&& q < 64
    &&& t.nodes@[p].has_child(q)
    &&& t.child_slots@[t.nodes@[p].children_start + q] == l
}

/// `t1` is `t0` with entry `pos` of live leaf `l` removed. A leaf other than
/// the root that this empties is unlinked: it stops being live and its
/// parent's child bit for it is cleared; nothing else changes.
pub open spec fn leaf_removal(t0: FlatBucket, t1: FlatBucket, l: int, pos: int) -> bool {
    let n0 = t0.nodes@[l];
    let emptied = n0.entries@.len() == 1 && l != 0;
    &&& 0 <= l < t0.nodes@.len()
    &&& n0.live@ && n0.is_leaf()
    &&& 0 <= pos < n0.entries@.len()
    &&& t1.child_slots@ == t0.child_slots@
    &&& t1.nodes@.len() == t0.nodes@.len()
    &&& t1.nodes@[l].entries@ == n0.entries@.remove(pos)
    &&& t1.nodes@[l].is_leaf()
    &&& t1.nodes@[l].live@ == !emptied
    &&& !emptied ==> forall|j: int|
        0 <= j < t0.nodes@.len() && j != l ==> #[trigger] t1.nodes@[j] == t0.nodes@[j]
    &&& emptied ==> exists|p: int, q: u64|
        #![trigger parent_link(t0, p, q, l)]
        {
            &&& parent_link(t0, p, q, l)
            &&& p != l
            &&& t1.nodes@[p].child_bitmap == t0.nodes@[p].child_bitmap & !slot_bit(q)
            &&& t1.nodes@[p].entries@ == t0.nodes@[p].entries@
            &&& t1.nodes@[p].children_start == t0.nodes@[p].children_start
            &&& forall|j: int|
                0 <= j < t0.nodes@.len() && j != l && j != p ==> #[trigger] t1.nodes@[j]
                    == t0.nodes@[j]
        }
}

impl FlatBucket {
    /// Removes entry `pos` of leaf `node_idx`; when the leaf empties and has a
    /// parent, the parent's slot bit is cleared.
    fn remove_entry_at(
        &mut self,
        node_idx: usize,
        pos: usize,
        parent_info: Option<(usize, usize)>,
        Ghost(data): Ghost<Seq<u64>>,
    )
        requires
            old(self).wf(data),
            (node_idx as int) < old(self).nodes@.len(),
            old(self).nodes@[node_idx as int].is_leaf(),
            old(self).nodes@[node_idx as int].live@,
            (pos as int) < old(self).nodes@[node_idx as int].entries@.len(),
            match parent_info {
                Some((p, q)) => (p as int) < old(self).nodes@.len() && q < 64 && old(
                    self,
                ).nodes@[p as int].has_child(q as u64) && old(self).child_slots@[old(
                    self,
                ).nodes@[p as int].children_start + q] == node_idx,
                None => node_idx == 0,
            },
        ensures
            final(self).wf(data),
            final(self).ids().to_multiset() == old(self).ids().to_multiset().remove(
                old(self).nodes@[node_idx as int].entries@[pos as int],
            ),
            leaf_removal(*old(self), *final(self), node_idx as int, pos as int),
    {
        let ghost nodes = self.nodes@;
        let ghost slots = self.child_slots@;
        let ghost id = nodes[node_idx as int].entries@[pos as int];
        proof {
            assert(node_ok(nodes, slots, data, node_idx as int));
        }
        self.nodes[node_idx].entries.remove(pos);
        let now_empty = self.nodes[node_idx].entries.len() == 0;
        let mut pruned = false;
        if now_empty {
            if let Some((parent_idx, child_pos)) = parent_info {
                let b = self.nodes[parent_idx].child_bitmap;
                self.nodes[parent_idx].child_bitmap = b & !(1u64 << (child_pos as u64));
                self.nodes[node_idx].live = Ghost(false);
                pruned = true;
            }
        }
        proof {
            let n = nodes[node_idx as int];
            let n2 = self.nodes@[node_idx as int];
            let mid = nodes.update(node_idx as int, n2);
            lemma_entries_remove_ok(n, data, pos as int, n2.entries@);
            lemma_leaf_seq_update(nodes, node_idx as int, n2);
            let mh = n.held().to_multiset();
            let mh2 = n2.held().to_multiset();
            assert(mh2 =~= mh.remove(id));
            let m1 = leaf_seq(nodes).to_multiset();
            let m2 = leaf_seq(mid).to_multiset();
            assert(m2.add(mh) == m1.add(mh2));
            assert(mh.count(id) > 0);
            assert forall|v: usize| m2.count(v) == m1.remove(id).count(v) by {
                assert(m2.add(mh).count(v) == m1.add(mh2).count(v));
            }
            assert(m2 =~= m1.remove(id));
            if let Some((p, q)) = parent_info {
                assert(node_ok(nodes, slots, data, p as int));
                assert(child_ok(nodes, slots, p as int));
                assert(nodes[p as int].has_child(q as u64));
                assert(link_ok(nodes, slots, p as int, q as u64));
                assert(node_idx != 0);
            }
            if pruned {
                let (p, q) = parent_info.unwrap();
                assert(parent_link(*old(self), p as int, q as u64, node_idx as int));
                if nodes[p as int].is_leaf() {
                    lemma_no_slot_bit_in_zero(q as u64);
                }
                assert(p != node_idx) by {
                    assert(node_ok(nodes, slots, data, p as int));
                    assert(link_ok(nodes, slots, p as int, q as u64));
                }
                lemma_wf_after_prune(nodes, slots, data, node_idx as int, p as int, q as u64,
                    self.nodes@);
                let np2 = self.nodes@[p as int];
                assert(self.nodes@ =~= mid.update(p as int, np2));
                lemma_leaf_seq_update(mid, p as int, np2);
                assert(node_ok(nodes, slots, data, p as int));
                assert(np2.held().to_multiset() =~= Multiset::<usize>::empty());
                assert(mid[p as int].held().to_multiset() =~= Multiset::<usize>::empty());
                let m3 = self.ids().to_multiset();
                assert(m3.add(Multiset::<usize>::empty()) == m2.add(Multiset::<usize>::empty()));
                assert(m3 =~= m3.add(Multiset::<usize>::empty()));
                assert(m2 =~= m2.add(Multiset::<usize>::empty()));
            } else {
                assert(self.nodes@ == mid);
                assert forall|i: int| 0 <= i < nodes.len() implies same_shape(
                    #[trigger] self.nodes@[i],
                    nodes[i],
                ) by {}
                lemma_wf_same_shape(nodes, slots, data, self.nodes@);
            }
        }
    }

    /// Removes one occurrence of `target` in place. Returns the removed id.
    pub fn surgical_remove(&mut self, target: u64, data: &Vec<u64>) -> (r: Option<usize>)
        requires
            old(self).wf(data@),
        ensures
            final(self).wf(data@),
            match r {
                Some(id) => old(self).ids().contains(id) && (id as int) < data@.len()
                    && data@[id as int] == target && final(self).ids().to_multiset() == old(
                    self,
                ).ids().to_multiset().remove(id),
                None => !has_value(old(self).ids(), data@, target) && *final(self) == *old(self),
            },
            r matches Some(id) ==> exists|l: int, pos: int|
                #![trigger leaf_removal(*old(self), *final(self), l, pos)]
                leaf_removal(*old(self), *final(self), l, pos) && old(self).nodes@[l].covers(target)
                    && old(self).nodes@[l].entries@[pos] == id,
    {
        if self.nodes.len() == 0 {
            return None;
        }
        let mut node_idx: usize = 0;
        let mut parent_info: Option<(usize, usize)> = None;
        proof {
            lemma_low_bits_of_zero_width(target);
        }
        loop
            invariant
                *self == *old(self),
                self.wf(data@),
                (node_idx as int) < self.nodes@.len(),
                self.nodes@[node_idx as int].live@,
                self.nodes@[node_idx as int].covers(target),
                match parent_info {
                    Some((p, q)) => (p as int) < self.nodes@.len() && q < 64
                        && self.nodes@[p as int].has_child(q as u64)
                        && self.child_slots@[self.nodes@[p as int].children_start + q] == node_idx,
                    None => node_idx == 0,
                },
            decreases 70 - self.nodes@[node_idx as int].bit_offset,
        {
            let ghost nodes = self.nodes@;
            let ghost slots = self.child_slots@;
            proof {
                assert(node_ok(nodes, slots, data@, node_idx as int));
                assert(child_ok(nodes, slots, node_idx as int));
            }
            let bitmap = self.nodes[node_idx].child_bitmap;
            if bitmap == 0 {
                let pos = lower_bound(&self.nodes[node_idx].entries, data, target);
                if !(pos < self.nodes[node_idx].entries.len()
                    && data[self.nodes[node_idx].entries[pos]] == target) {
                    proof {
                        self.lemma_absent_past_lower_bound(
                            data@,
                            target,
                            node_idx as int,
                            pos as int,
                        );
                    }
                    return None;
                }
                let storage_id = self.nodes[node_idx].entries[pos];
                proof {
                    self.lemma_leaf_entry_in_ids(node_idx as int, pos as int);
                }
                self.remove_entry_at(node_idx, pos, parent_info, Ghost(data@));
                return Some(storage_id);
            }
            let bit_offset = self.nodes[node_idx].bit_offset;
            let children_start = self.nodes[node_idx].children_start;
            proof {
                lemma_slot_of_bound(target, bit_offset as u64);
            }
            let child_pos = ((target >> (bit_offset as u64)) & 63u64) as usize;
            let bit = 1u64 << (child_pos as u64);
            if bitmap & bit == 0 {
                proof {
                    assert forall|l: int|
                        0 <= l < nodes.len() && #[trigger] nodes[l].live@
                            && nodes[l].is_leaf() implies !nodes[l].covers(target) by {
                        lemma_dead_end(nodes, slots, data@, node_idx as int, target, l);
                    }
                    self.lemma_absent_without_leaf(data@, target);
                }
                return None;
            }
            let child_slot = children_start + child_pos;
            proof {
                let q = child_pos as u64;
                assert(nodes[node_idx as int].has_child(q));
                assert(link_ok(nodes, slots, node_idx as int, q));
                lemma_low_bits_step(target, bit_offset as u64);
            }
            if child_slot >= self.child_slots.len() {
                return None;
            }
            let child_idx = self.child_slots[child_slot];
            if child_idx == NO_CHILD {
                return None;
            }
            parent_info = Some((node_idx, child_pos));
            node_idx = child_idx as usize;
        }
    }

    /// Removes the specific id `storage_id` (whose value is `target`) in place.
    pub fn surgical_remove_id(&mut self, target: u64, storage_id: usize, data: &Vec<u64>) -> (r:
        bool)
        requires
            old(self).wf(data@),
            (storage_id as int) < data@.len(),
            data@[storage_id as int] == target,
        ensures
            final(self).wf(data@),
            r == old(self).ids().contains(storage_id),
            r ==> final(self).ids().to_multiset() == old(self).ids().to_multiset().remove(
                storage_id,
            ),
            !r ==> *final(self) == *old(self),
            r ==> exists|l: int, pos: int|
                #![trigger leaf_removal(*old(self), *final(self), l, pos)]
                leaf_removal(*old(self), *final(self), l, pos) && old(self).nodes@[l].covers(target)
                    && old(self).nodes@[l].entries@[pos] == storage_id,
    {
        if self.nodes.len() == 0 {
            return false;
        }
        let mut node_idx: usize = 0;
        let mut parent_info: Option<(usize, usize)> = None;
        proof {
            lemma_low_bits_of_zero_width(target);
        }
        loop
            invariant
                *self == *old(self),
                self.wf(data@),
                (storage_id as int) < data@.len(),
                data@[storage_id as int] == target,
                (node_idx as int) < self.nodes@.len(),
                self.nodes@[node_idx as int].live@,
                self.nodes@[node_idx as int].covers(target),
                match parent_info {
                    Some((p, q)) => (p as int) < self.nodes@.len() && q < 64
                        && self.nodes@[p as int].has_child(q as u64)
                        && self.child_slots@[self.nodes@[p as int].children_start + q] == node_idx,
                    None => node_idx == 0,
                },
            decreases 70 - self.nodes@[node_idx as int].bit_offset,
        {
            let ghost nodes = self.nodes@;
            let ghost slots = self.child_slots@;
            proof {
                assert(node_ok(nodes, slots, data@, node_idx as int));
                assert(child_ok(nodes, slots, node_idx as int));
            }
            let bitmap = self.nodes[node_idx].child_bitmap;
            if bitmap == 0 {
                let start = lower_bound(&self.nodes[node_idx].entries, data, target);
                let len = self.nodes[node_idx].entries.len();
                let ghost e = self.nodes@[node_idx as int].entries@;
                let mut i = start;
                let mut pos = len;
                while i < len && pos == len
                    invariant
                        (node_idx as int) < self.nodes@.len(),
                        e == self.nodes@[node_idx as int].entries@,
                        len == e.len(),
                        start <= i <= len,
                        pos == len || (pos < len && e[pos as int] == storage_id),
                        pos == len ==> forall|k: int| start <= k < i ==> e[k] != storage_id,
                        forall|k: int| 0 <= k < e.len() ==> (e[k] as int) < data@.len(),
                        forall|k: int| start <= k < e.len() ==> data@[e[k] as int] >= target,
                        sorted_by_value(e, data@),
                        data@[storage_id as int] == target,
                    decreases len - i, pos,
                {
                    let id_here = self.nodes[node_idx].entries[i];
                    if data[id_here] != target {
                        proof {
                            assert forall|k: int| i <= k < len implies e[k] != storage_id by {
                                assert(data@[e[i as int] as int] <= data@[e[k] as int]);
                            }
                        }
                        i = len;
                    } else if id_here == storage_id {
                        pos = i;
                    } else {
                        i = i + 1;
                    }
                }
                if pos == len {
                    proof {
                        if self.ids().contains(storage_id) {
                            let k = self.lemma_routed_leaf_holds(
                                data@,
                                target,
                                node_idx as int,
                                storage_id,
                            );
                        }
                    }
                    return false;
                }
                proof {
                    self.lemma_leaf_entry_in_ids(node_idx as int, pos as int);
                }
                self.remove_entry_at(node_idx, pos, parent_info, Ghost(data@));
                return true;
            }
            let bit_offset = self.nodes[node_idx].bit_offset;
            let children_start = self.nodes[node_idx].children_start;
            proof {
                lemma_slot_of_bound(target, bit_offset as u64);
            }
            let child_pos = ((target >> (bit_offset as u64)) & 63u64) as usize;
            let bit = 1u64 << (child_pos as u64);
            if bitmap & bit == 0 {
                proof {
                    if self.ids().contains(storage_id) {
                        lemma_id_in_routed_leaf(nodes, slots, data@, storage_id);
                        let (l, k) = choose|l: int, k: int|
                            0 <= l < nodes.len() && nodes[l].live@ && nodes[l].is_leaf() && 0 <= k
                                < nodes[l].entries@.len() && nodes[l].entries@[k] == storage_id
                                && (storage_id as int) < data@.len() && nodes[l].covers(
                                data@[storage_id as int],
                            );
                        lemma_dead_end(nodes, slots, data@, node_idx as int, target, l);
                    }
                }
                return false;
            }
            let child_slot = children_start + child_pos;
            proof {
                let q = child_pos as u64;
                assert(nodes[node_idx as int].has_child(q));
                assert(link_ok(nodes, slots, node_idx as int, q));
                lemma_low_bits_step(target, bit_offset as u64);
            }
            let child_idx = if child_slot < self.child_slots.len() {
                self.child_slots[child_slot]
            } else {
                NO_CHILD
            };
            if child_idx == NO_CHILD {
                return false;
            }
            parent_info = Some((node_idx, child_pos));
            node_idx = child_idx as usize;
        }
    }
}

/// How many tree levels a subtree rooted at bit offset `b` can span.
pub open spec fn levels(b: int) -> int
    decreases 70 - b,
{
    if b >= 64 {
        1
    } else {
        1 + levels(b + 6)
    }
}

pub proof fn lemma_levels_positive(b: int)
    ensures
        levels(b) >= 1,
    decreases 70 - b,
{
    if b < 64 {
        lemma_levels_positive(b + 6);
    }
}

/// The ids held by the first `k` child lists.
pub open spec fn sum_ms(lists: Seq<Vec<usize>>, k: int) -> Multiset<usize>
    decreases k,
{
    if k <= 0 {
        Multiset::empty()
    } else {
        sum_ms(lists, k - 1).add(lists[k - 1]@.to_multiset())
    }
}

/// The number of ids in the first `k` child lists.
pub open spec fn sum_len(lists: Seq<Vec<usize>>, k: int) -> int
    decreases k,
{
    if k <= 0 {
        0
    } else {
        sum_len(lists, k - 1) + lists[k - 1]@.len()
    }
}

/// The number of nonempty lists among the first `k`.
pub open spec fn nonempty_count(lists: Seq<Vec<usize>>, k: int) -> int
    decreases k,
{
    if k <= 0 {
        0
    } else {
        nonempty_count(lists, k - 1) + if lists[k - 1]@.len() > 0 {
            1int
        } else {
            0int
        }
    }
}

proof fn lemma_sum_push(lists: Seq<Vec<usize>>, k: int, q: int, x: Vec<usize>, id: usize)
    requires
        0 <= q < k <= lists.len(),
        x@ == lists[q]@.push(id),
    ensures
        sum_ms(lists.update(q, x), k) == sum_ms(lists, k).insert(id),
        sum_len(lists.update(q, x), k) == sum_len(lists, k) + 1,
    decreases k,
{
    broadcast use vstd::multiset::group_multiset_axioms;

    let u = lists.update(q, x);
    if k - 1 == q {
        if k - 1 > 0 {
            lemma_sum_same_prefix(lists, u, k - 1);
        }
        assert(x@.to_multiset() =~= lists[q]@.to_multiset().insert(id));
        assert(sum_ms(u, k - 1) == sum_ms(lists, k - 1));
        let a = sum_ms(lists, k - 1);
        let c = lists[q]@.to_multiset();
        assert(u[k - 1] == x);
        assert(sum_ms(u, k) == a.add(c.insert(id)));
        assert(a.add(c.insert(id)) =~= a.add(c).insert(id));
    } else {
        lemma_sum_push(lists, k - 1, q, x, id);
        assert(u[k - 1] == lists[k - 1]);
        let a = sum_ms(lists, k - 1);
        let c = lists[k - 1]@.to_multiset();
        assert(sum_ms(u, k) == a.insert(id).add(c));
        assert(a.insert(id).add(c) =~= a.add(c).insert(id));
    }
}

proof fn lemma_sum_same_prefix(a: Seq<Vec<usize>>, b: Seq<Vec<usize>>, k: int)
    requires
        0 <= k <= a.len(),
        k <= b.len(),
        forall|i: int| 0 <= i < k ==> a[i] == b[i],
    ensures
        sum_ms(a, k) == sum_ms(b, k),
        sum_len(a, k) == sum_len(b, k),
        nonempty_count(a, k) == nonempty_count(b, k),
    decreases k,
{
    if k > 0 {
        lemma_sum_same_prefix(a, b, k - 1);
    }
}

proof fn lemma_sum_len_is_size(lists: Seq<Vec<usize>>, k: int)
    requires
        0 <= k <= lists.len(),
    ensures
        sum_ms(lists, k).len() == sum_len(lists, k),
        nonempty_count(lists, k) <= sum_len(lists, k),
        0 <= nonempty_count(lists, k),
    decreases k,
{
    broadcast use vstd::multiset::group_multiset_axioms;

    if k > 0 {
        lemma_sum_len_is_size(lists, k - 1);
    }
}

proof fn lemma_counts_nonneg(lists: Seq<Vec<usize>>, k: int)
    ensures
        0 <= nonempty_count(lists, k),
        0 <= sum_len(lists, k),
    decreases k,
{
    if k > 0 {
        lemma_counts_nonneg(lists, k - 1);
    }
}

proof fn lemma_nonempty_count_mono(lists: Seq<Vec<usize>>, j: int, k: int)
    requires
        0 <= j <= k <= lists.len(),
    ensures
        0 <= nonempty_count(lists, j),
        0 <= sum_len(lists, j),
        nonempty_count(lists, j) <= nonempty_count(lists, k),
        sum_len(lists, j) <= sum_len(lists, k),
        j < k && lists[j]@.len() > 0 ==> nonempty_count(lists, j) < nonempty_count(lists, k),
        j < k ==> sum_len(lists, j) + lists[j]@.len() <= sum_len(lists, k),
    decreases k - j,
{
    if j < k {
        lemma_nonempty_count_mono(lists, j + 1, k);
    }
    lemma_counts_nonneg(lists, j);
}

/// An unbuilt child node: unreachable, empty, a leaf.
pub open spec fn is_placeholder(n: FlatNode) -> bool {
    !n.live@ && n.is_leaf() && n.entries@.len() == 0
}

fn placeholder() -> (n: FlatNode)
    ensures
        is_placeholder(n),
{
    FlatNode {
        entries: Vec::new(),
        bit_offset: 0,
        child_bitmap: 0,
        children_start: 0,
        prefix: Ghost(0),
        live: Ghost(false),
    }
}

proof fn lemma_some_nonempty(lists: Seq<Vec<usize>>, k: int) -> (r: int)
    requires
        0 <= k <= lists.len(),
        sum_len(lists, k) > 0,
    ensures
        0 <= r < k,
        lists[r]@.len() > 0,
        nonempty_count(lists, k) > 0,
    decreases k,
{
    lemma_sum_len_is_size(lists, k - 1);
    if lists[k - 1]@.len() > 0 {
        k - 1
    } else {
        lemma_some_nonempty(lists, k - 1)
    }
}

/// The facts a finished subtree gives about each of its nodes `j`: it sits
/// under (`bo`, `prefix`), its children lie in `lo..hi`, and its slot range
/// starts at or after `os`.
pub open spec fn sub_ok(
    nodes: Seq<FlatNode>,
    slots: Seq<u32>,
    data: Seq<u64>,
    j: int,
    bo: u64,
    prefix: u64,
    lo: int,
    hi: int,
    os: int,
) -> bool {
    let n = nodes[j];
    &&& node_ok(nodes, slots, data, j)
    &&& child_ok(nodes, slots, j)
    &&& n.live@
    &&& n.bo() >= bo
    &&& low_bits(n.prefix@, bo) == prefix
    &&& !n.is_leaf() ==> n.children_start >= os && forall|r: u64|
        r < 64 && #[trigger] n.has_child(r) ==> lo <= slots[n.children_start + r] < hi
}

pub open spec fn in_built(j: int, cns: int, cni: int, pend: int, len: int) -> bool {
    (cns <= j < cni) || (pend <= j < len)
}

/// A node of a finished child subtree, while the children of a node at
/// (`bo`, `prefix`) are being built: its child slot is one already done.
pub open spec fn built_ok(
    nodes: Seq<FlatNode>,
    slots: Seq<u32>,
    data: Seq<u64>,
    j: int,
    bo: u64,
    prefix: u64,
    lists: Seq<Vec<usize>>,
    cp: int,
    os: int,
    cns: int,
    cni: int,
    pend: int,
) -> bool {
    let n = nodes[j];
    let q = slot_of(n.prefix@, bo);
    &&& node_ok(nodes, slots, data, j)
    &&& child_ok(nodes, slots, j)
    &&& n.live@
    &&& n.bo() >= bo + 6
    &&& q < cp
    &&& lists[q as int]@.len() > 0
    &&& (q << bo) >> bo == q
    &&& low_bits(n.prefix@, (bo + 6) as u64) == prefix | (q << bo)
    &&& !n.is_leaf() ==> n.children_start >= os + 64 && forall|r: u64|
        r < 64 && #[trigger] n.has_child(r) ==> in_built(
            slots[n.children_start + r] as int,
            cns,
            cni,
            pend,
            nodes.len() as int,
        )
}

/// Nodes under different slots of the same parent route disjoint regions.
proof fn lemma_distinct_regions(na: FlatNode, nb: FlatNode, b6: u64)
    requires
        na.live@,
        nb.live@,
        na.bo() >= b6,
        nb.bo() >= b6,
        low_bits(na.prefix@, na.bo()) == na.prefix@,
        low_bits(nb.prefix@, nb.bo()) == nb.prefix@,
        low_bits(na.prefix@, b6) != low_bits(nb.prefix@, b6),
    ensures
        !(na.bo() == nb.bo() && na.prefix@ == nb.prefix@),
        !(na.bo() <= nb.bo() && low_bits(nb.prefix@, na.bo()) == na.prefix@),
        !(nb.bo() <= na.bo() && low_bits(na.prefix@, nb.bo()) == nb.prefix@),
        !below(na, nb),
        !below(nb, na),
{
    if na.bo() <= nb.bo() && low_bits(nb.prefix@, na.bo()) == na.prefix@ {
        lemma_low_bits_nest(nb.prefix@, b6, na.bo());
        lemma_low_bits_nest(na.prefix@, b6, na.bo());
    }
    if nb.bo() <= na.bo() && low_bits(na.prefix@, nb.bo()) == nb.prefix@ {
        lemma_low_bits_nest(na.prefix@, b6, nb.bo());
        lemma_low_bits_nest(nb.prefix@, b6, nb.bo());
    }
}

/// Node and child facts survive changes elsewhere.
proof fn lemma_frame_node(
    nodes1: Seq<FlatNode>,
    slots1: Seq<u32>,
    nodes2: Seq<FlatNode>,
    slots2: Seq<u32>,
    data: Seq<u64>,
    j: int,
)
    requires
        0 <= j < nodes1.len(),
        0 <= j < nodes2.len(),
        node_ok(nodes1, slots1, data, j),
        child_ok(nodes1, slots1, j),
        nodes2[j] == nodes1[j],
        slots2.len() >= slots1.len(),
        forall|r: u64|
            r < 64 && #[trigger] nodes1[j].has_child(r) ==> {
                let c = slots1[nodes1[j].children_start + r] as int;
                &&& slots2[nodes1[j].children_start + r] == slots1[nodes1[j].children_start + r]
                &&& c < nodes2.len()
                &&& nodes2[c] == nodes1[c]
            },
    ensures
        node_ok(nodes2, slots2, data, j),
        child_ok(nodes2, slots2, j),
{
    assert forall|r: u64| r < 64 && #[trigger] nodes2[j].has_child(r) implies link_ok(
        nodes2,
        slots2,
        j,
        r,
    ) by {
        assert(nodes1[j].has_child(r));
        assert(link_ok(nodes1, slots1, j, r));
        if nodes1[j].is_leaf() {
            lemma_no_slot_bit_in_zero(r);
        }
    }
}

/// What `fill_node` leaves: node `node_idx` and the nodes it appended form a
/// well-formed subtree for `ids` under (`bo`, `prefix`), and nothing else
/// changed.
pub open spec fn fill_post(
    nodes0: Seq<FlatNode>,
    slots0: Seq<u32>,
    fns: Seq<FlatNode>,
    fss: Seq<u32>,
    data: Seq<u64>,
    node_idx: int,
    ids: Seq<usize>,
    bo: u64,
    prefix: u64,
) -> bool {
    let o = nodes0.len() as int;
    let n = fns.len() as int;
    let os = slots0.len() as int;
    &&& 0 <= node_idx < o
    &&& o <= n
    &&& ids.len() > 0 ==> n - o + 1 <= ids.len() * levels(bo as int)
    &&& ids.len() == 0 ==> n == o
    &&& fss.len() % 64 == 0
    &&& os <= fss.len() <= 64 * n
    &&& forall|j: int| 0 <= j < o && j != node_idx ==> #[trigger] fns[j] == nodes0[j]
    &&& forall|k: int| 0 <= k < os ==> #[trigger] fss[k] == slots0[k]
    &&& fns[node_idx].bo() == bo
    &&& fns[node_idx].prefix@ == prefix
    &&& forall|j: int|
        (j == node_idx || o <= j < n) ==> #[trigger] sub_ok(fns, fss, data, j, bo, prefix, o, n, os)
            && (j != node_idx ==> fns[j].bo() > bo)
    &&& forall|a: int, b: int|
        (a == node_idx || o <= a < n) && (b == node_idx || o <= b < n) ==> #[trigger] pair_ok(
            fns,
            a,
            b,
        )
    &&& fns[node_idx].held().to_multiset().add(leaf_seq(fns.subrange(o, n)).to_multiset())
        == ids.to_multiset()
}

/// A live leaf holds at most `LEAF_CAP` ids, unless every routing bit of its
/// values is already spent (`bit_offset >= 64`).
pub open spec fn leaf_within_cap(n: FlatNode) -> bool {
    n.live@ && n.is_leaf() ==> n.entries@.len() <= LEAF_CAP || n.bit_offset >= 64
}

/// An internal node's 64 child slots exist, and each slot whose child bit is
/// clear holds `NO_CHILD`: a slot names a child only under a set bit.
pub open spec fn slots_match_bits(n: FlatNode, slots: Seq<u32>) -> bool {
    !n.is_leaf() ==> n.children_start + 64 <= slots.len() && forall|q: u64|
        q < 64 && !#[trigger] n.has_child(q) ==> slots[n.children_start + q] == NO_CHILD
}

/// Every leaf of `nodes` is within the cap: the shape a freshly built tree has.
pub open spec fn leaves_within_cap(nodes: Seq<FlatNode>) -> bool {
    forall|j: int| 0 <= j < nodes.len() ==> leaf_within_cap(#[trigger] nodes[j])
}

proof fn lemma_sum_empty(lists: Seq<Vec<usize>>, k: int)
    requires
        0 <= k <= lists.len(),
        forall|r: int| 0 <= r < k ==> (#[trigger] lists[r])@.len() == 0,
    ensures
        sum_ms(lists, k) == Multiset::<usize>::empty(),
    decreases k,
{
    if k > 0 {
        lemma_sum_empty(lists, k - 1);
        assert(lists[k - 1]@ =~= Seq::<usize>::empty());
        assert(sum_ms(lists, k) =~= Multiset::<usize>::empty());
    }
}

proof fn lemma_sum_empty_len(lists: Seq<Vec<usize>>, k: int)
    requires
        0 <= k <= lists.len(),
        forall|r: int| 0 <= r < k ==> (#[trigger] lists[r])@.len() == 0,
    ensures
        sum_len(lists, k) == 0,
    decreases k,
{
    if k > 0 {
        lemma_sum_empty_len(lists, k - 1);
    }
}

proof fn lemma_leaf_seq_placeholders(s: Seq<FlatNode>)
    requires
        forall|j: int| 0 <= j < s.len() ==> is_placeholder(#[trigger] s[j]),
    ensures
        leaf_seq(s) == Seq::<usize>::empty(),
    decreases s.len(),
{
    if s.len() > 0 {
        lemma_leaf_seq_placeholders(s.drop_last());
        assert(s.last().held() =~= Seq::<usize>::empty());
        assert(leaf_seq(s) =~= Seq::<usize>::empty());
    }
}

/// The state of `fill_node` while it builds the children of one node.
pub open spec fn fill_inv(
    nodes: Seq<FlatNode>,
    slots: Seq<u32>,
    data: Seq<u64>,
    nodes0: Seq<FlatNode>,
    slots0: Seq<u32>,
    ids_len: int,
    node_idx: int,
    bo: u64,
    prefix: u64,
    lists: Seq<Vec<usize>>,
    cp: int,
    os: int,
    o: int,
    cni: int,
    pend: int,
    lv: int,
) -> bool {
    &&& 0 <= cp <= 64
    &&& bo < 64
    &&& bo % 6 == 0
    &&& lv == levels(bo + 6)
    &&& lv >= 1
    &&& levels(bo as int) == 1 + lv
    &&& low_bits(prefix, bo) == prefix
    &&& lists.len() == 64
    &&& 0 <= node_idx < o
    &&& o == nodes0.len()
    &&& os == slots0.len()
    &&& os % 64 == 0
    &&& pend == o + nonempty_count(lists, 64)
    &&& cni == o + nonempty_count(lists, cp)
    &&& nodes.len() >= pend
    &&& nodes.len() + nonempty_count(lists, cp) <= pend + lv * sum_len(lists, cp)
    &&& o + ids_len * levels(bo as int) < 0xffff_ffff
    &&& sum_len(lists, 64) == ids_len
    &&& slots.len() % 64 == 0
    &&& os + 64 <= slots.len() <= 64 * nodes.len()
    &&& forall|j: int| 0 <= j < o ==> #[trigger] nodes[j] == nodes0[j]
    &&& forall|j: int| 0 <= j < os ==> #[trigger] slots[j] == slots0[j]
    &&& forall|j: int| cni <= j < pend ==> is_placeholder(#[trigger] nodes[j])
    &&& forall|rr: int|
        0 <= rr < 64 ==> #[trigger] slots[os + rr] == if rr < cp && lists[rr]@.len() > 0 {
            (o + nonempty_count(lists, rr)) as u32
        } else {
            NO_CHILD
        }
    &&& forall|rr: int|
        0 <= rr < cp && lists[rr]@.len() > 0 ==> {
            let c = o + #[trigger] nonempty_count(lists, rr);
            &&& nodes[c].live@
            &&& nodes[c].bo() == bo + 6
            &&& nodes[c].prefix@ == prefix | ((rr as u64) << bo)
            &&& ((rr as u64) << bo) >> bo == rr as u64
        }
    &&& forall|r: int, k: int|
        0 <= r < 64 && 0 <= k < lists[r]@.len() ==> {
            let x = #[trigger] lists[r]@[k];
            &&& (x as int) < data.len()
            &&& low_bits(data[x as int], bo) == prefix
            &&& slot_of(data[x as int], bo) == r
        }
    &&& forall|j: int|
        in_built(j, o, cni, pend, nodes.len() as int) ==> #[trigger] built_ok(
            nodes,
            slots,
            data,
            j,
            bo,
            prefix,
            lists,
            cp,
            os,
            o,
            cni,
            pend,
        )
    &&& forall|a: int, b: int|
        in_built(a, o, cni, pend, nodes.len() as int) && in_built(
            b,
            o,
            cni,
            pend,
            nodes.len() as int,
        ) ==> #[trigger] pair_ok(nodes, a, b)
    &&& leaf_seq(nodes.subrange(o, nodes.len() as int)).to_multiset() == sum_ms(lists, cp)
}

proof fn lemma_fill_skip(
    nodes: Seq<FlatNode>,
    slots: Seq<u32>,
    data: Seq<u64>,
    nodes0: Seq<FlatNode>,
    slots0: Seq<u32>,
    ids_len: int,
    node_idx: int,
    bo: u64,
    prefix: u64,
    lists: Seq<Vec<usize>>,
    cp: int,
    os: int,
    o: int,
    cni: int,
    pend: int,
    lv: int,
)
    requires
        fill_inv(
            nodes,
            slots,
            data,
            nodes0,
            slots0,
            ids_len,
            node_idx,
            bo,
            prefix,
            lists,
            cp,
            os,
            o,
            cni,
            pend,
            lv,
        ),
        cp < 64,
        lists[cp]@.len() == 0,
    ensures
        fill_inv(
            nodes,
            slots,
            data,
            nodes0,
            slots0,
            ids_len,
            node_idx,
            bo,
            prefix,
            lists,
            cp + 1,
            os,
            o,
            cni,
            pend,
            lv,
        ),
{
    broadcast use vstd::multiset::group_multiset_axioms;

    assert(lists[cp]@ =~= Seq::<usize>::empty());
    assert(sum_ms(lists, cp + 1) =~= sum_ms(lists, cp));
    assert forall|j: int| in_built(j, o, cni, pend, nodes.len() as int) implies #[trigger] built_ok(
        nodes,
        slots,
        data,
        j,
        bo,
        prefix,
        lists,
        cp + 1,
        os,
        o,
        cni,
        pend,
    ) by {
        assert(built_ok(nodes, slots, data, j, bo, prefix, lists, cp, os, o, cni, pend));
    }
    assert forall|rr: int|
        0 <= rr < cp + 1 && lists[rr]@.len() > 0 implies {
        let c = o + #[trigger] nonempty_count(lists, rr);
        &&& nodes[c].live@
        &&& nodes[c].bo() == bo + 6
        &&& nodes[c].prefix@ == prefix | ((rr as u64) << bo)
        &&& ((rr as u64) << bo) >> bo == rr as u64
    } by {}
}

proof fn lemma_fill_step(
    nodes1: Seq<FlatNode>,
    slots1: Seq<u32>,
    nodes2: Seq<FlatNode>,
    slots2: Seq<u32>,
    data: Seq<u64>,
    nodes0: Seq<FlatNode>,
    slots0: Seq<u32>,
    ids_len: int,
    node_idx: int,
    bo: u64,
    prefix: u64,
    lists: Seq<Vec<usize>>,
    cp: int,
    os: int,
    o: int,
    cni: int,
    pend: int,
    lv: int,
)
    requires
        fill_inv(
            nodes1,
            slots1,
            data,
            nodes0,
            slots0,
            ids_len,
            node_idx,
            bo,
            prefix,
            lists,
            cp,
            os,
            o,
            cni,
            pend,
            lv,
        ),
        cp < 64,
        lists[cp]@.len() > 0,
        ((cp as u64) << bo) >> bo == cp as u64,
        fill_post(
            nodes1,
            slots1.update(os + cp, cni as u32),
            nodes2,
            slots2,
            data,
            cni,
            lists[cp]@,
            (bo + 6) as u64,
            prefix | ((cp as u64) << bo),
        ),
    ensures
        fill_inv(
            nodes2,
            slots2,
            data,
            nodes0,
            slots0,
            ids_len,
            node_idx,
            bo,
            prefix,
            lists,
            cp + 1,
            os,
            o,
            cni + 1,
            pend,
            lv,
        ),
{
    broadcast use vstd::multiset::group_multiset_axioms;

    let ok = nodes1.len() as int;
    let osk = slots1.len() as int;
    let n2 = nodes2.len() as int;
    let sb = slots1.update(os + cp, cni as u32);
    let b6 = (bo + 6) as u64;
    let q = cp as u64;
    let pc = prefix | (q << bo);
    lemma_extend_prefix(prefix, q, bo);
    lemma_nonempty_count_mono(lists, cp, 64);
    lemma_sum_len_is_size(lists, 64);
    let ln = lists[cp]@.len() as int;
    lemma_nonempty_count_mono(lists, cp, 64);
    assert(lv * sum_len(lists, cp + 1) == lv * sum_len(lists, cp) + ln * lv) by (nonlinear_arith)
        requires
            sum_len(lists, cp + 1) == sum_len(lists, cp) + ln,
    ;
    // Slots of the parent's range.
    assert forall|rr: int| 0 <= rr < 64 implies #[trigger] slots2[os + rr] == if rr < cp + 1
        && lists[rr]@.len() > 0 {
        (o + nonempty_count(lists, rr)) as u32
    } else {
        NO_CHILD
    } by {
        assert(slots2[os + rr] == sb[os + rr]);
    }
    // The children built so far.
    assert forall|rr: int|
        0 <= rr < cp + 1 && lists[rr]@.len() > 0 implies {
        let c = o + #[trigger] nonempty_count(lists, rr);
        &&& nodes2[c].live@
        &&& nodes2[c].bo() == bo + 6
        &&& nodes2[c].prefix@ == prefix | ((rr as u64) << bo)
        &&& ((rr as u64) << bo) >> bo == rr as u64
    } by {
        if rr < cp {
            lemma_nonempty_count_mono(lists, rr, cp);
            lemma_nonempty_count_mono(lists, 0, rr);
            assert(nodes2[o + nonempty_count(lists, rr)] == nodes1[o + nonempty_count(lists, rr)]);
        } else {
            assert(sub_ok(nodes2, slots2, data, cni, b6, pc, ok, n2, osk));
        }
    }
    assert forall|j: int| cni + 1 <= j < pend implies is_placeholder(#[trigger] nodes2[j]) by {
        assert(nodes2[j] == nodes1[j]);
    }
    assert forall|j: int| 0 <= j < o implies #[trigger] nodes2[j] == nodes0[j] by {
        assert(nodes2[j] == nodes1[j]);
    }
    assert forall|j: int| 0 <= j < os implies #[trigger] slots2[j] == slots0[j] by {
        assert(slots2[j] == sb[j]);
    }
    // Facts of each node built so far.
    assert forall|j: int| in_built(j, o, cni + 1, pend, n2) implies #[trigger] built_ok(
        nodes2,
        slots2,
        data,
        j,
        bo,
        prefix,
        lists,
        cp + 1,
        os,
        o,
        cni + 1,
        pend,
    ) by {
        if j == cni || ok <= j < n2 {
            assert(sub_ok(nodes2, slots2, data, j, b6, pc, ok, n2, osk));
            let pj = nodes2[j].prefix@;
            lemma_low_bits_nest(pj, b6, nodes2[j].bo());
            assert(node_ok(nodes2, slots2, data, j));
            lemma_slot_of_low_bits(pj, bo, b6);
        } else {
            assert(built_ok(nodes1, slots1, data, j, bo, prefix, lists, cp, os, o, cni, pend));
            assert(nodes2[j] == nodes1[j]);
            assert forall|r: u64| r < 64 && #[trigger] nodes1[j].has_child(r) implies {
                let c = slots1[nodes1[j].children_start + r] as int;
                &&& slots2[nodes1[j].children_start + r] == slots1[nodes1[j].children_start + r]
                &&& c < nodes2.len()
                &&& nodes2[c] == nodes1[c]
            } by {
                assert(node_ok(nodes1, slots1, data, j));
                if nodes1[j].is_leaf() {
                    lemma_no_slot_bit_in_zero(r);
                }
                let k = nodes1[j].children_start + r;
                assert(slots2[k] == sb[k]);
            }
            lemma_frame_node(nodes1, slots1, nodes2, slots2, data, j);
        }
    }
    // Pairs among the nodes built so far.
    assert forall|a: int, b: int|
        in_built(a, o, cni + 1, pend, n2) && in_built(b, o, cni + 1, pend, n2) implies #[trigger] pair_ok(
        nodes2,
        a,
        b,
    ) by {
        let new_a = a == cni || ok <= a < n2;
        let new_b = b == cni || ok <= b < n2;
        if new_a && new_b {
        } else if !new_a && !new_b {
            assert(pair_ok(nodes1, a, b));
            assert(nodes2[a] == nodes1[a]);
            assert(nodes2[b] == nodes1[b]);
        } else {
            let (x, y) = if new_a {
                (b, a)
            } else {
                (a, b)
            };
            // `x` is an older node, `y` one of the new subtree.
            assert(built_ok(nodes1, slots1, data, x, bo, prefix, lists, cp, os, o, cni, pend));
            assert(nodes2[x] == nodes1[x]);
            assert(sub_ok(nodes2, slots2, data, y, b6, pc, ok, n2, osk));
            let qx = slot_of(nodes1[x].prefix@, bo);
            lemma_slot_of_bound(nodes1[x].prefix@, bo);
            lemma_extend_prefix(prefix, qx, bo);
            assert(node_ok(nodes1, slots1, data, x));
            assert(node_ok(nodes2, slots2, data, y));
            lemma_low_bits_nest(nodes2[y].prefix@, b6, nodes2[y].bo());
            lemma_distinct_regions(nodes2[x], nodes2[y], b6);
        }
    }
    // Contents.
    let s1 = nodes1.subrange(o, ok);
    let s2 = nodes2.subrange(o, ok);
    assert(s2 =~= s1.update(cni - o, nodes2[cni]));
    lemma_leaf_seq_update(s1, cni - o, nodes2[cni]);
    assert(nodes2.subrange(o, n2) =~= s2 + nodes2.subrange(ok, n2));
    lemma_leaf_seq_concat(s2, nodes2.subrange(ok, n2));
    vstd::seq_lib::lemma_multiset_commutative(leaf_seq(s2), leaf_seq(nodes2.subrange(ok, n2)));
    assert(s1[cni - o] == nodes1[cni]);
    assert(nodes1[cni].held() =~= Seq::<usize>::empty());
    assert(nodes1[cni].held().to_multiset() =~= Multiset::<usize>::empty());
    let m1 = leaf_seq(s1).to_multiset();
    let m2 = leaf_seq(s2).to_multiset();
    let mh = nodes2[cni].held().to_multiset();
    let mr = leaf_seq(nodes2.subrange(ok, n2)).to_multiset();
    assert(m2.add(Multiset::<usize>::empty()) == m1.add(mh));
    assert(m2 =~= m1.add(mh));
    assert(mh.add(mr) == lists[cp]@.to_multiset());
    assert(leaf_seq(nodes2.subrange(o, n2)).to_multiset() =~= m1.add(mh).add(mr));
    assert(m1.add(mh).add(mr) =~= m1.add(mh.add(mr)));
}

#[verifier::spinoff_prover]
proof fn lemma_fill_finish(
    nodes1: Seq<FlatNode>,
    slots1: Seq<u32>,
    nodes2: Seq<FlatNode>,
    data: Seq<u64>,
    nodes0: Seq<FlatNode>,
    slots0: Seq<u32>,
    ids: Seq<usize>,
    node_idx: int,
    bo: u64,
    prefix: u64,
    lists: Seq<Vec<usize>>,
    bitmap: u64,
    os: int,
    o: int,
    pend: int,
    lv: int,
)
    requires
        fill_inv(
            nodes1,
            slots1,
            data,
            nodes0,
            slots0,
            ids.len() as int,
            node_idx,
            bo,
            prefix,
            lists,
            64,
            os,
            o,
            pend,
            pend,
            lv,
        ),
        forall|r: u64|
            r < 64 ==> (bitmap & #[trigger] slot_bit(r) != 0 <==> lists[r as int]@.len() > 0),
        sum_ms(lists, 64) == ids.to_multiset(),
        ids.len() > 0,
        nodes2.len() == nodes1.len(),
        forall|j: int| 0 <= j < nodes1.len() && j != node_idx ==> #[trigger] nodes2[j] == nodes1[j],
        nodes2[node_idx].entries@.len() == 0,
        nodes2[node_idx].bit_offset as u64 == bo,
        nodes2[node_idx].child_bitmap == bitmap,
        nodes2[node_idx].children_start == os,
        nodes2[node_idx].prefix@ == prefix,
        nodes2[node_idx].live@,
    ensures
        fill_post(nodes0, slots0, nodes2, slots1, data, node_idx, ids, bo, prefix),
{
    broadcast use vstd::multiset::group_multiset_axioms;

    let n = nodes1.len() as int;
    let np = nodes2[node_idx];
    lemma_sum_len_is_size(lists, 64);
    let r0 = lemma_some_nonempty(lists, 64);
    if bitmap == 0 {
        lemma_no_slot_bit_in_zero(r0 as u64);
        assert(bitmap & slot_bit(r0 as u64) != 0);
    }
    assert(n - o + 1 <= ids.len() * levels(bo as int)) by (nonlinear_arith)
        requires
            n + nonempty_count(lists, 64) <= pend + lv * sum_len(lists, 64),
            pend == o + nonempty_count(lists, 64),
            sum_len(lists, 64) == ids.len(),
            levels(bo as int) == 1 + lv,
            ids.len() >= 1,
    ;
    assert forall|j: int| 0 <= j < o && j != node_idx implies #[trigger] nodes2[j] == nodes0[j] by {
        assert(nodes2[j] == nodes1[j]);
    }
    // The node itself.
    assert(node_ok(nodes2, slots1, data, node_idx));
    assert forall|r: u64| r < 64 && #[trigger] np.has_child(r) implies link_ok(
        nodes2,
        slots1,
        node_idx,
        r,
    ) && o <= slots1[np.children_start + r] < n by {
        assert(bitmap & slot_bit(r) != 0);
        let rr = r as int;
        assert(slots1[os + rr] == (o + nonempty_count(lists, rr)) as u32);
        lemma_nonempty_count_mono(lists, rr, 64);
        lemma_nonempty_count_mono(lists, 0, rr);
        let c = o + nonempty_count(lists, rr);
        assert(nodes2[c] == nodes1[c]);
    }
    assert(sub_ok(nodes2, slots1, data, node_idx, bo, prefix, o, n, os));
    // The nodes of the children's subtrees.
    assert forall|j: int| o <= j < n implies #[trigger] sub_ok(
        nodes2,
        slots1,
        data,
        j,
        bo,
        prefix,
        o,
        n,
        os,
    ) && nodes2[j].bo() > bo by {
        assert(in_built(j, o, pend, pend, n));
        assert(built_ok(nodes1, slots1, data, j, bo, prefix, lists, 64, os, o, pend, pend));
        assert(nodes2[j] == nodes1[j]);
        assert forall|r: u64| r < 64 && #[trigger] nodes1[j].has_child(r) implies {
            let c = slots1[nodes1[j].children_start + r] as int;
            &&& slots1[nodes1[j].children_start + r] == slots1[nodes1[j].children_start + r]
            &&& c < nodes2.len()
            &&& nodes2[c] == nodes1[c]
        } by {
            assert(node_ok(nodes1, slots1, data, j));
            if nodes1[j].is_leaf() {
                lemma_no_slot_bit_in_zero(r);
            }
        }
        lemma_frame_node(nodes1, slots1, nodes2, slots1, data, j);
        let pj = nodes1[j].prefix@;
        let qj = slot_of(pj, bo);
        lemma_low_bits_nest(pj, bo, (bo + 6) as u64);
        lemma_extend_prefix(prefix, qj, bo);
    }
    // Pairs.
    assert forall|a: int, b: int|
        (a == node_idx || o <= a < n) && (b == node_idx || o <= b < n) implies #[trigger] pair_ok(
        nodes2,
        a,
        b,
    ) by {
        if a == node_idx && b == node_idx {
        } else if a == node_idx {
            assert(built_ok(nodes1, slots1, data, b, bo, prefix, lists, 64, os, o, pend, pend));
            assert(nodes2[b] == nodes1[b]);
            let qb = slot_of(nodes1[b].prefix@, bo);
            lemma_slot_of_bound(nodes1[b].prefix@, bo);
            assert(bitmap & slot_bit(qb) != 0);
        } else if b == node_idx {
            assert(built_ok(nodes1, slots1, data, a, bo, prefix, lists, 64, os, o, pend, pend));
            assert(nodes2[a] == nodes1[a]);
        } else {
            assert(in_built(a, o, pend, pend, n));
            assert(in_built(b, o, pend, pend, n));
            assert(pair_ok(nodes1, a, b));
            assert(nodes2[a] == nodes1[a]);
            assert(nodes2[b] == nodes1[b]);
        }
    }
    // Contents.
    assert(nodes2.subrange(o, n) =~= nodes1.subrange(o, n));
    assert(np.held() =~= Seq::<usize>::empty());
    assert(np.held().to_multiset() =~= Multiset::<usize>::empty());
    assert(np.held().to_multiset().add(leaf_seq(nodes2.subrange(o, n)).to_multiset())
        =~= ids.to_multiset());
}

impl FlatBucket {
    /// Fills node `node_idx` (already allocated) with the subtree for `ids`,
    /// routing by bits from `bit_offset` on; children are appended to `nodes`
    /// and their slot ranges to `child_slots`.
    fn fill_node(
        node_idx: usize,
        ids: &Vec<usize>,
        data: &Vec<u64>,
        bit_offset: u8,
        nodes: &mut Vec<FlatNode>,
        child_slots: &mut Vec<u32>,
        Ghost(prefix): Ghost<u64>,
    )
        requires
            (node_idx as int) < old(nodes)@.len(),
            bit_offset % 6 == 0,
            bit_offset <= 66,
            low_bits(prefix, bit_offset as u64) == prefix,
            forall|k: int|
                0 <= k < ids@.len() ==> (#[trigger] ids@[k] as int) < data@.len() && low_bits(
                    data@[ids@[k] as int],
                    bit_offset as u64,
                ) == prefix,
            old(nodes)@.len() + ids@.len() * levels(bit_offset as int) < 0xffff_ffff,
            old(child_slots)@.len() % 64 == 0,
            old(child_slots)@.len() <= 64 * old(nodes)@.len(),
        ensures
            fill_post(
                old(nodes)@,
                old(child_slots)@,
                final(nodes)@,
                final(child_slots)@,
                data@,
                node_idx as int,
                ids@,
                bit_offset as u64,
                prefix,
            ),
            ids@.len() <= LEAF_CAP || bit_offset >= 64 ==> final(nodes)@[node_idx as int].is_leaf()
                && final(nodes)@.len() == old(nodes)@.len() && final(nodes)@[node_idx as int].children_start
                == 0 && final(child_slots)@ == old(child_slots)@,
            ids@.len() > LEAF_CAP && bit_offset < 64 ==> !final(nodes)@[node_idx as int].is_leaf(),
            forall|j: int|
                (j == node_idx || old(nodes)@.len() <= j < final(nodes)@.len()) ==> leaf_within_cap(
                    #[trigger] final(nodes)@[j],
                ),
            forall|j: int|
                (j == node_idx || old(nodes)@.len() <= j < final(nodes)@.len()) ==> slots_match_bits(
                    #[trigger] final(nodes)@[j],
                    final(child_slots)@,
                ) && (!final(nodes)@[j].is_leaf() ==> final(nodes)@[j].children_start >= old(
                    child_slots,
                )@.len()),
        decreases 70 - bit_offset,
    {
        let ghost o = nodes@.len() as int;
        let ghost os = child_slots@.len() as int;
        let ghost nodes0 = nodes@;
        let ghost slots0 = child_slots@;
        proof {
            lemma_levels_positive(bit_offset as int);
        }
        if ids.len() <= LEAF_CAP || bit_offset >= 64 {
            let mut entries: Vec<usize> = Vec::new();
            let mut i: usize = 0;
            while i < ids.len()
                invariant
                    i <= ids@.len(),
                    entries@ == ids@.take(i as int),
                decreases ids@.len() - i,
            {
                entries.push(ids[i]);
                proof {
                    assert(ids@.take(i + 1) =~= ids@.take(i as int).push(ids@[i as int]));
                }
                i = i + 1;
            }
            proof {
                assert(ids@.take(ids@.len() as int) =~= ids@);
            }
            if entries.len() > 1 {
                sort_ids_by_value(&mut entries, data);
            }
            let ghost e = entries@;
            nodes.set(
                node_idx,
                FlatNode {
                    entries,
                    bit_offset,
                    child_bitmap: 0,
                    children_start: 0,
                    prefix: Ghost(prefix),
                    live: Ghost(true),
                },
            );
            proof {
                let fns = nodes@;
                assert(e.to_multiset() == ids@.to_multiset());
                assert(e.len() == ids@.len()) by {
                    assert(e.to_multiset().len() == ids@.to_multiset().len());
                }
                assert(leaf_within_cap(fns[node_idx as int]));
                assert forall|k: int| 0 <= k < e.len() implies (#[trigger] e[k] as int)
                    < data@.len() && low_bits(data@[e[k] as int], bit_offset as u64) == prefix by {
                    assert(e.to_multiset().count(e[k]) > 0);
                    assert(ids@.contains(e[k]));
                }
                assert(node_ok(fns, child_slots@, data@, node_idx as int));
                assert forall|r: u64| r < 64 && #[trigger] fns[node_idx as int].has_child(
                    r,
                ) implies link_ok(fns, child_slots@, node_idx as int, r) by {
                    lemma_no_slot_bit_in_zero(r);
                }
                assert(sub_ok(
                    fns,
                    child_slots@,
                    data@,
                    node_idx as int,
                    bit_offset as u64,
                    prefix,
                    o,
                    o,
                    os,
                ));
                assert(fns.subrange(o, o) =~= Seq::<FlatNode>::empty());
                assert(leaf_seq(fns.subrange(o, o)) =~= Seq::<usize>::empty());
                assert(leaf_seq(fns.subrange(o, o)).to_multiset() =~= Multiset::<usize>::empty());
                assert(fns[node_idx as int].held().to_multiset().add(
                    leaf_seq(fns.subrange(o, o)).to_multiset(),
                ) =~= ids@.to_multiset());
                if ids@.len() > 0 {
                    assert(ids@.len() * levels(bit_offset as int) >= 1) by (nonlinear_arith)
                        requires
                            ids@.len() >= 1,
                            levels(bit_offset as int) >= 1,
                    ;
                }
            }
            return ;
        }
        // Internal node: partition the ids by their child slot.

        let mut child_entries: Vec<Vec<usize>> = Vec::new();
        let mut q: usize = 0;
        while q < SPLIT_FANOUT
            invariant
                q <= 64,
                child_entries@.len() == q,
                forall|r: int| 0 <= r < q ==> (#[trigger] child_entries@[r])@.len() == 0,
            decreases 64 - q,
        {
            child_entries.push(Vec::new());
            q = q + 1;
        }
        let mut child_bitmap: u64 = 0;
        let mut i: usize = 0;
        proof {
            lemma_sum_len_is_size(child_entries@, 64);
            assert(sum_ms(child_entries@, 64) =~= Multiset::<usize>::empty()) by {
                lemma_sum_empty(child_entries@, 64);
            }
            assert(ids@.take(0) =~= Seq::<usize>::empty());
            assert forall|r: u64| r < 64 implies (child_bitmap & #[trigger] slot_bit(r) != 0
                <==> child_entries@[r as int]@.len() > 0) by {
                lemma_no_slot_bit_in_zero(r);
            }
            lemma_sum_empty_len(child_entries@, 64);
        }
        while i < ids.len()
            invariant
                i <= ids@.len(),
                bit_offset < 64,
                child_entries@.len() == 64,
                forall|k: int|
                    0 <= k < ids@.len() ==> (#[trigger] ids@[k] as int) < data@.len() && low_bits(
                        data@[ids@[k] as int],
                        bit_offset as u64,
                    ) == prefix,
                forall|r: int, k: int|
                    0 <= r < 64 && 0 <= k < child_entries@[r]@.len() ==> {
                        let x = #[trigger] child_entries@[r]@[k];
                        &&& (x as int) < data@.len()
                        &&& low_bits(data@[x as int], bit_offset as u64) == prefix
                        &&& slot_of(data@[x as int], bit_offset as u64) == r
                    },
                forall|r: u64|
                    r < 64 ==> (child_bitmap & #[trigger] slot_bit(r) != 0 <==> child_entries@[r
                        as int]@.len() > 0),
                sum_ms(child_entries@, 64) == ids@.take(i as int).to_multiset(),
                sum_len(child_entries@, 64) == i,
            decreases ids@.len() - i,
        {
            let id = ids[i];
            proof {
                lemma_slot_of_bound(data@[id as int], bit_offset as u64);
            }
            let child_idx = ((data[id] >> (bit_offset as u64)) & 63u64) as usize;
            let ghost before = child_entries@;
            child_entries[child_idx].push(id);
            proof {
                lemma_sum_push(before, 64, child_idx as int, child_entries@[child_idx as int], id);
                assert(child_entries@ == before.update(child_idx as int, child_entries@[child_idx as int]));
                assert(ids@.take(i + 1) =~= ids@.take(i as int).push(id));
                assert forall|r: u64| r < 64 implies ((child_bitmap | slot_bit(child_idx as u64))
                    & #[trigger] slot_bit(r) != 0 <==> child_entries@[r as int]@.len() > 0) by {
                    if r == child_idx as u64 {
                        lemma_slot_bit_set(child_bitmap, r);
                    } else {
                        lemma_slot_bit_other(child_bitmap, child_idx as u64, r);
                    }
                }
            }
            child_bitmap = child_bitmap | (1u64 << (child_idx as u64));
            i = i + 1;
        }
        proof {
            assert(ids@.take(ids@.len() as int) =~= ids@);
        }
        let ghost lists = child_entries@;
        // Reserve this node's slot range and one placeholder per child.
        let children_start = child_slots.len();
        let mut k: usize = 0;
        while k < SPLIT_FANOUT
            invariant
                k <= 64,
                os >= 0,
                child_slots@.len() == os + k,
                forall|j: int| 0 <= j < os ==> #[trigger] child_slots@[j] == slots0[j],
                forall|j: int| os <= j < os + k ==> #[trigger] child_slots@[j] == NO_CHILD,
            decreases 64 - k,
        {
            let ghost before = child_slots@;
            child_slots.push(NO_CHILD);
            proof {
                assert(child_slots@ == before.push(NO_CHILD));
                assert forall|j: int| os <= j < os + k + 1 implies #[trigger] child_slots@[j]
                    == NO_CHILD by {
                    if j < os + k {
                        assert(child_slots@[j] == before[j]);
                    }
                }
            }
            k = k + 1;
        }
        let child_nodes_start = nodes.len();
        let mut child_count: usize = 0;
        let mut r: usize = 0;
        while r < SPLIT_FANOUT
            invariant
                r <= 64,
                child_entries@ == lists,
                lists.len() == 64,
                ids@.len() == ids.len(),
                child_count == nonempty_count(lists, r as int),
                nonempty_count(lists, r as int) <= sum_len(lists, r as int),
                sum_len(lists, r as int) <= ids@.len(),
                sum_len(lists, 64) == ids@.len(),
            decreases 64 - r,
        {
            proof {
                lemma_nonempty_count_mono(lists, r as int, 64);
                lemma_sum_len_is_size(lists, r + 1);
                assert(nonempty_count(lists, r + 1) <= ids@.len());
            }
            if child_entries[r].len() > 0 {
                proof {
                    assert(lists[r as int]@.len() > 0);
                    assert(nonempty_count(lists, r + 1) == nonempty_count(lists, r as int) + 1);
                }
                child_count = child_count + 1;
            }
            r = r + 1;
        }
        let ghost pend = child_nodes_start + child_count;
        proof {
            assert(o + ids@.len() <= o + ids@.len() * levels(bit_offset as int)) by (nonlinear_arith)
                requires
                    levels(bit_offset as int) >= 1,
            ;
        }
        let mut k: usize = 0;
        while k < child_count
            invariant
                k <= child_count,
                child_count <= ids@.len(),
                nodes@.len() == child_nodes_start + k,
                child_nodes_start == o,
                o + ids@.len() < 0xffff_ffff,
                forall|j: int| 0 <= j < o ==> #[trigger] nodes@[j] == nodes0[j],
                forall|j: int| o <= j < o + k ==> is_placeholder(#[trigger] nodes@[j]),
            decreases child_count - k,
        {
            nodes.push(placeholder());
            k = k + 1;
        }
        let next_bit_offset = bit_offset + SPLIT_BITS;
        let ghost lv = levels(next_bit_offset as int);
        let mut child_node_idx = child_nodes_start;
        let mut child_pos: usize = 0;
        proof {
            lemma_some_nonempty(lists, 64);
            lemma_levels_positive(next_bit_offset as int);
            lemma_leaf_seq_placeholders(nodes@.subrange(o, nodes@.len() as int));
            assert(leaf_seq(nodes@.subrange(o, nodes@.len() as int)).to_multiset()
                =~= Multiset::<usize>::empty());
            assert forall|rr: int| 0 <= rr < 64 implies #[trigger] child_slots@[os + rr]
                == NO_CHILD by {}
            assert(sum_ms(lists, 0) =~= Multiset::<usize>::empty());
        }
        while child_pos < SPLIT_FANOUT
            invariant
                fill_inv(
                    nodes@,
                    child_slots@,
                    data@,
                    nodes0,
                    slots0,
                    ids@.len() as int,
                    node_idx as int,
                    bit_offset as u64,
                    prefix,
                    lists,
                    child_pos as int,
                    os,
                    o,
                    child_node_idx as int,
                    pend,
                    lv,
                ),
                child_entries@ == lists,
                next_bit_offset == bit_offset + 6,
                children_start == os,
                child_nodes_start == o,
                forall|j: int| o <= j < nodes@.len() ==> leaf_within_cap(#[trigger] nodes@[j]),
                forall|j: int|
                    o <= j < nodes@.len() ==> slots_match_bits(#[trigger] nodes@[j], child_slots@) && (
                    !nodes@[j].is_leaf() ==> nodes@[j].children_start >= os + 64),
            decreases 64 - child_pos,
        {
            proof {
                lemma_nonempty_count_mono(lists, child_pos as int, 64);
                lemma_sum_len_is_size(lists, 64);
            }
            if child_entries[child_pos].len() > 0 {
                let ghost nodes1 = nodes@;
                let ghost slots1 = child_slots@;
                let ghost cq = child_pos as u64;
                let ghost x0 = lists[child_pos as int]@[0];
                let ghost child_prefix = prefix | (cq << (bit_offset as u64));
                proof {
                    lemma_slot_of_fits(data@[x0 as int], bit_offset as u64);
                    lemma_extend_prefix(prefix, cq, bit_offset as u64);
                    assert forall|k: int|
                        0 <= k < lists[child_pos as int]@.len() implies (
                        #[trigger] lists[child_pos as int]@[k] as int) < data@.len() && low_bits(
                            data@[lists[child_pos as int]@[k] as int],
                            next_bit_offset as u64,
                        ) == child_prefix by {
                        lemma_low_bits_step(
                            data@[lists[child_pos as int]@[k] as int],
                            bit_offset as u64,
                        );
                    }
                    let ln = lists[child_pos as int]@.len() as int;
                    assert(lv * (sum_len(lists, child_pos as int) + ln) <= lv * ids@.len())
                        by (nonlinear_arith)
                        requires
                            sum_len(lists, child_pos as int) + ln <= ids@.len(),
                            lv >= 1,
                    ;
                    assert(ids@.len() * levels(bit_offset as int) == ids@.len() + lv
                        * ids@.len()) by (nonlinear_arith)
                        requires
                            levels(bit_offset as int) == 1 + lv,
                    ;
                    assert(lv * (sum_len(lists, child_pos as int) + ln) == lv * sum_len(
                        lists,
                        child_pos as int,
                    ) + ln * lv) by (nonlinear_arith);
                }
                child_slots.set(children_start + child_pos, child_node_idx as u32);
                let ghost slots1b = child_slots@;
                Self::fill_node(
                    child_node_idx,
                    &child_entries[child_pos],
                    data,
                    next_bit_offset,
                    nodes,
                    child_slots,
                    Ghost(child_prefix),
                );
                proof {
                    assert forall|j: int| o <= j < nodes@.len() implies leaf_within_cap(
                        #[trigger] nodes@[j],
                    ) by {
                        if j < nodes1.len() && j != child_node_idx {
                            assert(nodes@[j] == nodes1[j]);
                        }
                    }
                    assert forall|j: int| o <= j < nodes@.len() implies slots_match_bits(
                        #[trigger] nodes@[j],
                        child_slots@,
                    ) && (!nodes@[j].is_leaf() ==> nodes@[j].children_start >= os + 64) by {
                        if j < nodes1.len() && j != child_node_idx {
                            assert(nodes@[j] == nodes1[j]);
                            let nj = nodes1[j];
                            assert(slots_match_bits(nj, slots1));
                            if !nj.is_leaf() {
                                assert forall|q: u64| q < 64 && !#[trigger] nj.has_child(q) implies
                                    child_slots@[nj.children_start + q] == NO_CHILD by {
                                    assert(slots1b[nj.children_start + q] == slots1[nj.children_start + q]);
                                    assert(child_slots@[nj.children_start + q] == slots1b[nj.children_start + q]);
                                }
                            }
                        }
                    }
                    lemma_fill_step(
                        nodes1,
                        slots1,
                        nodes@,
                        child_slots@,
                        data@,
                        nodes0,
                        slots0,
                        ids@.len() as int,
                        node_idx as int,
                        bit_offset as u64,
                        prefix,
                        lists,
                        child_pos as int,
                        os,
                        o,
                        child_node_idx as int,
                        pend,
                        lv,
                    );
                }
                child_node_idx = child_node_idx + 1;
            } else {
                proof {
                    lemma_fill_skip(
                        nodes@,
                        child_slots@,
                        data@,
                        nodes0,
                        slots0,
                        ids@.len() as int,
                        node_idx as int,
                        bit_offset as u64,
                        prefix,
                        lists,
                        child_pos as int,
                        os,
                        o,
                        child_node_idx as int,
                        pend,
                        lv,
                    );
                }
            }
            child_pos = child_pos + 1;
        }
        let ghost nodes1 = nodes@;
        let ghost slots1 = child_slots@;
        proof {
            assert forall|q: u64| q < 64 && (child_bitmap & #[trigger] slot_bit(q)) == 0 implies
                child_slots@[os + q] == NO_CHILD by {
                assert(child_slots@[os + (q as int)] == NO_CHILD);
            }
            let r0 = lemma_some_nonempty(lists, 64);
            assert(child_bitmap & slot_bit(r0 as u64) != 0);
            if child_bitmap == 0 {
                lemma_no_slot_bit_in_zero(r0 as u64);
            }
        }
        nodes.set(
            node_idx,
            FlatNode {
                entries: Vec::new(),
                bit_offset,
                child_bitmap,
                children_start,
                prefix: Ghost(prefix),
                live: Ghost(true),
            },
        );
        proof {
            lemma_fill_finish(
                nodes1,
                slots1,
                nodes@,
                data@,
                nodes0,
                slots0,
                ids@,
                node_idx as int,
                bit_offset as u64,
                prefix,
                lists,
                child_bitmap,
                os,
                o,
                pend,
                lv,
            );
        }
    }
}

/// The height of the subtree at node `i`: 0 for a leaf, otherwise one more
/// than the tallest subtree among the children one level down.
pub open spec fn height(nodes: Seq<FlatNode>, slots: Seq<u32>, i: int) -> nat
    decreases 256 - nodes[i].bit_offset, 65int,
{
    if 0 <= i < nodes.len() && !nodes[i].is_leaf() {
        1 + children_height(nodes, slots, i, 64)
    } else {
        0
    }
}

/// The tallest subtree among the children of node `i` in slots `0..q`.
pub open spec fn children_height(nodes: Seq<FlatNode>, slots: Seq<u32>, i: int, q: int) -> nat
    decreases 256 - nodes[i].bit_offset, q,
{
    if q <= 0 || q > 64 {
        0
    } else {
        let rest = children_height(nodes, slots, i, q - 1);
        let k = nodes[i].children_start + q - 1;
        let c = slots[k] as int;
        let h = if nodes[i].has_child((q - 1) as u64) && k < slots.len() && 0 <= c < nodes.len()
            && nodes[c].bit_offset > nodes[i].bit_offset {
            height(nodes, slots, c)
        } else {
            0
        };
        if h > rest {
            h
        } else {
            rest
        }
    }
}

pub proof fn lemma_height_bound(nodes: Seq<FlatNode>, slots: Seq<u32>, i: int)
    ensures
        height(nodes, slots, i) <= 256 - nodes[i].bit_offset,
    decreases 256 - nodes[i].bit_offset, 65int,
{
    if 0 <= i < nodes.len() && !nodes[i].is_leaf() {
        lemma_children_height_bound(nodes, slots, i, 64);
    }
}

pub proof fn lemma_children_height_bound(nodes: Seq<FlatNode>, slots: Seq<u32>, i: int, q: int)
    ensures
        children_height(nodes, slots, i, q) <= 255 - nodes[i].bit_offset,
    decreases 256 - nodes[i].bit_offset, q,
{
    if 0 < q <= 64 {
        lemma_children_height_bound(nodes, slots, i, q - 1);
        let k = nodes[i].children_start + q - 1;
        let c = slots[k] as int;
        if nodes[i].has_child((q - 1) as u64) && k < slots.len() && 0 <= c < nodes.len()
            && nodes[c].bit_offset > nodes[i].bit_offset {
            lemma_height_bound(nodes, slots, c);
        }
    }
}

/// The most nodes a tree built from `n` ids can have.
pub open spec fn node_budget(n: int) -> int {
    1 + 12 * n
}

proof fn lemma_levels_root()
    ensures
        levels(0) == 12,
{
    reveal_with_fuel(levels, 13);
}

/// Changing the values of ids the tree does not hold, or appending values,
/// keeps the tree well formed.
pub proof fn lemma_wf_data_frame(t: FlatBucket, d1: Seq<u64>, d2: Seq<u64>)
    requires
        t.wf(d1),
        forall|id: usize| #[trigger] t.ids().contains(id) ==> (id as int) < d2.len() && d2[id as int] == d1[id as int],
    ensures
        t.wf(d2),
{
    let nodes = t.nodes@;
    let slots = t.child_slots@;
    assert forall|i: int| 0 <= i < nodes.len() implies #[trigger] node_ok(nodes, slots, d2, i)
        && child_ok(nodes, slots, i) by {
        assert(node_ok(nodes, slots, d1, i));
        assert(child_ok(nodes, slots, i));
        let n = nodes[i];
        assert forall|k: int| 0 <= k < n.entries@.len() implies d2[n.entries@[k] as int]
            == d1[n.entries@[k] as int] && (n.entries@[k] as int) < d2.len() by {
            assert(n.is_leaf());
            assert(n.held()[k] == n.entries@[k]);
            lemma_leaf_seq_member(nodes, n.entries@[k]);
            assert(t.ids().contains(n.entries@[k]));
        }
        assert(entries_ok(n, d2));
    }
}

/// A leaf whose routing bits are spent holds copies of one value: every
/// entry's value equals the leaf's prefix. In a freshly built tree this is the
/// only kind of leaf that may exceed `LEAF_CAP`.
pub proof fn lemma_spent_leaf_one_value(t: FlatBucket, data: Seq<u64>, i: int)
    requires
        t.wf(data),
        0 <= i < t.nodes@.len(),
        t.nodes@[i].is_leaf(),
        t.nodes@[i].bit_offset >= 64,
    ensures
        forall|k: int|
            0 <= k < t.nodes@[i].entries@.len() ==> data[#[trigger] t.nodes@[i].entries@[k] as int]
                == t.nodes@[i].prefix@,
{
    let n = t.nodes@[i];
    assert(node_ok(t.nodes@, t.child_slots@, data, i));
    assert forall|k: int| 0 <= k < n.entries@.len() implies data[#[trigger] n.entries@[k] as int]
        == n.prefix@ by {
        lemma_low_bits_full_width(data[n.entries@[k] as int], n.bo());
    }
}

/// A well-formed tree whose leaves are within the cap and whose root is a
/// leaf holds at most `LEAF_CAP` ids: no other node of it is live.
pub proof fn lemma_unsplit_tree_ids(t: FlatBucket, data: Seq<u64>)
    requires
        t.wf(data),
        leaves_within_cap(t.nodes@),
        t.nodes@.len() > 0 ==> t.nodes@[0].is_leaf(),
    ensures
        t.ids().len() <= LEAF_CAP,
{
    let nodes = t.nodes@;
    if nodes.len() > 0 {
        lemma_leaf_seq_split(nodes, 0);
        assert(nodes.take(0) =~= Seq::<FlatNode>::empty());
        assert(leaf_seq(nodes.take(0)) =~= Seq::<usize>::empty());
        let rest = nodes.skip(1);
        assert forall|j: int| 0 <= j < rest.len() implies is_placeholder(#[trigger] rest[j]) by {
            assert(rest[j] == nodes[j + 1]);
            assert(node_ok(nodes, t.child_slots@, data, j + 1));
            assert(pair_ok(nodes, 0, j + 1));
            lemma_low_bits_of_zero_width(nodes[j + 1].prefix@);
        }
        lemma_leaf_seq_placeholders(rest);
        assert(leaf_within_cap(nodes[0]));
        assert(t.ids() =~= nodes[0].held());
    }
}

impl FlatBucket {
    /// Allocates a node at the end of `nodes` and fills it with the subtree for
    /// `ids`. Returns the node's index.
    fn build_node(
        ids: &Vec<usize>,
        data: &Vec<u64>,
        bit_offset: u8,
        nodes: &mut Vec<FlatNode>,
        child_slots: &mut Vec<u32>,
        Ghost(prefix): Ghost<u64>,
    ) -> (node_idx: usize)
        requires
            ids@.len() > 0,
            bit_offset % 6 == 0,
            bit_offset <= 66,
            low_bits(prefix, bit_offset as u64) == prefix,
            forall|k: int|
                0 <= k < ids@.len() ==> (#[trigger] ids@[k] as int) < data@.len() && low_bits(
                    data@[ids@[k] as int],
                    bit_offset as u64,
                ) == prefix,
            old(nodes)@.len() + 1 + ids@.len() * levels(bit_offset as int) < 0xffff_ffff,
            old(child_slots)@.len() % 64 == 0,
            old(child_slots)@.len() <= 64 * old(nodes)@.len(),
        ensures
            node_idx == old(nodes)@.len(),
            fill_post(
                old(nodes)@.push(final(nodes)@[node_idx as int]),
                old(child_slots)@,
                final(nodes)@,
                final(child_slots)@,
                data@,
                node_idx as int,
                ids@,
                bit_offset as u64,
                prefix,
            ),
            ids@.len() <= LEAF_CAP ==> final(nodes)@[node_idx as int].is_leaf() && final(nodes)@.len()
                == old(nodes)@.len() + 1,
            ids@.len() > LEAF_CAP && bit_offset < 64 ==> !final(nodes)@[node_idx as int].is_leaf(),
            forall|j: int|
                old(nodes)@.len() <= j < final(nodes)@.len() ==> leaf_within_cap(
                    #[trigger] final(nodes)@[j],
                ),
            forall|j: int|
                old(nodes)@.len() <= j < final(nodes)@.len() ==> slots_match_bits(
                    #[trigger] final(nodes)@[j],
                    final(child_slots)@,
                ),
            ids@.len() <= LEAF_CAP || bit_offset >= 64 ==> final(child_slots)@ == old(child_slots)@
                && final(nodes)@[node_idx as int].children_start == 0,
    {
        let node_idx = nodes.len();
        nodes.push(placeholder());
        let ghost pushed = nodes@;
        Self::fill_node(node_idx, ids, data, bit_offset, nodes, child_slots, Ghost(prefix));
        proof {
            assert(old(nodes)@.push(nodes@[node_idx as int]) =~= pushed.update(
                node_idx as int,
                nodes@[node_idx as int],
            ));
            assert forall|j: int|
                0 <= j < pushed.len() && j != node_idx implies #[trigger] nodes@[j]
                == old(nodes)@.push(nodes@[node_idx as int])[j] by {
                assert(nodes@[j] == pushed[j]);
            }
        }
        node_idx
    }

    /// Builds the tree for the ids of one bucket.
    pub fn build_from(ids: &Vec<usize>, data: &Vec<u64>) -> (r: Self)
        requires
            forall|k: int| 0 <= k < ids@.len() ==> (#[trigger] ids@[k] as int) < data@.len(),
            node_budget(ids@.len() as int) < 0xffff_ffff,
        ensures
            r.wf(data@),
            r.ids().to_multiset() == ids@.to_multiset(),
            leaves_within_cap(r.nodes@),
            ids@.len() == 0 ==> r.nodes@.len() == 0,
            0 < ids@.len() <= LEAF_CAP ==> r.nodes@.len() == 1 && r.nodes@[0].is_leaf(),
            ids@.len() > LEAF_CAP ==> r.nodes@.len() > 0 && !r.nodes@[0].is_leaf(),
            forall|j: int| 0 <= j < r.nodes@.len() ==> slots_match_bits(#[trigger] r.nodes@[j], r.child_slots@),
            ids@.len() <= LEAF_CAP ==> r.child_slots@.len() == 0,
            0 < ids@.len() <= LEAF_CAP ==> filled_leaves(r.nodes@) == 1,
    {
        if ids.len() == 0 {
            let r = Self::new();
            proof {
                assert(ids@ =~= Seq::<usize>::empty());
            }
            return r;
        }
        let mut nodes: Vec<FlatNode> = Vec::new();
        let mut child_slots: Vec<u32> = Vec::new();
        proof {
            lemma_levels_root();
            assert forall|k: int| 0 <= k < ids@.len() implies (#[trigger] ids@[k] as int)
                < data@.len() && low_bits(data@[ids@[k] as int], 0u8 as u64) == 0u64 by {
                lemma_low_bits_of_zero_width(data@[ids@[k] as int]);
            }
            assert(low_bits(0u64, 0u64) == 0u64) by {
                lemma_low_bits_of_zero_width(0u64);
            }
        }
        let root = Self::build_node(ids, data, 0, &mut nodes, &mut child_slots, Ghost(0u64));
        let r = FlatBucket { nodes, child_slots };
        proof {
            let ns = r.nodes@;
            let ss = r.child_slots@;
            assert(root == 0);
            assert(ns.len() <= 12 * ids@.len() + 1);
            assert forall|i: int| 0 <= i < ns.len() implies #[trigger] node_ok(ns, ss, data@, i)
                && child_ok(ns, ss, i) by {
                assert(sub_ok(ns, ss, data@, i, 0, 0, 1, ns.len() as int, 0));
            }
            assert forall|a: int, b: int|
                0 <= a < ns.len() && 0 <= b < ns.len() implies #[trigger] pair_ok(ns, a, b) by {}
            assert(sub_ok(ns, ss, data@, 0, 0, 0, 1, ns.len() as int, 0));
            lemma_leaf_seq_split(ns, 0);
            assert(ns.take(0) =~= Seq::<FlatNode>::empty());
            assert(ns.skip(1) =~= ns.subrange(1, ns.len() as int));
            assert(leaf_seq(ns.take(0)) =~= Seq::<usize>::empty());
            vstd::seq_lib::lemma_multiset_commutative(ns[0].held(), leaf_seq(ns.skip(1)));
            assert(leaf_seq(ns.take(0)) + ns[0].held() =~= ns[0].held());
            if ids@.len() <= LEAF_CAP {
                assert(ns.drop_last() =~= Seq::<FlatNode>::empty());
                assert(ns.last() == ns[0]);
                vstd::seq_lib::to_multiset_len(r.ids());
                vstd::seq_lib::to_multiset_len(ids@);
                lemma_leaf_seq_single(ns[0]);
                assert(ns =~= seq![ns[0]]);
                assert(filled_leaves(ns.drop_last()) == 0);
                assert(leaf_seq(ns.drop_last()) =~= Seq::<usize>::empty());
                assert(leaf_seq(ns) =~= ns[0].held());
                assert(r.ids().len() > 0);
                assert(filled_leaves(ns) == 1);
            }
        }
        r
    }

    /// Appends the ids of every leaf to `out`, in node order; returns how many
    /// leaves were nonempty.
    pub fn append_leaf_ids(&self, out: &mut Vec<usize>) -> (count: usize)
        ensures
            final(out)@ == old(out)@ + self.ids(),
            count == filled_leaves(self.nodes@),
            count <= self.ids().len(),
            count > 0 <==> self.ids().len() > 0,
    {
        let mut count: usize = 0;
        let mut i: usize = 0;
        while i < self.nodes.len()
            invariant
                i <= self.nodes@.len(),
                out@ == old(out)@ + leaf_seq(self.nodes@.take(i as int)),
                count <= leaf_seq(self.nodes@.take(i as int)).len(),
                count == filled_leaves(self.nodes@.take(i as int)),
                count <= i,
                count > 0 <==> leaf_seq(self.nodes@.take(i as int)).len() > 0,
            decreases self.nodes@.len() - i,
        {
            let node = &self.nodes[i];
            let ghost before = out@;
            if node.child_bitmap == 0 {
                if node.entries.len() > 0 {
                    count = count + 1;
                }
                let mut k: usize = 0;
                while k < node.entries.len()
                    invariant
                        k <= node.entries@.len(),
                        out@ == before + node.entries@.take(k as int),
                    decreases node.entries@.len() - k,
                {
                    out.push(node.entries[k]);
                    proof {
                        assert(node.entries@.take(k + 1) =~= node.entries@.take(k as int).push(
                            node.entries@[k as int],
                        ));
                    }
                    k = k + 1;
                }
                proof {
                    assert(node.entries@.take(node.entries@.len() as int) =~= node.entries@);
                }
            }
            proof {
                assert(self.nodes@.take(i + 1).drop_last() =~= self.nodes@.take(i as int));
                assert(self.nodes@.take(i + 1).last() == self.nodes@[i as int]);
                if !self.nodes@[i as int].is_leaf() {
                    assert(self.nodes@[i as int].held() =~= Seq::<usize>::empty());
                }
                assert(out@ =~= old(out)@ + leaf_seq(self.nodes@.take(i + 1)));
            }
            i = i + 1;
        }
        proof {
            assert(self.nodes@.take(self.nodes@.len() as int) =~= self.nodes@);
        }
        count
    }

    /// The number of ids in the tree.
    pub fn total_len(&self) -> (r: usize)
        ensures
            r == self.ids().len(),
    {
        let mut out: Vec<usize> = Vec::new();
        self.append_leaf_ids(&mut out);
        proof {
            assert(Seq::<usize>::empty() + self.ids() =~= self.ids());
        }
        out.len()
    }

    /// Whether the tree holds no id.
    pub fn all_empty(&self) -> (r: bool)
        ensures
            r == (self.ids().len() == 0),
    {
        let mut out: Vec<usize> = Vec::new();
        let count = self.append_leaf_ids(&mut out);
        count == 0
    }

    /// The height of the subtree at node `node_idx`.
    fn node_depth(&self, node_idx: usize) -> (r: usize)
        requires
            (node_idx as int) < self.nodes@.len(),
        ensures
            r == height(self.nodes@, self.child_slots@, node_idx as int),
        decreases 256 - self.nodes@[node_idx as int].bit_offset, 65int,
    {
        let node = &self.nodes[node_idx];
        if node.child_bitmap == 0 {
            return 0;
        }
        let ghost nodes = self.nodes@;
        let ghost slots = self.child_slots@;
        let mut best: usize = 0;
        let mut q: usize = 0;
        while q < 64
            invariant
                (node_idx as int) < nodes.len(),
                nodes == self.nodes@,
                slots == self.child_slots@,
                *node == nodes[node_idx as int],
                q <= 64,
                best == children_height(nodes, slots, node_idx as int, q as int),
                best <= 255 - node.bit_offset,
            decreases 64 - q,
        {
            proof {
                lemma_children_height_bound(nodes, slots, node_idx as int, q + 1);
            }
            let bit: u64 = 1u64 << (q as u64);
            if node.child_bitmap & bit != 0 && node.children_start < self.child_slots.len()
                && q < self.child_slots.len() - node.children_start {
                let c = self.child_slots[node.children_start + q];
                if (c as usize) < self.nodes.len() && self.nodes[c as usize].bit_offset
                    > node.bit_offset {
                    let h = self.node_depth(c as usize);
                    if h > best {
                        best = h;
                    }
                }
            }
            proof {
                assert(slot_bit(q as u64) == bit);
            }
            q = q + 1;
        }
        1 + best
    }

    /// The height of the tree: 0 for an empty tree or a lone leaf.
    pub fn max_depth(&self) -> (r: usize)
        ensures
            r == if self.nodes@.len() == 0 {
                0
            } else {
                height(self.nodes@, self.child_slots@, 0)
            },
    {
        if self.nodes.len() == 0 {
            0
        } else {
            self.node_depth(0)
        }
    }

    /// The heap bytes the tree holds: `tree_bytes` of the capacities of its
    /// node and slot arrays and of every node's entry array, saturating at
    /// `usize::MAX`; so at least 4 bytes per child slot and 8 per held id.
    pub fn tree_overhead_bytes(&self) -> (r: usize)
        ensures
            r >= capped(4 * self.child_slots@.len() + 8 * self.ids().len() as int),
    {
        let nodes_cap = vec_capacity(&self.nodes);
        let slots_cap = vec_capacity(&self.child_slots);
        let mut entry_caps: Vec<usize> = Vec::new();
        let mut i: usize = 0;
        proof {
            assert(self.nodes@.take(0) =~= Seq::<FlatNode>::empty());
            assert(entry_caps@ =~= Seq::<usize>::empty());
        }
        while i < self.nodes.len()
            invariant
                i <= self.nodes@.len(),
                entry_caps@.len() == i,
                total(entry_caps@) >= leaf_seq(self.nodes@.take(i as int)).len(),
            decreases self.nodes@.len() - i,
        {
            let cap = vec_capacity(&self.nodes[i].entries);
            let ghost before = entry_caps@;
            entry_caps.push(cap);
            proof {
                assert(entry_caps@.drop_last() =~= before);
                assert(self.nodes@.take(i + 1).drop_last() =~= self.nodes@.take(i as int));
                assert(self.nodes@.take(i + 1).last() == self.nodes@[i as int]);
                assert(self.nodes@[i as int].held().len() <= self.nodes@[i as int].entries@.len());
            }
            i = i + 1;
        }
        proof {
            assert(self.nodes@.take(i as int) =~= self.nodes@);
            lemma_total_nonneg(entry_caps@);
            assert(nodes_cap * core::mem::size_of::<FlatNode>() >= 0) by (nonlinear_arith);
        }
        tree_bytes(nodes_cap, core::mem::size_of::<FlatNode>(), slots_cap, entry_caps.as_slice())
    }

    /// Whether the root has split into children.
    pub fn has_split(&self) -> (r: bool)
        ensures
            r == (self.nodes@.len() > 0 && !self.nodes@[0].is_leaf()),
    {
        self.nodes.len() > 0 && self.nodes[0].child_bitmap != 0
    }
}

} // verus!
