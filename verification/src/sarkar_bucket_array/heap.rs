//! Heap accounting: capacities and saturating byte counts.

use vstd::prelude::*;

verus! {

/// `x`, or `usize::MAX` when it does not fit.
pub open spec fn capped(x: int) -> int {
    if x > usize::MAX {
        usize::MAX as int
    } else {
        x
    }
}

/// `Vec::capacity`: trusted to be at least the length, as the standard
/// library documents (`len <= capacity`); nothing more is claimed, since the
/// capacity is the allocator's choice.
#[verifier::external_body]
pub fn vec_capacity<T>(v: &Vec<T>) -> (c: usize)
    ensures
        c >= v@.len(),
{
    v.capacity()
}

/// `a * b`, saturating at `usize::MAX`.
pub fn saturating_product(a: usize, b: usize) -> (r: usize)
    ensures
        r == capped(a * b),
{
    match a.checked_mul(b) {
        Some(p) => p,
        None => usize::MAX,
    }
}

/// `a + b`, saturating at `usize::MAX`.
pub fn saturating_sum(a: usize, b: usize) -> (r: usize)
    ensures
        r == capped(a + b),
{
    a.saturating_add(b)
}

/// Saturating sums of lower bounds bound the saturated sum.
pub proof fn lemma_capped_sum(a: int, b: int, x: int, y: int)
    requires
        0 <= x,
        0 <= y,
        capped(x) <= a <= usize::MAX,
        capped(y) <= b <= usize::MAX,
    ensures
        capped(x + y) <= capped(a + b),
{
}

/// Scaling a lower bound by a constant factor scales the capped bound.
pub proof fn lemma_capped_scale(c: int, k: int, x: int)
    requires
        0 <= x,
        capped(x) <= c <= usize::MAX,
        1 <= k <= 64,
    ensures
        capped(k * x) <= capped(c * k),
{
    if x <= usize::MAX {
        assert(k * x <= c * k) by (nonlinear_arith)
            requires
                x <= c,
                1 <= k,
        ;
    } else {
        assert(c == usize::MAX);
        assert(c * k >= c) by (nonlinear_arith)
            requires
                1 <= k,
                0 <= c,
        ;
    }
}

/// The sum of `xs`.
pub open spec fn total(xs: Seq<usize>) -> int
    decreases xs.len(),
{
    if xs.len() == 0 {
        0
    } else {
        total(xs.drop_last()) + xs.last()
    }
}

pub proof fn lemma_total_nonneg(xs: Seq<usize>)
    ensures
        total(xs) >= 0,
    decreases xs.len(),
{
    if xs.len() > 0 {
        lemma_total_nonneg(xs.drop_last());
    }
}

/// Saturating once at the end is saturating after each step.
pub proof fn lemma_capped_add(x: int, y: int)
    requires
        0 <= x,
        0 <= y,
    ensures
        capped(capped(x) + y) == capped(x + y),
{
}

/// Adding a term whose value is at least the capped floor keeps a capped
/// running sum at least the capped sum of the floors.
pub proof fn lemma_capped_accumulate(acc: int, floor: int, b: int, x: int)
    requires
        0 <= acc,
        0 <= floor,
        0 <= b,
        0 <= x,
        capped(acc) >= capped(floor),
        b >= capped(x),
    ensures
        capped(acc + b) >= capped(floor + x),
{
}

/// A capped sum with larger parts is at least the capped sum of the smaller.
pub proof fn lemma_capped_combine(a: int, a0: int, t: int, f: int)
    requires
        a >= a0 >= 0,
        0 <= t,
        0 <= f,
        capped(t) >= capped(f),
    ensures
        capped(a + t) >= capped(a0 + f),
{
}

/// The heap bytes of an index with these capacities: the store and the
/// position table (8 bytes a slot), the bucket table (`table_slot` bytes a
/// slot) and each bucket (8 bytes a slot), the tree table (`tree_slot` bytes
/// a slot) and the bytes of each tree, and one byte per dirty flag; the sum
/// saturates at `usize::MAX`.
pub fn heap_bytes(
    data_cap: usize,
    positions_cap: usize,
    table_cap: usize,
    table_slot: usize,
    bucket_caps: &[usize],
    trees_cap: usize,
    tree_slot: usize,
    tree_bytes: &[usize],
    dirty_cap: usize,
) -> (r: usize)
    ensures
        r == capped(
            8 * data_cap + 8 * positions_cap + table_cap * table_slot + 8 * total(bucket_caps@)
                + trees_cap * tree_slot + total(tree_bytes@) + dirty_cap,
        ),
{
    let ghost mut sum: int = 8 * data_cap;
    let mut acc = saturating_product(data_cap, 8);
    proof {
        lemma_capped_add(8 * data_cap, 8 * positions_cap);
    }
    acc = saturating_sum(acc, saturating_product(positions_cap, 8));
    proof {
        lemma_capped_add(8 * positions_cap, capped(8 * data_cap));
        lemma_capped_add(8 * data_cap, 8 * positions_cap);
        sum = sum + 8 * positions_cap;
        assert(acc == capped(sum));
        assert(table_cap * table_slot >= 0) by (nonlinear_arith);
        lemma_capped_add(table_cap * table_slot, sum);
        lemma_capped_add(sum, table_cap * table_slot);
    }
    acc = saturating_sum(acc, saturating_product(table_cap, table_slot));
    proof {
        sum = sum + table_cap * table_slot;
        assert(bucket_caps@.take(0) =~= Seq::<usize>::empty());
    }
    let ghost base = sum;
    let mut i: usize = 0;
    while i < bucket_caps.len()
        invariant
            i <= bucket_caps@.len(),
            base >= 0,
            acc == capped(base + 8 * total(bucket_caps@.take(i as int))),
            total(bucket_caps@.take(i as int)) >= 0,
        decreases bucket_caps@.len() - i,
    {
        let b = bucket_caps[i];
        proof {
            assert(bucket_caps@.take(i + 1).drop_last() =~= bucket_caps@.take(i as int));
            let prev = base + 8 * total(bucket_caps@.take(i as int));
            lemma_capped_add(8 * b, prev);
            lemma_capped_add(prev, 8 * b);
        }
        acc = saturating_sum(acc, saturating_product(b, 8));
        i = i + 1;
    }
    proof {
        assert(bucket_caps@.take(i as int) =~= bucket_caps@);
        sum = base + 8 * total(bucket_caps@);
        assert(trees_cap * tree_slot >= 0) by (nonlinear_arith);
        lemma_capped_add(trees_cap * tree_slot, sum);
        lemma_capped_add(sum, trees_cap * tree_slot);
    }
    acc = saturating_sum(acc, saturating_product(trees_cap, tree_slot));
    proof {
        sum = sum + trees_cap * tree_slot;
        assert(tree_bytes@.take(0) =~= Seq::<usize>::empty());
    }
    let ghost base2 = sum;
    let mut t: usize = 0;
    while t < tree_bytes.len()
        invariant
            t <= tree_bytes@.len(),
            base2 >= 0,
            acc == capped(base2 + total(tree_bytes@.take(t as int))),
            total(tree_bytes@.take(t as int)) >= 0,
        decreases tree_bytes@.len() - t,
    {
        let b = tree_bytes[t];
        proof {
            assert(tree_bytes@.take(t + 1).drop_last() =~= tree_bytes@.take(t as int));
            let prev = base2 + total(tree_bytes@.take(t as int));
            lemma_capped_add(b as int, prev);
            lemma_capped_add(prev, b as int);
        }
        acc = saturating_sum(acc, b);
        t = t + 1;
    }
    proof {
        assert(tree_bytes@.take(t as int) =~= tree_bytes@);
        sum = base2 + total(tree_bytes@);
        lemma_capped_add(dirty_cap as int, sum);
        lemma_capped_add(sum, dirty_cap as int);
    }
    acc = saturating_sum(acc, dirty_cap);
    acc
}

/// The heap bytes of one radix tree with these capacities: its node table
/// (`node_size` bytes a slot), its child-slot table (4 bytes a slot) and the
/// entry vector of each node (8 bytes a slot); the sum saturates at
/// `usize::MAX`.
pub fn tree_bytes(nodes_cap: usize, node_size: usize, slots_cap: usize, entry_caps: &[usize]) -> (r:
    usize)
    ensures
        r == capped(nodes_cap * node_size + 4 * slots_cap + 8 * total(entry_caps@)),
{
    let mut acc = saturating_product(nodes_cap, node_size);
    proof {
        assert(nodes_cap * node_size >= 0) by (nonlinear_arith);
        lemma_capped_add(4 * slots_cap, nodes_cap * node_size);
        lemma_capped_add(nodes_cap * node_size, 4 * slots_cap);
    }
    acc = saturating_sum(acc, saturating_product(slots_cap, 4));
    let ghost base = nodes_cap * node_size + 4 * slots_cap;
    proof {
        assert(entry_caps@.take(0) =~= Seq::<usize>::empty());
    }
    let mut i: usize = 0;
    while i < entry_caps.len()
        invariant
            i <= entry_caps@.len(),
            base >= 0,
            acc == capped(base + 8 * total(entry_caps@.take(i as int))),
            total(entry_caps@.take(i as int)) >= 0,
        decreases entry_caps@.len() - i,
    {
        let b = entry_caps[i];
        proof {
            assert(entry_caps@.take(i + 1).drop_last() =~= entry_caps@.take(i as int));
            let prev = base + 8 * total(entry_caps@.take(i as int));
            lemma_capped_add(8 * b, prev);
            lemma_capped_add(prev, 8 * b);
        }
        acc = saturating_sum(acc, saturating_product(b, 8));
        i = i + 1;
    }
    proof {
        assert(entry_caps@.take(i as int) =~= entry_caps@);
    }
    acc
}

} // verus!
