//! Laws of the index, stated over its model: what holds of every input, and
//! how the operations relate.

use vstd::prelude::*;
use vstd::arithmetic::power2::{lemma_pow2_unfold, pow2};
use vstd::relations::sorted_by;
use super::flat_bucket::node_budget;
use super::index::MAX_TREE_IDS;
use super::bits::{bit_width_spec, lemma_width_bound, lemma_width_monotone, lemma_width_order};
use super::model::{
    ascending, dead_values, holds, ids_holding, lemma_ascending_total, lemma_ids_holding, lemma_dead_values_len,
    lemma_live_count_bound, lemma_live_count_push, lemma_live_count_update, lemma_live_ids,
    lemma_live_prefix_count, lemma_live_values_of_ids, live_count, live_prefix, live_values,
    sorted_live, width_count, width_total, lemma_width_total_empty, lemma_width_total_step,
    live_widths,
};

verus! {

broadcast use vstd::seq_lib::group_to_multiset_ensures;

/// Every value of a smaller bit width is smaller: the buckets, taken in
/// width order, partition the values in ascending order.
pub proof fn law_width_orders_values(a: u64, b: u64)
    requires
        bit_width_spec(a) < bit_width_spec(b),
    ensures
        a < b,
{
    lemma_width_order(a, b);
}

/// Bucket `b >= 1` holds exactly the values `2^(b-1) ..= 2^b - 1`; bucket 0
/// holds only 0.
pub proof fn law_bucket_covers_a_power_of_two_range(v: u64)
    ensures
        bit_width_spec(v) == 0 <==> v == 0,
        bit_width_spec(v) >= 1 ==> pow2((bit_width_spec(v) - 1) as nat) <= v < pow2(
            bit_width_spec(v),
        ),
    decreases v,
{
    if v > 1 {
        law_bucket_covers_a_power_of_two_range(v / 2);
        let b = bit_width_spec(v);
        assert(bit_width_spec(v) == 1 + bit_width_spec(v / 2));
        lemma_pow2_unfold(b);
        lemma_pow2_unfold((b - 1) as nat);
    } else if v == 1 {
        assert(bit_width_spec(1) == 1 + bit_width_spec(0));
        lemma_pow2_unfold(1);
        assert(pow2(0) == 1) by {
            vstd::arithmetic::power2::lemma2_to64();
        }
    }
}

/// Bit width never decreases as the value grows, and lies in `0..=64`,
/// with 0 only for 0.
pub proof fn law_width_monotone(a: u64, b: u64)
    requires
        a <= b,
    ensures
        bit_width_spec(a) <= bit_width_spec(b),
        bit_width_spec(b) <= 64,
        bit_width_spec(a) == 0 <==> a == 0,
{
    lemma_width_monotone(a, b);
    lemma_width_bound(b);
}

/// A value just inserted is found: after `insert(v)` the store ends in `v`
/// under a live id.
pub proof fn law_inserted_value_is_held(storage: Seq<u64>, live: Seq<bool>, v: u64)
    requires
        storage.len() == live.len(),
    ensures
        holds(storage.push(v), live.push(true), v),
        live_count(live.push(true)) == live_count(live) + 1,
{
    let n = storage.len() as int;
    assert(storage.push(v)[n] == v && live.push(true)[n]);
    lemma_live_count_push(live, true);
}

/// Removing a live entry lowers the count of live entries by exactly one and
/// leaves every other id's liveness as it was.
pub proof fn law_removal_lowers_len(live: Seq<bool>, i: int)
    requires
        0 <= i < live.len(),
        live[i],
    ensures
        live_count(live.update(i, false)) + 1 == live_count(live),
        forall|j: int| 0 <= j < live.len() && j != i ==> live.update(i, false)[j] == live[j],
{
    lemma_live_count_update(live, i, false);
}

/// `find_all` finds something exactly when `contains` holds, and then
/// `find` names one of the ids `find_all` lists.
pub proof fn law_find_all_nonempty_iff_contains(storage: Seq<u64>, live: Seq<bool>, target: u64)
    requires
        storage.len() == live.len(),
        storage.len() <= usize::MAX,
    ensures
        ids_holding(storage, live, target).len() > 0 <==> holds(storage, live, target),
        forall|id: usize|
            (id as int) < storage.len() && live[id as int] && storage[id as int] == target
                ==> #[trigger] ids_holding(storage, live, target).contains(id),
{
    let h = ids_holding(storage, live, target);
    lemma_ids_holding(storage, live, target);
    if h.len() > 0 {
        assert(h.contains(h[0]));
    }
    if holds(storage, live, target) {
        let i = choose|i: int| 0 <= i < storage.len() && live[i] && storage[i] == target;
        assert(h.contains(i as usize));
    }
}

/// The sorted snapshot is in ascending order, holds each live value as
/// often as the index does, and has one value per live entry.
pub proof fn law_snapshot_is_sorted_permutation(storage: Seq<u64>, live: Seq<bool>)
    requires
        storage.len() == live.len(),
        storage.len() <= usize::MAX,
    ensures
        forall|i: int, j: int|
            0 <= i <= j < sorted_live(storage, live).len() ==> #[trigger] sorted_live(
                storage,
                live,
            )[i] <= #[trigger] sorted_live(storage, live)[j],
        sorted_live(storage, live).to_multiset() == live_values(storage, live).to_multiset(),
        sorted_live(storage, live).len() == live_count(live),
{
    let lv = live_values(storage, live);
    lemma_ascending_total();
    lv.lemma_sort_by_ensures(ascending());
    let sl = sorted_live(storage, live);
    assert(sl == lv.sort_by(ascending()));
    assert forall|i: int, j: int| 0 <= i <= j < sl.len() implies #[trigger] sl[i] <= #[trigger] sl[j] by {
        if i < j {
            assert((ascending())(sl[i], sl[j]));
        }
    }
    vstd::seq_lib::to_multiset_len(lv);
    vstd::seq_lib::to_multiset_len(sl);
    lemma_live_values_of_ids(storage, live);
    lemma_live_ids(live);
}

/// The live values of a store whose first `a.len()` ids are the live ones
/// are exactly those first values.
proof fn lemma_live_values_of_prefix(a: Seq<u64>, b: Seq<u64>)
    ensures
        live_values(a + b, live_prefix((a.len() + b.len()) as nat, a.len())) == a,
    decreases b.len(),
{
    let s = a + b;
    let l = live_prefix((a.len() + b.len()) as nat, a.len());
    if b.len() == 0 {
        lemma_live_values_all(a);
        assert(s =~= a);
        assert(l =~= live_prefix(a.len(), a.len()));
    } else {
        lemma_live_values_of_prefix(a, b.drop_last());
        assert(s.drop_last() =~= a + b.drop_last());
        assert(l.drop_last() =~= live_prefix((a.len() + b.len() - 1) as nat, a.len()));
    }
}

/// With every id live, the live values are the whole store.
proof fn lemma_live_values_all(a: Seq<u64>)
    ensures
        live_values(a, live_prefix(a.len(), a.len())) == a,
    decreases a.len(),
{
    if a.len() > 0 {
        lemma_live_values_all(a.drop_last());
        assert(live_prefix(a.len(), a.len()).drop_last() =~= live_prefix(
            (a.len() - 1) as nat,
            (a.len() - 1) as nat,
        ));
        assert(a.drop_last().push(a.last()) =~= a);
    }
}

/// After an in-place sort, the live values in storage order are the sorted
/// snapshot taken before it, and the removed values follow.
pub proof fn law_sort_then_iterate_gives_snapshot(storage: Seq<u64>, live: Seq<bool>)
    requires
        storage.len() == live.len(),
        storage.len() <= usize::MAX,
    ensures
        ({
            let sorted_store = sorted_live(storage, live) + dead_values(storage, live);
            let sorted_liveness = live_prefix(storage.len(), live_count(live));
            &&& sorted_store.len() == storage.len()
            &&& live_values(sorted_store, sorted_liveness) == sorted_live(storage, live)
            &&& dead_values(sorted_store, sorted_liveness) == dead_values(storage, live)
        }),
{
    law_snapshot_is_sorted_permutation(storage, live);
    lemma_dead_values_len(storage, live);
    let a = sorted_live(storage, live);
    let b = dead_values(storage, live);
    assert(a.len() + b.len() == storage.len());
    lemma_live_values_of_prefix(a, b);
    lemma_dead_values_of_prefix(a, b);
}

/// The removed values of a store whose first `a.len()` ids are the live ones
/// are the values after them.
proof fn lemma_dead_values_of_prefix(a: Seq<u64>, b: Seq<u64>)
    ensures
        dead_values(a + b, live_prefix((a.len() + b.len()) as nat, a.len())) == b,
    decreases b.len(),
{
    let s = a + b;
    let l = live_prefix((a.len() + b.len()) as nat, a.len());
    if b.len() == 0 {
        lemma_dead_values_none(a);
        assert(s =~= a);
        assert(l =~= live_prefix(a.len(), a.len()));
    } else {
        lemma_dead_values_of_prefix(a, b.drop_last());
        assert(s.drop_last() =~= a + b.drop_last());
        assert(l.drop_last() =~= live_prefix((a.len() + b.len() - 1) as nat, a.len()));
        assert(b.drop_last().push(b.last()) =~= b);
    }
}

/// With every id live, there are no removed values.
proof fn lemma_dead_values_none(a: Seq<u64>)
    ensures
        dead_values(a, live_prefix(a.len(), a.len())) == Seq::<u64>::empty(),
    decreases a.len(),
{
    if a.len() > 0 {
        lemma_dead_values_none(a.drop_last());
        assert(live_prefix(a.len(), a.len()).drop_last() =~= live_prefix(
            (a.len() - 1) as nat,
            (a.len() - 1) as nat,
        ));
    }
}

/// Sorting a sorted store changes nothing: a second in-place sort leaves the
/// store and its liveness as the first left them.
pub proof fn law_sort_is_idempotent(storage: Seq<u64>, live: Seq<bool>)
    requires
        storage.len() == live.len(),
        storage.len() <= usize::MAX,
    ensures
        ({
            let sorted_store = sorted_live(storage, live) + dead_values(storage, live);
            let sorted_liveness = live_prefix(storage.len(), live_count(live));
            &&& sorted_live(sorted_store, sorted_liveness) + dead_values(sorted_store, sorted_liveness)
                == sorted_store
            &&& live_prefix(sorted_store.len(), live_count(sorted_liveness)) == sorted_liveness
        }),
{
    law_sort_then_iterate_gives_snapshot(storage, live);
    let a = sorted_live(storage, live);
    let sorted_store = a + dead_values(storage, live);
    let sorted_liveness = live_prefix(storage.len(), live_count(live));
    lemma_live_count_bound(live);
    lemma_live_prefix_count(storage.len(), live_count(live));
    law_snapshot_is_sorted_permutation(sorted_store, sorted_liveness);
    law_snapshot_is_sorted_permutation(storage, live);
    let a2 = sorted_live(sorted_store, sorted_liveness);
    lemma_ascending_total();
    assert(sorted_by(a, ascending())) by {
        assert forall|i: int, j: int| 0 <= i < j < a.len() implies #[trigger] (ascending())(a[i], a[j]) by {
            assert(a[i] <= a[j]);
        }
    }
    assert(sorted_by(a2, ascending())) by {
        assert forall|i: int, j: int| 0 <= i < j < a2.len() implies #[trigger] (ascending())(a2[i], a2[j]) by {
            assert(a2[i] <= a2[j]);
        }
    }
    vstd::seq_lib::lemma_sorted_unique(a2, a, ascending());
}

/// The store and liveness after repeatedly inserting `values` one by one.
pub open spec fn insert_each(storage: Seq<u64>, live: Seq<bool>, values: Seq<u64>) -> (Seq<u64>, Seq<bool>)
    decreases values.len(),
{
    if values.len() == 0 {
        (storage, live)
    } else {
        let (s, l) = insert_each(storage, live, values.drop_last());
        (s.push(values.last()), l.push(true))
    }
}

/// Bulk insertion is repeated insertion: appending `values` at once leaves
/// the same store and liveness as inserting them one by one.
pub proof fn law_bulk_insert_is_repeated_insert(storage: Seq<u64>, live: Seq<bool>, values: Seq<u64>)
    ensures
        insert_each(storage, live, values) == (
            storage + values,
            live + Seq::new(values.len(), |k: int| true),
        ),
    decreases values.len(),
{
    if values.len() > 0 {
        law_bulk_insert_is_repeated_insert(storage, live, values.drop_last());
        assert((storage + values.drop_last()).push(values.last()) =~= storage + values);
        assert((live + Seq::new((values.len() - 1) as nat, |k: int| true)).push(true) =~= live
            + Seq::new(values.len(), |k: int| true));
    }
}

/// The bucket sizes of all 65 widths add up to the number of live entries.
pub proof fn law_bucket_sizes_sum_to_len(storage: Seq<u64>, live: Seq<bool>)
    requires
        storage.len() == live.len(),
    ensures
        width_total(storage, live, 65) == live_count(live),
    decreases storage.len(),
{
    if storage.len() > 0 {
        let s0 = storage.drop_last();
        let l0 = live.drop_last();
        law_bucket_sizes_sum_to_len(s0, l0);
        lemma_width_bound(storage.last());
        lemma_width_total_step(storage, live, 65);
    } else {
        lemma_width_total_empty(storage, live, 65);
    }
}

/// A read gives back what a write wrote: after `insert(v)` the new id reads
/// `v` and is live; after `update_at(id, v)` on a live id, `id` reads `v`,
/// stays live and is among the ids `find_all(v)` lists; other ids read as
/// before.
pub proof fn law_read_after_write(storage: Seq<u64>, live: Seq<bool>, id: int, v: u64)
    requires
        storage.len() == live.len(),
        storage.len() < usize::MAX,
    ensures
        storage.push(v)[storage.len() as int] == v && live.push(true)[storage.len() as int],
        forall|j: int| 0 <= j < storage.len() ==> #[trigger] storage.push(v)[j] == storage[j],
        0 <= id < storage.len() && live[id] ==> {
            &&& storage.update(id, v)[id] == v
            &&& ids_holding(storage.update(id, v), live, v).contains(id as usize)
            &&& forall|j: int| 0 <= j < storage.len() && j != id ==> #[trigger] storage.update(id, v)[j] == storage[j]
        },
{
    if 0 <= id < storage.len() && live[id] {
        lemma_ids_holding(storage.update(id, v), live, v);
    }
}

/// A removed id reads nothing, and removing the only live copy of a value
/// makes `contains` false for it.
pub proof fn law_removed_entry_is_gone(storage: Seq<u64>, live: Seq<bool>, id: int)
    requires
        storage.len() == live.len(),
        storage.len() <= usize::MAX,
        0 <= id < storage.len(),
    ensures
        !live.update(id, false)[id],
        ids_holding(storage, live, storage[id]) == seq![id as usize] ==> !holds(
            storage,
            live.update(id, false),
            storage[id],
        ),
{
    let t = storage[id];
    if ids_holding(storage, live, t) == seq![id as usize] {
        lemma_ids_holding(storage, live, t);
        if holds(storage, live.update(id, false), t) {
            let i = choose|i: int|
                0 <= i < storage.len() && live.update(id, false)[i] && storage[i] == t;
            assert(ids_holding(storage, live, t).contains(i as usize));
            assert(seq![id as usize].contains(i as usize));
            assert(i == id);
        }
    }
}

/// Some live entry holds `t` exactly when `t` is among the live values.
proof fn lemma_holds_iff_live_value(storage: Seq<u64>, live: Seq<bool>, t: u64)
    requires
        storage.len() == live.len(),
    ensures
        holds(storage, live, t) <==> live_values(storage, live).contains(t),
    decreases storage.len(),
{
    if storage.len() > 0 {
        let s0 = storage.drop_last();
        let l0 = live.drop_last();
        lemma_holds_iff_live_value(s0, l0, t);
        let lv0 = live_values(s0, l0);
        let lv = live_values(storage, live);
        let n = storage.len() - 1;
        if holds(storage, live, t) {
            let i = choose|i: int| 0 <= i < storage.len() && live[i] && storage[i] == t;
            if i == n {
                assert(lv[lv.len() - 1] == t);
            } else {
                assert(s0[i] == storage[i] && l0[i] == live[i]);
                assert(holds(s0, l0, t));
                let k = choose|k: int| 0 <= k < lv0.len() && lv0[k] == t;
                assert(lv[k] == t);
            }
        }
        if lv.contains(t) {
            let k = choose|k: int| 0 <= k < lv.len() && lv[k] == t;
            if k < lv0.len() {
                assert(lv0[k] == t);
                assert(lv0.contains(t));
                let i = choose|i: int| 0 <= i < s0.len() && l0[i] && s0[i] == t;
                assert(storage[i] == t && live[i]);
            } else {
                assert(live.last() && storage.last() == t);
                assert(storage[n] == t && live[n]);
            }
        }
    }
}

/// Sorting in place changes no answer of `contains`.
pub proof fn law_sort_keeps_membership(storage: Seq<u64>, live: Seq<bool>, t: u64)
    requires
        storage.len() == live.len(),
        storage.len() <= usize::MAX,
    ensures
        holds(
            sorted_live(storage, live) + dead_values(storage, live),
            live_prefix(storage.len(), live_count(live)),
            t,
        ) == holds(storage, live, t),
{
    law_sort_then_iterate_gives_snapshot(storage, live);
    law_snapshot_is_sorted_permutation(storage, live);
    let sorted_store = sorted_live(storage, live) + dead_values(storage, live);
    let sorted_liveness = live_prefix(storage.len(), live_count(live));
    lemma_holds_iff_live_value(sorted_store, sorted_liveness, t);
    lemma_holds_iff_live_value(storage, live, t);
    let a = sorted_live(storage, live);
    let b = live_values(storage, live);
    vstd::seq_lib::to_multiset_contains(a, t);
    vstd::seq_lib::to_multiset_contains(b, t);
}

/// The tree limit is the node budget's: a tree built for `MAX_TREE_IDS` ids
/// keeps its node ids below the no-child mark, and one more id could not.
pub proof fn law_tree_limit_is_the_node_budget()
    ensures
        node_budget(MAX_TREE_IDS as int) < 0xffff_ffff,
        node_budget(MAX_TREE_IDS as int + 1) >= 0xffff_ffff,
{
}

/// There are no more distinct live widths than widths below any bound on
/// them: the active bucket count never exceeds the bucket slot count.
pub proof fn law_active_widths_within_slots(storage: Seq<u64>, live: Seq<bool>, n: nat)
    requires
        forall|i: int| 0 <= i < storage.len() && #[trigger] live[i] ==> bit_width_spec(storage[i]) < n,
    ensures
        live_widths(storage, live).finite(),
        live_widths(storage, live).len() <= n,
{
    let below = Set::new(|w: nat| w < n);
    let ints = vstd::set_lib::set_int_range(0, n as int);
    assert(ints.map(|w: int| w as nat) =~= below) by {
        assert forall|w: nat| below.contains(w) implies ints.map(|w: int| w as nat).contains(w) by {
            assert(ints.contains(w as int));
        }
    }
    vstd::set_lib::lemma_int_range(0, n as int);
    vstd::set_lib::lemma_map_size_bound(ints, below, |w: int| w as nat);
    assert(live_widths(storage, live).subset_of(below));
    vstd::set_lib::lemma_len_subset(live_widths(storage, live), below);
}

} // verus!
