//! The mathematical model of an index: its storage (every value ever
//! inserted, by storage id) and which storage ids are live.

use vstd::prelude::*;
use super::bits::{bit_width_spec, lemma_width_bound};
use vstd::relations::{antisymmetric, reflexive, sorted_by, strongly_connected, total_ordering, transitive};

verus! {

/// The number of live slots.
pub open spec fn live_count(live: Seq<bool>) -> nat
    decreases live.len(),
{
    if live.len() == 0 {
        0
    } else {
        live_count(live.drop_last()) + if live.last() {
            1nat
        } else {
            0nat
        }
    }
}

/// Some live slot holds `t`.
pub open spec fn holds(storage: Seq<u64>, live: Seq<bool>, t: u64) -> bool {
    exists|i: int| 0 <= i < storage.len() && live[i] && storage[i] == t
}

/// The live values, in storage order.
pub open spec fn live_values(storage: Seq<u64>, live: Seq<bool>) -> Seq<u64>
    decreases storage.len(),
{
    if storage.len() == 0 || live.len() == 0 {
        Seq::empty()
    } else {
        live_values(storage.drop_last(), live.drop_last()) + if live.last() {
            seq![storage.last()]
        } else {
            Seq::empty()
        }
    }
}

/// The values of removed slots, in storage order.
pub open spec fn dead_values(storage: Seq<u64>, live: Seq<bool>) -> Seq<u64>
    decreases storage.len(),
{
    if storage.len() == 0 || live.len() == 0 {
        Seq::empty()
    } else {
        dead_values(storage.drop_last(), live.drop_last()) + if live.last() {
            Seq::empty()
        } else {
            seq![storage.last()]
        }
    }
}

/// The live slots as (storage id, value) pairs, in storage order.
pub open spec fn live_entries(storage: Seq<u64>, live: Seq<bool>) -> Seq<(usize, u64)>
    decreases storage.len(),
{
    if storage.len() == 0 || live.len() == 0 {
        Seq::empty()
    } else {
        live_entries(storage.drop_last(), live.drop_last()) + if live.last() {
            seq![((storage.len() - 1) as usize, storage.last())]
        } else {
            Seq::empty()
        }
    }
}

/// The number of live slots whose value has bit width `w`.
pub open spec fn width_count(storage: Seq<u64>, live: Seq<bool>, w: nat) -> nat
    decreases storage.len(),
{
    if storage.len() == 0 || live.len() == 0 {
        0
    } else {
        width_count(storage.drop_last(), live.drop_last(), w) + if live.last()
            && bit_width_spec(storage.last()) == w {
            1nat
        } else {
            0nat
        }
    }
}

/// The live storage ids whose value has bit width `w`.
pub open spec fn width_ids(storage: Seq<u64>, live: Seq<bool>, w: nat) -> Set<usize> {
    Set::new(
        |i: usize|
            (i as int) < storage.len() && live[i as int] && bit_width_spec(storage[i as int]) == w,
    )
}

/// Per bit width below `n` whose count is nonzero, in increasing width
/// order, the width and its number of live entries.
pub open spec fn width_histogram(storage: Seq<u64>, live: Seq<bool>, n: nat) -> Seq<(usize, usize)>
    decreases n,
{
    if n == 0 {
        Seq::empty()
    } else {
        let w = (n - 1) as nat;
        width_histogram(storage, live, w) + if width_count(storage, live, w) > 0 {
            seq![(w as usize, width_count(storage, live, w) as usize)]
        } else {
            Seq::empty()
        }
    }
}

/// The live values in ascending order.
pub open spec fn sorted_live(storage: Seq<u64>, live: Seq<bool>) -> Seq<u64> {
    live_values(storage, live).sort_by(|a: u64, b: u64| a <= b)
}

/// `width_count` counts the set `width_ids`.
pub proof fn lemma_width_count_card(storage: Seq<u64>, live: Seq<bool>, w: nat)
    requires
        storage.len() == live.len(),
        storage.len() <= usize::MAX,
    ensures
        width_ids(storage, live, w).finite(),
        width_count(storage, live, w) == width_ids(storage, live, w).len(),
    decreases storage.len(),
{
    if storage.len() == 0 {
        assert(width_ids(storage, live, w) =~= Set::<usize>::empty());
    } else {
        let s0 = storage.drop_last();
        let l0 = live.drop_last();
        lemma_width_count_card(s0, l0, w);
        let prev = width_ids(s0, l0, w);
        let n = (storage.len() - 1) as usize;
        if live.last() && bit_width_spec(storage.last()) == w {
            assert(width_ids(storage, live, w) =~= prev.insert(n));
            assert(!prev.contains(n));
        } else {
            assert(width_ids(storage, live, w) =~= prev);
        }
    }
}

pub proof fn lemma_live_count_bound(live: Seq<bool>)
    ensures
        live_count(live) <= live.len(),
    decreases live.len(),
{
    if live.len() > 0 {
        lemma_live_count_bound(live.drop_last());
    }
}

pub proof fn lemma_live_count_push(live: Seq<bool>, b: bool)
    ensures
        live_count(live.push(b)) == live_count(live) + if b {
            1nat
        } else {
            0nat
        },
{
    assert(live.push(b).drop_last() =~= live);
}

pub proof fn lemma_live_count_update(live: Seq<bool>, i: int, b: bool)
    requires
        0 <= i < live.len(),
    ensures
        live_count(live.update(i, b)) + (if live[i] {
            1int
        } else {
            0int
        }) == live_count(live) + (if b {
            1int
        } else {
            0int
        }),
    decreases live.len(),
{
    let u = live.update(i, b);
    if i == live.len() - 1 {
        assert(u.drop_last() =~= live.drop_last());
    } else {
        lemma_live_count_update(live.drop_last(), i, b);
        assert(u.drop_last() =~= live.drop_last().update(i, b));
    }
}

} // verus!

verus! {

/// The live storage ids, ascending.
pub open spec fn live_ids(live: Seq<bool>) -> Seq<usize>
    decreases live.len(),
{
    if live.len() == 0 {
        Seq::empty()
    } else {
        live_ids(live.drop_last()) + if live.last() {
            seq![(live.len() - 1) as usize]
        } else {
            Seq::empty()
        }
    }
}

/// The values that `ids` name in `storage`.
pub open spec fn values_of(ids: Seq<usize>, storage: Seq<u64>) -> Seq<u64> {
    ids.map_values(|id: usize| storage[id as int])
}

/// The ascending order on values, as a relation.
pub open spec fn ascending() -> spec_fn(u64, u64) -> bool {
    |a: u64, b: u64| a <= b
}

pub proof fn lemma_ascending_total()
    ensures
        total_ordering(ascending()),
{
    let r = ascending();
    assert(reflexive(r));
    assert(antisymmetric(r));
    assert(transitive(r));
    assert(strongly_connected(r));
}

/// The live ids are distinct, below the length, and exactly the live ones;
/// there are `live_count` of them.
pub proof fn lemma_live_ids(live: Seq<bool>)
    requires
        live.len() <= usize::MAX,
    ensures
        live_ids(live).no_duplicates(),
        live_ids(live).len() == live_count(live),
        forall|id: usize|
            #[trigger] live_ids(live).contains(id) <==> (id as int) < live.len() && live[id as int],
        forall|k: int|
            0 <= k < live_ids(live).len() ==> (#[trigger] live_ids(live)[k] as int) < live.len(),
    decreases live.len(),
{
    if live.len() > 0 {
        let l0 = live.drop_last();
        lemma_live_ids(l0);
        let n = (live.len() - 1) as usize;
        let a = live_ids(l0);
        if live.last() {
            assert(live_ids(live) == a.push(n));
            assert(!a.contains(n));
            assert forall|id: usize| #[trigger] live_ids(live).contains(id) <==> (id as int)
                < live.len() && live[id as int] by {
                if id == n {
                    assert(live_ids(live)[a.len() as int] == n);
                } else if live_ids(live).contains(id) {
                    let k = choose|k: int| 0 <= k < live_ids(live).len() && live_ids(live)[k] == id;
                    assert(live_ids(live)[a.len() as int] == n);
                    assert(k < a.len());
                    assert(a[k] == id);
                    assert(a.contains(id));
                    assert(l0[id as int] == live[id as int]);
                } else if (id as int) < live.len() && live[id as int] {
                    assert(l0[id as int] == live[id as int]);
                    assert(a.contains(id));
                    let k = choose|k: int| 0 <= k < a.len() && a[k] == id;
                    assert(a.push(n)[k] == id);
                    assert(live_ids(live)[k] == id);
                }
            }
        } else {
            assert(live_ids(live) =~= a);
            assert forall|id: usize| #[trigger] live_ids(live).contains(id) <==> (id as int)
                < live.len() && live[id as int] by {
                if (id as int) < l0.len() {
                    assert(l0[id as int] == live[id as int]);
                }
            }
        }
    }
}

/// The live values are the values of the live ids.
pub proof fn lemma_live_values_of_ids(storage: Seq<u64>, live: Seq<bool>)
    requires
        storage.len() == live.len(),
        live.len() <= usize::MAX,
    ensures
        live_values(storage, live) == values_of(live_ids(live), storage),
    decreases storage.len(),
{
    if storage.len() > 0 {
        let s0 = storage.drop_last();
        let l0 = live.drop_last();
        lemma_live_values_of_ids(s0, l0);
        lemma_live_ids(l0);
        let a = live_ids(l0);
        assert(values_of(a, s0) =~= values_of(a, storage)) by {
            assert forall|k: int| 0 <= k < a.len() implies values_of(a, s0)[k] == values_of(
                a,
                storage,
            )[k] by {
                assert(a.contains(a[k]));
            }
        }
        if live.last() {
            let n = (live.len() - 1) as usize;
            assert(values_of(a.push(n), storage) =~= values_of(a, storage).push(storage.last()));
        } else {
            assert(live_ids(live) =~= a);
        }
    }
}

/// Equal id multisets name equal value multisets.
pub proof fn lemma_values_perm(a: Seq<usize>, b: Seq<usize>, storage: Seq<u64>)
    requires
        a.to_multiset() == b.to_multiset(),
    ensures
        values_of(a, storage).to_multiset() == values_of(b, storage).to_multiset(),
    decreases a.len(),
{
    broadcast use vstd::multiset::group_multiset_axioms;

    if a.len() == 0 {
        assert(b.len() == 0) by {
            vstd::seq_lib::to_multiset_len(a);
            vstd::seq_lib::to_multiset_len(b);
        }
        assert(values_of(a, storage) =~= Seq::<u64>::empty());
        assert(values_of(b, storage) =~= Seq::<u64>::empty());
    } else {
        let x = a.last();
        assert(a.to_multiset().count(x) > 0) by {
            assert(a.contains(x) ==> a.to_multiset().count(x) > 0) by {
                vstd::seq_lib::to_multiset_contains(a, x);
            }
            assert(a[a.len() - 1] == x);
        }
        vstd::seq_lib::to_multiset_contains(b, x);
        let j = choose|j: int| 0 <= j < b.len() && b[j] == x;
        let a0 = a.drop_last();
        let b0 = b.remove(j);
        assert(a0.push(x) =~= a);
        vstd::seq_lib::to_multiset_build(a0, x);
        vstd::seq_lib::to_multiset_remove(b, j);
        assert(a0.to_multiset() =~= b0.to_multiset());
        lemma_values_perm(a0, b0, storage);
        let va = values_of(a, storage);
        let vb = values_of(b, storage);
        assert(values_of(a0, storage).push(storage[x as int]) =~= va);
        vstd::seq_lib::to_multiset_build(values_of(a0, storage), storage[x as int]);
        assert(values_of(b0, storage) =~= vb.remove(j));
        vstd::seq_lib::to_multiset_remove(vb, j);
        assert(vb.to_multiset().count(vb[j]) > 0) by {
            vstd::seq_lib::to_multiset_contains(vb, vb[j]);
        }
        assert(va.to_multiset() =~= vb.to_multiset());
    }
}

/// Distinct sequences with the same members are permutations of each other.
pub proof fn lemma_same_members_perm(a: Seq<usize>, b: Seq<usize>)
    requires
        a.no_duplicates(),
        b.no_duplicates(),
        forall|x: usize| a.contains(x) <==> b.contains(x),
    ensures
        a.to_multiset() == b.to_multiset(),
{
    a.lemma_multiset_has_no_duplicates();
    b.lemma_multiset_has_no_duplicates();
    assert forall|x: usize| a.to_multiset().count(x) == b.to_multiset().count(x) by {
        vstd::seq_lib::to_multiset_contains(a, x);
        vstd::seq_lib::to_multiset_contains(b, x);
    }
    assert(a.to_multiset() =~= b.to_multiset());
}

/// A sequence in ascending order with the same values as the live ones is
/// the sorted live values.
pub proof fn lemma_sorted_is_sorted_live(out: Seq<u64>, storage: Seq<u64>, live: Seq<bool>)
    requires
        forall|i: int, j: int| #![trigger out[i], out[j]] 0 <= i <= j < out.len() ==> out[i] <= out[j],
        out.to_multiset() == live_values(storage, live).to_multiset(),
    ensures
        out == sorted_live(storage, live),
{
    lemma_ascending_total();
    let lv = live_values(storage, live);
    lv.lemma_sort_by_ensures(ascending());
    assert(sorted_live(storage, live) == lv.sort_by(ascending()));
    assert(sorted_by(out, ascending())) by {
        assert forall|i: int, j: int| 0 <= i < j < out.len() implies #[trigger] (ascending())(
            out[i],
            out[j],
        ) by {
            assert(out[i] <= out[j]);
        }
    }
    vstd::seq_lib::lemma_sorted_unique(out, lv.sort_by(ascending()), ascending());
}

} // verus!

verus! {

/// The liveness after a sort: the first `n_live` of `n` ids live.
pub open spec fn live_prefix(n: nat, n_live: nat) -> Seq<bool> {
    Seq::new(n, |i: int| i < n_live)
}

pub proof fn lemma_live_prefix_count(n: nat, n_live: nat)
    requires
        n_live <= n,
    ensures
        live_count(live_prefix(n, n_live)) == n_live,
    decreases n,
{
    if n > 0 {
        let p = live_prefix(n, n_live);
        if n_live == n {
            lemma_live_prefix_count((n - 1) as nat, (n_live - 1) as nat);
            assert(p.drop_last() =~= live_prefix((n - 1) as nat, (n_live - 1) as nat));
        } else {
            lemma_live_prefix_count((n - 1) as nat, n_live);
            assert(p.drop_last() =~= live_prefix((n - 1) as nat, n_live));
        }
    }
}

/// There is one dead value per removed id.
pub proof fn lemma_dead_values_len(storage: Seq<u64>, live: Seq<bool>)
    requires
        storage.len() == live.len(),
    ensures
        dead_values(storage, live).len() + live_count(live) == live.len(),
    decreases storage.len(),
{
    if storage.len() > 0 {
        lemma_dead_values_len(storage.drop_last(), live.drop_last());
    }
}

/// The number of removed ids below `j`.
pub open spec fn dead_before(live: Seq<bool>, j: int) -> int {
    j - live_count(live.take(j))
}

/// The value of removed id `j` sits in the dead values at the number of
/// removed ids before it.
pub proof fn lemma_dead_values_at(storage: Seq<u64>, live: Seq<bool>, j: int)
    requires
        storage.len() == live.len(),
        0 <= j < live.len(),
        !live[j],
    ensures
        0 <= dead_before(live, j) < dead_values(storage, live).len(),
        dead_values(storage, live)[dead_before(live, j)] == storage[j],
    decreases storage.len(),
{
    let n = storage.len() - 1;
    let s0 = storage.drop_last();
    let l0 = live.drop_last();
    lemma_dead_values_len(storage, live);
    lemma_live_count_bound(live.take(j));
    if j == n {
        assert(live.take(j) =~= l0);
        lemma_dead_values_len(s0, l0);
        assert(dead_values(storage, live) == dead_values(s0, l0) + seq![storage.last()]);
    } else {
        lemma_dead_values_at(s0, l0, j);
        assert(l0.take(j) =~= live.take(j));
        assert(dead_values(storage, live) == dead_values(s0, l0) + if live.last() {
            Seq::<u64>::empty()
        } else {
            seq![storage.last()]
        });
    }
}

/// The number of removed ids grows by one past each removed id and stays
/// put past each live one.
pub proof fn lemma_dead_before_step(live: Seq<bool>, j: int)
    requires
        0 <= j < live.len(),
    ensures
        dead_before(live, j + 1) == dead_before(live, j) + if live[j] {
            0int
        } else {
            1int
        },
        0 <= dead_before(live, j) <= j,
{
    assert(live.take(j + 1).drop_last() =~= live.take(j));
    lemma_live_count_bound(live.take(j));
}

pub proof fn lemma_dead_before_mono(live: Seq<bool>, a: int, b: int)
    requires
        0 <= a <= b <= live.len(),
    ensures
        dead_before(live, a) <= dead_before(live, b),
        dead_before(live, live.len() as int) + live_count(live) == live.len(),
    decreases b - a,
{
    assert(live.take(live.len() as int) =~= live);
    if a < b {
        lemma_dead_before_step(live, b - 1);
        lemma_dead_before_mono(live, a, b - 1);
    }
}

/// The number of ids `j < k` with `p[j] != j`.
pub open spec fn misplaced(p: Seq<usize>, k: int) -> nat
    decreases k,
{
    if k <= 0 {
        0
    } else {
        misplaced(p, k - 1) + if p[k - 1] != (k - 1) as usize {
            1nat
        } else {
            0nat
        }
    }
}

pub proof fn lemma_misplaced_update(p: Seq<usize>, k: int, i: int, v: usize)
    requires
        0 <= i < p.len(),
        k <= p.len(),
    ensures
        misplaced(p.update(i, v), k) + (if i < k && p[i] != i as usize {
            1int
        } else {
            0int
        }) == misplaced(p, k) + (if i < k && v != i as usize {
            1int
        } else {
            0int
        }),
    decreases k,
{
    if k > 0 {
        lemma_misplaced_update(p, k - 1, i, v);
    }
}

pub proof fn lemma_misplaced_bound(p: Seq<usize>, k: int)
    requires
        0 <= k,
    ensures
        misplaced(p, k) <= k,
    decreases k,
{
    if k > 0 {
        lemma_misplaced_bound(p, k - 1);
    }
}

/// The live storage ids holding `t`, ascending.
pub open spec fn ids_holding(storage: Seq<u64>, live: Seq<bool>, t: u64) -> Seq<usize>
    decreases storage.len(),
{
    if storage.len() == 0 || live.len() == 0 {
        Seq::empty()
    } else {
        ids_holding(storage.drop_last(), live.drop_last(), t) + if live.last() && storage.last()
            == t {
            seq![(storage.len() - 1) as usize]
        } else {
            Seq::empty()
        }
    }
}

/// The ids holding `t` are ascending, and are exactly the live ids with
/// value `t`.
pub proof fn lemma_ids_holding(storage: Seq<u64>, live: Seq<bool>, t: u64)
    requires
        storage.len() == live.len(),
        storage.len() <= usize::MAX,
    ensures
        forall|i: int, j: int|
            #![trigger ids_holding(storage, live, t)[i], ids_holding(storage, live, t)[j]]
            0 <= i < j < ids_holding(storage, live, t).len() ==> ids_holding(storage, live, t)[i]
                < ids_holding(storage, live, t)[j],
        forall|id: usize|
            #[trigger] ids_holding(storage, live, t).contains(id) <==> (id as int) < storage.len()
                && live[id as int] && storage[id as int] == t,
        forall|k: int|
            0 <= k < ids_holding(storage, live, t).len() ==> (#[trigger] ids_holding(
                storage,
                live,
                t,
            )[k] as int) < storage.len(),
    decreases storage.len(),
{
    if storage.len() > 0 {
        let s0 = storage.drop_last();
        let l0 = live.drop_last();
        lemma_ids_holding(s0, l0, t);
        let a = ids_holding(s0, l0, t);
        let r = ids_holding(storage, live, t);
        let n = (storage.len() - 1) as usize;
        if live.last() && storage.last() == t {
            assert(r == a.push(n));
            assert forall|id: usize| #[trigger] r.contains(id) <==> (id as int) < storage.len()
                && live[id as int] && storage[id as int] == t by {
                if r.contains(id) {
                    let k = choose|k: int| 0 <= k < r.len() && r[k] == id;
                    if k < a.len() {
                        assert(a[k] == id);
                        assert(a.contains(id));
                        assert(s0[id as int] == storage[id as int]);
                        assert(l0[id as int] == live[id as int]);
                    }
                }
                if (id as int) < storage.len() && live[id as int] && storage[id as int] == t {
                    if id == n {
                        assert(r[a.len() as int] == n);
                    } else {
                        assert(s0[id as int] == storage[id as int]);
                        assert(l0[id as int] == live[id as int]);
                        assert(a.contains(id));
                        let k = choose|k: int| 0 <= k < a.len() && a[k] == id;
                        assert(r[k] == id);
                    }
                }
            }
        } else {
            assert(r =~= a);
            assert forall|id: usize| #[trigger] r.contains(id) <==> (id as int) < storage.len()
                && live[id as int] && storage[id as int] == t by {
                if (id as int) < s0.len() {
                    assert(s0[id as int] == storage[id as int]);
                    assert(l0[id as int] == live[id as int]);
                }
            }
        }
    }
}

/// The number of live entries of widths below `n`.
pub open spec fn width_total(storage: Seq<u64>, live: Seq<bool>, n: nat) -> nat
    decreases n,
{
    if n == 0 {
        0
    } else {
        width_total(storage, live, (n - 1) as nat) + width_count(storage, live, (n - 1) as nat)
    }
}

/// An empty store has no live entry of any width.
pub proof fn lemma_width_total_empty(storage: Seq<u64>, live: Seq<bool>, n: nat)
    requires
        storage.len() == 0,
    ensures
        width_total(storage, live, n) == 0,
    decreases n,
{
    if n > 0 {
        lemma_width_total_empty(storage, live, (n - 1) as nat);
    }
}

/// Extending the store by one entry adds one to the total below `n` exactly
/// when that entry is live with a width below `n`.
pub proof fn lemma_width_total_step(storage: Seq<u64>, live: Seq<bool>, n: nat)
    requires
        storage.len() == live.len(),
        storage.len() > 0,
    ensures
        width_total(storage, live, n) == width_total(storage.drop_last(), live.drop_last(), n)
            + if live.last() && bit_width_spec(storage.last()) < n {
            1nat
        } else {
            0nat
        },
    decreases n,
{
    if n > 0 {
        lemma_width_total_step(storage, live, (n - 1) as nat);
    }
}

/// The bit widths that some live value has.
pub open spec fn live_widths(storage: Seq<u64>, live: Seq<bool>) -> Set<nat> {
    Set::new(
        |w: nat| exists|i: int| 0 <= i < storage.len() && live[i] && bit_width_spec(storage[i]) == w,
    )
}

/// The widths below `n` with a live entry.
pub open spec fn active_widths_below(storage: Seq<u64>, live: Seq<bool>, n: nat) -> Set<nat> {
    Set::new(|w: nat| w < n && width_count(storage, live, w) > 0)
}

/// A width has live entries exactly when some live value has that width.
pub proof fn lemma_width_count_positive(storage: Seq<u64>, live: Seq<bool>, w: nat)
    requires
        storage.len() == live.len(),
    ensures
        width_count(storage, live, w) > 0 <==> exists|i: int|
            0 <= i < storage.len() && live[i] && bit_width_spec(storage[i]) == w,
    decreases storage.len(),
{
    if storage.len() > 0 {
        let s0 = storage.drop_last();
        let l0 = live.drop_last();
        lemma_width_count_positive(s0, l0, w);
        let n = storage.len() - 1;
        if exists|i: int| 0 <= i < storage.len() && live[i] && bit_width_spec(storage[i]) == w {
            let i = choose|i: int| 0 <= i < storage.len() && live[i] && bit_width_spec(storage[i]) == w;
            if i < n {
                assert(s0[i] == storage[i] && l0[i] == live[i]);
            }
        }
        if exists|i: int| 0 <= i < s0.len() && l0[i] && bit_width_spec(s0[i]) == w {
            let i = choose|i: int| 0 <= i < s0.len() && l0[i] && bit_width_spec(s0[i]) == w;
            assert(storage[i] == s0[i] && live[i] == l0[i]);
        }
    }
}

/// The histogram below `n` has one row per width below `n` with a live entry.
pub proof fn lemma_histogram_len(storage: Seq<u64>, live: Seq<bool>, n: nat)
    ensures
        active_widths_below(storage, live, n).finite(),
        width_histogram(storage, live, n).len() == active_widths_below(storage, live, n).len(),
    decreases n,
{
    if n == 0 {
        assert(active_widths_below(storage, live, 0) =~= Set::<nat>::empty());
    } else {
        let m = (n - 1) as nat;
        lemma_histogram_len(storage, live, m);
        let prev = active_widths_below(storage, live, m);
        if width_count(storage, live, m) > 0 {
            assert(active_widths_below(storage, live, n) =~= prev.insert(m));
        } else {
            assert(active_widths_below(storage, live, n) =~= prev);
        }
    }
}

/// The number of distinct widths of live values is the number of histogram
/// rows; it is zero exactly when nothing is live.
pub proof fn lemma_live_widths_card(storage: Seq<u64>, live: Seq<bool>)
    requires
        storage.len() == live.len(),
    ensures
        live_widths(storage, live).finite(),
        live_widths(storage, live).len() == width_histogram(storage, live, 65).len(),
        live_widths(storage, live).len() == 0 <==> live_count(live) == 0,
{
    lemma_histogram_len(storage, live, 65);
    assert forall|w: nat| #[trigger] live_widths(storage, live).contains(w) <==> active_widths_below(
        storage,
        live,
        65,
    ).contains(w) by {
        lemma_width_count_positive(storage, live, w);
        if live_widths(storage, live).contains(w) {
            let i = choose|i: int| 0 <= i < storage.len() && live[i] && bit_width_spec(storage[i]) == w;
            lemma_width_bound(storage[i]);
        }
    }
    assert(live_widths(storage, live) =~= active_widths_below(storage, live, 65));
    lemma_live_count_positive(live);
    if live_count(live) > 0 {
        let i = choose|i: int| 0 <= i < live.len() && live[i];
        assert(live_widths(storage, live).contains(bit_width_spec(storage[i])));
    } else if live_widths(storage, live).len() > 0 {
        let w = live_widths(storage, live).choose();
        assert(live_widths(storage, live).contains(w));
    }
}

/// Something is live exactly when the live count is positive.
pub proof fn lemma_live_count_positive(live: Seq<bool>)
    ensures
        live_count(live) > 0 <==> exists|i: int| 0 <= i < live.len() && live[i],
    decreases live.len(),
{
    if live.len() > 0 {
        let l0 = live.drop_last();
        lemma_live_count_positive(l0);
        if exists|i: int| 0 <= i < live.len() && live[i] {
            let i = choose|i: int| 0 <= i < live.len() && live[i];
            if i < live.len() - 1 {
                assert(l0[i]);
            }
        }
        if exists|i: int| 0 <= i < l0.len() && l0[i] {
            let i = choose|i: int| 0 <= i < l0.len() && l0[i];
            assert(live[i]);
        }
    }
}

} // verus!
