//! Bit-width routing and the bit-level facts that the radix trees rely on.

use vstd::prelude::*;
use vstd::std_specs::bits::u64_leading_zeros;

verus! {

/// The number of binary digits of `v`: 0 for 0, otherwise the position of the
/// highest set bit plus one.
pub open spec fn bit_width_spec(v: u64) -> nat
    decreases v,
{
    if v == 0 {
        0
    } else {
        1 + bit_width_spec(v / 2)
    }
}

proof fn lemma_leading_zeros_is_width(v: u64)
    ensures
        64 - u64_leading_zeros(v) == bit_width_spec(v),
    decreases v,
{
    reveal(u64_leading_zeros);
    if v != 0 {
        lemma_leading_zeros_is_width(v / 2);
    }
}

/// A value of smaller bit width is smaller.
pub proof fn lemma_width_order(a: u64, b: u64)
    requires
        bit_width_spec(a) < bit_width_spec(b),
    ensures
        a < b,
    decreases a,
{
    if a != 0 {
        lemma_width_order(a / 2, b / 2);
    }
}

/// Bit width never decreases as the value grows.
pub proof fn lemma_width_monotone(a: u64, b: u64)
    requires
        a <= b,
    ensures
        bit_width_spec(a) <= bit_width_spec(b),
{
    if bit_width_spec(b) < bit_width_spec(a) {
        lemma_width_order(b, a);
    }
}

/// Bit width is at most 64.
pub proof fn lemma_width_bound(v: u64)
    ensures
        bit_width_spec(v) <= 64,
{
    lemma_leading_zeros_is_width(v);
    vstd::std_specs::bits::axiom_u64_leading_zeros(v);
}

/// Computes the binary bit-width of a `u64` value.
pub fn bit_width(value: u64) -> (w: usize)
    ensures
        w == bit_width_spec(value),
        w <= 64,
{
    proof {
        lemma_leading_zeros_is_width(value);
        vstd::std_specs::bits::axiom_u64_leading_zeros(value);
    }
    (u64::BITS - value.leading_zeros()) as usize
}

} // verus!

verus! {

/// All bits below position `b` (all 64 bits when `b >= 64`).
pub open spec fn low_mask(b: u64) -> u64 {
    if b >= 64 {
        0xffff_ffff_ffff_ffffu64
    } else {
        !(0xffff_ffff_ffff_ffffu64 << b)
    }
}

/// The low `b` bits of `t`: the part of a value that decides its path down a
/// radix tree whose nodes route by `b`-bit prefixes.
pub open spec fn low_bits(t: u64, b: u64) -> u64 {
    t & low_mask(b)
}

/// The six-bit child slot that `t` takes at a node routing by bits `b..b + 6`.
pub open spec fn slot_of(t: u64, b: u64) -> u64 {
    (t >> b) & 63u64
}

/// The one-hot mask of child slot `q`.
pub open spec fn slot_bit(q: u64) -> u64 {
    1u64 << q
}

pub proof fn lemma_slot_of_bound(t: u64, b: u64)
    ensures
        slot_of(t, b) < 64,
{
    assert(((t >> b) & 63u64) < 64) by (bit_vector);
}

/// Descending one level refines the prefix by the child slot.
pub proof fn lemma_low_bits_step(t: u64, b: u64)
    requires
        b < 64,
    ensures
        low_bits(t, (b + 6) as u64) == low_bits(t, b) | (slot_of(t, b) << b),
{
    let b6 = (b + 6) as u64;
    if b6 >= 64 {
        assert(t & 0xffff_ffff_ffff_ffffu64 == (t & !(0xffff_ffff_ffff_ffffu64 << b)) | (((t
            >> b) & 63u64) << b)) by (bit_vector)
            requires
                b < 64,
                b + 6 >= 64,
        ;
    } else {
        assert(t & !(0xffff_ffff_ffff_ffffu64 << b6) == (t & !(0xffff_ffff_ffff_ffffu64 << b)) | (
        ((t >> b) & 63u64) << b)) by (bit_vector)
            requires
                b6 == b + 6,
                b6 < 64,
        ;
    }
}

/// A shorter prefix of a prefix is the shorter prefix of the value itself.
pub proof fn lemma_low_bits_nest(t: u64, b1: u64, b2: u64)
    requires
        b1 <= b2,
    ensures
        low_bits(low_bits(t, b2), b1) == low_bits(t, b1),
{
    if b2 >= 64 {
        if b1 >= 64 {
            assert(t & 0xffff_ffff_ffff_ffffu64 & 0xffff_ffff_ffff_ffffu64 == t
                & 0xffff_ffff_ffff_ffffu64) by (bit_vector);
        } else {
            assert(t & 0xffff_ffff_ffff_ffffu64 & !(0xffff_ffff_ffff_ffffu64 << b1) == t & !(
            0xffff_ffff_ffff_ffffu64 << b1)) by (bit_vector);
        }
    } else {
        assert(t & !(0xffff_ffff_ffff_ffffu64 << b2) & !(0xffff_ffff_ffff_ffffu64 << b1) == t
            & !(0xffff_ffff_ffff_ffffu64 << b1)) by (bit_vector)
            requires
                b1 <= b2,
                b2 < 64,
        ;
    }
}

/// The child slot at level `b1` only reads bits that a longer prefix keeps.
pub proof fn lemma_slot_of_low_bits(t: u64, b1: u64, b2: u64)
    requires
        b1 + 6 <= b2,
    ensures
        slot_of(low_bits(t, b2), b1) == slot_of(t, b1),
{
    if b2 >= 64 {
        assert(((t & 0xffff_ffff_ffff_ffffu64) >> b1) & 63u64 == (t >> b1) & 63u64)
            by (bit_vector);
    } else {
        assert(((t & !(0xffff_ffff_ffff_ffffu64 << b2)) >> b1) & 63u64 == (t >> b1) & 63u64)
            by (bit_vector)
            requires
                b1 + 6 <= b2,
                b2 < 64,
        ;
    }
}

/// A prefix extended by a child slot keeps the prefix, names the slot, and is
/// its own prefix one level down.
pub proof fn lemma_extend_prefix(p: u64, q: u64, b: u64)
    requires
        b < 64,
        q < 64,
        low_bits(p, b) == p,
        (q << b) >> b == q,
    ensures
        low_bits(p | (q << b), b) == p,
        slot_of(p | (q << b), b) == q,
        low_bits(p | (q << b), (b + 6) as u64) == p | (q << b),
{
    assert((p | (q << b)) & !(0xffff_ffff_ffff_ffffu64 << b) == p) by (bit_vector)
        requires
            b < 64,
            q < 64,
            p & !(0xffff_ffff_ffff_ffffu64 << b) == p,
            (q << b) >> b == q,
    ;
    assert(((p | (q << b)) >> b) & 63u64 == q) by (bit_vector)
        requires
            b < 64,
            q < 64,
            p & !(0xffff_ffff_ffff_ffffu64 << b) == p,
            (q << b) >> b == q,
    ;
    lemma_low_bits_step(p | (q << b), b);
    assert((p | (q << b)) == (p | (q << b)) & !(0xffff_ffff_ffff_ffffu64 << b) | (((p | (q
        << b)) >> b) & 63u64) << b) by (bit_vector)
        requires
            b < 64,
            q < 64,
            p & !(0xffff_ffff_ffff_ffffu64 << b) == p,
            (q << b) >> b == q,
    ;
}

/// A slot read from a value fits back where it came from.
pub proof fn lemma_slot_of_fits(t: u64, b: u64)
    requires
        b < 64,
    ensures
        (slot_of(t, b) << b) >> b == slot_of(t, b),
{
    assert(((((t >> b) & 63u64) << b) >> b) == (t >> b) & 63u64) by (bit_vector)
        requires
            b < 64,
    ;
}

pub proof fn lemma_slot_bit_set(x: u64, q: u64)
    requires
        q < 64,
    ensures
        (x | slot_bit(q)) & slot_bit(q) != 0,
        x | slot_bit(q) != 0,
        (x & !slot_bit(q)) & slot_bit(q) == 0,
{
    assert((x | (1u64 << q)) & (1u64 << q) != 0 && (x | (1u64 << q)) != 0 && (x & !(1u64 << q))
        & (1u64 << q) == 0) by (bit_vector)
        requires
            q < 64,
    ;
}

pub proof fn lemma_slot_bit_other(x: u64, q: u64, r: u64)
    requires
        q < 64,
        r < 64,
        q != r,
    ensures
        ((x | slot_bit(q)) & slot_bit(r) != 0) == (x & slot_bit(r) != 0),
        ((x & !slot_bit(q)) & slot_bit(r) != 0) == (x & slot_bit(r) != 0),
{
    assert(((x | (1u64 << q)) & (1u64 << r) != 0) == (x & (1u64 << r) != 0) && ((x & !(1u64
        << q)) & (1u64 << r) != 0) == (x & (1u64 << r) != 0)) by (bit_vector)
        requires
            q < 64,
            r < 64,
            q != r,
    ;
}

/// Clearing slot `q` empties a bitmap only when `q` was its one set slot.
pub proof fn lemma_slot_bit_cleared_empty(x: u64, q: u64, r: u64)
    requires
        q < 64,
        r < 64,
        q != r,
        x & !slot_bit(q) == 0,
    ensures
        x & slot_bit(r) == 0,
{
    assert(x & (1u64 << r) == 0) by (bit_vector)
        requires
            q < 64,
            r < 64,
            q != r,
            x & !(1u64 << q) == 0,
    ;
}

pub proof fn lemma_no_slot_bit_in_zero(q: u64)
    requires
        q < 64,
    ensures
        0u64 & slot_bit(q) == 0,
{
    assert(0u64 & (1u64 << q) == 0) by (bit_vector);
}

/// Once all 64 bits are taken, the low bits of `t` are `t` itself.
pub proof fn lemma_low_bits_full_width(t: u64, b: u64)
    requires
        b >= 64,
    ensures
        low_bits(t, b) == t,
{
    assert(t & 0xffff_ffff_ffff_ffffu64 == t) by (bit_vector);
}

pub proof fn lemma_low_bits_of_zero_width(t: u64)
    ensures
        low_bits(t, 0) == 0,
{
    assert(t & !(0xffff_ffff_ffff_ffffu64 << 0u64) == 0) by (bit_vector);
}

} // verus!
