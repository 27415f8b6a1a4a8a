//! Deterministic workloads for exercising the index: a xorshift generator,
//! the value streams built from it, and lookup-target sampling.

use vstd::prelude::*;

verus! {

/// One xorshift64 step (shifts 13, 7, 17).
pub open spec fn xorshift(x: u64) -> u64 {
    let a = x ^ (x << 13u64);
    let b = a ^ (a >> 7u64);
    b ^ (b << 17u64)
}

/// The values that `n` successive draws produce, where `step` maps a
/// generator state to the drawn value and the next state.
pub open spec fn draws(step: spec_fn(u64) -> (u64, u64), state: u64, n: nat) -> Seq<u64>
    decreases n,
{
    if n == 0 {
        Seq::empty()
    } else {
        draws(step, state, (n - 1) as nat).push(step(state_after(step, state, (n - 1) as nat)).0)
    }
}

/// The generator state after `n` successive draws.
pub open spec fn state_after(step: spec_fn(u64) -> (u64, u64), state: u64, n: nat) -> u64
    decreases n,
{
    if n == 0 {
        state
    } else {
        step(state_after(step, state, (n - 1) as nat)).1
    }
}

/// A xorshift64 generator.
pub struct Xorshift64 {
    pub state: u64,
}

impl Xorshift64 {
    /// A generator seeded with `seed`; a zero seed, which xorshift never
    /// leaves, is replaced by 1.
    pub fn new(seed: u64) -> (r: Self)
        ensures
            r.state == if seed == 0 {
                1
            } else {
                seed
            },
    {
        Xorshift64 { state: if seed == 0 { 1 } else { seed } }
    }

    /// A generator in state `state`, taken as it is.
    pub fn with_state(state: u64) -> (r: Self)
        ensures
            r.state == state,
    {
        Xorshift64 { state }
    }

    /// Advances the generator and returns its new state.
    pub fn next(&mut self) -> (r: u64)
        ensures
            r == xorshift(old(self).state),
            final(self).state == r,
    {
        let mut x = self.state;
        x = x ^ (x << 13u64);
        x = x ^ (x >> 7u64);
        x = x ^ (x << 17u64);
        self.state = x;
        x
    }

    /// A draw in `lo..=hi`: `lo` plus the next value modulo the span.
    pub fn range(&mut self, lo: u64, hi: u64) -> (r: u64)
        requires
            lo <= hi,
            hi - lo < u64::MAX,
        ensures
            r == lo + (xorshift(old(self).state) as int) % (hi - lo + 1),
            lo <= r <= hi,
            final(self).state == xorshift(old(self).state),
    {
        let span = hi - lo + 1;
        let v = self.next();
        lo + v % span
    }
}

/// A draw in `lo..=hi` from state `s`: the value and the next state.
pub open spec fn span_step(lo: u64, hi: u64) -> spec_fn(u64) -> (u64, u64) {
    |s: u64| ((lo + (xorshift(s) as int) % (hi - lo + 1)) as u64, xorshift(s))
}

/// A draw whose bit width is uniform over `0..=64`: a first draw picks the
/// width, a second the value of that width.
pub open spec fn spread_width_step() -> spec_fn(u64) -> (u64, u64) {
    |s: u64|
        {
            let s1 = xorshift(s);
            let bits = s1 % 65;
            if bits == 0 {
                (0u64, s1)
            } else {
                let s2 = xorshift(s1);
                if bits == 64 {
                    (s2, s2)
                } else {
                    let lo = 1u64 << ((bits - 1) as u64);
                    let hi = ((1u64 << bits) - 1) as u64;
                    ((lo + (s2 as int) % (hi - lo + 1)) as u64, s2)
                }
            }
        }
}

/// The `k`-th of the five value clusters.
pub open spec fn cluster(k: u64) -> (u64, u64) {
    if k == 0 {
        (100, 200)
    } else if k == 1 {
        (10_000, 20_000)
    } else if k == 2 {
        (1_000_000, 2_000_000)
    } else if k == 3 {
        (0x100_0000_0000, 0x100_0001_86a0)
    } else {
        (0x1000_0000_0000_0000, 0x1000_0000_0001_86a0)
    }
}

/// A draw from one of five clusters: a first draw picks the cluster, a second
/// the value in it.
pub open spec fn clustered_step() -> spec_fn(u64) -> (u64, u64) {
    |s: u64|
        {
            let s1 = xorshift(s);
            let c = cluster(s1 % 5);
            let s2 = xorshift(s1);
            ((c.0 + (s2 as int) % (c.1 - c.0 + 1)) as u64, s2)
        }
}

/// A draw of one of five shapes (a byte; widths 21, 41 and 64 with fixed top
/// bit; any value): a first draw picks the shape, a second fills it.
pub open spec fn mixed_shape_step() -> spec_fn(u64) -> (u64, u64) {
    |s: u64|
        {
            let s1 = xorshift(s);
            let s2 = xorshift(s1);
            let k = s1 % 5;
            let v = if k == 0 {
                s2 & 0xff
            } else if k == 1 {
                0x10_0000u64 | (s2 & 0x000f_ffff)
            } else if k == 2 {
                0x100_0000_0000u64 | (s2 & 0x0000_ffff_ffff)
            } else if k == 3 {
                0x8000_0000_0000_0000u64 | (s2 & 0x0000_ffff_ffff)
            } else {
                s2
            };
            (v, s2)
        }
}

/// A draw of width 32: the top bit of the low 32 set, the rest from the draw.
pub open spec fn width32_step() -> spec_fn(u64) -> (u64, u64) {
    |s: u64| (0x8000_0000u64 | (xorshift(s) & 0x7fff_ffff), xorshift(s))
}

/// One draw of `spread_width_step`.
fn spread_width_value(rng: &mut Xorshift64) -> (r: u64)
    ensures
        (r, final(rng).state) == (spread_width_step())(old(rng).state),
{
    let bits = rng.next() % 65;
    if bits == 0 {
        0
    } else if bits == 64 {
        rng.next()
    } else {
        let shift = bits - 1;
        assert(1u64 << shift <= ((1u64 << bits) - 1) as u64 && (1u64 << bits) >= 1) by (bit_vector)
            requires
                1 <= bits < 64,
                shift == bits - 1,
        ;
        let lo = 1u64 << shift;
        let hi = (1u64 << bits) - 1;
        rng.range(lo, hi)
    }
}

/// One draw of `clustered_step`.
fn clustered_value(rng: &mut Xorshift64) -> (r: u64)
    ensures
        (r, final(rng).state) == (clustered_step())(old(rng).state),
{
    let k = rng.next() % 5;
    let (lo, hi): (u64, u64) = if k == 0 {
        (100, 200)
    } else if k == 1 {
        (10_000, 20_000)
    } else if k == 2 {
        (1_000_000, 2_000_000)
    } else if k == 3 {
        (0x100_0000_0000, 0x100_0001_86a0)
    } else {
        (0x1000_0000_0000_0000, 0x1000_0000_0001_86a0)
    };
    rng.range(lo, hi)
}

/// One draw of `mixed_shape_step`.
fn mixed_shape_value(rng: &mut Xorshift64) -> (r: u64)
    ensures
        (r, final(rng).state) == (mixed_shape_step())(old(rng).state),
{
    let k = rng.next() % 5;
    let v = rng.next();
    if k == 0 {
        v & 0xff
    } else if k == 1 {
        0x10_0000u64 | (v & 0x000f_ffff)
    } else if k == 2 {
        0x100_0000_0000u64 | (v & 0x0000_ffff_ffff)
    } else if k == 3 {
        0x8000_0000_0000_0000u64 | (v & 0x0000_ffff_ffff)
    } else {
        v
    }
}

/// `n` values whose bit widths are spread uniformly over `0..=64`, from seed 42.
pub fn gen_high_entropy(n: usize) -> (r: Vec<u64>)
    ensures
        r@ == draws(spread_width_step(), 42, n as nat),
{
    let mut rng = Xorshift64::new(42);
    let mut out: Vec<u64> = Vec::new();
    let mut k: usize = 0;
    while k < n
        invariant
            k <= n,
            out@ == draws(spread_width_step(), 42, k as nat),
            rng.state == state_after(spread_width_step(), 42, k as nat),
        decreases n - k,
    {
        let v = spread_width_value(&mut rng);
        out.push(v);
        k = k + 1;
    }
    out
}

/// `n` values of bit width 32, from seed 42.
pub fn gen_uniform_width(n: usize) -> (r: Vec<u64>)
    ensures
        r@ == draws(span_step(0x8000_0000, 0xffff_ffff), 42, n as nat),
{
    let mut rng = Xorshift64::new(42);
    let mut out: Vec<u64> = Vec::new();
    let mut k: usize = 0;
    while k < n
        invariant
            k <= n,
            out@ == draws(span_step(0x8000_0000, 0xffff_ffff), 42, k as nat),
            rng.state == state_after(span_step(0x8000_0000, 0xffff_ffff), 42, k as nat),
        decreases n - k,
    {
        let v = rng.range(0x8000_0000, 0xffff_ffff);
        out.push(v);
        k = k + 1;
    }
    out
}

/// The values `1..=n`.
pub fn gen_sequential(n: usize) -> (r: Vec<u64>)
    ensures
        r@ == Seq::new(n as nat, |i: int| (i + 1) as u64),
{
    let mut out: Vec<u64> = Vec::new();
    let mut k: usize = 0;
    while k < n
        invariant
            k <= n,
            out@ == Seq::new(k as nat, |i: int| (i + 1) as u64),
        decreases n - k,
    {
        out.push(k as u64 + 1);
        k = k + 1;
        proof {
            assert(out@ =~= Seq::new(k as nat, |i: int| (i + 1) as u64));
        }
    }
    out
}

/// `n` values drawn from five clusters, from seed 42.
pub fn gen_clustered(n: usize) -> (r: Vec<u64>)
    ensures
        r@ == draws(clustered_step(), 42, n as nat),
{
    let mut rng = Xorshift64::new(42);
    let mut out: Vec<u64> = Vec::new();
    let mut k: usize = 0;
    while k < n
        invariant
            k <= n,
            out@ == draws(clustered_step(), 42, k as nat),
            rng.state == state_after(clustered_step(), 42, k as nat),
        decreases n - k,
    {
        let v = clustered_value(&mut rng);
        out.push(v);
        k = k + 1;
    }
    out
}

/// `count` values of five mixed shapes, from a fixed state.
pub fn high_entropy(count: usize) -> (r: Vec<u64>)
    ensures
        r@ == draws(mixed_shape_step(), 0x9e37_79b9_7f4a_7c15, count as nat),
{
    let mut rng = Xorshift64::with_state(0x9e37_79b9_7f4a_7c15);
    let mut out: Vec<u64> = Vec::new();
    let mut k: usize = 0;
    while k < count
        invariant
            k <= count,
            out@ == draws(mixed_shape_step(), 0x9e37_79b9_7f4a_7c15, k as nat),
            rng.state == state_after(mixed_shape_step(), 0x9e37_79b9_7f4a_7c15, k as nat),
        decreases count - k,
    {
        let v = mixed_shape_value(&mut rng);
        out.push(v);
        k = k + 1;
    }
    out
}

/// `count` values of bit width 32, from a fixed state.
pub fn uniform_width(count: usize) -> (r: Vec<u64>)
    ensures
        r@ == draws(width32_step(), 0xd1b5_4a32_d192_ed03, count as nat),
{
    let mut rng = Xorshift64::with_state(0xd1b5_4a32_d192_ed03);
    let mut out: Vec<u64> = Vec::new();
    let mut k: usize = 0;
    while k < count
        invariant
            k <= count,
            out@ == draws(width32_step(), 0xd1b5_4a32_d192_ed03, k as nat),
            rng.state == state_after(width32_step(), 0xd1b5_4a32_d192_ed03, k as nat),
        decreases count - k,
    {
        let v = 0x8000_0000u64 | (rng.next() & 0x7fff_ffff);
        out.push(v);
        k = k + 1;
    }
    out
}

/// The most lookup targets sampled from a data set.
pub const LOOKUPS: usize = 20_000;

/// How many of `len` values an even sampling with stride `step` visits.
pub open spec fn visits(len: nat, step: nat) -> nat {
    if len == 0 || step == 0 {
        0
    } else {
        ((len - 1) / (step as int) + 1) as nat
    }
}

/// The stride of an even sampling of at most `max_count` of `len` values.
pub open spec fn stride(len: nat, max_count: nat) -> nat {
    if max_count > 0 && len / max_count > 1 {
        len / max_count
    } else {
        1
    }
}

/// How many values that sampling takes.
pub open spec fn sample_count(len: nat, max_count: nat) -> nat {
    let v = visits(len, stride(len, max_count));
    if v < max_count {
        v
    } else {
        max_count
    }
}

/// At most `max_count` values of `data`, evenly spaced from the first: every
/// `max(len / max_count, 1)`-th value.
pub fn sample_every(data: &[u64], max_count: usize) -> (r: Vec<u64>)
    requires
        max_count > 0,
    ensures
        r@ == Seq::new(
            sample_count(data@.len(), max_count as nat),
            |k: int| data@[k * stride(data@.len(), max_count as nat)],
        ),
{
    let len = data.len();
    let q = len / max_count;
    let step = if q > 1 { q } else { 1 };
    let ghost g = Seq::new(
        sample_count(len as nat, max_count as nat),
        |k: int| data@[k * stride(len as nat, max_count as nat)],
    );
    proof {
        assert(step == stride(len as nat, max_count as nat));
    }
    let mut out: Vec<u64> = Vec::new();
    let mut i: usize = 0;
    let mut k: usize = 0;
    while k < max_count && i < len
        invariant
            len == data@.len(),
            step >= 1,
            k <= max_count,
            i <= len,
            i == if k * step < len { k * step } else { len as int },
            k <= visits(len as nat, step as nat),
            k < visits(len as nat, step as nat) ==> i < len,
            out@ == Seq::new(k as nat, |j: int| data@[j * step]),
        decreases max_count - k,
    {
        out.push(data[i]);
        proof {
            assert(k * step < len);
            assert(out@ =~= Seq::new((k + 1) as nat, |j: int| data@[j * step]));
            assert((k + 1) * step == k * step + step) by (nonlinear_arith);
            assert(((len - 1) as int) / (step as int) >= k) by (nonlinear_arith)
                requires
                    k * step < len,
                    step >= 1,
            ;
            if (k + 1) * step < len {
                assert(((len - 1) as int) / (step as int) >= k + 1) by (nonlinear_arith)
                    requires
                        (k + 1) * step < len,
                        step >= 1,
                ;
            } else {
                assert(((len - 1) as int) / (step as int) < k + 1) by (nonlinear_arith)
                    requires
                        (k + 1) * step >= len,
                        len >= 1,
                        step >= 1,
                ;
            }
        }
        if len - i <= step {
            i = len;
        } else {
            i = i + step;
        }
        k = k + 1;
    }
    proof {
        if k < max_count {
            assert(i >= len);
        }
        assert(out@ =~= g);
    }
    out
}

/// Up to `LOOKUPS` evenly spaced lookup targets from `data`.
pub fn sample_targets(data: &[u64]) -> (r: Vec<u64>)
    ensures
        r@ == Seq::new(
            sample_count(data@.len(), LOOKUPS as nat),
            |k: int| data@[k * stride(data@.len(), LOOKUPS as nat)],
        ),
{
    sample_every(data, LOOKUPS)
}

} // verus!
