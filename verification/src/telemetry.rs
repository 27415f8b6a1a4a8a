//! Process telemetry arithmetic: heap and working-set counters, Windows file
//! times, and the processor-cache records the operating system reports.

use vstd::prelude::*;

verus! {

/// Heap counters read at one moment: bytes allocated, allocations made and
/// bytes freed since the process started.
#[derive(Clone, Copy)]
pub struct HeapSnap {
    pub alloc_bytes: usize,
    pub alloc_count: usize,
    pub dealloc_bytes: usize,
}

impl HeapSnap {
    /// The bytes allocated and not freed between `self` and `after`, each
    /// difference saturating at 0.
    pub fn live_bytes_since(&self, after: &HeapSnap) -> (r: usize)
        ensures
            r == sat_sub(
                sat_sub(after.alloc_bytes as int, self.alloc_bytes as int),
                sat_sub(after.dealloc_bytes as int, self.dealloc_bytes as int),
            ),
    {
        let allocated = after.alloc_bytes.saturating_sub(self.alloc_bytes);
        let freed = after.dealloc_bytes.saturating_sub(self.dealloc_bytes);
        allocated.saturating_sub(freed)
    }

    /// The allocations made between `self` and `after`, saturating at 0.
    pub fn allocs_since(&self, after: &HeapSnap) -> (r: usize)
        ensures
            r == sat_sub(after.alloc_count as int, self.alloc_count as int),
    {
        after.alloc_count.saturating_sub(self.alloc_count)
    }
}

/// `a - b`, or 0 when that is negative.
pub open spec fn sat_sub(a: int, b: int) -> int {
    if a < b {
        0
    } else {
        a - b
    }
}

/// Process counters read at one moment: CPU time used, in nanoseconds, and
/// working-set size, in bytes.
#[derive(Clone, Copy)]
pub struct ProcessSnapshot {
    pub cpu_nanos: u128,
    pub working_set: usize,
}

impl ProcessSnapshot {
    /// How much the working set grew (negative: shrank) since `before`: the
    /// difference of the two sizes taken as `isize`, wrapping on overflow.
    pub fn working_set_delta(self, before: Self) -> (r: isize)
        ensures
            r == (self.working_set as isize).wrapping_sub(before.working_set as isize),
            self.working_set <= isize::MAX && before.working_set <= isize::MAX ==> r
                == self.working_set - before.working_set,
    {
        (self.working_set as isize).wrapping_sub(before.working_set as isize)
    }
}

/// A Windows file time in nanoseconds: the 100-ns ticks `high:low`, times
/// 100, saturating at `u64::MAX`.
pub fn filetime_nanos(low: u32, high: u32) -> (r: u64)
    ensures
        r == if (high as int * 0x1_0000_0000 + low as int) * 100 > u64::MAX {
            u64::MAX as int
        } else {
            (high as int * 0x1_0000_0000 + low as int) * 100
        },
{
    let ticks = ((high as u64) << 32u64) | (low as u64);
    assert(((high as u64) << 32u64) | (low as u64) == high as u64 * 0x1_0000_0000u64 + low as u64)
        by (bit_vector);
    match ticks.checked_mul(100) {
        Some(n) => n,
        None => u64::MAX,
    }
}

/// The relationship tag of processor-cache records.
pub const RELATION_CACHE: u32 = 2;

/// The size of a record header: relationship tag and record size, each a
/// little-endian `u32`.
pub const RECORD_HEADER_SIZE: usize = 8;

/// A processor cache as a record reports it.
#[derive(Clone, Copy)]
pub struct CacheInfo {
    pub level: u8,
    pub size: u32,
    pub line_size: u16,
}

/// The little-endian `u32` at `i`.
pub open spec fn le_u32(b: Seq<u8>, i: int) -> u32 {
    (b[i] as int + 0x100 * b[i + 1] as int + 0x1_0000 * b[i + 2] as int + 0x100_0000 * b[i + 3] as int) as u32
}

/// The little-endian `u16` at `i`.
pub open spec fn le_u16(b: Seq<u8>, i: int) -> u16 {
    (b[i] as int + 0x100 * b[i + 1] as int) as u16
}

/// The caches reported by the records from `offset` on among the first
/// `length` bytes. A record is a header (tag, size) followed by its body;
/// the walk stops at a record too short for its header or running past
/// `length`. A cache record (tag `RELATION_CACHE`, body at least
/// `cache_body` bytes) starts its body with the level (`u8`), the
/// associativity (`u8`), the line size (`u16`) and the size (`u32`).
pub open spec fn cache_records(b: Seq<u8>, length: int, cache_body: int, offset: int) -> Seq<CacheInfo>
    decreases length - offset,
{
    if offset < 0 || offset + 8 > length {
        Seq::empty()
    } else {
        let tag = le_u32(b, offset);
        let size = le_u32(b, offset + 4) as int;
        if size <= 8 || offset + size > length {
            Seq::empty()
        } else {
            let here = if tag == RELATION_CACHE && size >= 8 + cache_body {
                seq![
                    CacheInfo {
                        level: b[offset + 8],
                        size: le_u32(b, offset + 12),
                        line_size: le_u16(b, offset + 10),
                    },
                ]
            } else {
                Seq::empty()
            };
            here + cache_records(b, length, cache_body, offset + size)
        }
    }
}

fn read_le_u32(b: &[u8], i: usize) -> (r: u32)
    requires
        i + 4 <= b@.len(),
    ensures
        r == le_u32(b@, i as int),
{
    let (b0, b1, b2, b3) = (b[i] as u32, b[i + 1] as u32, b[i + 2] as u32, b[i + 3] as u32);
    assert(b0 | (b1 << 8u32) | (b2 << 16u32) | (b3 << 24u32) == b0 + 0x100 * b1 + 0x1_0000 * b2
        + 0x100_0000 * b3) by (bit_vector)
        requires
            b0 < 0x100,
            b1 < 0x100,
            b2 < 0x100,
            b3 < 0x100,
    ;
    b0 | (b1 << 8u32) | (b2 << 16u32) | (b3 << 24u32)
}

fn read_le_u16(b: &[u8], i: usize) -> (r: u16)
    requires
        i + 2 <= b@.len(),
    ensures
        r == le_u16(b@, i as int),
{
    let (b0, b1) = (b[i] as u16, b[i + 1] as u16);
    assert(b0 | (b1 << 8u16) == b0 + 0x100 * b1) by (bit_vector)
        requires
            b0 < 0x100,
            b1 < 0x100,
    ;
    b0 | (b1 << 8u16)
}

/// The caches reported by the records in the first `length` bytes of `buf`
/// (see `cache_records`); `cache_body` is the size of a cache record's body.
pub fn parse_cache_records(buf: &[u8], length: usize, cache_body: usize) -> (r: Vec<CacheInfo>)
    requires
        length <= buf@.len(),
        cache_body >= 8,
    ensures
        r@ == cache_records(buf@, length as int, cache_body as int, 0),
{
    let mut offset: usize = 0;
    let mut result: Vec<CacheInfo> = Vec::new();
    while offset < length && length - offset >= RECORD_HEADER_SIZE
        invariant
            length <= buf@.len(),
            cache_body >= 8,
            offset <= length,
            result@ + cache_records(buf@, length as int, cache_body as int, offset as int)
                == cache_records(buf@, length as int, cache_body as int, 0),
        ensures
            result@ == cache_records(buf@, length as int, cache_body as int, 0),
        decreases length - offset,
    {
        let tag = read_le_u32(buf, offset);
        let size = read_le_u32(buf, offset + 4) as usize;
        let ghost rest = cache_records(buf@, length as int, cache_body as int, offset as int);
        if size <= RECORD_HEADER_SIZE || size > length - offset {
            proof {
                assert(rest =~= Seq::<CacheInfo>::empty());
                assert(result@ + rest =~= result@);
            }
            break;
        }
        let ghost before = result@;
        if tag == RELATION_CACHE && size - RECORD_HEADER_SIZE >= cache_body {
            let body = offset + RECORD_HEADER_SIZE;
            result.push(
                CacheInfo {
                    level: buf[body],
                    size: read_le_u32(buf, body + 4),
                    line_size: read_le_u16(buf, body + 2),
                },
            );
        }
        proof {
            let next = cache_records(buf@, length as int, cache_body as int, offset + size);
            if tag == RELATION_CACHE && size - RECORD_HEADER_SIZE >= cache_body {
                assert(rest == seq![result@.last()] + next);
                assert(before + rest =~= result@ + next);
            } else {
                assert(rest =~= next);
            }
        }
        offset = offset + size;
    }
    result
}

/// The caches of level `level`, in order.
pub open spec fn caches_at(caches: Seq<CacheInfo>, level: u8) -> Seq<CacheInfo>
    decreases caches.len(),
{
    if caches.len() == 0 {
        Seq::empty()
    } else {
        caches_at(caches.drop_last(), level) + if caches.last().level == level {
            seq![caches.last()]
        } else {
            Seq::empty()
        }
    }
}

/// The sum of the sizes of `caches`.
pub open spec fn total_size(caches: Seq<CacheInfo>) -> int
    decreases caches.len(),
{
    if caches.len() == 0 {
        0
    } else {
        total_size(caches.drop_last()) + caches.last().size
    }
}

/// For the caches of level `level`: how many there are, their total size,
/// and the line size of the first; `None` when there are none.
pub fn cache_level_summary(caches: &[CacheInfo], level: u8) -> (r: Option<(usize, u64, u16)>)
    requires
        caches@.len() <= 0x1_0000_0000,
    ensures
        match r {
            None => caches_at(caches@, level).len() == 0,
            Some((count, total, line)) => {
                &&& count == caches_at(caches@, level).len()
                &&& total == total_size(caches_at(caches@, level))
                &&& count > 0
                &&& line == caches_at(caches@, level)[0].line_size
            },
        },
{
    let mut count: usize = 0;
    let mut total: u64 = 0;
    let mut line: u16 = 0;
    let mut i: usize = 0;
    while i < caches.len()
        invariant
            i <= caches@.len(),
            caches@.len() <= 0x1_0000_0000,
            count == caches_at(caches@.take(i as int), level).len(),
            total == total_size(caches_at(caches@.take(i as int), level)),
            count <= i,
            total <= i * 0xffff_ffff,
            count > 0 ==> line == caches_at(caches@.take(i as int), level)[0].line_size,
        decreases caches@.len() - i,
    {
        let c = caches[i];
        proof {
            let t = caches@.take(i + 1);
            assert(t.drop_last() =~= caches@.take(i as int));
            assert(t.last() == c);
            assert(t =~= caches@.take(i as int).push(c));
        }
        if c.level == level {
            if count == 0 {
                line = c.line_size;
            }
            assert(total + c.size <= (i + 1) * 0xffff_ffff) by (nonlinear_arith)
                requires
                    total <= i * 0xffff_ffff,
                    c.size <= 0xffff_ffff,
            ;
            total = total + c.size as u64;
            count = count + 1;
            proof {
                let f = caches_at(caches@.take(i as int), level);
                assert(caches_at(caches@.take(i + 1), level) == f.push(c));
                assert(f.push(c).drop_last() =~= f);
                if f.len() > 0 {
                    assert(f.push(c)[0] == f[0]);
                }
            }
        } else {
            proof {
                assert(caches_at(caches@.take(i + 1), level) == caches_at(caches@.take(i as int), level));
            }
            assert(total <= (i + 1) * 0xffff_ffff) by (nonlinear_arith)
                requires
                    total <= i * 0xffff_ffff,
            ;
        }
        i = i + 1;
    }
    proof {
        assert(caches@.take(i as int) =~= caches@);
    }
    if count == 0 {
        None
    } else {
        Some((count, total, line))
    }
}

} // verus!
