use bwspi::bit_width;
use bwspi::telemetry::{
    cache_level_summary, filetime_nanos, parse_cache_records, CacheInfo, HeapSnap,
    ProcessSnapshot,
};
use bwspi::workloads::{
    gen_clustered, gen_high_entropy, gen_sequential, gen_uniform_width, high_entropy,
    sample_every, sample_targets, uniform_width, Xorshift64, LOOKUPS,
};

#[test]
fn xorshift_steps_match_known_values() {
    let mut rng = Xorshift64::new(1);
    assert_eq!(rng.next(), 1_082_269_761);
    let mut rng = Xorshift64::new(42);
    assert_eq!(rng.next(), 45_454_805_674);
    assert_eq!(rng.next(), 11_532_217_803_599_905_471);
    assert_eq!(Xorshift64::new(0).state, 1);
    assert_eq!(Xorshift64::with_state(0).state, 0);
    let mut rng = Xorshift64::new(7);
    for _ in 0..100 {
        let v = rng.range(10, 20);
        assert!((10..=20).contains(&v));
    }
}

#[test]
fn generators_have_their_shapes() {
    assert_eq!(gen_sequential(4), vec![1, 2, 3, 4]);
    assert!(gen_sequential(0).is_empty());
    assert_eq!(gen_uniform_width(3), vec![2_505_132_714, 4_160_881_343, 3_520_153_978]);
    assert_eq!(uniform_width(3), vec![3_709_397_017, 2_475_294_601, 3_461_099_062]);
    assert!(gen_uniform_width(500).iter().all(|&v| bit_width(v) == 32));
    assert!(uniform_width(500).iter().all(|&v| bit_width(v) == 32));
    let clustered = gen_clustered(500);
    assert_eq!(clustered.len(), 500);
    let clusters = [
        (100u64, 200u64),
        (10_000, 20_000),
        (1_000_000, 2_000_000),
        (1 << 40, (1 << 40) + 100_000),
        (1 << 60, (1 << 60) + 100_000),
    ];
    assert!(clustered.iter().all(|&v| clusters.iter().any(|&(lo, hi)| lo <= v && v <= hi)));
    let spread = gen_high_entropy(2_000);
    assert_eq!(spread.len(), 2_000);
    assert_eq!(spread, gen_high_entropy(2_000));
    assert!(spread.iter().any(|&v| bit_width(v) < 16));
    assert!(spread.iter().any(|&v| bit_width(v) > 48));
    let mixed = high_entropy(1_000);
    for width in [21, 41, 64] {
        assert!(mixed.iter().any(|&v| bit_width(v) == width));
    }
    assert!(mixed.iter().any(|&v| bit_width(v) <= 8));
    assert_eq!(mixed, high_entropy(1_000));
}

#[test]
fn sampling_takes_evenly_spaced_targets() {
    let data: Vec<u64> = (0..10u64).collect();
    assert_eq!(sample_every(&data, 3), vec![0, 3, 6]);
    assert_eq!(sample_every(&data, 20), data);
    assert_eq!(sample_every(&data, 4), vec![0, 2, 4, 6]);
    assert!(sample_every(&[], 5).is_empty());
    let big: Vec<u64> = (0..50_000u64).collect();
    let targets = sample_targets(&big);
    assert_eq!(targets.len(), LOOKUPS);
    assert_eq!(targets[1], 2);
    let small: Vec<u64> = (0..100u64).collect();
    assert_eq!(sample_targets(&small), small);
}

#[test]
fn counters_subtract_with_saturation() {
    let before = HeapSnap { alloc_bytes: 100, alloc_count: 3, dealloc_bytes: 40 };
    let after = HeapSnap { alloc_bytes: 180, alloc_count: 5, dealloc_bytes: 50 };
    assert_eq!(before.live_bytes_since(&after), 70);
    assert_eq!(before.allocs_since(&after), 2);
    assert_eq!(after.live_bytes_since(&before), 0);
    assert_eq!(after.allocs_since(&before), 0);
    let grown = ProcessSnapshot { cpu_nanos: 5, working_set: 4_096 };
    let start = ProcessSnapshot { cpu_nanos: 1, working_set: 1_024 };
    assert_eq!(grown.working_set_delta(start), 3_072);
    assert_eq!(start.working_set_delta(grown), -3_072);
}

#[test]
fn working_set_delta_wraps_like_isize() {
    let huge = ProcessSnapshot { cpu_nanos: 0, working_set: usize::MAX };
    let none = ProcessSnapshot { cpu_nanos: 0, working_set: 0 };
    assert_eq!(huge.working_set_delta(none), -1);
    assert_eq!(none.working_set_delta(huge), 1);
}

#[test]
fn filetimes_scale_to_nanoseconds() {
    assert_eq!(filetime_nanos(0, 0), 0);
    assert_eq!(filetime_nanos(7, 0), 700);
    assert_eq!(filetime_nanos(0, 1), 429_496_729_600);
    assert_eq!(filetime_nanos(u32::MAX, u32::MAX), u64::MAX);
}

fn record(tag: u32, body: &[u8]) -> Vec<u8> {
    let mut out = tag.to_le_bytes().to_vec();
    out.extend_from_slice(&((8 + body.len()) as u32).to_le_bytes());
    out.extend_from_slice(body);
    out
}

fn cache_body(level: u8, line: u16, size: u32) -> Vec<u8> {
    let mut body = vec![level, 8];
    body.extend_from_slice(&line.to_le_bytes());
    body.extend_from_slice(&size.to_le_bytes());
    body.extend_from_slice(&[0u8; 24]);
    body
}

#[test]
fn cache_records_are_parsed_and_summarised() {
    let mut buf = record(2, &cache_body(1, 64, 32_768));
    buf.extend(record(7, &[0u8; 12]));
    buf.extend(record(2, &cache_body(2, 64, 1 << 20)));
    buf.extend(record(2, &cache_body(1, 128, 49_152)));
    buf.extend(record(2, &[1, 2, 3]));
    let caches = parse_cache_records(&buf, buf.len(), 32);
    assert_eq!(caches.len(), 3);
    assert_eq!((caches[0].level, caches[0].line_size, caches[0].size), (1, 64, 32_768));
    assert_eq!((caches[1].level, caches[1].size), (2, 1 << 20));
    assert_eq!(cache_level_summary(&caches, 1), Some((2, 32_768 + 49_152, 64)));
    assert_eq!(cache_level_summary(&caches, 2), Some((1, 1 << 20, 64)));
    assert_eq!(cache_level_summary(&caches, 3), None);
    let truncated = parse_cache_records(&buf, 20, 32);
    assert!(truncated.is_empty());
    let mut broken = record(2, &cache_body(3, 64, 1));
    broken.extend_from_slice(&2u32.to_le_bytes());
    broken.extend_from_slice(&4u32.to_le_bytes());
    let caches: Vec<CacheInfo> = parse_cache_records(&broken, broken.len(), 32);
    assert_eq!(caches.len(), 1);
    assert_eq!(caches[0].level, 3);
}
