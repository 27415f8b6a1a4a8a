use bwspi::simd_search::simd_contains;
use bwspi::Bwspi;

#[test]
fn simd_matches_scalar_correctness() {
    let mut b = Bwspi::new();
    for i in 0..10_000u64 {
        b.insert(i);
    }

    // Every hit must agree
    for i in 0..10_000u64 {
        assert_eq!(simd_contains(&b, i), b.contains(i),
            "mismatch for value {}", i);
    }

    // Misses
    assert!(!simd_contains(&b, 99_999));
    assert!(!simd_contains(&b, u64::MAX));
}

#[test]
fn simd_empty_index() {
    let b = Bwspi::new();
    assert!(!simd_contains(&b, 0));
    assert!(!simd_contains(&b, 42));
    assert!(!simd_contains(&b, u64::MAX));
}

#[test]
fn simd_single_element() {
    let mut b = Bwspi::new();
    b.insert(42);
    assert!(simd_contains(&b, 42));
    assert!(!simd_contains(&b, 43));
}

#[test]
fn simd_tail_elements_not_multiple_of_4() {
    let mut b = Bwspi::new();
    // All bit-width 7 (64..127) — bucket has 3 elements (pure tail, no SIMD chunk)
    b.insert(65);
    b.insert(66);
    b.insert(67);

    assert!(simd_contains(&b, 65));
    assert!(simd_contains(&b, 66));
    assert!(simd_contains(&b, 67));
    assert!(!simd_contains(&b, 68));
}

#[test]
fn simd_exact_chunk_boundary() {
    let mut b = Bwspi::new();
    // Exactly 4 values with same bit-width (bw=7: 64..127)
    b.insert(64);
    b.insert(65);
    b.insert(66);
    b.insert(67);

    assert!(simd_contains(&b, 64));
    assert!(simd_contains(&b, 67));
    assert!(!simd_contains(&b, 63)); // bw=6, different bucket entirely
}

#[test]
fn simd_large_bucket_stress() {
    let mut b = Bwspi::new();
    // 1000 values all same bit-width (32-bit) — many SIMD chunks
    for i in (1u64 << 31)..((1u64 << 31) + 1000) {
        b.insert(i);
    }

    assert!(simd_contains(&b, 1u64 << 31));
    assert!(simd_contains(&b, (1u64 << 31) + 999));
    assert!(!simd_contains(&b, (1u64 << 31) + 1000));
}
