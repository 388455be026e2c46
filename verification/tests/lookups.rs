use learned_index::FAST;

#[test]
fn u64_small() {
    let keys: Vec<u64> = vec![2, 4, 6, 8];
    let values: Vec<u64> = vec![10, 20, 30, 40];

    let tree = FAST::new(keys, values).unwrap();

    assert_eq!(tree.slow_lookup(0), (0, 10));
    assert_eq!(tree.slow_lookup(1), (0, 10));
    assert_eq!(tree.slow_lookup(2), (10, 20));
    assert_eq!(tree.slow_lookup(3), (10, 20));
    assert_eq!(tree.slow_lookup(4), (20, 30));
    assert_eq!(tree.slow_lookup(5), (20, 30));
    assert_eq!(tree.slow_lookup(6), (30, 40));
    assert_eq!(tree.slow_lookup(7), (30, 40));
    assert_eq!(tree.slow_lookup(8), (40, std::u64::MAX));

    assert_eq!(tree.fast_lookup(0), (0, 10));
    assert_eq!(tree.fast_lookup(1), (0, 10));
    assert_eq!(tree.fast_lookup(2), (10, 20));
    assert_eq!(tree.fast_lookup(3), (10, 20));
    assert_eq!(tree.fast_lookup(4), (20, 30));
    assert_eq!(tree.fast_lookup(5), (20, 30));
    assert_eq!(tree.fast_lookup(6), (30, 40));
    assert_eq!(tree.fast_lookup(7), (30, 40));
    assert_eq!(tree.fast_lookup(8), (40, std::u64::MAX));
}

#[test]
fn u32_small() {
    let keys: Vec<u32> = vec![2, 4, 6, 8];
    let values: Vec<u32> = vec![10, 20, 30, 40];

    let tree = FAST::new(keys, values).unwrap();

    assert_eq!(tree.slow_lookup(0), (0, 10));
    assert_eq!(tree.slow_lookup(1), (0, 10));
    assert_eq!(tree.slow_lookup(2), (10, 20));
    assert_eq!(tree.slow_lookup(3), (10, 20));
    assert_eq!(tree.slow_lookup(4), (20, 30));
    assert_eq!(tree.slow_lookup(5), (20, 30));
    assert_eq!(tree.slow_lookup(6), (30, 40));
    assert_eq!(tree.slow_lookup(7), (30, 40));
    assert_eq!(tree.slow_lookup(8), (40, std::u32::MAX));

    assert_eq!(tree.fast_lookup(0), (0, 10));
    assert_eq!(tree.fast_lookup(1), (0, 10));
    assert_eq!(tree.fast_lookup(2), (10, 20));
    assert_eq!(tree.fast_lookup(3), (10, 20));
    assert_eq!(tree.fast_lookup(4), (20, 30));
    assert_eq!(tree.fast_lookup(5), (20, 30));
    assert_eq!(tree.fast_lookup(6), (30, 40));
    assert_eq!(tree.fast_lookup(7), (30, 40));
    assert_eq!(tree.fast_lookup(8), (40, std::u32::MAX));
}

#[test]
fn u64_precise_lookups() {
    let keys: Vec<u64> = (0..4096).collect();
    let values: Vec<u64> = (0..4096).collect();

    let tree = FAST::new(keys, values).unwrap();

    for i in 0..4095 {
        assert_eq!(tree.slow_lookup(i), (i, i + 1));
        assert_eq!(tree.fast_lookup(i), (i, i + 1));
    }
    assert_eq!(tree.slow_lookup(4095), (4095, std::u64::MAX));
    assert_eq!(tree.fast_lookup(4095), (4095, std::u64::MAX));
}

#[test]
fn u32_precise_lookups() {
    let keys: Vec<u32> = (0..4096).collect();
    let values: Vec<u32> = (0..4096).collect();

    let tree = FAST::new(keys, values).unwrap();

    for i in 0..4095 {
        assert_eq!(tree.slow_lookup(i), (i, i + 1));
        assert_eq!(tree.fast_lookup(i), (i, i + 1));
    }
    assert_eq!(tree.slow_lookup(4095), (4095, std::u32::MAX));
    assert_eq!(tree.fast_lookup(4095), (4095, std::u32::MAX));
}

#[test]
fn u64_imprecise_lookups() {
    let keys: Vec<u64> = (2..8192).step_by(2).collect();
    let values: Vec<u64> = (2..8192).step_by(2).collect();

    let tree = FAST::new(keys, values).unwrap();

    assert_eq!(tree.slow_lookup(0), (0, 2));
    assert_eq!(tree.fast_lookup(0), (0, 2));

    for i in (3..8191).step_by(2) {
        assert_eq!(tree.slow_lookup(i), (i - 1, i + 1));
        assert_eq!(tree.fast_lookup(i), (i - 1, i + 1));
    }

    for i in (2..8190).step_by(2) {
        assert_eq!(tree.slow_lookup(i), (i, i + 2));
        assert_eq!(tree.fast_lookup(i), (i, i + 2));
    }
    assert_eq!(tree.slow_lookup(8190), (8190, std::u64::MAX));
    assert_eq!(tree.fast_lookup(8190), (8190, std::u64::MAX));
}

#[test]
fn u32_imprecise_lookups() {
    let keys: Vec<u32> = (2..8192).step_by(2).collect();
    let values: Vec<u32> = (2..8192).step_by(2).collect();

    let tree = FAST::new(keys, values).unwrap();

    assert_eq!(tree.slow_lookup(0), (0, 2));
    assert_eq!(tree.fast_lookup(0), (0, 2));

    for i in (3..8191).step_by(2) {
        assert_eq!(tree.slow_lookup(i), (i - 1, i + 1));
        assert_eq!(tree.fast_lookup(i), (i - 1, i + 1));
    }

    for i in (2..8190).step_by(2) {
        assert_eq!(tree.slow_lookup(i), (i, i + 2));
        assert_eq!(tree.fast_lookup(i), (i, i + 2));
    }
    assert_eq!(tree.slow_lookup(8190), (8190, std::u32::MAX));
    assert_eq!(tree.fast_lookup(8190), (8190, std::u32::MAX));
}
