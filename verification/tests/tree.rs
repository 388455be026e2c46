use learned_index::shape::required_bytes;
use learned_index::{FastError, FAST};

fn spread(n: u64) -> (Vec<u64>, Vec<u64>) {
    let keys: Vec<u64> = (1..=n).map(|i| 10 * i).collect();
    let values: Vec<u64> = (1..=n).map(|i| 1000 + i).collect();
    (keys, values)
}

#[test]
fn no_tree_over_nothing() {
    let built = FAST::new(Vec::<u64>::new(), Vec::<u64>::new());
    assert!(matches!(built, Err(FastError::DomainViolation)));
}

#[test]
fn no_tree_without_a_value_per_key() {
    let built = FAST::new(vec![1u64, 2, 3], vec![1u64, 2]);
    assert!(matches!(built, Err(FastError::DomainViolation)));
    let built = FAST::new(vec![1u32], vec![1u32, 2]);
    assert!(matches!(built, Err(FastError::DomainViolation)));
    let built = FAST::new(Vec::<u32>::new(), vec![1u32]);
    assert!(matches!(built, Err(FastError::DomainViolation)));
}

#[test]
fn a_single_entry_is_a_tree() {
    let tree = FAST::new(vec![5u64], vec![50u64]).unwrap();
    assert_eq!(tree.slow_lookup(4), (0, 50));
    assert_eq!(tree.slow_lookup(5), (50, std::u64::MAX));
    assert_eq!(tree.slow_lookup(6), (50, std::u64::MAX));
    assert_eq!(tree.fast_lookup(4), (0, 50));
    assert_eq!(tree.fast_lookup(5), (50, std::u64::MAX));
    assert_eq!(tree.depth(), 2);
    assert_eq!(tree.size(), 256);
}

#[test]
fn values_come_back_not_keys() {
    let (keys, values) = spread(40);
    let tree = FAST::new(keys, values).unwrap();
    assert_eq!(tree.slow_lookup(9), (0, 1001));
    for i in 1..40u64 {
        for key in [10 * i, 10 * i + 1, 10 * i + 9] {
            assert_eq!(tree.slow_lookup(key), (1000 + i, 1001 + i));
            assert_eq!(tree.fast_lookup(key), (1000 + i, 1001 + i));
        }
    }
    assert_eq!(tree.slow_lookup(400), (1040, std::u64::MAX));
    assert_eq!(tree.slow_lookup(std::u64::MAX), (1040, std::u64::MAX));
}

#[test]
fn last_key_of_a_page_brackets_into_the_next_page() {
    let (keys, values) = spread(20);
    let tree = FAST::new(keys, values).unwrap();
    // the eighth key closes the first page, the sixteenth the second
    assert_eq!(tree.slow_lookup(80), (1008, 1009));
    assert_eq!(tree.slow_lookup(85), (1008, 1009));
    assert_eq!(tree.slow_lookup(160), (1016, 1017));
    assert_eq!(tree.fast_lookup(80), (1008, 1009));
    assert_eq!(tree.fast_lookup(85), (1008, 1009));
    assert_eq!(tree.fast_lookup(160), (1016, 1017));
}

#[test]
fn both_lookups_agree() {
    let keys: Vec<u32> = (0..3000u32).map(|i| 7 * i + 3).collect();
    let values: Vec<u32> = (0..3000u32).map(|i| 5 * i + 1).collect();
    let tree = FAST::new(keys, values).unwrap();
    for key in 0..21100u32 {
        assert_eq!(tree.slow_lookup(key), tree.fast_lookup(key));
    }
    assert_eq!(tree.slow_lookup(std::u32::MAX), tree.fast_lookup(std::u32::MAX));
    assert_eq!(tree.slow_lookup(3), (1, 6));
    assert_eq!(tree.slow_lookup(2), (0, 1));
    assert_eq!(tree.slow_lookup(7 * 2999 + 3), (5 * 2999 + 1, std::u32::MAX));
}

#[test]
fn equal_keys_within_a_page_give_the_last_of_them() {
    let tree = FAST::new(vec![1u64, 2, 2, 2, 3], vec![10u64, 20, 30, 40, 50]).unwrap();
    assert_eq!(tree.slow_lookup(2), (40, 50));
    assert_eq!(tree.fast_lookup(2), (40, 50));
    assert_eq!(tree.slow_lookup(1), (10, 20));
}

#[test]
fn equal_keys_across_pages_stay_in_the_first_page() {
    let keys: Vec<u64> = vec![1, 2, 3, 4, 5, 6, 7, 9, 9, 9, 10, 11];
    let values: Vec<u64> = vec![10, 20, 30, 40, 50, 60, 70, 80, 90, 100, 110, 120];
    let tree = FAST::new(keys, values).unwrap();
    assert_eq!(tree.slow_lookup(9), (80, 90));
    assert_eq!(tree.fast_lookup(9), (80, 90));
    assert_eq!(tree.slow_lookup(8), (70, 80));
    assert_eq!(tree.slow_lookup(10), (110, 120));
}

#[test]
fn largest_key_may_be_stored() {
    let top = std::u32::MAX;
    let tree = FAST::new(vec![1u32, top], vec![7u32, 8]).unwrap();
    assert_eq!(tree.slow_lookup(0), (0, 7));
    assert_eq!(tree.slow_lookup(1), (7, 8));
    assert_eq!(tree.slow_lookup(top - 1), (7, 8));
    assert_eq!(tree.slow_lookup(top), (8, top));
    assert_eq!(tree.fast_lookup(top - 1), (7, 8));
}

#[test]
fn depth_and_size_follow_the_number_of_entries() {
    let tree = FAST::new(vec![2u64, 4, 6, 8], vec![10u64, 20, 30, 40]).unwrap();
    assert_eq!(tree.depth(), 2);
    assert_eq!(tree.size(), 256);

    let keys: Vec<u64> = (0..4096).collect();
    let tree = FAST::new(keys.clone(), keys).unwrap();
    assert_eq!(tree.depth(), 4);
    assert_eq!(tree.size(), 128 * (512 + 64 + 8 + 1));

    let keys: Vec<u32> = (0..4096).collect();
    let tree = FAST::new(keys.clone(), keys).unwrap();
    assert_eq!(tree.depth(), 3);
    assert_eq!(tree.size(), 128 * (256 + 16 + 1));

    let keys: Vec<u64> = (0..65).collect();
    let tree = FAST::new(keys.clone(), keys).unwrap();
    assert_eq!(tree.depth(), 3);
    assert_eq!(tree.size(), 128 * (9 + 2 + 1));
}

#[test]
fn queries_outside_the_keys_need_no_descent() {
    let tree = FAST::new(vec![2u64, 4, 6, 8], vec![10u64, 20, 30, 40]).unwrap();
    assert_eq!(tree.out_of_range(0), Some((0, 10)));
    assert_eq!(tree.out_of_range(1), Some((0, 10)));
    assert_eq!(tree.out_of_range(2), None);
    assert_eq!(tree.out_of_range(7), None);
    assert_eq!(tree.out_of_range(8), Some((40, std::u64::MAX)));
    assert_eq!(tree.out_of_range(9), Some((40, std::u64::MAX)));
}

#[test]
fn layers_are_laid_out_in_pages() {
    let top = std::u64::MAX;
    let tree = FAST::new(vec![2u64, 4, 6, 8], vec![10u64, 20, 30, 40]).unwrap();
    assert_eq!(
        tree.leaf_layer(),
        &vec![2, 4, 6, 8, top, top, top, top, 10, 20, 30, 40, 0, 0, 0, 0]
    );
    assert_eq!(
        tree.internal_layers(),
        &vec![vec![top, top, top, top, top, top, top, top, 0, 0, 0, 0, 0, 0, 0, 0]]
    );

    let keys: Vec<u64> = (1..=70).collect();
    let tree = FAST::new(keys.clone(), keys).unwrap();
    let layers = tree.internal_layers();
    assert_eq!(layers.len(), 2);
    assert_eq!(
        layers[0],
        vec![64, top, top, top, top, top, top, top, 0, 16, 0, 0, 0, 0, 0, 0]
    );
    assert_eq!(layers[1].len(), 32);
    assert_eq!(&layers[1][0..8], &[8, 16, 24, 32, 40, 48, 56, 64]);
    assert_eq!(&layers[1][8..16], &[0, 16, 32, 48, 64, 80, 96, 112]);
    assert_eq!(&layers[1][16..24], &[top, top, top, top, top, top, top, top]);
    assert_eq!(&layers[1][24..32], &[128, 0, 0, 0, 0, 0, 0, 0]);
    assert_eq!(tree.leaf_layer().len(), 144);
}

#[test]
fn lookups_leave_the_tree_as_it_is() {
    let keys: Vec<u64> = (1..=70).collect();
    let tree = FAST::new(keys.clone(), keys).unwrap();
    let leaf = tree.leaf_layer().clone();
    let index = tree.internal_layers().clone();
    for key in 0..80u64 {
        tree.slow_lookup(key);
        tree.fast_lookup(key);
    }
    assert_eq!(tree.leaf_layer(), &leaf);
    assert_eq!(tree.internal_layers(), &index);
}

#[test]
fn size_is_known_before_building() {
    assert_eq!(required_bytes::<u64>(4), Some(256));
    assert_eq!(required_bytes::<u64>(8), Some(256));
    assert_eq!(required_bytes::<u64>(9), Some(128 * (2 + 1)));
    assert_eq!(required_bytes::<u64>(65), Some(128 * (9 + 2 + 1)));
    assert_eq!(required_bytes::<u64>(4096), Some(128 * (512 + 64 + 8 + 1)));
    assert_eq!(required_bytes::<u32>(4096), Some(128 * (256 + 16 + 1)));
    assert_eq!(required_bytes::<u32>(usize::MAX), None);
    assert_eq!(required_bytes::<u64>(usize::MAX / 8), None);

    let keys: Vec<u32> = (0..1000).collect();
    let tree = FAST::new(keys.clone(), keys).unwrap();
    assert_eq!(Some(tree.size()), required_bytes::<u32>(1000));
}
