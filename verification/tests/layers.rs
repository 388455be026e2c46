use learned_index::layers::{build_internal_layer, build_leaf_layer, layout};
use learned_index::search::{count_greater, count_greater_eq, first_above, first_not_below, is_sorted};
use learned_index::FastKey;

const TOP: u64 = std::u64::MAX;

#[test]
fn layout_pads_a_short_page() {
    let page = layout(vec![1u64, 2, 3], vec![7u64, 8, 9]);
    assert_eq!(
        page,
        vec![1, 2, 3, TOP, TOP, TOP, TOP, TOP, 7, 8, 9, 0, 0, 0, 0, 0]
    );
}

#[test]
fn layout_of_nothing_is_empty() {
    let page = layout(Vec::<u64>::new(), Vec::<u64>::new());
    assert_eq!(page, Vec::<u64>::new());
}

#[test]
fn layout_fills_whole_pages() {
    let keys: Vec<u64> = (1..=9).collect();
    let values: Vec<u64> = (101..=109).collect();
    let pages = layout(keys, values);
    assert_eq!(pages.len(), 32);
    assert_eq!(&pages[0..8], &[1, 2, 3, 4, 5, 6, 7, 8]);
    assert_eq!(&pages[8..16], &[101, 102, 103, 104, 105, 106, 107, 108]);
    assert_eq!(&pages[16..24], &[9, TOP, TOP, TOP, TOP, TOP, TOP, TOP]);
    assert_eq!(&pages[24..32], &[109, 0, 0, 0, 0, 0, 0, 0]);
}

#[test]
fn layout_stops_with_the_shorter_side() {
    let left: Vec<u64> = (1..=10).collect();
    let pages = layout(left, vec![7u64, 8, 9]);
    assert_eq!(
        pages,
        vec![1, 2, 3, 4, 5, 6, 7, 8, 7, 8, 9, 0, 0, 0, 0, 0]
    );
}

#[test]
fn layout_of_u32_has_sixteen_keys_to_a_run() {
    let pages = layout(vec![5u32], vec![6u32]);
    assert_eq!(pages.len(), 32);
    assert_eq!(pages[0], 5);
    assert_eq!(pages[1], std::u32::MAX);
    assert_eq!(pages[15], std::u32::MAX);
    assert_eq!(pages[16], 6);
    assert_eq!(pages[17], 0);
    assert_eq!(pages[31], 0);
}

#[test]
fn leaf_layer_is_the_layout_of_keys_and_values() {
    let leaf = build_leaf_layer(vec![2u64, 4, 6, 8], vec![10u64, 20, 30, 40]);
    assert_eq!(
        leaf,
        vec![2, 4, 6, 8, TOP, TOP, TOP, TOP, 10, 20, 30, 40, 0, 0, 0, 0]
    );
}

#[test]
fn internal_layer_holds_last_keys_and_offsets() {
    let keys: Vec<u64> = (1..=17).collect();
    let values: Vec<u64> = (101..=117).collect();
    let leaf = build_leaf_layer(keys, values);
    assert_eq!(leaf.len(), 48);
    let index = build_internal_layer(&leaf).unwrap();
    assert_eq!(
        index,
        vec![8, 16, TOP, TOP, TOP, TOP, TOP, TOP, 0, 16, 32, 0, 0, 0, 0, 0]
    );
}

#[test]
fn internal_layer_of_nothing_is_empty() {
    let index = build_internal_layer(&Vec::<u32>::new()).unwrap();
    assert_eq!(index, Vec::<u32>::new());
}

#[test]
fn offsets_are_keys_only_up_to_the_largest_key() {
    assert_eq!(<u32 as FastKey>::from_offset(0), Some(0u32));
    assert_eq!(
        <u32 as FastKey>::from_offset(4294967295),
        Some(std::u32::MAX)
    );
    assert_eq!(<u64 as FastKey>::from_offset(4294967295), Some(4294967295u64));
    assert_eq!(<u64 as FastKey>::from_offset(usize::MAX), Some(usize::MAX as u64));
    if usize::BITS > 32 {
        let beyond = (std::u32::MAX as usize) + 1;
        assert_eq!(<u32 as FastKey>::from_offset(beyond), None);
    }
}

#[test]
fn key_types_fill_a_cache_line() {
    assert_eq!(<u64 as FastKey>::run_len() * <u64 as FastKey>::byte_width(), 64);
    assert_eq!(<u32 as FastKey>::run_len() * <u32 as FastKey>::byte_width(), 64);
    assert_eq!(<u64 as FastKey>::run_len(), 8);
    assert_eq!(<u32 as FastKey>::run_len(), 16);
    assert_eq!(<u64 as FastKey>::largest(), std::u64::MAX);
    assert_eq!(<u32 as FastKey>::largest(), std::u32::MAX);
    assert_eq!(<u64 as FastKey>::zero(), 0);
    assert_eq!(<u32 as FastKey>::zero(), 0);
    assert!(3u64.below(4));
    assert!(!4u64.below(4));
    assert_eq!(77u64.to_offset(), 77usize);
    assert_eq!(77u32.to_offset(), 77usize);
}

#[test]
fn counts_do_not_need_sorted_data() {
    let data: Vec<u64> = vec![9, 1, 5, 5, 3, 12];
    assert_eq!(count_greater(&data, 5), 2);
    assert_eq!(count_greater_eq(&data, 5), 4);
    assert_eq!(count_greater(&data, 0), 0);
    assert_eq!(count_greater_eq(&data, 0), 0);
    assert_eq!(count_greater(&data, 13), 6);
    assert_eq!(count_greater_eq(&data, 12), 6);
    assert_eq!(count_greater(&Vec::<u64>::new(), 5), 0);
}

#[test]
fn halving_counts_as_counting_does() {
    let data: Vec<u32> = vec![1, 3, 3, 3, 7, 9, 9, 20];
    for key in 0..25u32 {
        assert_eq!(first_not_below(&data, key), count_greater(&data, key));
        assert_eq!(first_above(&data, key), count_greater_eq(&data, key));
    }
    assert_eq!(first_not_below(&data, 3), 1);
    assert_eq!(first_above(&data, 3), 4);
    assert_eq!(first_not_below(&Vec::<u32>::new(), 3), 0);
    assert_eq!(first_above(&Vec::<u32>::new(), 3), 0);
}

#[test]
fn sortedness_allows_equal_neighbours() {
    assert!(is_sorted(&Vec::<u64>::new()));
    assert!(is_sorted(&vec![4u64]));
    assert!(is_sorted(&vec![1u64, 2, 2, 3]));
    assert!(!is_sorted(&vec![1u64, 3, 2]));
    assert!(!is_sorted(&vec![2u32, 1]));
}
