use rsmdl::filters::filtering::{binary_search, get_good_values, get_indices, UsizeArray};
use rsmdl::filters::weights::Weights;

fn array(values: Vec<usize>) -> UsizeArray {
    UsizeArray::new(values)
}

/// Test the mask is created correctly for one filter.
#[test]
fn test_good_values_one_filter() {
    let f_start = vec![1];
    let f_end = vec![2];
    let start_index = array(vec![0, 30, 50, 64]);
    let array_len = 64;

    let weights = get_good_values(f_start, f_end, start_index, array_len, true);

    // expected is 1s between index 30 and 50
    assert_eq!(weights, Weights::from_raw(vec![1125898833100800]))
}

/// Test the mask is created correctly for multiple filters.
#[test]
fn test_good_values_two_filters() {
    let f_start = vec![1, 4];
    let f_end = vec![2, 6];
    let start_index = array(vec![0, 10, 20, 30, 40, 50, 64]);
    let array_len = 64;

    let weights = get_good_values(f_start, f_end, start_index, array_len, true);

    // expected is 1s between indices 10-20 and 40-64
    assert_eq!(weights, Weights::from_raw(vec![18446742974198971392]))
}

#[test]
fn good_values_to_exclude_clear_the_filtered_ranges() {
    let weights = get_good_values(vec![1], vec![2], array(vec![0, 30, 50, 64]), 64, false);
    assert_eq!(weights, Weights::from_raw(vec![!1125898833100800u64]));
}

#[test]
fn good_values_without_filters_are_uniform() {
    let keep = get_good_values(vec![], vec![], array(vec![0, 64]), 128, true);
    assert_eq!(*keep.raw_weights(), vec![0, 0]);
    let drop = get_good_values(vec![], vec![], array(vec![0, 64]), 128, false);
    assert_eq!(*drop.raw_weights(), vec![u64::MAX, u64::MAX]);
}

#[test]
fn good_values_use_the_shorter_list_of_bounds() {
    // the third lower bound has no upper bound and is not applied
    let weights = get_good_values(vec![0, 2, 1], vec![1, 3], array(vec![0, 5, 10, 20]), 64, true);
    assert_eq!(*weights.raw_weights(), vec![0b11111 | (0b1111111111 << 10)]);
}

#[test]
fn binary_search_finds_exact_values() {
    let a = array(vec![0, 10, 20, 30, 40]);
    assert_eq!(binary_search(&a, 0, 5, 20), Ok(2));
    assert_eq!(binary_search(&a, 0, 5, 30), Ok(3));
}

#[test]
fn binary_search_finds_the_left_bound() {
    let a = array(vec![0, 10, 20, 30, 40]);
    assert_eq!(binary_search(&a, 0, 5, 25), Ok(2));
    assert_eq!(binary_search(&a, 0, 5, 45), Ok(4));
    assert_eq!(binary_search(&a, 0, 5, 5), Ok(0));
    // a target below every value gives the first index
    let b = array(vec![7, 8, 9]);
    assert_eq!(binary_search(&b, 0, 3, 1), Ok(0));
}

#[test]
fn binary_search_on_an_empty_range_checks_the_one_value() {
    let a = array(vec![0, 10, 20]);
    assert_eq!(binary_search(&a, 1, 1, 10), Ok(1));
    assert_eq!(binary_search(&a, 1, 1, 11), Err(()));
    assert_eq!(binary_search(&a, 2, 2, 3), Err(()));
}

#[test]
fn get_indices_locates_each_filter() {
    let times = array(vec![0, 100, 200, 300, 400]);
    let (starts, ends) = get_indices(&times, vec![150, 0, 400], vec![250, 399, 1000]);
    assert_eq!(starts, vec![1, 0, 4]);
    assert_eq!(ends, vec![2, 3, 4]);
}

#[test]
fn get_indices_without_filters_is_empty() {
    let times = array(vec![]);
    let (starts, ends) = get_indices(&times, vec![], vec![]);
    assert!(starts.is_empty() && ends.is_empty());
}

#[test]
fn usize_array_new_and_len() {
    let a = UsizeArray::new(vec![3, 4, 5]);
    assert_eq!(a.len(), 3);
    assert_eq!(get_indices(&a, vec![4], vec![9]), (vec![1], vec![2]));
}

#[test]
fn good_values_cover_array_len_weights() {
    // 100 events: two chunks, and a filter reaching the last event
    let weights = get_good_values(vec![1], vec![2], array(vec![0, 70, 100]), 100, true);
    assert_eq!(weights.raw_weights().len(), 2);
    for i in 0..100 {
        assert_eq!(weights.index(i), (70..100).contains(&i));
    }
    let none = get_good_values(vec![], vec![], array(vec![0]), 100, false);
    assert!(none.index(99));
}

#[test]
fn binary_search_reads_only_midpoints() {
    // the range reaches past the values, but the search never reads there
    let a = array(vec![0, 10, 20, 30]);
    assert_eq!(binary_search(&a, 0, 6, 5), Ok(0));
    assert_eq!(binary_search(&a, 3, 4, 99), Ok(3));
}

#[test]
fn dropping_is_the_complement_of_keeping() {
    let kept = get_good_values(vec![1, 3], vec![2, 4], array(vec![0, 10, 70, 90, 130]), 150, true);
    let dropped = get_good_values(vec![1, 3], vec![2, 4], array(vec![0, 10, 70, 90, 130]), 150, false);
    assert_eq!(dropped, kept.not());
}

#[test]
fn get_indices_bounds_each_target_on_sorted_frames() {
    let times = array(vec![10, 20, 20, 30]);
    let (starts, _) = get_indices(&times, vec![5, 25, 30, 40], vec![0, 0, 0, 0]);
    // below every frame: the first frame; otherwise the frame starts at or
    // below the target and the next one at or above it
    assert_eq!(starts, vec![0, 2, 3, 3]);
}
