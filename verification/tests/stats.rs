use ndarray::Array3;
use rsmdl::filters::weights::Weights;
use rsmdl::stats::{
    can_count_events, can_count_weighted_events, chunk_ranges, count_events, count_weighted_events,
    every_other_frame_can_fit, every_other_frame_weights, shape_can_fit, EventCounts,
};

/// The time bin of each event, as the histogram code works it out.
fn bins(times: &[u32], min_time: f32, max_time: f32, width: f64, conversion: f32) -> Vec<Option<usize>> {
    times
        .iter()
        .map(|time| {
            let t = *time as f32 * conversion;
            if t >= min_time && t <= max_time {
                Some(((t - min_time) / width as f32).floor() as usize)
            } else {
                None
            }
        })
        .collect()
}

/// The counts of a histogram as an `ndarray` array.
fn array3(h: &EventCounts) -> Array3<usize> {
    Array3::from_shape_vec(h.hist.shape(), h.hist.to_vec()).unwrap()
}

/// Test a histogram with no filters is correctly constructed.
#[test]
fn test_hist_no_filter() {
    let times = vec![500, 600, 1500, 2300, 2500, 2650];
    let specs = vec![0, 1, 0, 0, 0, 1];
    let periods = vec![0; 6];
    let weights = Weights::ones(6);

    let result = count_events(&bins(&times, 0., 3., 1., 1e-3), &specs, 2, &periods, 1, &weights, 3);

    let expected = Array3::<usize>::from_shape_vec((1, 2, 3), vec![1, 1, 2, 1, 0, 1]).unwrap();

    assert_eq!(array3(&result), expected);
    assert_eq!(result.n, 6);
}

/// Test a histogram with filters is correctly constructed.
#[test]
fn test_hist_filter() {
    let times = vec![500, 600, 1500, 2300, 2500, 2650];
    let specs = vec![0, 1, 0, 0, 0, 1];
    let periods = vec![0; 6];
    let weights = Weights::from_bools(&vec![false, true, true, false, false, true]);

    let result = count_events(&bins(&times, 0., 3., 1., 1e-3), &specs, 2, &periods, 1, &weights, 3);

    let expected = Array3::<usize>::from_shape_vec((1, 2, 3), vec![0, 1, 0, 1, 0, 1]).unwrap();

    assert_eq!(array3(&result), expected);
    assert_eq!(result.n, 3);
}

#[test]
fn events_outside_the_bins_are_not_counted() {
    let result = count_events(&vec![None, Some(1), None], &vec![0, 0, 0], 1, &vec![1, 1, 1], 2, &Weights::ones(3), 2);
    let expected = Array3::<usize>::from_shape_vec((2, 1, 2), vec![0, 0, 0, 1]).unwrap();
    assert_eq!(array3(&result), expected);
    assert_eq!(result.n, 1);
}

#[test]
fn merging_adds_counts() {
    let mut a = count_events(&vec![Some(0), Some(1)], &vec![0, 0], 1, &vec![0, 0], 1, &Weights::ones(2), 2);
    let b = count_events(&vec![Some(1), Some(1), Some(0)], &vec![0, 0, 0], 1, &vec![0, 0, 0], 1, &Weights::ones(3), 2);
    a.merge(&b);
    assert_eq!(array3(&a), Array3::<usize>::from_shape_vec((1, 1, 2), vec![2, 3]).unwrap());
    assert_eq!(a.n, 5);
}

#[test]
fn empty_histogram_is_zero() {
    let h = EventCounts::zeros(2, 3, 4);
    assert_eq!(array3(&h), Array3::<usize>::zeros((2, 3, 4)));
    assert_eq!(h.n, 0);
}

#[test]
fn chunk_ranges_tile_the_events() {
    assert_eq!(chunk_ranges(10, 4), vec![(0, 4), (4, 8), (8, 10)]);
    assert_eq!(chunk_ranges(8, 4), vec![(0, 4), (4, 8)]);
    assert_eq!(chunk_ranges(3, 10), vec![(0, 3)]);
    assert_eq!(chunk_ranges(0, 10), vec![]);
}

#[test]
fn weighted_events_add_their_weights() {
    let result = count_weighted_events(
        &vec![Some(0), Some(1), None, Some(1)],
        &vec![0, 1, 0, 1],
        2,
        &vec![0, 0, 0, 0],
        1,
        &vec![2, 3, 5, 0],
        2,
    );
    let expected = Array3::<usize>::from_shape_vec((1, 2, 2), vec![2, 0, 0, 3]).unwrap();
    assert_eq!(array3(&result), expected);
    assert_eq!(result.n, 5);
}

#[test]
fn every_other_frame_keeps_the_even_frames() {
    // 256 events, 2 filters: 4 frames of 64 events, frames 0 and 2 kept
    let w = every_other_frame_weights(256, 2);
    assert_eq!(*w.raw_weights(), vec![u64::MAX, 0, u64::MAX, 0]);
    let all = every_other_frame_weights(100, 0);
    assert_eq!(*all.raw_weights(), vec![u64::MAX, u64::MAX]);
}

#[test]
fn every_other_frame_with_partial_frames() {
    // 64 events, 3 filters: 6 frames of 10 events; events 0-9, 20-29, 40-49 kept
    let w = every_other_frame_weights(64, 3);
    for i in 0..64 {
        let kept = i < 60 && (i / 10) % 2 == 0;
        assert_eq!(w.index(i), kept, "event {}", i);
    }
}

#[test]
fn checks_before_counting() {
    let w = Weights::ones(3);
    assert!(can_count_events(&vec![Some(0), None, Some(1)], &vec![0, 9, 1], 2, &vec![0, 9, 0], 1, &w, 2));
    // a counted event with a spectrum outside the shape
    assert!(!can_count_events(&vec![Some(0), None, Some(1)], &vec![0, 9, 2], 2, &vec![0, 9, 0], 1, &w, 2));
    // a bin outside the shape
    assert!(!can_count_events(&vec![Some(2)], &vec![0], 1, &vec![0], 1, &w, 2));
    // an event beyond the weights
    assert!(!can_count_events(&vec![None; 65], &vec![], 1, &vec![], 1, &w, 1));
    // an event whose weight is clear is not checked
    let cleared = Weights::zeros(3);
    assert!(can_count_events(&vec![Some(7)], &vec![], 1, &vec![], 1, &cleared, 1));
}

#[test]
fn checks_before_weighted_counting() {
    assert!(can_count_weighted_events(&vec![Some(0), Some(1)], &vec![0, 0], 1, &vec![0, 0], 1, &vec![1, 2], 2));
    assert!(!can_count_weighted_events(&vec![Some(0), Some(1)], &vec![0, 0], 1, &vec![0, 0], 1, &vec![1], 2));
    assert!(!can_count_weighted_events(&vec![Some(0), Some(0)], &vec![0, 0], 1, &vec![0, 0], 1, &vec![usize::MAX, 1], 1));
    assert!(can_count_weighted_events(&vec![Some(0), Some(5)], &vec![0, 0], 1, &vec![0, 0], 1, &vec![usize::MAX, 0], 1));
}

#[test]
fn shapes_that_fit() {
    assert!(shape_can_fit(0, 0, 0));
    assert!(shape_can_fit(2, 960, 2048));
    assert!(!shape_can_fit(usize::MAX, 2, 1));
    assert!(shape_can_fit(isize::MAX as usize, 0, 1));
    assert!(!shape_can_fit(1 << 40, 1 << 30, 0));
}

#[test]
fn every_other_frame_fit_checks() {
    assert!(every_other_frame_can_fit(256, 2));
    assert!(every_other_frame_can_fit(64, 3));
    assert!(every_other_frame_can_fit(10, 0));
    assert!(every_other_frame_can_fit(127, 2));
    assert!(every_other_frame_can_fit(127, 1));
    assert!(!every_other_frame_can_fit(10, usize::MAX));
}

#[test]
fn every_other_frame_with_a_partial_last_chunk() {
    // 100 events, 1 filter: frames of 50, the first kept
    let w = every_other_frame_weights(100, 1);
    for i in 0..100 {
        assert_eq!(w.index(i), i < 50);
    }
}

#[test]
fn chunked_counts_merge_to_one_pass() {
    let bins = vec![Some(0), Some(1), None, Some(1), Some(0), Some(1)];
    let specs = vec![0, 1, 0, 1, 1, 0];
    let periods = vec![0; 6];
    let weights = Weights::from_bools(&vec![true, true, true, false, true, true]);
    let whole = count_events(&bins, &specs, 2, &periods, 1, &weights, 2);
    let mut first = count_events(&bins[..4].to_vec(), &specs[..4].to_vec(), 2, &periods[..4].to_vec(), 1, &weights.slice(0, 4), 2);
    let second = count_events(&bins[4..].to_vec(), &specs[4..].to_vec(), 2, &periods[4..].to_vec(), 1, &weights.slice(4, 6), 2);
    first.merge(&second);
    assert_eq!(array3(&first), array3(&whole));
    assert_eq!(first.n, whole.n);
}

#[test]
fn chunk_size_does_not_change_the_histogram() {
    let n = 300;
    let bins: Vec<Option<usize>> = (0..n).map(|k| if k % 5 == 0 { None } else { Some(k % 3) }).collect();
    let specs: Vec<u32> = (0..n).map(|k| (k % 2) as u32).collect();
    let periods = vec![0u32; n];
    let weights = Weights::from_bools(&(0..n).map(|k| k % 7 != 0).collect());
    let whole = count_events(&bins, &specs, 2, &periods, 1, &weights, 3);
    for chunk_size in [64, 128, 192, 1000] {
        let mut acc = EventCounts::zeros(1, 2, 3);
        for (start, end) in chunk_ranges(n, chunk_size) {
            let part = count_events(
                &bins[start..end].to_vec(),
                &specs[start..end].to_vec(),
                2,
                &periods[start..end].to_vec(),
                1,
                &weights.slice(start, end),
                3,
            );
            acc.merge(&part);
        }
        assert_eq!(array3(&acc), array3(&whole));
        assert_eq!(acc.n, whole.n);
    }
}
