//! Frame filters: locating filter bounds among frame start times, and turning
//! filtered frames into event weights.
use crate::filters::weights::{chunk_count, lemma_complement_chunks, not_chunks, range_covers, Weights};
use vstd::prelude::*;

verus! {

/// A one-dimensional `ndarray` array of `usize` values, such as the start
/// time or the first event index of each frame.
#[verifier::external_body]
pub struct UsizeArray {
    values: ndarray::Array1<usize>,
}

/// The values that a `UsizeArray` holds, in order.
pub uninterp spec fn usize_array_values(a: UsizeArray) -> Seq<usize>;

impl View for UsizeArray {
    type V = Seq<usize>;

    open spec fn view(&self) -> Seq<usize> {
        usize_array_values(*self)
    }
}

/// Builds the array with `ndarray::Array1::from_vec`, which takes the
/// vector's elements over in order.
#[verifier::external_body]
fn array_from_vec(values: Vec<usize>) -> (a: UsizeArray)
    ensures
        usize_array_values(a) == values@,
{
    UsizeArray { values: ndarray::Array1::from_vec(values) }
}

/// `ndarray`'s `len`: the number of elements.
#[verifier::external_body]
fn array_len(a: &UsizeArray) -> (n: usize)
    ensures
        n == usize_array_values(*a).len(),
{
    a.values.len()
}

/// `ndarray`'s indexing `a[i]`, which panics out of bounds.
#[verifier::external_body]
fn array_get(a: &UsizeArray, i: usize) -> (v: usize)
    requires
        i < usize_array_values(*a).len(),
    ensures
        v == usize_array_values(*a)[i as int],
{
    a.values[i]
}

impl UsizeArray {
    /// An array holding the given values.
    pub fn new(values: Vec<usize>) -> (a: UsizeArray)
        ensures
            a@ == values@,
    {
        array_from_vec(values)
    }

    /// The number of values.
    pub fn len(&self) -> (n: usize)
        ensures
            n == self@.len(),
    {
        array_len(self)
    }
}

/// Where the bisection of `binary_search` over `[start, stop)` ends.
pub open spec fn bisect(a: Seq<usize>, start: int, stop: int, target: usize) -> int
    decreases stop - start,
{
    if stop - start <= 1 {
        start
    } else {
        let mid = start + (stop - start) / 2;
        if a[mid] == target {
            mid
        } else if a[mid] > target {
            bisect(a, start, mid, target)
        } else {
            bisect(a, mid, stop, target)
        }
    }
}

/// The bisection ends on an index of `[start, stop)` that holds the target,
/// or else that bounds the target: its value is below the target (unless it
/// is `start`) and the next value is above it (unless there is none). No
/// ordering of the values is needed for this.
pub proof fn lemma_bisect_bounds(a: Seq<usize>, start: int, stop: int, target: usize)
    requires
        0 <= start < stop,
    ensures
        start <= bisect(a, start, stop, target) < stop,
        stop <= a.len() ==> ({
            let r = bisect(a, start, stop, target);
            a[r] == target || ((r == start || a[r] < target) && (r + 1 == stop || a[r + 1] > target))
        }),
    decreases stop - start,
{
    if stop - start > 1 {
        let mid = start + (stop - start) / 2;
        if a[mid] != target {
            if a[mid] > target {
                lemma_bisect_bounds(a, start, mid, target);
            } else {
                lemma_bisect_bounds(a, mid, stop, target);
            }
        }
    }
}

/// Every value that the bisection of `binary_search` over `[start, stop)`
/// reads lies within `a`.
pub open spec fn probes_in_bounds(a: Seq<usize>, start: int, stop: int, target: usize) -> bool
    decreases stop - start,
{
    if stop - start <= 1 {
        true
    } else {
        let mid = start + (stop - start) / 2;
        &&& mid < a.len()
        &&& (a[mid] == target || if a[mid] > target {
            probes_in_bounds(a, start, mid, target)
        } else {
            probes_in_bounds(a, mid, stop, target)
        })
    }
}

/// The bisection reads within `a` when `[start, stop)` does.
pub proof fn lemma_probes_in_bounds(a: Seq<usize>, start: int, stop: int, target: usize)
    requires
        0 <= start < stop <= a.len(),
    ensures
        probes_in_bounds(a, start, stop, target),
    decreases stop - start,
{
    if stop - start > 1 {
        let mid = start + (stop - start) / 2;
        lemma_probes_in_bounds(a, start, mid, target);
        lemma_probes_in_bounds(a, mid, stop, target);
    }
}

/// The values never decrease.
pub open spec fn is_sorted(a: Seq<usize>) -> bool {
    forall|i: int, j: int| 0 <= i <= j < a.len() ==> a[i] <= a[j]
}

/// On sorted values the bisection finds the left bound of the target: the
/// value there is at most the target, and the next value (if any) at least
/// the target. A target below all the values gives `start`.
pub proof fn lemma_bisect_sorted(a: Seq<usize>, start: int, stop: int, target: usize)
    requires
        0 <= start < stop <= a.len(),
        is_sorted(a),
    ensures
        ({
            let r = bisect(a, start, stop, target);
            &&& a[start] <= target ==> a[r] <= target
            &&& r + 1 < stop ==> target <= a[r + 1]
            &&& target < a[start] ==> r == start
        }),
{
    lemma_bisect_bounds(a, start, stop, target);
}

/// Frame `r` of sorted frame starts `a` is the frame that `t` falls in: it
/// starts at or below `t` (unless `t` lies below every frame, when `r` is the
/// first frame), and the next frame, if any, starts at or above `t`.
pub open spec fn bounds_frame(a: Seq<usize>, r: int, t: usize) -> bool {
    &&& 0 <= r < a.len()
    &&& a[0] <= t ==> a[r] <= t
    &&& t < a[0] ==> r == 0
    &&& r + 1 < a.len() ==> t <= a[r + 1]
}

/// Binary search to find the left bounding index of a target value.
/// start and stop are the indices of the array to search between.
pub fn binary_search(array: &UsizeArray, start: usize, stop: usize, target: usize) -> (r: Result<usize, ()>)
    requires
        start <= stop,
        start < stop ==> probes_in_bounds(array@, start as int, stop as int, target),
        start == stop ==> stop < array@.len(),
    ensures
        start < stop ==> r == Ok::<usize, ()>(bisect(array@, start as int, stop as int, target) as usize),
        start == stop ==> r == if array@[start as int] == target { Ok::<usize, ()>(stop) } else { Err(()) },
        start < stop ==> (r matches Ok(k) && start <= k < stop),
        start < stop && stop <= array@.len() ==> (r matches Ok(k) && (array@[k as int] == target || (
            (k == start || array@[k as int] < target) && (k + 1 == stop || array@[k + 1] > target)))),
    decreases stop - start,
{
    proof {
        if start < stop {
            lemma_bisect_bounds(array@, start as int, stop as int, target);
        }
    }
    if stop - start == 1 {
        Ok(start)
    } else if stop > start {
        let midpoint = start + (stop - start) / 2;
        let midpoint_value = array_get(array, midpoint);
        if midpoint_value == target {
            Ok(midpoint)
        } else if midpoint_value > target {
            binary_search(array, start, midpoint, target)
        } else {
            binary_search(array, midpoint, stop, target)
        }
    } else if array_get(array, start) < target || array_get(array, stop) > target {
        Err(())
    } else {
        Ok(stop)
    }
}

/// Assuming the data is sorted, get which frames the filters belong to.
///
/// For each filter `j` the first result holds the frame that
/// `binary_search` finds for `filter_starts[j]` among all the frames, and the
/// second the frame that it finds for `filter_ends[j]`.
pub fn get_indices(start_times: &UsizeArray, filter_starts: Vec<usize>, filter_ends: Vec<usize>) -> (r: (Vec<usize>, Vec<usize>))
    requires
        filter_starts.len() <= filter_ends.len(),
        filter_starts.len() > 0 ==> start_times@.len() > 0,
    ensures
        r.0.len() == filter_starts.len(),
        r.1.len() == filter_starts.len(),
        forall|j: int| 0 <= j < filter_starts.len() ==>
            #[trigger] r.0@[j] == bisect(start_times@, 0, start_times@.len() as int, filter_starts@[j]),
        forall|j: int| 0 <= j < filter_starts.len() ==>
            #[trigger] r.1@[j] == bisect(start_times@, 0, start_times@.len() as int, filter_ends@[j]),
        is_sorted(start_times@) ==> forall|j: int| 0 <= j < filter_starts.len() ==>
            #[trigger] bounds_frame(start_times@, r.0@[j] as int, filter_starts@[j]),
        is_sorted(start_times@) ==> forall|j: int| 0 <= j < filter_starts.len() ==>
            #[trigger] bounds_frame(start_times@, r.1@[j] as int, filter_ends@[j]),
{
    let n_filters = filter_starts.len();
    let n_frames = array_len(start_times);

    let mut frame_starts: Vec<usize> = Vec::new();
    let mut j: usize = 0;
    while j < n_filters
        invariant
            j <= n_filters,
            n_filters == filter_starts.len(),
            n_filters > 0 ==> n_frames > 0,
            n_frames == start_times@.len(),
            frame_starts.len() == j,
            forall|i: int| 0 <= i < j ==>
                #[trigger] frame_starts@[i] == bisect(start_times@, 0, n_frames as int, filter_starts@[i]),
            is_sorted(start_times@) ==> forall|i: int| 0 <= i < j ==>
                #[trigger] bounds_frame(start_times@, frame_starts@[i] as int, filter_starts@[i]),
        decreases n_filters - j,
    {
        proof {
            lemma_bisect_bounds(start_times@, 0, n_frames as int, filter_starts@[j as int]);
            lemma_probes_in_bounds(start_times@, 0, n_frames as int, filter_starts@[j as int]);
            if is_sorted(start_times@) {
                lemma_bisect_sorted(start_times@, 0, n_frames as int, filter_starts@[j as int]);
            }
        }
        match binary_search(start_times, 0, n_frames, filter_starts[j]) {
            Ok(frame) => frame_starts.push(frame),
            Err(()) => {
                assert(false);
            }
        }
        j = j + 1;
    }
    let mut frame_ends: Vec<usize> = Vec::new();
    let mut j: usize = 0;
    while j < n_filters
        invariant
            j <= n_filters,
            n_filters == filter_starts.len(),
            n_filters <= filter_ends.len(),
            n_filters > 0 ==> n_frames > 0,
            n_frames == start_times@.len(),
            frame_ends.len() == j,
            forall|i: int| 0 <= i < j ==>
                #[trigger] frame_ends@[i] == bisect(start_times@, 0, n_frames as int, filter_ends@[i]),
            is_sorted(start_times@) ==> forall|i: int| 0 <= i < j ==>
                #[trigger] bounds_frame(start_times@, frame_ends@[i] as int, filter_ends@[i]),
        decreases n_filters - j,
    {
        proof {
            lemma_bisect_bounds(start_times@, 0, n_frames as int, filter_ends@[j as int]);
            lemma_probes_in_bounds(start_times@, 0, n_frames as int, filter_ends@[j as int]);
            if is_sorted(start_times@) {
                lemma_bisect_sorted(start_times@, 0, n_frames as int, filter_ends@[j as int]);
            }
        }
        match binary_search(start_times, 0, n_frames, filter_ends[j]) {
            Ok(frame) => frame_ends.push(frame),
            Err(()) => {
                assert(false);
            }
        }
        j = j + 1;
    }
    (frame_starts, frame_ends)
}

/// Whether one of the first `count` filters covers the weight at position
/// `i`, where filter `j` runs from event `index[starts[j]]` to event
/// `index[ends[j]]` as `Weights::set_range` takes a range.
pub open spec fn filtered(starts: Seq<usize>, ends: Seq<usize>, index: Seq<usize>, count: int, i: int) -> bool {
    exists|j: int| 0 <= j < count && #[trigger] range_covers(index[starts[j] as int] as int, index[ends[j] as int] as int, i)
}

/// The number of filters that `get_good_values` applies: one per pair of a
/// lower and an upper bound.
pub open spec fn filter_count(starts: Seq<usize>, ends: Seq<usize>) -> int {
    if starts.len() < ends.len() {
        starts.len() as int
    } else {
        ends.len() as int
    }
}

/// Filter `j` can be applied to weights for `array_len` events: its bounds
/// are frames of `index`, and `set_range` accepts the event range.
pub open spec fn filter_applies(starts: Seq<usize>, ends: Seq<usize>, index: Seq<usize>, array_len: int, j: int) -> bool {
    &&& starts[j] < index.len()
    &&& ends[j] < index.len()
    &&& ({
        let lo = index[starts[j] as int] as int;
        let hi = index[ends[j] as int] as int;
        &&& (lo % 64 == 0 || lo + (64 - lo % 64) <= usize::MAX)
        &&& forall|i: int| range_covers(lo, hi, i) ==> i < 64 * chunk_count(array_len)
    })
}

/// `w` holds the weights that `get_good_values` gives: as many chunks as
/// `array_len` weights need, with the weights in filtered ranges `keep` and
/// all others `!keep`.
pub open spec fn good_values(
    w: Weights,
    starts: Seq<usize>,
    ends: Seq<usize>,
    index: Seq<usize>,
    array_len: int,
    keep: bool,
) -> bool {
    &&& w.chunks().len() == chunk_count(array_len)
    &&& forall|i: int| 0 <= i < w.capacity() ==>
        #[trigger] w.bit(i) == if filtered(starts, ends, index, filter_count(starts, ends), i) {
            keep
        } else {
            !keep
        }
}

/// The weights that drop the filtered ranges are the complement, chunk by
/// chunk, of the weights that keep them.
pub proof fn lemma_drop_is_complement_of_keep(
    kept: Weights,
    dropped: Weights,
    starts: Seq<usize>,
    ends: Seq<usize>,
    index: Seq<usize>,
    array_len: int,
)
    requires
        good_values(kept, starts, ends, index, array_len, true),
        good_values(dropped, starts, ends, index, array_len, false),
    ensures
        dropped.chunks() == not_chunks(kept.chunks()),
{
    assert forall|i: int| 0 <= i < kept.capacity() implies #[trigger] dropped.bit(i) == !kept.bit(i) by {
        assert(kept.bit(i) == filtered(starts, ends, index, filter_count(starts, ends), i));
        assert(dropped.bit(i) == !filtered(starts, ends, index, filter_count(starts, ends), i));
    }
    lemma_complement_chunks(kept, dropped);
}

/// Get a weights array corresponding to the filtered frames.
///
/// `f_start` and `f_end` hold the lower and upper bounding frame number of
/// each filter, `start_index` the first event index of each frame, and
/// `array_len` the length of the final weights array. Where `keep` holds,
/// the filters mark ranges to keep, otherwise ranges to drop: the
/// weights of the events in a filtered range are `keep`, all others are
/// `!keep`.
pub fn get_good_values(
    f_start: Vec<usize>,
    f_end: Vec<usize>,
    start_index: UsizeArray,
    array_len: usize,
    keep: bool,
) -> (w: Weights)
    requires
        forall|j: int| 0 <= j < filter_count(f_start@, f_end@) ==>
            #[trigger] filter_applies(f_start@, f_end@, start_index@, array_len as int, j),
    ensures
        good_values(w, f_start@, f_end@, start_index@, array_len as int, keep),
{
    let mut result = if keep { Weights::zeros(array_len) } else { Weights::ones(array_len) };
    let n = if f_start.len() < f_end.len() { f_start.len() } else { f_end.len() };
    let mut k: usize = 0;
    while k < n
        invariant
            k <= n,
            n == filter_count(f_start@, f_end@),
            result.chunks().len() == chunk_count(array_len as int),
            forall|j: int| 0 <= j < n ==>
                #[trigger] filter_applies(f_start@, f_end@, start_index@, array_len as int, j),
            forall|i: int| 0 <= i < result.capacity() ==>
                #[trigger] result.bit(i) == if filtered(f_start@, f_end@, start_index@, k as int, i) {
                    keep
                } else {
                    !keep
                },
        decreases n - k,
    {
        assert(filter_applies(f_start@, f_end@, start_index@, array_len as int, k as int));
        let lo = array_get(&start_index, f_start[k]);
        let hi = array_get(&start_index, f_end[k]);
        let ghost before = result;
        result.set_range(lo, hi, keep);
        proof {
            assert forall|i: int| 0 <= i < result.capacity() implies
                #[trigger] result.bit(i) == if filtered(f_start@, f_end@, start_index@, k + 1, i) {
                    keep
                } else {
                    !keep
                } by {
                if range_covers(lo as int, hi as int, i) {
                    assert(filtered(f_start@, f_end@, start_index@, k + 1, i));
                } else {
                    assert(before.bit(i) == result.bit(i));
                    if filtered(f_start@, f_end@, start_index@, k + 1, i) {
                        let j = choose|j: int| 0 <= j < k + 1 && #[trigger] range_covers(
                            start_index@[f_start@[j] as int] as int, start_index@[f_end@[j] as int] as int, i);
                        assert(j != k);
                        assert(filtered(f_start@, f_end@, start_index@, k as int, i));
                    }
                    if filtered(f_start@, f_end@, start_index@, k as int, i) {
                        let j = choose|j: int| 0 <= j < k && #[trigger] range_covers(
                            start_index@[f_start@[j] as int] as int, start_index@[f_end@[j] as int] as int, i);
                        assert(filtered(f_start@, f_end@, start_index@, k + 1, i));
                    }
                }
            }
        }
        k = k + 1;
    }
    result
}

} // verus!
