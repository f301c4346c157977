//! Histogram counting: events are counted per period, spectrum and time bin.
//!
//! Which time bin an event falls in is worked out from floating-point times
//! by the caller; here the counts are kept, filtered by the event weights,
//! and merged across chunks of events.
use crate::filters::filtering::{filter_applies, filter_count, filtered, get_good_values, UsizeArray};
use crate::filters::weights::{chunk_count, chunks_for, lemma_range_covers_interval, range_covers, Weights};
use vstd::prelude::*;

verus! {

/// A three-dimensional `ndarray` array of counts, indexed by period,
/// spectrum and time bin.
#[verifier::external_body]
pub struct Counts {
    hist: ndarray::Array3<usize>,
}

/// The counts of a `Counts`, in row-major order of (period, spectrum, bin).
pub uninterp spec fn counts_values(h: Counts) -> Seq<usize>;

/// The shape (periods, spectra, bins) of a `Counts`.
pub uninterp spec fn counts_shape(h: Counts) -> (usize, usize, usize);

/// The position of `(p, s, b)` in the row-major order of an array of the
/// given shape.
pub open spec fn flat_index(shape: (usize, usize, usize), p: int, s: int, b: int) -> int {
    (p * shape.1 + s) * shape.2 + b
}

/// The number of counts an array of the given shape holds.
pub open spec fn shape_size(shape: (usize, usize, usize)) -> int {
    shape.0 * shape.1 * shape.2
}

/// `ndarray` can allocate an array of this shape: the product of the
/// non-zero axis lengths fits in an `isize`.
pub open spec fn shape_fits(n_periods: int, n_spec: int, n_bins: int) -> bool {
    (if n_periods == 0 { 1 } else { n_periods }) * (if n_spec == 0 { 1 } else { n_spec }) * (if n_bins == 0 {
        1
    } else {
        n_bins
    }) <= isize::MAX
}

/// `ndarray::Array3::zeros`: an array of the given shape holding zeros. It
/// panics where the product of the non-zero axis lengths overflows `isize`.
#[verifier::external_body]
fn counts_zeros(n_periods: usize, n_spec: usize, n_bins: usize) -> (h: Counts)
    requires
        shape_fits(n_periods as int, n_spec as int, n_bins as int),
    ensures
        counts_shape(h) == (n_periods, n_spec, n_bins),
        counts_values(h) == Seq::new((n_periods * n_spec * n_bins) as nat, |i: int| 0usize),
{
    Counts { hist: ndarray::Array3::zeros((n_periods, n_spec, n_bins)) }
}

/// The counts in `ndarray`'s logical order (`iter`, the last index varying
/// fastest), which is the row-major order of (period, spectrum, bin).
#[verifier::external_body]
fn counts_to_vec(h: &Counts) -> (v: Vec<usize>)
    ensures
        v@ == counts_values(*h),
{
    h.hist.iter().cloned().collect()
}

/// `ndarray`'s `dim`: the shape (periods, spectra, bins).
#[verifier::external_body]
fn counts_dim(h: &Counts) -> (shape: (usize, usize, usize))
    ensures
        shape == counts_shape(*h),
{
    h.hist.dim()
}

impl Counts {
    /// The counts, in row-major order of (period, spectrum, bin).
    pub fn to_vec(&self) -> (v: Vec<usize>)
        ensures
            v@ == counts_values(*self),
    {
        counts_to_vec(self)
    }

    /// The shape (periods, spectra, bins).
    pub fn shape(&self) -> (shape: (usize, usize, usize))
        ensures
            shape == counts_shape(*self),
    {
        counts_dim(self)
    }
}

/// `ndarray`'s indexing `h[[p, s, b]]`, which panics out of bounds.
#[verifier::external_body]
fn counts_get(h: &Counts, p: usize, s: usize, b: usize) -> (v: usize)
    requires
        p < counts_shape(*h).0,
        s < counts_shape(*h).1,
        b < counts_shape(*h).2,
    ensures
        v == counts_values(*h)[flat_index(counts_shape(*h), p as int, s as int, b as int)],
{
    h.hist[[p, s, b]]
}

/// `ndarray`'s assignment `h[[p, s, b]] = v`, which panics out of bounds.
#[verifier::external_body]
fn counts_set(h: &mut Counts, p: usize, s: usize, b: usize, v: usize)
    requires
        p < counts_shape(*old(h)).0,
        s < counts_shape(*old(h)).1,
        b < counts_shape(*old(h)).2,
    ensures
        counts_shape(*final(h)) == counts_shape(*old(h)),
        counts_values(*final(h)) == counts_values(*old(h)).update(
            flat_index(counts_shape(*old(h)), p as int, s as int, b as int),
            v,
        ),
{
    h.hist[[p, s, b]] = v;
}

/// `ndarray`'s `acc += other` on arrays of one shape: elementwise addition,
/// which panics where a sum overflows `usize`.
#[verifier::external_body]
fn counts_add_assign(acc: &mut Counts, other: &Counts)
    requires
        counts_shape(*old(acc)) == counts_shape(*other),
        counts_values(*old(acc)).len() == counts_values(*other).len(),
        forall|i: int| 0 <= i < counts_values(*other).len() ==>
            counts_values(*old(acc))[i] + counts_values(*other)[i] <= usize::MAX,
    ensures
        counts_shape(*final(acc)) == counts_shape(*old(acc)),
        counts_values(*final(acc)) == Seq::new(
            counts_values(*old(acc)).len(),
            |i: int| (counts_values(*old(acc))[i] + counts_values(*other)[i]) as usize,
        ),
{
    acc.hist += &other.hist;
}

/// The sum of a sequence of counts.
pub open spec fn total(s: Seq<usize>) -> int
    decreases s.len(),
{
    if s.len() == 0 {
        0
    } else {
        total(s.drop_last()) + s.last()
    }
}

proof fn lemma_total_update(s: Seq<usize>, j: int, v: usize)
    requires
        0 <= j < s.len(),
    ensures
        total(s.update(j, v)) == total(s) - s[j] + v,
    decreases s.len(),
{
    if j == s.len() - 1 {
        assert(s.update(j, v).drop_last() =~= s.drop_last());
    } else {
        lemma_total_update(s.drop_last(), j, v);
        assert(s.update(j, v).drop_last() =~= s.drop_last().update(j, v));
    }
}

proof fn lemma_total_zeros(n: nat)
    ensures
        total(Seq::new(n, |i: int| 0usize)) == 0,
    decreases n,
{
    if n > 0 {
        assert(Seq::new(n, |i: int| 0usize).drop_last() =~= Seq::new((n - 1) as nat, |i: int| 0usize));
        lemma_total_zeros((n - 1) as nat);
    }
}

/// The counts of two arrays added elementwise sum to the sums of the two.
pub proof fn lemma_total_pointwise_sum(a: Seq<usize>, b: Seq<usize>)
    requires
        a.len() == b.len(),
        forall|i: int| 0 <= i < a.len() ==> a[i] + b[i] <= usize::MAX,
    ensures
        total(Seq::new(a.len(), |i: int| (a[i] + b[i]) as usize)) == total(a) + total(b),
    decreases a.len(),
{
    if a.len() > 0 {
        let s = Seq::new(a.len(), |i: int| (a[i] + b[i]) as usize);
        let (a1, b1) = (a.drop_last(), b.drop_last());
        assert(s.drop_last() =~= Seq::new(a1.len(), |i: int| (a1[i] + b1[i]) as usize));
        lemma_total_pointwise_sum(a1, b1);
    }
}

/// No count exceeds the sum of the counts.
pub proof fn lemma_count_at_most_total(s: Seq<usize>, i: int)
    requires
        0 <= i < s.len(),
    ensures
        s[i] <= total(s),
    decreases s.len(),
{
    if i < s.len() - 1 {
        lemma_count_at_most_total(s.drop_last(), i);
    }
    lemma_total_nonnegative(s.drop_last());
}

proof fn lemma_total_nonnegative(s: Seq<usize>)
    ensures
        total(s) >= 0,
    decreases s.len(),
{
    if s.len() > 0 {
        lemma_total_nonnegative(s.drop_last());
    }
}

/// Two histograms whose counts sum to their event numbers can be merged as
/// soon as the two numbers add up without overflow: no sum of two counts
/// overflows then either.
pub proof fn lemma_merge_fits(a: Seq<usize>, b: Seq<usize>, na: int, nb: int)
    requires
        a.len() == b.len(),
        total(a) == na,
        total(b) == nb,
        na + nb <= usize::MAX,
    ensures
        forall|i: int| 0 <= i < b.len() ==> a[i] + b[i] <= usize::MAX,
{
    assert forall|i: int| 0 <= i < b.len() implies a[i] + b[i] <= usize::MAX by {
        lemma_count_at_most_total(a, i);
        lemma_count_at_most_total(b, i);
    }
}

proof fn lemma_flat_index_in_bounds(shape: (usize, usize, usize), p: int, s: int, b: int)
    requires
        0 <= p < shape.0,
        0 <= s < shape.1,
        0 <= b < shape.2,
    ensures
        0 <= flat_index(shape, p, s, b) < shape_size(shape),
{
    let (np, ns, nb) = (shape.0 as int, shape.1 as int, shape.2 as int);
    assert(0 <= (p * ns + s) * nb + b < np * ns * nb) by (nonlinear_arith)
        requires
            0 <= p < np,
            0 <= s < ns,
            0 <= b < nb,
    ;
}

proof fn lemma_digit_unique(x1: int, r1: int, x2: int, r2: int, base: int)
    requires
        0 <= r1 < base,
        0 <= r2 < base,
        0 <= x1,
        0 <= x2,
        x1 * base + r1 == x2 * base + r2,
    ensures
        x1 == x2,
        r1 == r2,
{
    if x1 > x2 {
        assert(x1 * base >= (x2 + 1) * base) by (nonlinear_arith)
            requires
                x1 >= x2 + 1,
                base > 0,
        ;
        assert((x2 + 1) * base == x2 * base + base) by (nonlinear_arith);
    } else if x2 > x1 {
        assert(x2 * base >= (x1 + 1) * base) by (nonlinear_arith)
            requires
                x2 >= x1 + 1,
                base > 0,
        ;
        assert((x1 + 1) * base == x1 * base + base) by (nonlinear_arith);
    }
}

/// Distinct (period, spectrum, bin) positions within a shape have distinct
/// places in the row-major order.
pub proof fn lemma_flat_index_unique(
    shape: (usize, usize, usize),
    p1: int,
    s1: int,
    b1: int,
    p2: int,
    s2: int,
    b2: int,
)
    requires
        0 <= p1 < shape.0 && 0 <= s1 < shape.1 && 0 <= b1 < shape.2,
        0 <= p2 < shape.0 && 0 <= s2 < shape.1 && 0 <= b2 < shape.2,
        flat_index(shape, p1, s1, b1) == flat_index(shape, p2, s2, b2),
    ensures
        p1 == p2 && s1 == s2 && b1 == b2,
{
    let (ns, nb) = (shape.1 as int, shape.2 as int);
    assert(p1 * ns + s1 >= 0) by (nonlinear_arith)
        requires
            p1 >= 0,
            ns >= 0,
            s1 >= 0,
    ;
    assert(p2 * ns + s2 >= 0) by (nonlinear_arith)
        requires
            p2 >= 0,
            ns >= 0,
            s2 >= 0,
    ;
    lemma_digit_unique(p1 * ns + s1, b1, p2 * ns + s2, b2, nb);
    lemma_digit_unique(p1, s1, p2, s2, ns);
}

/// Event `k` is counted: its weight is set and its time falls in a bin.
pub open spec fn counted(bins: Seq<Option<usize>>, weights: Weights, k: int) -> bool {
    weights.bit(k) && bins[k] is Some
}

/// Where event `k` is counted: its period, spectrum and time bin.
pub open spec fn event_index(
    bins: Seq<Option<usize>>,
    specs: Seq<u32>,
    periods: Seq<u32>,
    shape: (usize, usize, usize),
    k: int,
) -> int {
    flat_index(shape, periods[k] as int, specs[k] as int, bins[k]->0 as int)
}

/// How many of the first `upto` events are counted at position `idx`.
pub open spec fn hits(
    bins: Seq<Option<usize>>,
    specs: Seq<u32>,
    periods: Seq<u32>,
    weights: Weights,
    shape: (usize, usize, usize),
    upto: int,
    idx: int,
) -> int
    decreases upto,
{
    if upto <= 0 {
        0
    } else {
        hits(bins, specs, periods, weights, shape, upto - 1, idx) + if counted(bins, weights, upto - 1)
            && event_index(bins, specs, periods, shape, upto - 1) == idx {
            1int
        } else {
            0int
        }
    }
}

/// The positions `0, 1, .., n - 1`.
pub open spec fn indices(n: int) -> Seq<int> {
    Seq::new(n as nat, |k: int| k)
}

/// The number of the first `n` events whose weight is set, whose time falls
/// in bin `b`, and whose period and spectrum are `p` and `s`.
pub open spec fn events_at(
    bins: Seq<Option<usize>>,
    specs: Seq<u32>,
    periods: Seq<u32>,
    weights: Weights,
    n: int,
    p: int,
    s: int,
    b: int,
) -> int {
    indices(n).filter(
        |k: int| weights.bit(k) && bins[k] == Some(b as usize) && periods[k] == p && specs[k] == s,
    ).len() as int
}

proof fn lemma_filter_count_step(n: int)
    requires
        n > 0,
    ensures
        forall|pred: spec_fn(int) -> bool| #[trigger] indices(n).filter(pred).len() == indices(n - 1).filter(pred).len() + if pred(n - 1) {
            1int
        } else {
            0int
        },
{
    assert forall|pred: spec_fn(int) -> bool| #[trigger] indices(n).filter(pred).len() == indices(n - 1).filter(pred).len() + if pred(n - 1) {
        1int
    } else {
        0int
    } by {
        assert(indices(n) =~= indices(n - 1).push(n - 1));
        indices(n - 1).lemma_filter_len_push(pred, n - 1);
    }
}

/// Counted one by one, the count at a position (p, s, b) within the shape
/// is the number of events whose weight is set, whose time falls in bin `b`,
/// and whose own period and spectrum numbers are `p` and `s`; so an event
/// adds to no count but the one of its own period, spectrum and bin.
pub proof fn lemma_hits_are_events_at(
    bins: Seq<Option<usize>>,
    specs: Seq<u32>,
    periods: Seq<u32>,
    weights: Weights,
    shape: (usize, usize, usize),
    n: int,
    p: int,
    s: int,
    b: int,
)
    requires
        0 <= n <= bins.len(),
        0 <= p < shape.0,
        0 <= s < shape.1,
        0 <= b < shape.2,
        forall|k: int| 0 <= k < n && weights.bit(k) && #[trigger] bins[k] is Some ==> {
            &&& periods[k] < shape.0
            &&& specs[k] < shape.1
            &&& bins[k]->0 < shape.2
        },
    ensures
        hits(bins, specs, periods, weights, shape, n, flat_index(shape, p, s, b)) == events_at(
            bins,
            specs,
            periods,
            weights,
            n,
            p,
            s,
            b,
        ),
    decreases n,
{
    if n > 0 {
        lemma_hits_are_events_at(bins, specs, periods, weights, shape, n - 1, p, s, b);
        let k = n - 1;
        let here = weights.bit(k) && bins[k] == Some(b as usize) && periods[k] == p && specs[k] == s;
        lemma_filter_count_step(n);
        assert(events_at(bins, specs, periods, weights, n, p, s, b) == events_at(bins, specs, periods, weights, n - 1, p, s, b)
            + if here { 1int } else { 0int });
        if weights.bit(k) && bins[k] is Some {
            assert(bins[k] is Some);
            let bk = bins[k]->0;
            if flat_index(shape, periods[k] as int, specs[k] as int, bk as int) == flat_index(shape, p, s, b) {
                lemma_flat_index_unique(shape, periods[k] as int, specs[k] as int, bk as int, p, s, b);
            }
        }
    }
}

/// How many of the first `upto` events are counted.
pub open spec fn counted_total(bins: Seq<Option<usize>>, weights: Weights, upto: int) -> int
    decreases upto,
{
    if upto <= 0 {
        0
    } else {
        counted_total(bins, weights, upto - 1) + if counted(bins, weights, upto - 1) {
            1int
        } else {
            0int
        }
    }
}

proof fn lemma_hits_bounded(
    bins: Seq<Option<usize>>,
    specs: Seq<u32>,
    periods: Seq<u32>,
    weights: Weights,
    shape: (usize, usize, usize),
    upto: int,
    idx: int,
)
    requires
        0 <= upto,
    ensures
        0 <= hits(bins, specs, periods, weights, shape, upto, idx) <= upto,
        0 <= counted_total(bins, weights, upto) <= upto,
    decreases upto,
{
    if upto > 0 {
        lemma_hits_bounded(bins, specs, periods, weights, shape, upto - 1, idx);
    }
}

proof fn lemma_hits_prefix(
    bins: Seq<Option<usize>>,
    specs: Seq<u32>,
    periods: Seq<u32>,
    weights: Weights,
    shape: (usize, usize, usize),
    m: int,
    upto: int,
    idx: int,
)
    requires
        0 <= upto <= m <= bins.len(),
        specs.len() == bins.len(),
        periods.len() == bins.len(),
    ensures
        hits(bins, specs, periods, weights, shape, upto, idx) == hits(bins.take(m), specs.take(m), periods.take(m), weights, shape, upto, idx),
        counted_total(bins, weights, upto) == counted_total(bins.take(m), weights, upto),
    decreases upto,
{
    if upto > 0 {
        lemma_hits_prefix(bins, specs, periods, weights, shape, m, upto - 1, idx);
        let k = upto - 1;
        assert(bins.take(m)[k] == bins[k] && specs.take(m)[k] == specs[k] && periods.take(m)[k] == periods[k]);
    }
}

proof fn lemma_hits_suffix(
    bins: Seq<Option<usize>>,
    specs: Seq<u32>,
    periods: Seq<u32>,
    weights: Weights,
    rest_weights: Weights,
    shape: (usize, usize, usize),
    m: int,
    upto: int,
    idx: int,
)
    requires
        0 <= m <= upto <= bins.len(),
        specs.len() == bins.len(),
        periods.len() == bins.len(),
        forall|i: int| 0 <= i < bins.len() - m ==> #[trigger] rest_weights.bit(i) == weights.bit(m + i),
    ensures
        hits(bins, specs, periods, weights, shape, upto, idx) == hits(bins, specs, periods, weights, shape, m, idx)
            + hits(bins.skip(m), specs.skip(m), periods.skip(m), rest_weights, shape, upto - m, idx),
        counted_total(bins, weights, upto) == counted_total(bins, weights, m) + counted_total(bins.skip(m), rest_weights, upto - m),
    decreases upto,
{
    if upto > m {
        lemma_hits_suffix(bins, specs, periods, weights, rest_weights, shape, m, upto - 1, idx);
        let k = upto - 1 - m;
        assert(rest_weights.bit(k) == weights.bit(m + k));
        assert(bins.skip(m)[k] == bins[upto - 1] && specs.skip(m)[k] == specs[upto - 1] && periods.skip(m)[k]
            == periods[upto - 1]);
    }
}

/// Counting events in two parts gives the counts of one pass over all of
/// them: the events `[0, m)` with their weights, and the events from `m` on
/// with weights that carry on from position `m` (such as a slice of the
/// weights from `m`), add up position by position, and in number, to the
/// counts of all the events. With `merge`, which adds two histograms position
/// by position, a histogram counted chunk by chunk and merged is the one
/// counted in one pass.
pub proof fn lemma_counts_split(
    bins: Seq<Option<usize>>,
    specs: Seq<u32>,
    periods: Seq<u32>,
    weights: Weights,
    rest_weights: Weights,
    shape: (usize, usize, usize),
    m: int,
)
    requires
        0 <= m <= bins.len(),
        specs.len() == bins.len(),
        periods.len() == bins.len(),
        forall|i: int| 0 <= i < bins.len() - m ==> #[trigger] rest_weights.bit(i) == weights.bit(m + i),
    ensures
        forall|idx: int| #[trigger] hits(bins, specs, periods, weights, shape, bins.len() as int, idx) == hits(
            bins.take(m),
            specs.take(m),
            periods.take(m),
            weights,
            shape,
            m,
            idx,
        ) + hits(bins.skip(m), specs.skip(m), periods.skip(m), rest_weights, shape, bins.len() - m, idx),
        counted_total(bins, weights, bins.len() as int) == counted_total(bins.take(m), weights, m) + counted_total(
            bins.skip(m),
            rest_weights,
            bins.len() - m,
        ),
{
    assert forall|idx: int| #[trigger] hits(bins, specs, periods, weights, shape, bins.len() as int, idx) == hits(
        bins.take(m),
        specs.take(m),
        periods.take(m),
        weights,
        shape,
        m,
        idx,
    ) + hits(bins.skip(m), specs.skip(m), periods.skip(m), rest_weights, shape, bins.len() - m, idx) by {
        lemma_hits_prefix(bins, specs, periods, weights, shape, m, m, idx);
        lemma_hits_suffix(bins, specs, periods, weights, rest_weights, shape, m, bins.len() as int, idx);
    }
    lemma_hits_prefix(bins, specs, periods, weights, shape, m, m, 0);
    lemma_hits_suffix(bins, specs, periods, weights, rest_weights, shape, m, bins.len() as int, 0);
}

/// The ranges `ranges` cover the events `[0, n)` in order: each starts
/// where the one before ends, the first at 0, the last ending at `n`, and
/// there are none exactly when there are no events. `chunk_ranges` gives such
/// ranges.
pub open spec fn tiles(ranges: Seq<(usize, usize)>, n: int) -> bool {
    &&& (n == 0 <==> ranges.len() == 0)
    &&& ranges.len() > 0 ==> ranges[0].0 == 0 && ranges[ranges.len() - 1].1 == n
    &&& forall|r: int| 0 <= r < ranges.len() ==> #[trigger] ranges[r].0 <= ranges[r].1
    &&& forall|r: int| 0 <= r < ranges.len() - 1 ==> #[trigger] ranges[r].1 == ranges[r + 1].0
}

/// The weights `chunk_weights[r]` of each range carry on from the weights of
/// all events at the start of the range, as a slice of them does.
pub open spec fn chunk_weights_match(weights: Weights, ranges: Seq<(usize, usize)>, chunk_weights: Seq<Weights>) -> bool {
    &&& chunk_weights.len() == ranges.len()
    &&& forall|r: int, i: int| 0 <= r < ranges.len() && 0 <= i < ranges[r].1 - ranges[r].0 ==>
        #[trigger] chunk_weights[r].bit(i) == weights.bit(ranges[r].0 + i)
}

/// The count at `idx` summed over the first `r` ranges, each range's events
/// counted by themselves with that range's weights.
pub open spec fn chunked_hits(
    bins: Seq<Option<usize>>,
    specs: Seq<u32>,
    periods: Seq<u32>,
    chunk_weights: Seq<Weights>,
    shape: (usize, usize, usize),
    ranges: Seq<(usize, usize)>,
    r: int,
    idx: int,
) -> int
    decreases r,
{
    if r <= 0 {
        0
    } else {
        let (s, e) = (ranges[r - 1].0 as int, ranges[r - 1].1 as int);
        chunked_hits(bins, specs, periods, chunk_weights, shape, ranges, r - 1, idx) + hits(
            bins.subrange(s, e),
            specs.subrange(s, e),
            periods.subrange(s, e),
            chunk_weights[r - 1],
            shape,
            e - s,
            idx,
        )
    }
}

/// The number of events counted, summed over the first `r` ranges, each
/// range's events counted by themselves with that range's weights.
pub open spec fn chunked_total(
    bins: Seq<Option<usize>>,
    chunk_weights: Seq<Weights>,
    ranges: Seq<(usize, usize)>,
    r: int,
) -> int
    decreases r,
{
    if r <= 0 {
        0
    } else {
        let (s, e) = (ranges[r - 1].0 as int, ranges[r - 1].1 as int);
        chunked_total(bins, chunk_weights, ranges, r - 1) + counted_total(bins.subrange(s, e), chunk_weights[r - 1], e - s)
    }
}

proof fn lemma_one_more_chunk(
    bins: Seq<Option<usize>>,
    specs: Seq<u32>,
    periods: Seq<u32>,
    weights: Weights,
    rest_weights: Weights,
    shape: (usize, usize, usize),
    s: int,
    e: int,
    idx: int,
)
    requires
        0 <= s <= e <= bins.len(),
        specs.len() == bins.len(),
        periods.len() == bins.len(),
        forall|i: int| 0 <= i < e - s ==> #[trigger] rest_weights.bit(i) == weights.bit(s + i),
    ensures
        hits(bins, specs, periods, weights, shape, e, idx) == hits(bins, specs, periods, weights, shape, s, idx)
            + hits(bins.subrange(s, e), specs.subrange(s, e), periods.subrange(s, e), rest_weights, shape, e - s, idx),
        counted_total(bins, weights, e) == counted_total(bins, weights, s) + counted_total(bins.subrange(s, e), rest_weights, e - s),
{
    let (b, sp, pe) = (bins.take(e), specs.take(e), periods.take(e));
    lemma_hits_prefix(bins, specs, periods, weights, shape, e, e, idx);
    lemma_hits_prefix(bins, specs, periods, weights, shape, e, s, idx);
    assert forall|i: int| 0 <= i < b.len() - s implies #[trigger] rest_weights.bit(i) == weights.bit(s + i) by {}
    lemma_hits_suffix(b, sp, pe, weights, rest_weights, shape, s, e, idx);
    assert(b.skip(s) =~= bins.subrange(s, e));
    assert(sp.skip(s) =~= specs.subrange(s, e));
    assert(pe.skip(s) =~= periods.subrange(s, e));
}

proof fn lemma_chunked_prefix(
    bins: Seq<Option<usize>>,
    specs: Seq<u32>,
    periods: Seq<u32>,
    weights: Weights,
    chunk_weights: Seq<Weights>,
    shape: (usize, usize, usize),
    ranges: Seq<(usize, usize)>,
    r: int,
    idx: int,
)
    requires
        0 <= r <= ranges.len(),
        tiles(ranges, bins.len() as int),
        chunk_weights_match(weights, ranges, chunk_weights),
        specs.len() == bins.len(),
        periods.len() == bins.len(),
    ensures
        ({
            let end = if r == 0 { 0 } else { ranges[r - 1].1 as int };
            &&& end <= bins.len()
            &&& chunked_hits(bins, specs, periods, chunk_weights, shape, ranges, r, idx) == hits(
                bins,
                specs,
                periods,
                weights,
                shape,
                end,
                idx,
            )
            &&& chunked_total(bins, chunk_weights, ranges, r) == counted_total(bins, weights, end)
        }),
    decreases r,
{
    if r > 0 {
        lemma_chunked_prefix(bins, specs, periods, weights, chunk_weights, shape, ranges, r - 1, idx);
        let (s, e) = (ranges[r - 1].0 as int, ranges[r - 1].1 as int);
        if r >= 2 {
            assert(ranges[r - 2].1 == ranges[r - 1].0);
        }
        lemma_range_ends_in_order(ranges, bins.len() as int, r - 1);
        assert forall|i: int| 0 <= i < e - s implies #[trigger] chunk_weights[r - 1].bit(i) == weights.bit(s + i) by {
            assert(chunk_weights[r - 1].bit(i) == weights.bit(ranges[r - 1].0 + i));
        }
        lemma_one_more_chunk(bins, specs, periods, weights, chunk_weights[r - 1], shape, s, e, idx);
    }
}

proof fn lemma_range_ends_in_order(ranges: Seq<(usize, usize)>, n: int, r: int)
    requires
        tiles(ranges, n),
        0 <= r < ranges.len(),
    ensures
        ranges[r].1 <= n,
    decreases ranges.len() - r,
{
    if r < ranges.len() - 1 {
        assert(ranges[r].1 == ranges[r + 1].0);
        assert(ranges[r + 1].0 <= ranges[r + 1].1);
        lemma_range_ends_in_order(ranges, n, r + 1);
    }
}

/// Counting the events range by range over ranges that cover them in order
/// (those `chunk_ranges` gives), each range with its slice of the weights,
/// and summing the counts as `merge` does, gives the counts and the number
/// of one pass over all the events.
pub proof fn lemma_chunks_sum_to_one_pass(
    bins: Seq<Option<usize>>,
    specs: Seq<u32>,
    periods: Seq<u32>,
    weights: Weights,
    chunk_weights: Seq<Weights>,
    shape: (usize, usize, usize),
    ranges: Seq<(usize, usize)>,
)
    requires
        tiles(ranges, bins.len() as int),
        chunk_weights_match(weights, ranges, chunk_weights),
        specs.len() == bins.len(),
        periods.len() == bins.len(),
    ensures
        forall|idx: int| #[trigger] chunked_hits(bins, specs, periods, chunk_weights, shape, ranges, ranges.len() as int, idx)
            == hits(bins, specs, periods, weights, shape, bins.len() as int, idx),
        chunked_total(bins, chunk_weights, ranges, ranges.len() as int) == counted_total(bins, weights, bins.len() as int),
{
    assert forall|idx: int| #[trigger] chunked_hits(bins, specs, periods, chunk_weights, shape, ranges, ranges.len() as int, idx)
        == hits(bins, specs, periods, weights, shape, bins.len() as int, idx) by {
        lemma_chunked_prefix(bins, specs, periods, weights, chunk_weights, shape, ranges, ranges.len() as int, idx);
    }
    lemma_chunked_prefix(bins, specs, periods, weights, chunk_weights, shape, ranges, ranges.len() as int, 0);
}

/// The histogram counted range by range does not depend on how the events are
/// split into ranges, such as on the chunk size given to `chunk_ranges`.
pub proof fn lemma_chunking_does_not_matter(
    bins: Seq<Option<usize>>,
    specs: Seq<u32>,
    periods: Seq<u32>,
    weights: Weights,
    shape: (usize, usize, usize),
    ranges: Seq<(usize, usize)>,
    chunk_weights: Seq<Weights>,
    other_ranges: Seq<(usize, usize)>,
    other_chunk_weights: Seq<Weights>,
)
    requires
        tiles(ranges, bins.len() as int),
        tiles(other_ranges, bins.len() as int),
        chunk_weights_match(weights, ranges, chunk_weights),
        chunk_weights_match(weights, other_ranges, other_chunk_weights),
        specs.len() == bins.len(),
        periods.len() == bins.len(),
    ensures
        forall|idx: int| #[trigger] chunked_hits(bins, specs, periods, chunk_weights, shape, ranges, ranges.len() as int, idx)
            == chunked_hits(bins, specs, periods, other_chunk_weights, shape, other_ranges, other_ranges.len() as int, idx),
        chunked_total(bins, chunk_weights, ranges, ranges.len() as int) == chunked_total(
            bins,
            other_chunk_weights,
            other_ranges,
            other_ranges.len() as int,
        ),
{
    lemma_chunks_sum_to_one_pass(bins, specs, periods, weights, chunk_weights, shape, ranges);
    lemma_chunks_sum_to_one_pass(bins, specs, periods, weights, other_chunk_weights, shape, other_ranges);
    assert forall|idx: int| #[trigger] chunked_hits(bins, specs, periods, chunk_weights, shape, ranges, ranges.len() as int, idx)
        == chunked_hits(bins, specs, periods, other_chunk_weights, shape, other_ranges, other_ranges.len() as int, idx) by {
        assert(chunked_hits(bins, specs, periods, chunk_weights, shape, ranges, ranges.len() as int, idx) == hits(
            bins,
            specs,
            periods,
            weights,
            shape,
            bins.len() as int,
            idx,
        ));
        assert(chunked_hits(bins, specs, periods, other_chunk_weights, shape, other_ranges, other_ranges.len() as int, idx)
            == hits(bins, specs, periods, weights, shape, bins.len() as int, idx));
    }
}

/// A histogram of events: counts per period, spectrum and time bin, and
/// the number of events counted.
pub struct EventCounts {
    pub hist: Counts,
    pub n: usize,
}

impl EventCounts {
    /// The counts fill the array's shape.
    pub open spec fn wf(&self) -> bool {
        counts_values(self.hist).len() == shape_size(counts_shape(self.hist))
    }

    /// An empty histogram of the given shape.
    pub fn zeros(n_periods: usize, n_spec: usize, n_bins: usize) -> (h: EventCounts)
        requires
            shape_fits(n_periods as int, n_spec as int, n_bins as int),
        ensures
            h.wf(),
            counts_shape(h.hist) == (n_periods, n_spec, n_bins),
            counts_values(h.hist) == Seq::new((n_periods * n_spec * n_bins) as nat, |i: int| 0usize),
            h.n == 0,
            total(counts_values(h.hist)) == h.n,
    {
        let hist = counts_zeros(n_periods, n_spec, n_bins);
        proof {
            lemma_total_zeros((n_periods * n_spec * n_bins) as nat);
        }
        EventCounts { hist, n: 0 }
    }

    /// Add another histogram of the same shape to this one.
    pub fn merge(&mut self, other: &EventCounts)
        requires
            old(self).wf(),
            other.wf(),
            counts_shape(old(self).hist) == counts_shape(other.hist),
            forall|i: int| 0 <= i < counts_values(other.hist).len() ==>
                counts_values(old(self).hist)[i] + counts_values(other.hist)[i] <= usize::MAX,
            old(self).n + other.n <= usize::MAX,
        ensures
            final(self).wf(),
            counts_shape(final(self).hist) == counts_shape(old(self).hist),
            counts_values(final(self).hist) == Seq::new(
                counts_values(old(self).hist).len(),
                |i: int| (counts_values(old(self).hist)[i] + counts_values(other.hist)[i]) as usize,
            ),
            final(self).n == old(self).n + other.n,
            total(counts_values(old(self).hist)) == old(self).n && total(counts_values(other.hist)) == other.n
                ==> total(counts_values(final(self).hist)) == final(self).n,
    {
        proof {
            lemma_total_pointwise_sum(counts_values(self.hist), counts_values(other.hist));
        }
        counts_add_assign(&mut self.hist, &other.hist);
        self.n = self.n + other.n;
    }
}

/// The bounds of the chunks that events are read and counted in: chunk `i`
/// starts at event `i * chunk_size` and holds `chunk_size` events, or the
/// events that are left where fewer are.
///
/// The chunks tile the events: each starts where the one before ends, the
/// first at event 0 and the last ends at `n_events`.
pub fn chunk_ranges(n_events: usize, chunk_size: usize) -> (r: Vec<(usize, usize)>)
    requires
        chunk_size > 0,
    ensures
        n_events == 0 <==> r.len() == 0,
        r.len() > 0 ==> r@[0].0 == 0 && r@[r.len() - 1].1 == n_events,
        r.len() > 0 ==> r@[r.len() - 1].0 + chunk_size >= n_events,
        forall|i: int| 0 <= i < r.len() ==> {
            &&& #[trigger] r@[i].0 < n_events
            &&& r@[i].1 == r@[i].0 + if chunk_size < n_events - r@[i].0 {
                chunk_size as int
            } else {
                n_events - r@[i].0
            }
        },
        forall|i: int| 0 <= i < r.len() - 1 ==> #[trigger] r@[i + 1].0 == r@[i].0 + chunk_size && r@[i].1 == r@[i + 1].0,
        tiles(r@, n_events as int),
{
    let mut r: Vec<(usize, usize)> = Vec::new();
    if n_events == 0 {
        return r;
    }
    let mut start: usize = 0;
    loop
        invariant
            chunk_size > 0,
            start < n_events,
            r.len() == 0 ==> start == 0,
            r.len() > 0 ==> r@[0].0 == 0,
            r.len() > 0 ==> r@[r.len() - 1].0 + chunk_size == start && r@[r.len() - 1].1 == start,
            forall|i: int| 0 <= i < r.len() ==> {
                &&& #[trigger] r@[i].0 < n_events
                &&& r@[i].1 == r@[i].0 + if chunk_size < n_events - r@[i].0 {
                    chunk_size as int
                } else {
                    n_events - r@[i].0
                }
            },
            forall|i: int| 0 <= i < r.len() - 1 ==> #[trigger] r@[i + 1].0 == r@[i].0 + chunk_size && r@[i].1 == r@[i + 1].0,
        ensures
            r.len() > 0,
            r@[0].0 == 0,
            r@[r.len() - 1].1 == n_events,
            r@[r.len() - 1].0 + chunk_size >= n_events,
            forall|i: int| 0 <= i < r.len() ==> {
                &&& #[trigger] r@[i].0 < n_events
                &&& r@[i].1 == r@[i].0 + if chunk_size < n_events - r@[i].0 {
                    chunk_size as int
                } else {
                    n_events - r@[i].0
                }
            },
            forall|i: int| 0 <= i < r.len() - 1 ==> #[trigger] r@[i + 1].0 == r@[i].0 + chunk_size && r@[i].1 == r@[i + 1].0,
        decreases n_events - start,
    {
        let left = n_events - start;
        let end = start + if chunk_size < left { chunk_size } else { left };
        r.push((start, end));
        if chunk_size >= left {
            return r;
        }
        start = start + chunk_size;
    }
}

/// Count events into a histogram.
///
/// Event `k` is counted where its weight is set and its time falls in a bin,
/// `bins[k]`; it is then counted at its period `periods[k]`, spectrum
/// `specs[k]` and that bin. Every counted event adds one to exactly one
/// count, so the counts sum to the number of events counted.
pub fn count_events(
    bins: &Vec<Option<usize>>,
    specs: &Vec<u32>,
    n_spec: usize,
    periods: &Vec<u32>,
    n_periods: usize,
    weights: &Weights,
    n_bins: usize,
) -> (h: EventCounts)
    requires
        bins.len() <= weights.capacity(),
        shape_fits(n_periods as int, n_spec as int, n_bins as int),
        forall|k: int| 0 <= k < bins.len() && #[trigger] counted(bins@, *weights, k) ==> {
            &&& k < specs.len() && k < periods.len()
            &&& periods@[k] < n_periods && specs@[k] < n_spec && bins@[k]->0 < n_bins
        },
    ensures
        h.wf(),
        counts_shape(h.hist) == (n_periods, n_spec, n_bins),
        counts_values(h.hist) == Seq::new(
            (n_periods * n_spec * n_bins) as nat,
            |idx: int| hits(bins@, specs@, periods@, *weights, (n_periods, n_spec, n_bins), bins.len() as int, idx) as usize,
        ),
        h.n == counted_total(bins@, *weights, bins.len() as int),
        total(counts_values(h.hist)) == h.n,
        forall|p: int, s: int, b: int| 0 <= p < n_periods && 0 <= s < n_spec && 0 <= b < n_bins ==>
            #[trigger] counts_values(h.hist)[flat_index((n_periods, n_spec, n_bins), p, s, b)] == events_at(
                bins@,
                specs@,
                periods@,
                *weights,
                bins.len() as int,
                p,
                s,
                b,
            ),
{
    let ghost shape = (n_periods, n_spec, n_bins);
    let ghost size = (n_periods * n_spec * n_bins) as nat;
    let mut result = EventCounts::zeros(n_periods, n_spec, n_bins);
    let mut k: usize = 0;
    proof {
        assert(counts_values(result.hist) =~= Seq::new(size, |idx: int| hits(bins@, specs@, periods@, *weights, shape, 0, idx) as usize));
    }
    while k < bins.len()
        invariant
            k <= bins.len(),
            bins.len() <= weights.capacity(),
            forall|k: int| 0 <= k < bins.len() && #[trigger] counted(bins@, *weights, k) ==> {
                &&& k < specs.len() && k < periods.len()
                &&& periods@[k] < n_periods && specs@[k] < n_spec && bins@[k]->0 < n_bins
            },
            shape == (n_periods, n_spec, n_bins),
            size == shape_size(shape),
            result.wf(),
            counts_shape(result.hist) == shape,
            counts_values(result.hist) == Seq::new(size, |idx: int| hits(bins@, specs@, periods@, *weights, shape, k as int, idx) as usize),
            result.n == counted_total(bins@, *weights, k as int),
            total(counts_values(result.hist)) == result.n,
        decreases bins.len() - k,
    {
        let w_k = weights.index(k);
        if w_k {
            match bins[k] {
                Some(bin) => {
                    assert(counted(bins@, *weights, k as int));
                    let p = periods[k] as usize;
                    let s = specs[k] as usize;
                    let ghost idx = flat_index(shape, p as int, s as int, bin as int);
                    proof {
                        lemma_flat_index_in_bounds(shape, p as int, s as int, bin as int);
                        lemma_hits_bounded(bins@, specs@, periods@, *weights, shape, k as int, idx);
                    }
                    let v = counts_get(&result.hist, p, s, bin);
                    let ghost before = counts_values(result.hist);
                    counts_set(&mut result.hist, p, s, bin, v + 1);
                    proof {
                        lemma_total_update(before, idx, (v + 1) as usize);
                    }
                    result.n = result.n + 1;
                },
                None => {},
            }
        }
        proof {
            lemma_hits_bounded(bins@, specs@, periods@, *weights, shape, k as int + 1, 0);
            assert forall|idx: int| 0 <= idx < size implies #[trigger] counts_values(result.hist)[idx]
                == hits(bins@, specs@, periods@, *weights, shape, k as int + 1, idx) as usize by {
                lemma_hits_bounded(bins@, specs@, periods@, *weights, shape, k as int + 1, idx);
            }
            assert(counts_values(result.hist) =~= Seq::new(size, |idx: int| hits(bins@, specs@, periods@, *weights, shape, k as int + 1, idx) as usize));
        }
        k = k + 1;
    }
    proof {
        assert forall|p: int, s: int, b: int| 0 <= p < n_periods && 0 <= s < n_spec && 0 <= b < n_bins implies
            #[trigger] counts_values(result.hist)[flat_index(shape, p, s, b)] == events_at(
                bins@,
                specs@,
                periods@,
                *weights,
                bins.len() as int,
                p,
                s,
                b,
            ) by {
            lemma_flat_index_in_bounds(shape, p, s, b);
            lemma_hits_bounded(bins@, specs@, periods@, *weights, shape, bins.len() as int, flat_index(shape, p, s, b));
            assert forall|k: int| 0 <= k < bins.len() && weights.bit(k) && #[trigger] bins@[k] is Some implies {
                &&& periods@[k] < shape.0
                &&& specs@[k] < shape.1
                &&& bins@[k]->0 < shape.2
            } by {
                assert(counted(bins@, *weights, k));
            }
            lemma_hits_are_events_at(bins@, specs@, periods@, *weights, shape, bins.len() as int, p, s, b);
        }
    }
    result
}

/// Where event `k` is counted with a weight: its period, spectrum and time
/// bin.
pub open spec fn weighted_index(
    bins: Seq<Option<usize>>,
    specs: Seq<u32>,
    periods: Seq<usize>,
    shape: (usize, usize, usize),
    k: int,
) -> int {
    flat_index(shape, periods[k] as int, specs[k] as int, bins[k]->0 as int)
}

/// Event `k` carries a non-zero weight and its time falls in a bin.
pub open spec fn weighted_counted(bins: Seq<Option<usize>>, weights: Seq<usize>, k: int) -> bool {
    weights[k] != 0 && bins[k] is Some
}

/// The weight that the first `upto` events add at position `idx`.
pub open spec fn weighted_hits(
    bins: Seq<Option<usize>>,
    specs: Seq<u32>,
    periods: Seq<usize>,
    weights: Seq<usize>,
    shape: (usize, usize, usize),
    upto: int,
    idx: int,
) -> int
    decreases upto,
{
    if upto <= 0 {
        0
    } else {
        weighted_hits(bins, specs, periods, weights, shape, upto - 1, idx) + if weighted_counted(bins, weights, upto - 1)
            && weighted_index(bins, specs, periods, shape, upto - 1) == idx {
            weights[upto - 1] as int
        } else {
            0int
        }
    }
}

/// The weight that the first `upto` events add in all.
pub open spec fn weighted_total(bins: Seq<Option<usize>>, weights: Seq<usize>, upto: int) -> int
    decreases upto,
{
    if upto <= 0 {
        0
    } else {
        weighted_total(bins, weights, upto - 1) + if weighted_counted(bins, weights, upto - 1) {
            weights[upto - 1] as int
        } else {
            0int
        }
    }
}

proof fn lemma_weighted_bounded(
    bins: Seq<Option<usize>>,
    specs: Seq<u32>,
    periods: Seq<usize>,
    weights: Seq<usize>,
    shape: (usize, usize, usize),
    upto: int,
    later: int,
    idx: int,
)
    requires
        0 <= upto <= later,
    ensures
        0 <= weighted_hits(bins, specs, periods, weights, shape, upto, idx) <= weighted_total(bins, weights, upto),
        weighted_total(bins, weights, upto) <= weighted_total(bins, weights, later),
    decreases later,
{
    if later > upto {
        lemma_weighted_bounded(bins, specs, periods, weights, shape, upto, later - 1, idx);
    } else if upto > 0 {
        lemma_weighted_bounded(bins, specs, periods, weights, shape, upto - 1, upto - 1, idx);
    }
}

/// The sum of `weights[k]` over the positions `k` of `ks`.
pub open spec fn weight_sum(ks: Seq<int>, weights: Seq<usize>) -> int
    decreases ks.len(),
{
    if ks.len() == 0 {
        0
    } else {
        weight_sum(ks.drop_last(), weights) + weights[ks.last()]
    }
}

/// The sum of the weights of the first `n` events whose weight is not zero,
/// whose time falls in bin `b`, and whose period and spectrum are `p` and
/// `s`.
pub open spec fn weight_at(
    bins: Seq<Option<usize>>,
    specs: Seq<u32>,
    periods: Seq<usize>,
    weights: Seq<usize>,
    n: int,
    p: int,
    s: int,
    b: int,
) -> int {
    weight_sum(
        indices(n).filter(|k: int| weights[k] != 0 && bins[k] == Some(b as usize) && periods[k] == p && specs[k] == s),
        weights,
    )
}

proof fn lemma_filter_weight_step(n: int, weights: Seq<usize>)
    requires
        n > 0,
    ensures
        forall|pred: spec_fn(int) -> bool| #[trigger] weight_sum(indices(n).filter(pred), weights) == weight_sum(
            indices(n - 1).filter(pred),
            weights,
        ) + if pred(n - 1) {
            weights[n - 1] as int
        } else {
            0int
        },
{
    assert forall|pred: spec_fn(int) -> bool| #[trigger] weight_sum(indices(n).filter(pred), weights) == weight_sum(
        indices(n - 1).filter(pred),
        weights,
    ) + if pred(n - 1) {
        weights[n - 1] as int
    } else {
        0int
    } by {
        assert(indices(n) =~= indices(n - 1).push(n - 1));
        indices(n - 1).lemma_filter_push(n - 1, pred);
        let rest = indices(n - 1).filter(pred);
        assert(rest.push(n - 1).drop_last() =~= rest);
    }
}

/// Counted one by one with weights, the count at a position (p, s, b) within
/// the shape is the sum of the weights of the events with a non-zero weight,
/// whose time falls in bin `b`, and whose own period and spectrum numbers are
/// `p` and `s`; so an event's weight goes to no count but the one of its own
/// period, spectrum and bin.
pub proof fn lemma_weighted_hits_are_weight_at(
    bins: Seq<Option<usize>>,
    specs: Seq<u32>,
    periods: Seq<usize>,
    weights: Seq<usize>,
    shape: (usize, usize, usize),
    n: int,
    p: int,
    s: int,
    b: int,
)
    requires
        0 <= n <= bins.len(),
        0 <= p < shape.0,
        0 <= s < shape.1,
        0 <= b < shape.2,
        forall|k: int| 0 <= k < n && weights[k] != 0 && #[trigger] bins[k] is Some ==> {
            &&& periods[k] < shape.0
            &&& specs[k] < shape.1
            &&& bins[k]->0 < shape.2
        },
    ensures
        weighted_hits(bins, specs, periods, weights, shape, n, flat_index(shape, p, s, b)) == weight_at(
            bins,
            specs,
            periods,
            weights,
            n,
            p,
            s,
            b,
        ),
    decreases n,
{
    if n > 0 {
        lemma_weighted_hits_are_weight_at(bins, specs, periods, weights, shape, n - 1, p, s, b);
        let k = n - 1;
        lemma_filter_weight_step(n, weights);
        if weights[k] != 0 && bins[k] is Some {
            assert(bins[k] is Some);
            let bk = bins[k]->0;
            if flat_index(shape, periods[k] as int, specs[k] as int, bk as int) == flat_index(shape, p, s, b) {
                lemma_flat_index_unique(shape, periods[k] as int, specs[k] as int, bk as int, p, s, b);
            }
        }
    }
}

/// Count weighted events into a histogram.
///
/// Event `k` is counted where its weight `weights[k]` is not zero and its
/// time falls in a bin, `bins[k]`; it then adds its weight at its period
/// `periods[k]`, spectrum `specs[k]` and that bin, and to the total. The
/// counts sum to the total.
pub fn count_weighted_events(
    bins: &Vec<Option<usize>>,
    specs: &Vec<u32>,
    n_spec: usize,
    periods: &Vec<usize>,
    n_periods: usize,
    weights: &Vec<usize>,
    n_bins: usize,
) -> (h: EventCounts)
    requires
        bins.len() <= weights.len(),
        shape_fits(n_periods as int, n_spec as int, n_bins as int),
        forall|k: int| 0 <= k < bins.len() && #[trigger] weighted_counted(bins@, weights@, k) ==> {
            &&& k < specs.len() && k < periods.len()
            &&& periods@[k] < n_periods && specs@[k] < n_spec && bins@[k]->0 < n_bins
        },
        weighted_total(bins@, weights@, bins.len() as int) <= usize::MAX,
    ensures
        h.wf(),
        counts_shape(h.hist) == (n_periods, n_spec, n_bins),
        counts_values(h.hist) == Seq::new(
            (n_periods * n_spec * n_bins) as nat,
            |idx: int| weighted_hits(bins@, specs@, periods@, weights@, (n_periods, n_spec, n_bins), bins.len() as int, idx) as usize,
        ),
        h.n == weighted_total(bins@, weights@, bins.len() as int),
        total(counts_values(h.hist)) == h.n,
        forall|p: int, s: int, b: int| 0 <= p < n_periods && 0 <= s < n_spec && 0 <= b < n_bins ==>
            #[trigger] counts_values(h.hist)[flat_index((n_periods, n_spec, n_bins), p, s, b)] == weight_at(
                bins@,
                specs@,
                periods@,
                weights@,
                bins.len() as int,
                p,
                s,
                b,
            ),
{
    let ghost shape = (n_periods, n_spec, n_bins);
    let ghost size = (n_periods * n_spec * n_bins) as nat;
    let ghost len = bins.len() as int;
    let mut result = EventCounts::zeros(n_periods, n_spec, n_bins);
    let mut k: usize = 0;
    proof {
        assert(counts_values(result.hist) =~= Seq::new(size, |idx: int| weighted_hits(bins@, specs@, periods@, weights@, shape, 0, idx) as usize));
    }
    while k < bins.len()
        invariant
            k <= bins.len(),
            len == bins.len(),
            bins.len() <= weights.len(),
            forall|k: int| 0 <= k < bins.len() && #[trigger] weighted_counted(bins@, weights@, k) ==> {
                &&& k < specs.len() && k < periods.len()
                &&& periods@[k] < n_periods && specs@[k] < n_spec && bins@[k]->0 < n_bins
            },
            weighted_total(bins@, weights@, len) <= usize::MAX,
            shape == (n_periods, n_spec, n_bins),
            size == shape_size(shape),
            result.wf(),
            counts_shape(result.hist) == shape,
            counts_values(result.hist) == Seq::new(size, |idx: int| weighted_hits(bins@, specs@, periods@, weights@, shape, k as int, idx) as usize),
            result.n == weighted_total(bins@, weights@, k as int),
            total(counts_values(result.hist)) == result.n,
        decreases bins.len() - k,
    {
        let w_k = weights[k];
        if w_k != 0 {
            match bins[k] {
                Some(bin) => {
                    assert(weighted_counted(bins@, weights@, k as int));
                    let p = periods[k];
                    let s = specs[k] as usize;
                    let ghost idx = flat_index(shape, p as int, s as int, bin as int);
                    proof {
                        lemma_flat_index_in_bounds(shape, p as int, s as int, bin as int);
                        lemma_weighted_bounded(bins@, specs@, periods@, weights@, shape, k as int + 1, len, idx);
                        lemma_weighted_bounded(bins@, specs@, periods@, weights@, shape, k as int, k as int, idx);
                    }
                    let v = counts_get(&result.hist, p, s, bin);
                    let ghost before = counts_values(result.hist);
                    counts_set(&mut result.hist, p, s, bin, v + w_k);
                    proof {
                        lemma_total_update(before, idx, (v + w_k) as usize);
                    }
                    result.n = result.n + w_k;
                },
                None => {},
            }
        }
        proof {
            assert forall|idx: int| 0 <= idx < size implies #[trigger] counts_values(result.hist)[idx]
                == weighted_hits(bins@, specs@, periods@, weights@, shape, k as int + 1, idx) as usize by {
                lemma_weighted_bounded(bins@, specs@, periods@, weights@, shape, k as int + 1, len, idx);
            }
            assert(counts_values(result.hist) =~= Seq::new(size, |idx: int| weighted_hits(bins@, specs@, periods@, weights@, shape, k as int + 1, idx) as usize));
        }
        k = k + 1;
    }
    proof {
        assert forall|p: int, s: int, b: int| 0 <= p < n_periods && 0 <= s < n_spec && 0 <= b < n_bins implies
            #[trigger] counts_values(result.hist)[flat_index(shape, p, s, b)] == weight_at(
                bins@,
                specs@,
                periods@,
                weights@,
                bins.len() as int,
                p,
                s,
                b,
            ) by {
            let idx = flat_index(shape, p, s, b);
            lemma_flat_index_in_bounds(shape, p, s, b);
            lemma_weighted_bounded(bins@, specs@, periods@, weights@, shape, len, len, idx);
            assert forall|k: int| 0 <= k < bins.len() && weights@[k] != 0 && #[trigger] bins@[k] is Some implies {
                &&& periods@[k] < shape.0
                &&& specs@[k] < shape.1
                &&& bins@[k]->0 < shape.2
            } by {
                assert(weighted_counted(bins@, weights@, k));
            }
            lemma_weighted_hits_are_weight_at(bins@, specs@, periods@, weights@, shape, len, p, s, b);
        }
    }
    result
}

/// Event `i` lies in an even-numbered frame among the first `2 * n_filters`
/// frames of `step` events each.
pub open spec fn in_even_frame(step: int, n_filters: int, i: int) -> bool {
    exists|j: int| 0 <= j < n_filters && #[trigger] (2 * j * step) <= i < (2 * j + 1) * step
}

/// The frame starts and filter bounds `every_other_frame_weights` builds
/// can be applied to weights for `n_events` events.
pub open spec fn every_other_frame_fits(n_events: int, n_filters: int) -> bool {
    n_filters > 0 ==> {
        let step = n_events / (2 * n_filters);
        &&& 2 * n_filters <= usize::MAX
        &&& step > 0 ==> (2 * n_filters - 1) * step <= 64 * chunk_count(n_events)
        &&& forall|j: int| 0 <= j < n_filters ==> #[trigger] ((2 * j * step) % 64) == 0 || (2 * j * step) + (64
            - (2 * j * step) % 64) <= usize::MAX
    }
}

proof fn lemma_frame_start_bounds(i: int, n2: int, step: int, n_events: int)
    requires
        0 <= i <= n2,
        n2 > 0,
        0 <= n_events,
        step == n_events / n2,
    ensures
        0 <= i * step <= n2 * step <= n_events,
{
    assert(0 <= i * step <= n2 * step) by (nonlinear_arith)
        requires
            0 <= i <= n2,
            0 <= step,
    ;
    assert(n2 * step <= n_events) by (nonlinear_arith)
        requires
            n2 > 0,
            0 <= n_events,
            step == n_events / n2,
    ;
}

proof fn lemma_frame_order(j: int, step: int, n_filters: int)
    requires
        0 <= j < n_filters,
        0 <= step,
    ensures
        (2 * j) * step == 2 * j * step,
        2 * j * step <= (2 * j + 1) * step,
        (2 * j + 1) * step <= (2 * n_filters - 1) * step,
{
    assert((2 * j) * step == 2 * j * step) by (nonlinear_arith);
    assert(2 * j * step <= (2 * j + 1) * step) by (nonlinear_arith)
        requires
            0 <= step,
    ;
    assert((2 * j + 1) * step <= (2 * n_filters - 1) * step) by (nonlinear_arith)
        requires
            0 <= j < n_filters,
            0 <= step,
    ;
}

proof fn lemma_every_other_frame_applies(
    fs: Seq<usize>,
    fe: Seq<usize>,
    si: Seq<usize>,
    step: int,
    n_filters: int,
    n_events: int,
)
    requires
        n_filters > 0,
        every_other_frame_fits(n_events, n_filters),
        0 <= n_events,
        step == n_events / (2 * n_filters),
        fs.len() == n_filters,
        fe.len() == n_filters,
        forall|m: int| 0 <= m < n_filters ==> #[trigger] fs[m] == 2 * m && fe[m] == 2 * m + 1,
        si.len() == 2 * n_filters + 1,
        forall|k: int| 0 <= k < si.len() ==> #[trigger] si[k] == k * step,
    ensures
        forall|j: int| 0 <= j < filter_count(fs, fe) ==> #[trigger] filter_applies(fs, fe, si, n_events, j),
{
    assert forall|j: int| 0 <= j < filter_count(fs, fe) implies #[trigger] filter_applies(fs, fe, si, n_events, j) by {
        assert(0 <= j < n_filters);
        assert(fs[j] == 2 * j);
        assert(fe[j] == 2 * j + 1);
        assert(si[2 * j] == (2 * j) * step);
        assert(si[2 * j + 1] == (2 * j + 1) * step);
        lemma_frame_order(j, step, n_filters);
        lemma_frame_start_bounds(2 * j, 2 * n_filters, step, n_events);
        lemma_frame_start_bounds(2 * j + 1, 2 * n_filters, step, n_events);
        let lo = si[fs[j] as int] as int;
        let hi = si[fe[j] as int] as int;
        assert(lo == 2 * j * step && hi == (2 * j + 1) * step);
        assert forall|i: int| range_covers(lo, hi, i) implies i < 64 * chunk_count(n_events) by {
            lemma_range_covers_interval(lo, hi, i);
            assert(lo <= i < hi);
            if step == 0 {
                assert(2 * j * step == 0) by (nonlinear_arith)
                    requires
                        step == 0,
                ;
                assert((2 * j + 1) * step == 0) by (nonlinear_arith)
                    requires
                        step == 0,
                ;
            }
            assert(step > 0);
            assert((2 * n_filters - 1) * step <= 64 * chunk_count(n_events));
        }
    }
}

/// Weights that keep the events of every other frame, for trying out the
/// histogram code.
///
/// With no filters all events are kept: the weights are those of
/// `Weights::ones(n_events)`. With `n_filters` filters the events
/// are split into `2 * n_filters` frames of `n_events / (2 * n_filters)`
/// events each, and filter `j` keeps frame `2 * j`: only the events of the
/// even-numbered frames are kept.
pub fn every_other_frame_weights(n_events: usize, n_filters: usize) -> (w: Weights)
    requires
        every_other_frame_fits(n_events as int, n_filters as int),
    ensures
        w.chunks().len() == chunk_count(n_events as int),
        n_filters == 0 ==> w.chunks() == Seq::new(chunk_count(n_events as int) as nat, |i: int| u64::MAX),
        n_filters == 0 ==> forall|i: int| 0 <= i < w.capacity() ==> #[trigger] w.bit(i),
        n_filters > 0 ==> forall|i: int| 0 <= i < w.capacity() ==>
            #[trigger] w.bit(i) == in_even_frame(n_events as int / (2 * n_filters as int), n_filters as int, i),
{
    if n_filters == 0 {
        return Weights::ones(n_events);
    }
    let n2 = 2 * n_filters;
    let frame_step = n_events / n2;
    let mut f_starts: Vec<usize> = Vec::new();
    let mut f_ends: Vec<usize> = Vec::new();
    let mut j: usize = 0;
    while j < n_filters
        invariant
            j <= n_filters,
            n2 == 2 * n_filters,
            f_starts.len() == j,
            f_ends.len() == j,
            forall|m: int| 0 <= m < j ==> #[trigger] f_starts@[m] == 2 * m && f_ends@[m] == 2 * m + 1,
        decreases n_filters - j,
    {
        f_starts.push(2 * j);
        f_ends.push(2 * j + 1);
        j = j + 1;
    }
    let mut frame_starts: Vec<usize> = Vec::new();
    let mut i: usize = 0;
    while i <= n2
        invariant
            i <= n2 + 1,
            n2 == 2 * n_filters,
            n2 > 0,
            frame_step == n_events / n2,
            frame_starts.len() == i,
            forall|k: int| 0 <= k < i ==> #[trigger] frame_starts@[k] == k * frame_step,
            f_starts.len() == n_filters,
            f_ends.len() == n_filters,
            forall|m: int| 0 <= m < n_filters ==> #[trigger] f_starts@[m] == 2 * m && f_ends@[m] == 2 * m + 1,
        decreases n2 + 1 - i,
    {
        proof {
            lemma_frame_start_bounds(i as int, n2 as int, frame_step as int, n_events as int);
        }
        frame_starts.push(i * frame_step);
        i = i + 1;
    }
    let starts = UsizeArray::new(frame_starts);
    proof {
        lemma_every_other_frame_applies(f_starts@, f_ends@, starts@, frame_step as int, n_filters as int, n_events as int);
    }
    let w = get_good_values(f_starts, f_ends, starts, n_events, true);
    proof {
        let (fs, fe, si) = (f_starts@, f_ends@, starts@);
        let step = frame_step as int;
        assert forall|i: int| 0 <= i < w.capacity() implies #[trigger] w.bit(i) == in_even_frame(
            step,
            n_filters as int,
            i,
        ) by {
            if filtered(fs, fe, si, n_filters as int, i) {
                let j = choose|j: int| 0 <= j < n_filters && #[trigger] range_covers(si[fs[j] as int] as int, si[fe[j] as int] as int, i);
                lemma_frame_order(j, step, n_filters as int);
                assert(fs[j] == 2 * j);
                assert(fe[j] == 2 * j + 1);
                assert(si[2 * j] == (2 * j) * step);
                assert(si[2 * j + 1] == (2 * j + 1) * step);
                lemma_range_covers_interval(si[fs[j] as int] as int, si[fe[j] as int] as int, i);
                assert(2 * j * step <= i < (2 * j + 1) * step);
            }
            if in_even_frame(step, n_filters as int, i) {
                let j = choose|j: int| 0 <= j < n_filters && #[trigger] (2 * j * step) <= i < (2 * j + 1) * step;
                lemma_frame_order(j, step, n_filters as int);
                assert(fs[j] == 2 * j);
                assert(fe[j] == 2 * j + 1);
                assert(si[2 * j] == (2 * j) * step);
                assert(si[2 * j + 1] == (2 * j + 1) * step);
                lemma_range_covers_interval(si[fs[j] as int] as int, si[fe[j] as int] as int, i);
                assert(range_covers(si[fs[j] as int] as int, si[fe[j] as int] as int, i));
            }
        }
    }
    w
}

/// Whether `ndarray` can allocate counts of this shape (`shape_fits`).
pub fn shape_can_fit(n_periods: usize, n_spec: usize, n_bins: usize) -> (ok: bool)
    ensures
        ok == shape_fits(n_periods as int, n_spec as int, n_bins as int),
{
    let a: usize = if n_periods == 0 { 1 } else { n_periods };
    let b: usize = if n_spec == 0 { 1 } else { n_spec };
    let c: usize = if n_bins == 0 { 1 } else { n_bins };
    let limit: usize = isize::MAX as usize;
    if a > limit / b {
        assert(a * b > limit) by (nonlinear_arith)
            requires
                b >= 1,
                a > limit / b,
        ;
        assert(a * b * c > limit) by (nonlinear_arith)
            requires
                c >= 1,
                a * b > limit,
        ;
        return false;
    }
    assert(a * b <= limit) by (nonlinear_arith)
        requires
            b >= 1,
            a <= limit / b,
    ;
    let ab = a * b;
    if ab > limit / c {
        assert(ab * c > limit) by (nonlinear_arith)
            requires
                c >= 1,
                ab > limit / c,
        ;
        return false;
    }
    assert(ab * c <= limit) by (nonlinear_arith)
        requires
            c >= 1,
            ab <= limit / c,
    ;
    true
}

/// Whether `count_events` accepts these inputs: there is a weight for every
/// event, the counts can be allocated, and every counted event has a
/// period, spectrum and bin within the shape.
pub fn can_count_events(
    bins: &Vec<Option<usize>>,
    specs: &Vec<u32>,
    n_spec: usize,
    periods: &Vec<u32>,
    n_periods: usize,
    weights: &Weights,
    n_bins: usize,
) -> (ok: bool)
    ensures
        ok == {
            &&& bins.len() <= weights.capacity()
            &&& shape_fits(n_periods as int, n_spec as int, n_bins as int)
            &&& forall|k: int| 0 <= k < bins.len() && #[trigger] counted(bins@, *weights, k) ==> {
                &&& k < specs.len() && k < periods.len()
                &&& periods@[k] < n_periods && specs@[k] < n_spec && bins@[k]->0 < n_bins
            }
        },
{
    let n_chunks = weights.raw_weights().len();
    if n_chunks < bins.len() / 64 + 1 && !(bins.len() % 64 == 0 && n_chunks == bins.len() / 64) {
        return false;
    }
    if !shape_can_fit(n_periods, n_spec, n_bins) {
        return false;
    }
    let mut k: usize = 0;
    while k < bins.len()
        invariant
            k <= bins.len(),
            bins.len() <= weights.capacity(),
            forall|j: int| 0 <= j < k && #[trigger] counted(bins@, *weights, j) ==> {
                &&& j < specs.len() && j < periods.len()
                &&& periods@[j] < n_periods && specs@[j] < n_spec && bins@[j]->0 < n_bins
            },
        decreases bins.len() - k,
    {
        if weights.index(k) {
            match bins[k] {
                Some(bin) => {
                    assert(counted(bins@, *weights, k as int));
                    if k >= specs.len() || k >= periods.len() {
                        return false;
                    }
                    if periods[k] as usize >= n_periods || specs[k] as usize >= n_spec || bin >= n_bins {
                        return false;
                    }
                },
                None => {},
            }
        }
        k = k + 1;
    }
    true
}

/// Whether `every_other_frame_weights` accepts these inputs
/// (`every_other_frame_fits`).
pub fn every_other_frame_can_fit(n_events: usize, n_filters: usize) -> (ok: bool)
    ensures
        ok == every_other_frame_fits(n_events as int, n_filters as int),
{
    if n_filters == 0 {
        return true;
    }
    if n_filters > usize::MAX / 2 {
        return false;
    }
    let n2 = 2 * n_filters;
    let step = n_events / n2;
    let cap_chunks = chunks_for(n_events);
    proof {
        lemma_frame_start_bounds(n2 as int - 1, n2 as int, step as int, n_events as int);
    }
    let last_end = (n2 - 1) * step;
    if step > 0 && last_end / 64 >= cap_chunks && !(last_end % 64 == 0 && last_end / 64 == cap_chunks) {
        return false;
    }
    let mut j: usize = 0;
    while j < n_filters
        invariant
            j <= n_filters,
            n_filters > 0,
            n2 == 2 * n_filters,
            step == n_events / n2,
            forall|m: int| 0 <= m < j ==> #[trigger] ((2 * m * step) % 64) == 0 || (2 * m * step) + (64 - (2 * m
                * step) % 64) <= usize::MAX,
        decreases n_filters - j,
    {
        proof {
            lemma_frame_start_bounds(2 * j as int, n2 as int, step as int, n_events as int);
            assert((2 * j) * step == 2 * j * step) by (nonlinear_arith);
        }
        let lo = 2 * j * step;
        if lo % 64 != 0 && lo > usize::MAX - (64 - lo % 64) {
            return false;
        }
        j = j + 1;
    }
    true
}

/// Whether `count_weighted_events` accepts these inputs: there is a weight
/// for every event, the counts can be allocated, every counted event has a
/// period, spectrum and bin within the shape, and the total weight fits in a
/// `usize`.
pub fn can_count_weighted_events(
    bins: &Vec<Option<usize>>,
    specs: &Vec<u32>,
    n_spec: usize,
    periods: &Vec<usize>,
    n_periods: usize,
    weights: &Vec<usize>,
    n_bins: usize,
) -> (ok: bool)
    ensures
        ok == {
            &&& bins.len() <= weights.len()
            &&& shape_fits(n_periods as int, n_spec as int, n_bins as int)
            &&& forall|k: int| 0 <= k < bins.len() && #[trigger] weighted_counted(bins@, weights@, k) ==> {
                &&& k < specs.len() && k < periods.len()
                &&& periods@[k] < n_periods && specs@[k] < n_spec && bins@[k]->0 < n_bins
            }
            &&& weighted_total(bins@, weights@, bins.len() as int) <= usize::MAX
        },
{
    if bins.len() > weights.len() {
        return false;
    }
    if !shape_can_fit(n_periods, n_spec, n_bins) {
        return false;
    }
    let mut sum: usize = 0;
    let mut k: usize = 0;
    while k < bins.len()
        invariant
            k <= bins.len(),
            bins.len() <= weights.len(),
            sum == weighted_total(bins@, weights@, k as int),
            forall|j: int| 0 <= j < k && #[trigger] weighted_counted(bins@, weights@, j) ==> {
                &&& j < specs.len() && j < periods.len()
                &&& periods@[j] < n_periods && specs@[j] < n_spec && bins@[j]->0 < n_bins
            },
        decreases bins.len() - k,
    {
        if weights[k] != 0 {
            match bins[k] {
                Some(bin) => {
                    assert(weighted_counted(bins@, weights@, k as int));
                    if k >= specs.len() || k >= periods.len() {
                        return false;
                    }
                    if periods[k] >= n_periods || specs[k] as usize >= n_spec || bin >= n_bins {
                        return false;
                    }
                    if sum > usize::MAX - weights[k] {
                        proof {
                            lemma_weighted_bounded(bins@, specs@, periods@, weights@, (0, 0, 0), k as int + 1,
                                bins.len() as int, 0);
                        }
                        return false;
                    }
                    sum = sum + weights[k];
                },
                None => {},
            }
        }
        k = k + 1;
    }
    true
}

} // verus!
