//! An array of binary weights stored as a string of bits in 64-bit chunks.
//!
//! A weight of 1 for an event means that the event is included in a
//! histogram, a weight of 0 that it is left out. Within a chunk the bits are
//! stored least significant first: the weight of event `64 * c + j` is bit
//! `j` of chunk `c`.
use rayon::iter::{IndexedParallelIterator, IntoParallelRefIterator, ParallelIterator};
use vstd::prelude::*;

verus! {

/// Bit `j` (counted from the least significant) of the chunk `w`.
pub open spec fn chunk_bit(w: u64, j: int) -> bool {
    (w >> (j as u64)) & 1u64 == 1u64
}

/// The weight at position `i` of a sequence of chunks.
pub open spec fn seq_bit(s: Seq<u64>, i: int) -> bool {
    chunk_bit(s[i / 64], i % 64)
}

/// The number of chunks that hold `len` weights: `len / 64` rounded up, and
/// at least one.
pub open spec fn chunk_count(len: int) -> int {
    if len <= 64 {
        1
    } else if len % 64 == 0 {
        len / 64
    } else {
        len / 64 + 1
    }
}

/// The number of chunks that `len` weights need, computed.
pub(crate) fn chunks_for(len: usize) -> (n: usize)
    ensures
        n == chunk_count(len as int),
        len <= 64 * n,
{
    if len <= 64 {
        1
    } else if len % 64 == 0 {
        len / 64
    } else {
        len / 64 + 1
    }
}

/// `x` rounded up to a multiple of 64.
pub open spec fn round_up(x: int) -> int {
    if x % 64 == 0 {
        x
    } else {
        x + (64 - x % 64)
    }
}

/// `x` rounded down to a multiple of 64.
pub open spec fn round_down(x: int) -> int {
    x - x % 64
}

/// Whether `set_range(start, end, _)` writes the weight at position `i`.
///
/// Within one chunk this is `start <= i < end`. Across chunks it is the
/// partial chunk after `start`, the whole chunks between, and the partial
/// chunk before `end`; when `start <= end` this is again `start <= i < end`.
pub open spec fn range_covers(start: int, end: int, i: int) -> bool {
    if start / 64 == end / 64 {
        start <= i < end
    } else {
        ||| start <= i < round_up(start)
        ||| round_up(start) <= i < round_down(end)
        ||| round_down(end) <= i < end
    }
}

/// The number of chunks needed to reach position `end`: `end / 64` rounded
/// up.
pub open spec fn chunks_upto(end: int) -> int {
    if end % 64 == 0 {
        end / 64
    } else {
        end / 64 + 1
    }
}

/// Chunk `c` of `s` moved down by `shift` bits, with the low bits of the
/// next chunk (if any) moved into its top.
pub open spec fn shifted_chunk(s: Seq<u64>, c: int, shift: u64) -> u64 {
    if shift == 0 {
        s[c]
    } else if c + 1 < s.len() {
        (s[c] >> shift) | (s[c + 1] << ((64 - shift) as u64))
    } else {
        s[c] >> shift
    }
}

proof fn lemma_shift_combine(x: u64, y: u64, k: u64, b: u64)
    by (bit_vector)
    requires
        0 < k < 64,
        b < 64,
    ensures
        ((((x >> k) | (y << ((64 - k) as u64))) >> b) & 1u64 == 1u64) == if b + k < 64 {
            (x >> ((b + k) as u64)) & 1u64 == 1u64
        } else {
            (y >> ((b + k - 64) as u64)) & 1u64 == 1u64
        },
        (((x >> k) >> b) & 1u64 == 1u64) == (b + k < 64 && (x >> ((b + k) as u64)) & 1u64 == 1u64),
{
}

/// The chunks of `x` complemented one by one.
pub open spec fn not_chunks(x: Seq<u64>) -> Seq<u64> {
    Seq::new(x.len(), |i: int| !x[i])
}

/// The chunks of `x` and `y` combined pairwise by bitwise and, as far as the
/// shorter of the two reaches.
pub open spec fn and_chunks(x: Seq<u64>, y: Seq<u64>) -> Seq<u64> {
    Seq::new(if x.len() < y.len() { x.len() } else { y.len() }, |i: int| x[i] & y[i])
}

/// When `start <= end`, `set_range(start, end, _)` writes exactly the weights
/// at the positions `start <= i < end`.
pub proof fn lemma_range_covers_interval(start: int, end: int, i: int)
    requires
        0 <= start <= end,
    ensures
        range_covers(start, end, i) <==> start <= i < end,
{
}

/// Inverting all weights twice gives the original weights back.
pub proof fn lemma_not_involution(x: Seq<u64>)
    ensures
        not_chunks(not_chunks(x)) == x,
{
    assert forall|i: int| 0 <= i < x.len() implies not_chunks(not_chunks(x))[i] == x[i] by {
        let c = x[i];
        assert(!(!c) == c) by (bit_vector);
    }
    assert(not_chunks(not_chunks(x)) =~= x);
}

/// Combining weights by `bitand` does not depend on the order of the operands.
pub proof fn lemma_and_commutative(x: Seq<u64>, y: Seq<u64>)
    ensures
        and_chunks(x, y) == and_chunks(y, x),
{
    assert forall|i: int| 0 <= i < and_chunks(x, y).len() implies and_chunks(x, y)[i] == and_chunks(y, x)[i] by {
        let (a, b) = (x[i], y[i]);
        assert(a & b == b & a) by (bit_vector);
    }
    assert(and_chunks(x, y) =~= and_chunks(y, x));
}

/// Combining weights with an all-ones set of at least as many chunks keeps
/// them, and combining them with an all-zeros set gives all zeros.
pub proof fn lemma_and_ones_zeros(x: Seq<u64>, n: int)
    requires
        x.len() <= n,
    ensures
        and_chunks(x, Seq::new(n as nat, |i: int| u64::MAX)) == x,
        and_chunks(x, Seq::new(n as nat, |i: int| 0u64)) == Seq::new(x.len(), |i: int| 0u64),
{
    let ones = Seq::new(n as nat, |i: int| u64::MAX);
    let zeros = Seq::new(n as nat, |i: int| 0u64);
    assert forall|i: int| 0 <= i < x.len() implies and_chunks(x, ones)[i] == x[i] && and_chunks(x, zeros)[i] == 0 by {
        let a = x[i];
        assert(a & 0xffff_ffff_ffff_ffffu64 == a && a & 0u64 == 0u64) by (bit_vector);
    }
    assert(and_chunks(x, ones) =~= x);
    assert(and_chunks(x, zeros) =~= Seq::new(x.len(), |i: int| 0u64));
}

/// Inverting an all-zeros set gives an all-ones set, and the reverse.
pub proof fn lemma_not_zeros_ones(n: nat)
    ensures
        not_chunks(Seq::new(n, |i: int| 0u64)) == Seq::new(n, |i: int| u64::MAX),
        not_chunks(Seq::new(n, |i: int| u64::MAX)) == Seq::new(n, |i: int| 0u64),
{
    assert(!0u64 == 0xffff_ffff_ffff_ffffu64 && !0xffff_ffff_ffff_ffffu64 == 0u64) by (bit_vector);
    assert(not_chunks(Seq::new(n, |i: int| 0u64)) =~= Seq::new(n, |i: int| u64::MAX));
    assert(not_chunks(Seq::new(n, |i: int| u64::MAX)) =~= Seq::new(n, |i: int| 0u64));
}

proof fn lemma_chunk_ext_bits(x: u64, y: u64)
    by (bit_vector)
    requires
        ((x >> 0u64) & 1u64 == 1u64) == ((y >> 0u64) & 1u64 == 1u64),
        ((x >> 1u64) & 1u64 == 1u64) == ((y >> 1u64) & 1u64 == 1u64),
        ((x >> 2u64) & 1u64 == 1u64) == ((y >> 2u64) & 1u64 == 1u64),
        ((x >> 3u64) & 1u64 == 1u64) == ((y >> 3u64) & 1u64 == 1u64),
        ((x >> 4u64) & 1u64 == 1u64) == ((y >> 4u64) & 1u64 == 1u64),
        ((x >> 5u64) & 1u64 == 1u64) == ((y >> 5u64) & 1u64 == 1u64),
        ((x >> 6u64) & 1u64 == 1u64) == ((y >> 6u64) & 1u64 == 1u64),
        ((x >> 7u64) & 1u64 == 1u64) == ((y >> 7u64) & 1u64 == 1u64),
        ((x >> 8u64) & 1u64 == 1u64) == ((y >> 8u64) & 1u64 == 1u64),
        ((x >> 9u64) & 1u64 == 1u64) == ((y >> 9u64) & 1u64 == 1u64),
        ((x >> 10u64) & 1u64 == 1u64) == ((y >> 10u64) & 1u64 == 1u64),
        ((x >> 11u64) & 1u64 == 1u64) == ((y >> 11u64) & 1u64 == 1u64),
        ((x >> 12u64) & 1u64 == 1u64) == ((y >> 12u64) & 1u64 == 1u64),
        ((x >> 13u64) & 1u64 == 1u64) == ((y >> 13u64) & 1u64 == 1u64),
        ((x >> 14u64) & 1u64 == 1u64) == ((y >> 14u64) & 1u64 == 1u64),
        ((x >> 15u64) & 1u64 == 1u64) == ((y >> 15u64) & 1u64 == 1u64),
        ((x >> 16u64) & 1u64 == 1u64) == ((y >> 16u64) & 1u64 == 1u64),
        ((x >> 17u64) & 1u64 == 1u64) == ((y >> 17u64) & 1u64 == 1u64),
        ((x >> 18u64) & 1u64 == 1u64) == ((y >> 18u64) & 1u64 == 1u64),
        ((x >> 19u64) & 1u64 == 1u64) == ((y >> 19u64) & 1u64 == 1u64),
        ((x >> 20u64) & 1u64 == 1u64) == ((y >> 20u64) & 1u64 == 1u64),
        ((x >> 21u64) & 1u64 == 1u64) == ((y >> 21u64) & 1u64 == 1u64),
        ((x >> 22u64) & 1u64 == 1u64) == ((y >> 22u64) & 1u64 == 1u64),
        ((x >> 23u64) & 1u64 == 1u64) == ((y >> 23u64) & 1u64 == 1u64),
        ((x >> 24u64) & 1u64 == 1u64) == ((y >> 24u64) & 1u64 == 1u64),
        ((x >> 25u64) & 1u64 == 1u64) == ((y >> 25u64) & 1u64 == 1u64),
        ((x >> 26u64) & 1u64 == 1u64) == ((y >> 26u64) & 1u64 == 1u64),
        ((x >> 27u64) & 1u64 == 1u64) == ((y >> 27u64) & 1u64 == 1u64),
        ((x >> 28u64) & 1u64 == 1u64) == ((y >> 28u64) & 1u64 == 1u64),
        ((x >> 29u64) & 1u64 == 1u64) == ((y >> 29u64) & 1u64 == 1u64),
        ((x >> 30u64) & 1u64 == 1u64) == ((y >> 30u64) & 1u64 == 1u64),
        ((x >> 31u64) & 1u64 == 1u64) == ((y >> 31u64) & 1u64 == 1u64),
        ((x >> 32u64) & 1u64 == 1u64) == ((y >> 32u64) & 1u64 == 1u64),
        ((x >> 33u64) & 1u64 == 1u64) == ((y >> 33u64) & 1u64 == 1u64),
        ((x >> 34u64) & 1u64 == 1u64) == ((y >> 34u64) & 1u64 == 1u64),
        ((x >> 35u64) & 1u64 == 1u64) == ((y >> 35u64) & 1u64 == 1u64),
        ((x >> 36u64) & 1u64 == 1u64) == ((y >> 36u64) & 1u64 == 1u64),
        ((x >> 37u64) & 1u64 == 1u64) == ((y >> 37u64) & 1u64 == 1u64),
        ((x >> 38u64) & 1u64 == 1u64) == ((y >> 38u64) & 1u64 == 1u64),
        ((x >> 39u64) & 1u64 == 1u64) == ((y >> 39u64) & 1u64 == 1u64),
        ((x >> 40u64) & 1u64 == 1u64) == ((y >> 40u64) & 1u64 == 1u64),
        ((x >> 41u64) & 1u64 == 1u64) == ((y >> 41u64) & 1u64 == 1u64),
        ((x >> 42u64) & 1u64 == 1u64) == ((y >> 42u64) & 1u64 == 1u64),
        ((x >> 43u64) & 1u64 == 1u64) == ((y >> 43u64) & 1u64 == 1u64),
        ((x >> 44u64) & 1u64 == 1u64) == ((y >> 44u64) & 1u64 == 1u64),
        ((x >> 45u64) & 1u64 == 1u64) == ((y >> 45u64) & 1u64 == 1u64),
        ((x >> 46u64) & 1u64 == 1u64) == ((y >> 46u64) & 1u64 == 1u64),
        ((x >> 47u64) & 1u64 == 1u64) == ((y >> 47u64) & 1u64 == 1u64),
        ((x >> 48u64) & 1u64 == 1u64) == ((y >> 48u64) & 1u64 == 1u64),
        ((x >> 49u64) & 1u64 == 1u64) == ((y >> 49u64) & 1u64 == 1u64),
        ((x >> 50u64) & 1u64 == 1u64) == ((y >> 50u64) & 1u64 == 1u64),
        ((x >> 51u64) & 1u64 == 1u64) == ((y >> 51u64) & 1u64 == 1u64),
        ((x >> 52u64) & 1u64 == 1u64) == ((y >> 52u64) & 1u64 == 1u64),
        ((x >> 53u64) & 1u64 == 1u64) == ((y >> 53u64) & 1u64 == 1u64),
        ((x >> 54u64) & 1u64 == 1u64) == ((y >> 54u64) & 1u64 == 1u64),
        ((x >> 55u64) & 1u64 == 1u64) == ((y >> 55u64) & 1u64 == 1u64),
        ((x >> 56u64) & 1u64 == 1u64) == ((y >> 56u64) & 1u64 == 1u64),
        ((x >> 57u64) & 1u64 == 1u64) == ((y >> 57u64) & 1u64 == 1u64),
        ((x >> 58u64) & 1u64 == 1u64) == ((y >> 58u64) & 1u64 == 1u64),
        ((x >> 59u64) & 1u64 == 1u64) == ((y >> 59u64) & 1u64 == 1u64),
        ((x >> 60u64) & 1u64 == 1u64) == ((y >> 60u64) & 1u64 == 1u64),
        ((x >> 61u64) & 1u64 == 1u64) == ((y >> 61u64) & 1u64 == 1u64),
        ((x >> 62u64) & 1u64 == 1u64) == ((y >> 62u64) & 1u64 == 1u64),
        ((x >> 63u64) & 1u64 == 1u64) == ((y >> 63u64) & 1u64 == 1u64),
    ensures
        x == y,
{
}

/// Two chunks with the same 64 weights are the same chunk.
pub proof fn lemma_chunk_ext(x: u64, y: u64)
    requires
        forall|j: int| 0 <= j < 64 ==> #[trigger] chunk_bit(x, j) == chunk_bit(y, j),
    ensures
        x == y,
{
    assert(chunk_bit(x, 0) == chunk_bit(y, 0));
    assert(chunk_bit(x, 1) == chunk_bit(y, 1));
    assert(chunk_bit(x, 2) == chunk_bit(y, 2));
    assert(chunk_bit(x, 3) == chunk_bit(y, 3));
    assert(chunk_bit(x, 4) == chunk_bit(y, 4));
    assert(chunk_bit(x, 5) == chunk_bit(y, 5));
    assert(chunk_bit(x, 6) == chunk_bit(y, 6));
    assert(chunk_bit(x, 7) == chunk_bit(y, 7));
    assert(chunk_bit(x, 8) == chunk_bit(y, 8));
    assert(chunk_bit(x, 9) == chunk_bit(y, 9));
    assert(chunk_bit(x, 10) == chunk_bit(y, 10));
    assert(chunk_bit(x, 11) == chunk_bit(y, 11));
    assert(chunk_bit(x, 12) == chunk_bit(y, 12));
    assert(chunk_bit(x, 13) == chunk_bit(y, 13));
    assert(chunk_bit(x, 14) == chunk_bit(y, 14));
    assert(chunk_bit(x, 15) == chunk_bit(y, 15));
    assert(chunk_bit(x, 16) == chunk_bit(y, 16));
    assert(chunk_bit(x, 17) == chunk_bit(y, 17));
    assert(chunk_bit(x, 18) == chunk_bit(y, 18));
    assert(chunk_bit(x, 19) == chunk_bit(y, 19));
    assert(chunk_bit(x, 20) == chunk_bit(y, 20));
    assert(chunk_bit(x, 21) == chunk_bit(y, 21));
    assert(chunk_bit(x, 22) == chunk_bit(y, 22));
    assert(chunk_bit(x, 23) == chunk_bit(y, 23));
    assert(chunk_bit(x, 24) == chunk_bit(y, 24));
    assert(chunk_bit(x, 25) == chunk_bit(y, 25));
    assert(chunk_bit(x, 26) == chunk_bit(y, 26));
    assert(chunk_bit(x, 27) == chunk_bit(y, 27));
    assert(chunk_bit(x, 28) == chunk_bit(y, 28));
    assert(chunk_bit(x, 29) == chunk_bit(y, 29));
    assert(chunk_bit(x, 30) == chunk_bit(y, 30));
    assert(chunk_bit(x, 31) == chunk_bit(y, 31));
    assert(chunk_bit(x, 32) == chunk_bit(y, 32));
    assert(chunk_bit(x, 33) == chunk_bit(y, 33));
    assert(chunk_bit(x, 34) == chunk_bit(y, 34));
    assert(chunk_bit(x, 35) == chunk_bit(y, 35));
    assert(chunk_bit(x, 36) == chunk_bit(y, 36));
    assert(chunk_bit(x, 37) == chunk_bit(y, 37));
    assert(chunk_bit(x, 38) == chunk_bit(y, 38));
    assert(chunk_bit(x, 39) == chunk_bit(y, 39));
    assert(chunk_bit(x, 40) == chunk_bit(y, 40));
    assert(chunk_bit(x, 41) == chunk_bit(y, 41));
    assert(chunk_bit(x, 42) == chunk_bit(y, 42));
    assert(chunk_bit(x, 43) == chunk_bit(y, 43));
    assert(chunk_bit(x, 44) == chunk_bit(y, 44));
    assert(chunk_bit(x, 45) == chunk_bit(y, 45));
    assert(chunk_bit(x, 46) == chunk_bit(y, 46));
    assert(chunk_bit(x, 47) == chunk_bit(y, 47));
    assert(chunk_bit(x, 48) == chunk_bit(y, 48));
    assert(chunk_bit(x, 49) == chunk_bit(y, 49));
    assert(chunk_bit(x, 50) == chunk_bit(y, 50));
    assert(chunk_bit(x, 51) == chunk_bit(y, 51));
    assert(chunk_bit(x, 52) == chunk_bit(y, 52));
    assert(chunk_bit(x, 53) == chunk_bit(y, 53));
    assert(chunk_bit(x, 54) == chunk_bit(y, 54));
    assert(chunk_bit(x, 55) == chunk_bit(y, 55));
    assert(chunk_bit(x, 56) == chunk_bit(y, 56));
    assert(chunk_bit(x, 57) == chunk_bit(y, 57));
    assert(chunk_bit(x, 58) == chunk_bit(y, 58));
    assert(chunk_bit(x, 59) == chunk_bit(y, 59));
    assert(chunk_bit(x, 60) == chunk_bit(y, 60));
    assert(chunk_bit(x, 61) == chunk_bit(y, 61));
    assert(chunk_bit(x, 62) == chunk_bit(y, 62));
    assert(chunk_bit(x, 63) == chunk_bit(y, 63));
    lemma_chunk_ext_bits(x, y);
}

/// Two weights arrays of the same length whose weights are complements of
/// each other hold complemented chunks.
pub proof fn lemma_complement_chunks(w: Weights, v: Weights)
    requires
        v.chunks().len() == w.chunks().len(),
        forall|i: int| 0 <= i < w.capacity() ==> #[trigger] v.bit(i) == !w.bit(i),
    ensures
        v.chunks() == not_chunks(w.chunks()),
{
    assert forall|c: int| 0 <= c < w.chunks().len() implies v.chunks()[c] == not_chunks(w.chunks())[c] by {
        let x = w.chunks()[c];
        assert forall|j: int| 0 <= j < 64 implies #[trigger] chunk_bit(v.chunks()[c], j) == chunk_bit(!x, j) by {
            let i = 64 * c + j;
            assert(i / 64 == c && i % 64 == j);
            assert(v.bit(i) == !w.bit(i));
            lemma_bit_and_not(x, 0, j as u64);
        }
        lemma_chunk_ext(v.chunks()[c], !x);
    }
    assert(v.chunks() =~= not_chunks(w.chunks()));
}

proof fn lemma_bit_set_clear(c: u64, k: u64, j: u64)
    by (bit_vector)
    requires
        k < 64,
        j < 64,
    ensures
        ((c | (1u64 << k)) >> j) & 1u64 == 1u64 <==> (j == k || (c >> j) & 1u64 == 1u64),
        ((c & !(1u64 << k)) >> j) & 1u64 == 1u64 <==> (j != k && (c >> j) & 1u64 == 1u64),
{
}

proof fn lemma_bit_full_empty(j: u64)
    by (bit_vector)
    requires
        j < 64,
    ensures
        (0xffff_ffff_ffff_ffffu64 >> j) & 1u64 == 1u64,
        !((0u64 >> j) & 1u64 == 1u64),
{
}

proof fn lemma_bit_and_not(x: u64, y: u64, j: u64)
    by (bit_vector)
    requires
        j < 64,
    ensures
        ((x & y) >> j) & 1u64 == 1u64 <==> ((x >> j) & 1u64 == 1u64 && (y >> j) & 1u64 == 1u64),
        ((!x) >> j) & 1u64 == 1u64 <==> !((x >> j) & 1u64 == 1u64),
{
}

/// Struct to store weights as a bit string.
/// The bits are stored in 64-bit chunks.
#[derive(Debug, PartialEq)]
pub struct Weights {
    // Each chunk is stored least significant bit first: for the second chunk
    // (weights 64-127) the weight for value 64 is the rightmost binary digit.
    raw_weights: Vec<u64>,
    offset: usize,
}

impl Weights {
    /// Slices move their weights down so that the first weight is bit 0 of
    /// the first chunk: no weights array is read from an offset.
    #[verifier::type_invariant]
    spec fn offset_is_zero(self) -> bool {
        self.offset == 0
    }

    /// The chunks that hold the weights.
    pub closed spec fn chunks(&self) -> Seq<u64> {
        self.raw_weights@
    }

    /// The weight at position `i`.
    pub open spec fn bit(&self, i: int) -> bool {
        seq_bit(self.chunks(), i)
    }

    /// The number of weights that the chunks hold.
    pub open spec fn capacity(&self) -> int {
        64 * self.chunks().len() as int
    }
}

impl Weights {
    /// Create an array of all ones weights.
    pub fn ones(len: usize) -> (w: Self)
        ensures
            len <= w.capacity(),
            w.chunks() == Seq::new(chunk_count(len as int) as nat, |i: int| u64::MAX),
            forall|i: int| 0 <= i < w.capacity() ==> w.bit(i),
    {
        let n = chunks_for(len);
        let w = Weights { raw_weights: vec![u64::MAX; n], offset: 0 };
        proof {
            assert(w.chunks() =~= Seq::new(chunk_count(len as int) as nat, |i: int| u64::MAX));
            assert forall|i: int| 0 <= i < w.capacity() implies w.bit(i) by {
                lemma_bit_full_empty((i % 64) as u64);
            }
        }
        w
    }

    /// Create an array of all zero weights.
    pub fn zeros(len: usize) -> (w: Self)
        ensures
            len <= w.capacity(),
            w.chunks() == Seq::new(chunk_count(len as int) as nat, |i: int| 0u64),
            forall|i: int| 0 <= i < w.capacity() ==> !w.bit(i),
    {
        let n = chunks_for(len);
        let w = Weights { raw_weights: vec![0u64; n], offset: 0 };
        proof {
            assert(w.chunks() =~= Seq::new(chunk_count(len as int) as nat, |i: int| 0u64));
            assert forall|i: int| 0 <= i < w.capacity() implies !w.bit(i) by {
                lemma_bit_full_empty((i % 64) as u64);
            }
        }
        w
    }

    /// Create a weights array from a raw weight vector.
    pub fn from_raw(raw_weights: Vec<u64>) -> (w: Self)
        ensures
            w.chunks() == raw_weights@,
    {
        Weights { raw_weights, offset: 0 }
    }

    /// Moves the chunks out, leaving no chunks behind.
    fn take_raw(&mut self) -> (raw: Vec<u64>)
        ensures
            raw@ == old(self).chunks(),
            final(self).chunks().len() == 0,
    {
        let mut taken = Weights { raw_weights: Vec::new(), offset: 0 };
        std::mem::swap(self, &mut taken);
        taken.raw_weights
    }

    /// Set the weight at a given index to a given value.
    pub fn set_weight(&mut self, index: usize, set_to: bool)
        requires
            index < old(self).capacity(),
        ensures
            final(self).chunks().len() == old(self).chunks().len(),
            forall|i: int| 0 <= i < old(self).capacity() ==>
                #[trigger] final(self).bit(i) == if i == index { set_to } else { old(self).bit(i) },
    {
        let c = index / 64;
        let k = (index % 64) as u64;
        let mut raw = self.take_raw();
        let chunk = raw[c];
        let updated = if set_to { chunk | (1u64 << k) } else { chunk & !(1u64 << k) };
        raw.set(c, updated);
        *self = Weights { raw_weights: raw, offset: 0 };
        proof {
            assert forall|i: int| 0 <= i < old(self).capacity() implies
                #[trigger] self.bit(i) == if i == index { set_to } else { old(self).bit(i) } by {
                if i / 64 == c {
                    lemma_bit_set_clear(chunk, k, (i % 64) as u64);
                }
            }
        }
    }
}

impl Weights {
    /// Set a range of weights to a given value.
    pub fn set_range(&mut self, start: usize, end: usize, set_to: bool)
        requires
            start % 64 == 0 || start + (64 - start % 64) <= usize::MAX,
            forall|i: int| range_covers(start as int, end as int, i) ==> i < old(self).capacity(),
        ensures
            final(self).chunks().len() == old(self).chunks().len(),
            forall|i: int| 0 <= i < old(self).capacity() ==>
                #[trigger] final(self).bit(i) == if range_covers(start as int, end as int, i) {
                    set_to
                } else {
                    old(self).bit(i)
                },
    {
        let ghost before = *self;
        // round start up to the nearest chunk
        let first_byte = if start % 64 == 0 { start } else { start + (64 - start % 64) };
        // round end down to the nearest chunk
        let last_byte = if end % 64 == 0 { end } else { end - end % 64 };

        // if all weights are within one chunk, just set and exit.
        if start / 64 == end / 64 {
            let mut index = start;
            while index < end
                invariant
                    start <= index,
                    index <= end || index == start,
                    start / 64 == end / 64,
                    self.chunks().len() == before.chunks().len(),
                    forall|i: int| range_covers(start as int, end as int, i) ==> i < before.capacity(),
                    forall|i: int| 0 <= i < before.capacity() ==>
                        #[trigger] self.bit(i) == if start <= i < index { set_to } else { before.bit(i) },
                decreases end - index,
            {
                assert(range_covers(start as int, end as int, index as int));
                self.set_weight(index, set_to);
                index = index + 1;
            }
            return;
        }

        // set bits individually where we aren't setting the full chunk
        let mut index = start;
        while index < first_byte
            invariant
                start <= index <= first_byte,
                start / 64 != end / 64,
                first_byte == round_up(start as int),
                self.chunks().len() == before.chunks().len(),
                forall|i: int| range_covers(start as int, end as int, i) ==> i < before.capacity(),
                forall|i: int| 0 <= i < before.capacity() ==>
                    #[trigger] self.bit(i) == if start <= i < index { set_to } else { before.bit(i) },
            decreases first_byte - index,
        {
            assert(range_covers(start as int, end as int, index as int));
            self.set_weight(index, set_to);
            index = index + 1;
        }
        let ghost after_head = *self;
        let mut index = last_byte;
        while index < end
            invariant
                last_byte <= index <= end,
                start / 64 != end / 64,
                first_byte == round_up(start as int),
                last_byte == round_down(end as int),
                self.chunks().len() == before.chunks().len(),
                forall|i: int| range_covers(start as int, end as int, i) ==> i < before.capacity(),
                forall|i: int| 0 <= i < before.capacity() ==>
                    #[trigger] self.bit(i) == if last_byte <= i < index { set_to } else { after_head.bit(i) },
            decreases end - index,
        {
            assert(range_covers(start as int, end as int, index as int));
            self.set_weight(index, set_to);
            index = index + 1;
        }
        let ghost after_tail = *self;

        // set the full chunks in between
        let value: u64 = if set_to { u64::MAX } else { 0 };
        let mut raw = self.take_raw();
        let mut c = first_byte / 64;
        while c < last_byte / 64
            invariant
                first_byte / 64 <= c,
                c <= last_byte / 64 || c == first_byte / 64,
                first_byte % 64 == 0,
                last_byte % 64 == 0,
                start / 64 != end / 64,
                first_byte == round_up(start as int),
                last_byte == round_down(end as int),
                raw@.len() == before.chunks().len(),
                after_tail.chunks().len() == before.chunks().len(),
                forall|i: int| range_covers(start as int, end as int, i) ==> i < before.capacity(),
                forall|j: int| 0 <= j < raw@.len() ==>
                    #[trigger] raw@[j] == if first_byte / 64 <= j < c { value } else { after_tail.chunks()[j] },
            decreases last_byte / 64 - c,
        {
            assert(range_covers(start as int, end as int, 64 * c as int));
            raw.set(c, value);
            c = c + 1;
        }
        *self = Weights { raw_weights: raw, offset: 0 };
        proof {
            assert forall|i: int| 0 <= i < before.capacity() implies
                #[trigger] self.bit(i) == if range_covers(start as int, end as int, i) {
                    set_to
                } else {
                    before.bit(i)
                } by {
                if first_byte <= i < last_byte {
                    assert(first_byte / 64 <= i / 64 < last_byte / 64);
                    lemma_bit_full_empty((i % 64) as u64);
                } else {
                    assert(!(first_byte / 64 <= i / 64 < last_byte / 64));
                    assert(self.chunks()[i / 64] == after_tail.chunks()[i / 64]);
                    assert(self.bit(i) == after_tail.bit(i));
                    assert(after_tail.bit(i) == if last_byte <= i < end { set_to } else { after_head.bit(i) });
                    assert(after_head.bit(i) == if start <= i < first_byte { set_to } else { before.bit(i) });
                }
            }
        }
    }
}

impl Weights {
    /// The raw chunks that hold the weights.
    pub fn raw_weights(&self) -> (raw: &Vec<u64>)
        ensures
            raw@ == self.chunks(),
    {
        &self.raw_weights
    }

    /// The weight at a given index.
    pub fn index(&self, index: usize) -> (b: bool)
        requires
            index < self.capacity(),
        ensures
            b == self.bit(index as int),
    {
        proof {
            use_type_invariant(self);
        }
        let k = (index % 64) as u64;
        (self.raw_weights[index / 64 + self.offset] >> k) & 1u64 == 1u64
    }

    /// Get an interval of weights between indices `start` and `end`.
    ///
    /// The chunks from the one that holds `start` up to the one that holds
    /// the last weight before `end` are taken, and moved down so that the
    /// weight at `start` comes first: weight `i` of the slice is weight
    /// `start + i` of these weights, or clear past their end. Where `start`
    /// is on a chunk boundary the slice holds exactly those chunks.
    pub fn slice(&self, start: usize, end: usize) -> (w: Weights)
        requires
            start / 64 <= chunks_upto(end as int) <= self.chunks().len(),
        ensures
            w.chunks().len() == chunks_upto(end as int) - start / 64,
            start % 64 == 0 ==> w.chunks() == self.chunks().subrange(start as int / 64, chunks_upto(end as int)),
            forall|i: int| 0 <= i < w.capacity() ==>
                #[trigger] w.bit(i) == (start + i < self.capacity() && self.bit(start + i)),
            forall|i: int| 0 <= i < end - start ==> i < w.capacity() && #[trigger] w.bit(i) == self.bit(start + i),
    {
        // the chunk that holds start, and the chunk after the one that holds
        // the last weight before end
        let first = start / 64;
        let last = if end % 64 == 0 { end / 64 } else { end / 64 + 1 };
        let shift = (start % 64) as u64;
        let len = self.raw_weights.len();
        let mut raw: Vec<u64> = Vec::new();
        let mut c = first;
        while c < last
            invariant
                first <= c <= last,
                last <= len,
                len == self.chunks().len(),
                shift == start % 64,
                first == start / 64,
                raw.len() == c - first,
                forall|j: int| 0 <= j < raw.len() ==>
                    #[trigger] raw@[j] == shifted_chunk(self.chunks(), first + j, shift),
            decreases last - c,
        {
            let low = self.raw_weights[c];
            let chunk = if shift == 0 {
                low
            } else if c + 1 < len {
                (low >> shift) | (self.raw_weights[c + 1] << (64 - shift))
            } else {
                low >> shift
            };
            raw.push(chunk);
            c = c + 1;
        }
        let w = Weights { raw_weights: raw, offset: 0 };
        proof {
            if start % 64 == 0 {
                assert(w.chunks() =~= self.chunks().subrange(start as int / 64, chunks_upto(end as int)));
            }
            assert forall|i: int| 0 <= i < w.capacity() implies
                #[trigger] w.bit(i) == (start + i < self.capacity() && self.bit(start + i)) by {
                let j = i / 64;
                let b = i % 64;
                let p = start + i;
                assert(p == 64 * (first + j) + shift + b);
                if shift == 0 {
                    assert(p / 64 == first + j && p % 64 == b);
                } else if b + shift < 64 {
                    assert(p / 64 == first + j && p % 64 == b + shift);
                    lemma_shift_combine(self.chunks()[first + j], if first + j + 1 < len { self.chunks()[first + j + 1] } else { 0 }, shift, b as u64);
                } else {
                    assert(p / 64 == first + j + 1 && p % 64 == b + shift - 64);
                    lemma_shift_combine(self.chunks()[first + j], if first + j + 1 < len { self.chunks()[first + j + 1] } else { 0 }, shift, b as u64);
                }
            }
        }
        w
    }
}

/// The bitwise and of two chunks.
pub fn and_chunk(x: u64, y: u64) -> (r: u64)
    ensures
        r == x & y,
{
    x & y
}

/// The bitwise complement of a chunk.
pub fn not_chunk(x: u64) -> (r: u64)
    ensures
        r == !x,
{
    !x
}

/// Combines two chunk vectors pairwise with `and_chunk` on rayon's thread
/// pool. Rayon's `zip` stops at the shorter input and `collect` into a `Vec`
/// keeps the order of an indexed parallel iterator, so the result holds
/// `x[i] & y[i]` at each index below the shorter length.
#[verifier::external_body]
fn par_and_chunks(x: &Vec<u64>, y: &Vec<u64>) -> (r: Vec<u64>)
    ensures
        r@.len() == if x@.len() < y@.len() { x@.len() } else { y@.len() },
        forall|i: int| 0 <= i < r@.len() ==> #[trigger] r@[i] == x@[i] & y@[i],
{
    x.par_iter().zip(y.par_iter()).map(|(a, b)| and_chunk(*a, *b)).collect()
}

/// Complements every chunk with `not_chunk` on rayon's thread pool; `collect`
/// keeps the order, so the result holds `!x[i]` at each index of `x`.
#[verifier::external_body]
fn par_not_chunks(x: &Vec<u64>) -> (r: Vec<u64>)
    ensures
        r@.len() == x@.len(),
        forall|i: int| 0 <= i < r@.len() ==> #[trigger] r@[i] == !x@[i],
{
    x.par_iter().map(|a| not_chunk(*a)).collect()
}

impl Weights {
    /// Combine two weight sets: a weight is set where it is set in both.
    pub fn bitand(self, rhs: Weights) -> (w: Weights)
        ensures
            w.chunks() == and_chunks(self.chunks(), rhs.chunks()),
            forall|i: int| 0 <= i < w.capacity() ==> #[trigger] w.bit(i) == (self.bit(i) && rhs.bit(i)),
    {
        proof {
            use_type_invariant(&self);
            use_type_invariant(&rhs);
        }
        // weights are only ever combined as full sets, never as slices
        let w = Weights { raw_weights: par_and_chunks(&self.raw_weights, &rhs.raw_weights), offset: 0 };
        proof {
            assert(w.chunks() =~= and_chunks(self.chunks(), rhs.chunks()));
            assert forall|i: int| 0 <= i < w.capacity() implies #[trigger] w.bit(i) == (self.bit(i) && rhs.bit(i)) by {
                lemma_bit_and_not(self.chunks()[i / 64], rhs.chunks()[i / 64], (i % 64) as u64);
            }
        }
        w
    }

    /// Invert every weight.
    pub fn not(self) -> (w: Weights)
        ensures
            w.chunks() == not_chunks(self.chunks()),
            forall|i: int| 0 <= i < w.capacity() ==> #[trigger] w.bit(i) == !self.bit(i),
    {
        proof {
            use_type_invariant(&self);
        }
        let w = Weights { raw_weights: par_not_chunks(&self.raw_weights), offset: self.offset };
        proof {
            assert(w.chunks() =~= not_chunks(self.chunks()));
            assert forall|i: int| 0 <= i < w.capacity() implies #[trigger] w.bit(i) == !self.bit(i) by {
                lemma_bit_and_not(self.chunks()[i / 64], 0, (i % 64) as u64);
            }
        }
        w
    }

    /// Create a weights array from a sequence of booleans: the weight at
    /// position `k` is `values[k]`.
    pub fn from_bools(values: &Vec<bool>) -> (w: Weights)
        ensures
            w.chunks().len() == chunk_count(values.len() as int),
            forall|i: int| 0 <= i < w.capacity() ==> #[trigger] w.bit(i) == (i < values.len() && values@[i]),
    {
        let mut w = Weights::zeros(values.len());
        let mut k: usize = 0;
        while k < values.len()
            invariant
                k <= values.len(),
                w.chunks().len() == chunk_count(values.len() as int),
                values.len() <= w.capacity(),
                forall|i: int| 0 <= i < w.capacity() ==> #[trigger] w.bit(i) == (i < k && values@[i]),
            decreases values.len() - k,
        {
            w.set_weight(k, values[k]);
            k = k + 1;
        }
        w
    }
}

} // verus!
