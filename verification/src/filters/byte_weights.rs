//! Weights stored as a string of bits in 8-bit chunks, the most significant
//! bit first: the weight of event `8 * c + j` is bit `7 - j` of byte `c`.
//!
//! Indexing adds `padding` to the byte position; every weights array made
//! here has a padding of 0.
use vstd::prelude::*;

verus! {

/// Bit `j` (counted from the least significant) of the byte `b`.
pub open spec fn byte_bit(b: u8, j: int) -> bool {
    (b >> (j as u8)) & 1u8 == 1u8
}

/// The weight at position `i` of a sequence of bytes, ignoring any padding.
pub open spec fn bytes_bit(s: Seq<u8>, i: int) -> bool {
    byte_bit(s[i / 8], 7 - i % 8)
}

proof fn lemma_byte_set_clear(c: u8, k: u8, j: u8)
    by (bit_vector)
    requires
        k < 8,
        j < 8,
    ensures
        ((c | (1u8 << k)) >> j) & 1u8 == 1u8 <==> (j == k || (c >> j) & 1u8 == 1u8),
        ((c & !(1u8 << k)) >> j) & 1u8 == 1u8 <==> (j != k && (c >> j) & 1u8 == 1u8),
{
}

proof fn lemma_byte_full_empty(j: u8)
    by (bit_vector)
    requires
        j < 8,
    ensures
        (255u8 >> j) & 1u8 == 1u8,
        !((0u8 >> j) & 1u8 == 1u8),
{
}

/// The number of bytes needed to reach position `end`: `end / 8` rounded up.
pub open spec fn bytes_upto(end: int) -> int {
    if end % 8 == 0 {
        end / 8
    } else {
        end / 8 + 1
    }
}

/// Byte `c` of `s` moved up by `shift` bits (towards the most significant),
/// with the high bits of the next byte (if any) moved into its bottom.
pub open spec fn shifted_byte(s: Seq<u8>, c: int, shift: u8) -> u8 {
    if shift == 0 {
        s[c]
    } else if c + 1 < s.len() {
        (s[c] << shift) | (s[c + 1] >> ((8 - shift) as u8))
    } else {
        s[c] << shift
    }
}

proof fn lemma_byte_shift_combine(x: u8, y: u8, k: u8, b: u8)
    by (bit_vector)
    requires
        0 < k < 8,
        b < 8,
    ensures
        ((((x << k) | (y >> ((8 - k) as u8))) >> ((7 - b) as u8)) & 1u8 == 1u8) == if b + k < 8 {
            (x >> ((7 - b - k) as u8)) & 1u8 == 1u8
        } else {
            (y >> ((15 - b - k) as u8)) & 1u8 == 1u8
        },
        (((x << k) >> ((7 - b) as u8)) & 1u8 == 1u8) == (b + k < 8 && (x >> ((7 - b - k) as u8)) & 1u8 == 1u8),
{
}

/// Struct to store weights as a bit string.
/// This provides convenience methods that hide
/// the internal bit string representation.
#[derive(Debug, PartialEq)]
pub struct Weights {
    raw_weights: Vec<u8>,
    padding: usize,
}

impl Weights {
    /// The bytes that hold the weights.
    pub closed spec fn bytes(&self) -> Seq<u8> {
        self.raw_weights@
    }

    /// How many bytes indexing skips at the start.
    pub closed spec fn pad(&self) -> int {
        self.padding as int
    }

    /// The weight held at position `i` of the bytes.
    pub open spec fn bit(&self, i: int) -> bool {
        bytes_bit(self.bytes(), i)
    }

    /// The weight that indexing gives at position `i`.
    pub open spec fn indexed(&self, i: int) -> bool {
        byte_bit(self.bytes()[i / 8 + self.pad()], 7 - i % 8)
    }

    /// The number of weights that the bytes hold.
    pub open spec fn capacity(&self) -> int {
        8 * self.bytes().len() as int
    }

    /// Create an array of all ones weights.
    pub fn ones(len: usize) -> (w: Self)
        ensures
            w.bytes() == Seq::new((len / 8 + 1) as nat, |i: int| 255u8),
            w.pad() == 0,
            forall|i: int| 0 <= i < w.capacity() ==> #[trigger] w.bit(i),
    {
        let w = Weights { raw_weights: vec![255u8; len / 8 + 1], padding: 0 };
        proof {
            assert(w.bytes() =~= Seq::new((len / 8 + 1) as nat, |i: int| 255u8));
            assert forall|i: int| 0 <= i < w.capacity() implies #[trigger] w.bit(i) by {
                lemma_byte_full_empty((7 - i % 8) as u8);
            }
        }
        w
    }

    /// Create an array of all zero weights.
    pub fn zeros(len: usize) -> (w: Self)
        ensures
            w.bytes() == Seq::new((len / 8 + 1) as nat, |i: int| 0u8),
            w.pad() == 0,
            forall|i: int| 0 <= i < w.capacity() ==> !#[trigger] w.bit(i),
    {
        let w = Weights { raw_weights: vec![0u8; len / 8 + 1], padding: 0 };
        proof {
            assert(w.bytes() =~= Seq::new((len / 8 + 1) as nat, |i: int| 0u8));
            assert forall|i: int| 0 <= i < w.capacity() implies !#[trigger] w.bit(i) by {
                lemma_byte_full_empty((7 - i % 8) as u8);
            }
        }
        w
    }

    /// The raw bytes that hold the weights.
    pub fn raw_weights(&self) -> (raw: &Vec<u8>)
        ensures
            raw@ == self.bytes(),
    {
        &self.raw_weights
    }

    /// How many bytes indexing skips at the start.
    pub fn padding(&self) -> (p: usize)
        ensures
            p == self.pad(),
    {
        self.padding
    }

    /// Set the weight at a given index to a given value.
    pub fn set_weight(&mut self, index: usize, set_to: bool)
        requires
            index < old(self).capacity(),
        ensures
            final(self).bytes().len() == old(self).bytes().len(),
            final(self).pad() == old(self).pad(),
            forall|i: int| 0 <= i < old(self).capacity() ==>
                #[trigger] final(self).bit(i) == if i == index { set_to } else { old(self).bit(i) },
    {
        let c = index / 8;
        let k = (7 - index % 8) as u8;
        let byte = self.raw_weights[c];
        let updated = if set_to { byte | (1u8 << k) } else { byte & !(1u8 << k) };
        self.raw_weights.set(c, updated);
        proof {
            assert forall|i: int| 0 <= i < old(self).capacity() implies
                #[trigger] self.bit(i) == if i == index { set_to } else { old(self).bit(i) } by {
                if i / 8 == c {
                    lemma_byte_set_clear(byte, k, (7 - i % 8) as u8);
                }
            }
        }
    }

    /// The weight at a given index.
    pub fn index(&self, index: usize) -> (b: bool)
        requires
            index / 8 + self.pad() < self.bytes().len(),
        ensures
            b == self.indexed(index as int),
    {
        let k = (7 - index % 8) as u8;
        assert(self.raw_weights.len() == self.bytes().len());
        (self.raw_weights[index / 8 + self.padding] >> k) & 1u8 == 1u8
    }

    /// Get an interval of weights between indices `start` and `end`.
    ///
    /// The bytes from the one that holds `start` up to the one that holds
    /// the last weight before `end` are taken, and moved up so that the
    /// weight at `start` comes first: weight `i` of the slice is weight
    /// `start + i` of these weights, or clear past their end.
    pub fn slice(&self, start: usize, end: usize) -> (w: Weights)
        requires
            start / 8 <= bytes_upto(end as int) <= self.bytes().len(),
        ensures
            w.bytes().len() == bytes_upto(end as int) - start / 8,
            w.pad() == 0,
            start % 8 == 0 ==> w.bytes() == self.bytes().subrange(start as int / 8, bytes_upto(end as int)),
            forall|i: int| 0 <= i < w.capacity() ==>
                #[trigger] w.bit(i) == (start + i < self.capacity() && self.bit(start + i)),
            forall|i: int| 0 <= i < end - start ==> i < w.capacity() && #[trigger] w.bit(i) == self.bit(start + i),
    {
        let first = start / 8;
        let last = if end % 8 == 0 { end / 8 } else { end / 8 + 1 };
        let shift = (start % 8) as u8;
        let len = self.raw_weights.len();
        let mut raw: Vec<u8> = Vec::new();
        let mut c = first;
        while c < last
            invariant
                first <= c <= last,
                last <= len,
                len == self.bytes().len(),
                shift == start % 8,
                first == start / 8,
                raw.len() == c - first,
                forall|j: int| 0 <= j < raw.len() ==>
                    #[trigger] raw@[j] == shifted_byte(self.bytes(), first + j, shift),
            decreases last - c,
        {
            let high = self.raw_weights[c];
            let byte = if shift == 0 {
                high
            } else if c + 1 < len {
                (high << shift) | (self.raw_weights[c + 1] >> (8 - shift))
            } else {
                high << shift
            };
            raw.push(byte);
            c = c + 1;
        }
        let w = Weights { raw_weights: raw, padding: 0 };
        proof {
            if start % 8 == 0 {
                assert(w.bytes() =~= self.bytes().subrange(start as int / 8, bytes_upto(end as int)));
            }
            assert forall|i: int| 0 <= i < w.capacity() implies
                #[trigger] w.bit(i) == (start + i < self.capacity() && self.bit(start + i)) by {
                let j = i / 8;
                let b = i % 8;
                let p = start + i;
                assert(p == 8 * (first + j) + shift + b);
                let next: u8 = if first + j + 1 < len { self.bytes()[first + j + 1] } else { 0 };
                if shift == 0 {
                    assert(p / 8 == first + j && p % 8 == b);
                } else if b + shift < 8 {
                    assert(p / 8 == first + j && p % 8 == b + shift);
                    lemma_byte_shift_combine(self.bytes()[first + j], next, shift, b as u8);
                } else {
                    assert(p / 8 == first + j + 1 && p % 8 == b + shift - 8);
                    lemma_byte_shift_combine(self.bytes()[first + j], next, shift, b as u8);
                }
            }
        }
        w
    }

    /// Create a weights array from a sequence of booleans: the weight at
    /// position `k` is `values[k]`.
    pub fn from_bools(values: &Vec<bool>) -> (w: Weights)
        ensures
            w.bytes().len() == values.len() / 8 + 1,
            w.pad() == 0,
            forall|i: int| 0 <= i < w.capacity() ==> #[trigger] w.bit(i) == (i < values.len() && values@[i]),
    {
        let mut w = Weights::zeros(values.len());
        let mut k: usize = 0;
        while k < values.len()
            invariant
                k <= values.len(),
                w.bytes().len() == values.len() / 8 + 1,
                w.pad() == 0,
                forall|i: int| 0 <= i < w.capacity() ==> #[trigger] w.bit(i) == (i < k && values@[i]),
            decreases values.len() - k,
        {
            w.set_weight(k, values[k]);
            k = k + 1;
        }
        w
    }
}

} // verus!
