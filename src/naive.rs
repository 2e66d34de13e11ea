//! The packed array: `length` elements of `width` bits each, laid out back
//! to back in 64-bit words. Element `i` covers the bit positions
//! `i * width .. (i + 1) * width` of the buffer, where position `p` is bit
//! `63 - p % 64` of word `p / 64`: an element's first bits sit at the high end
//! of its first word, and one that crosses a word boundary continues at the
//! high end of the next word.
use vstd::prelude::*;
use crate::bits::{
    lemma_cross_masks, lemma_high_part, lemma_masked_agree, lemma_mask_range_disjoint,
    lemma_one_shifted, lemma_single_mask, lemma_write_cross, lemma_write_single, lemma_zero_word,
    low_ones, mask_range,
};

verus! {

/// Number of words that hold `length` elements of `width` bits:
/// `ceil(width * length / 64)`.
pub open spec fn word_count(width: u8, length: usize) -> int {
    (width * length + 63) / 64
}

/// Whether `value` can be written with `width` bits, that is
/// `value <= 2^width - 1`.
pub open spec fn fits(value: u64, width: u8) -> bool {
    value <= low_ones(width as u64)
}

/// The element at `index`, read from `words`: the bits at positions
/// `index * width .. (index + 1) * width`, most significant first. Either
/// they lie in one word, or they start at position `o` of one word and end
/// in the leading `o + width - 64` bits of the next.
pub open spec fn field(words: Seq<u64>, width: u8, index: int) -> u64 {
    let p = index * width;
    let k = p / 64;
    let o = (p % 64) as u64;
    let w = width as u64;
    if o + w <= 64 {
        (words[k] & mask_range(o, (o + w) as u64)) >> ((64 - o - w) as u64)
    } else {
        let w2 = (o + w - 64) as u64;
        ((words[k] & mask_range(o, 64)) << w2) | ((words[k + 1] & mask_range(0, w2)) >> ((64
            - w2) as u64))
    }
}

/// A fixed-size array of unsigned integers, each `width` bits wide.
pub struct LogArray {
    data: Vec<u64>,
    width: u8,
    length: usize,
}

/// Where an element starts: a word and a bit position inside it.
#[derive(Clone, Copy)]
struct LogArrayPos {
    u64_index: usize,
    offset: u8,
}

/// A mask selecting an element's bits in one word, and how far they are
/// shifted from their place in the element's value.
#[derive(Clone, Copy)]
struct LogArrayMask {
    mask: u64,
    shift: u8,
}

impl View for LogArray {
    type V = Seq<u64>;

    /// The elements, in order.
    closed spec fn view(&self) -> Seq<u64> {
        Seq::new(self.length as nat, |i: int| field(self.data@, self.width, i))
    }
}

impl LogArray {
    /// Bits per element.
    pub closed spec fn spec_width(&self) -> u8 {
        self.width
    }

    /// Number of elements.
    pub closed spec fn spec_length(&self) -> usize {
        self.length
    }

    /// The backing words.
    pub closed spec fn spec_words(&self) -> Seq<u64> {
        self.data@
    }

    /// The width lies in `1..=64` and the buffer has exactly the words that
    /// the elements need.
    pub closed spec fn wf(&self) -> bool {
        &&& 1 <= self.width <= 64
        &&& self.data@.len() == word_count(self.width, self.length)
    }
}

/// The words of element `index` lie inside a buffer of `word_count` words:
/// its first word, and the next one where it crosses into it.
proof fn lemma_words_in_range(width: u8, length: usize, index: int)
    requires
        1 <= width <= 64,
        0 <= index < length,
    ensures
        ({
            let p = index * width;
            &&& p == 64 * (p / 64) + p % 64
            &&& 0 <= p / 64 < word_count(width, length)
            &&& p % 64 + width > 64 ==> p / 64 + 1 < word_count(width, length)
            &&& word_count(width, length) <= length
        }),
{
    let p = index * width;
    let total = width * length;
    assert((total + 63) / 64 <= length) by (nonlinear_arith)
        requires
            total == width * length,
            width <= 64,
    ;
    assert(p + width <= total) by (nonlinear_arith)
        requires
            p == index * width,
            total == width * length,
            0 <= index < length,
            width >= 1,
    ;
    assert(p >= 0) by (nonlinear_arith)
        requires
            p == index * width,
            index >= 0,
            width >= 1,
    ;
}

impl LogArray {
    /// Words needed for `length` elements of `width` bits, computed in 128
    /// bits so that `width * length` cannot overflow.
    fn required_data_len(width: u8, length: usize) -> (r: usize)
        requires
            width <= 64,
        ensures
            r == word_count(width, length),
    {
        assert(length as u128 * width as u128 <= 64 * 0xffff_ffff_ffff_ffffu128) by (
        nonlinear_arith)
            requires
                width <= 64,
                length <= 0xffff_ffff_ffff_ffffu128,
        ;
        let bit_length: u128 = length as u128 * width as u128;
        let u64_length: u128 = (bit_length + 63) / 64;
        assert(u64_length <= length) by (nonlinear_arith)
            requires
                u64_length == (bit_length + 63) / 64,
                bit_length == length * width,
                width <= 64,
        ;
        u64_length as usize
    }

    /// A zero-filled array of `length` elements, each `width` bits wide.
    /// The width lies in `1..=64`: a width of zero is not accepted.
    pub fn new(width: u8, length: usize) -> (r: LogArray)
        requires
            1 <= width <= 64,
        ensures
            r.wf(),
            r.spec_width() == width,
            r.spec_length() == length,
            r.spec_words().len() == word_count(width, length),
            r@ == Seq::new(length as nat, |i: int| 0u64),
    {
        let data_len = Self::required_data_len(width, length);
        let data = vec![0u64; data_len];
        let r = LogArray { data, width, length };
        assert forall|i: int| 0 <= i < length implies field(r.data@, width, i) == 0u64 by {
            lemma_words_in_range(width, length, i);
            let p = i * width;
            let o = (p % 64) as u64;
            lemma_zero_word(mask_range(o, (o + width) as u64), (64 - o - width) as u64);
            lemma_zero_word(mask_range(o, 64), (o + width - 64) as u64);
            lemma_zero_word(mask_range(0, (o + width - 64) as u64), (128 - o - width) as u64);
            assert(0u64 | 0u64 == 0u64) by (bit_vector);
        }
        assert(r@ =~= Seq::new(length as nat, |i: int| 0u64));
        r
    }
}

/// The word and the bit position inside it where element `index` starts.
fn pos(width: u8, index: usize) -> (r: LogArrayPos)
    requires
        width <= 64,
    ensures
        r.u64_index == (index * width) / 64,
        r.offset == (index * width) % 64,
{
    assert(index as u128 * width as u128 <= 64 * 0xffff_ffff_ffff_ffffu128) by (nonlinear_arith)
        requires
            width <= 64,
            index <= 0xffff_ffff_ffff_ffffu128,
    ;
    let bit_index: u128 = index as u128 * width as u128;
    assert(bit_index / 64 <= index) by (nonlinear_arith)
        requires
            bit_index == index * width,
            width <= 64,
    ;
    let u64_index = (bit_index / 64) as usize;
    let offset = (bit_index % 64) as u8;
    LogArrayPos { u64_index, offset }
}

/// Mask and shift of an element that lies in one word, from position
/// `offset` on.
fn shift_mask_1(width: u8, offset: u8) -> (r: LogArrayMask)
    requires
        1 <= width <= 64,
        offset + width <= 64,
    ensures
        r.mask == mask_range(offset as u64, (offset + width) as u64),
        r.shift == 64 - offset - width,
{
    let ones: u64 = if width == 64 {
        // all bits set: `1 << 64` does not exist
        !0u64
    } else {
        proof {
            lemma_one_shifted(width as u64);
        }
        (1u64 << width) - 1
    };
    assert(ones == low_ones(width as u64));
    let shift: u8 = 64 - offset - width;
    proof {
        lemma_single_mask(width as u64, offset as u64);
    }
    // the ones never reach the top of the word, so this shift is the rotation
    // that places them
    let mask = ones << shift;
    LogArrayMask { mask, shift }
}

/// Masks and shifts of an element that starts at position `offset` of one
/// word and ends in the next: the first for its high `64 - offset` bits,
/// which end the first word, the second for its remaining low bits, which
/// start the next word.
fn shift_mask_2(width: u8, offset: u8) -> (r: (LogArrayMask, LogArrayMask))
    requires
        width <= 64,
        offset < 64,
        offset + width > 64,
    ensures
        r.0.mask == mask_range(offset as u64, 64),
        r.0.shift == offset + width - 64,
        r.1.mask == mask_range(0, (offset + width - 64) as u64),
        r.1.shift == 128 - offset - width,
{
    let width1: u8 = 64 - offset;
    let width2: u8 = width - width1;
    proof {
        lemma_one_shifted(width1 as u64);
        lemma_one_shifted((64 - width2) as u64);
        lemma_cross_masks(offset as u64, width2 as u64);
    }
    let mask1: u64 = (1u64 << width1) - 1;
    let mask2: u64 = !((1u64 << (64 - width2)) - 1);
    let shift1 = width2;
    let shift2 = 64 - width2;
    (LogArrayMask { mask: mask1, shift: shift1 }, LogArrayMask { mask: mask2, shift: shift2 })
}

/// What a store into element `index` may change in `words`: the bits of
/// that element, and nothing else.
pub open spec fn touches_only(old: Seq<u64>, new: Seq<u64>, width: u8, index: int) -> bool {
    let p = index * width;
    let k = p / 64;
    let o = (p % 64) as u64;
    let w = width as u64;
    &&& new.len() == old.len()
    &&& forall|t: int|
        0 <= t < old.len() && t != k && !(o + w > 64 && t == k + 1) ==> new[t] == old[t]
    &&& o + w <= 64 ==> new[k] & !mask_range(o, (o + w) as u64) == old[k] & !mask_range(
        o,
        (o + w) as u64,
    )
    &&& o + w > 64 ==> new[k] & !mask_range(o, 64) == old[k] & !mask_range(o, 64)
    &&& o + w > 64 ==> new[k + 1] & !mask_range(0, (o + w - 64) as u64) == old[k + 1]
        & !mask_range(0, (o + w - 64) as u64)
}

/// Positions `lo..hi` of word `t` keep their bits under a store into
/// element `index`, where they lie outside that element.
proof fn lemma_part_kept(old: Seq<u64>, new: Seq<u64>, width: u8, index: int, t: int, lo: u64, hi: u64)
    requires
        1 <= width <= 64,
        touches_only(old, new, width, index),
        0 <= t < old.len(),
        lo <= hi <= 64,
        ({
            let p = index * width;
            let k = p / 64;
            let o = p % 64;
            &&& t == k && o + width <= 64 ==> hi <= o || o + width <= lo
            &&& t == k && o + width > 64 ==> hi <= o
            &&& t == k + 1 && o + width > 64 ==> o + width - 64 <= lo
        }),
    ensures
        new[t] & mask_range(lo, hi) == old[t] & mask_range(lo, hi),
{
    let p = index * width;
    let k = p / 64;
    let o = (p % 64) as u64;
    let w = width as u64;
    if t == k && o + w <= 64 {
        if hi <= o {
            lemma_mask_range_disjoint(lo, hi, o, (o + w) as u64);
        } else {
            lemma_mask_range_disjoint(o, (o + w) as u64, lo, hi);
        }
        lemma_masked_agree(new[t], old[t], mask_range(o, (o + w) as u64), mask_range(lo, hi));
    } else if t == k && o + w > 64 {
        lemma_mask_range_disjoint(lo, hi, o, 64);
        lemma_masked_agree(new[t], old[t], mask_range(o, 64), mask_range(lo, hi));
    } else if t == k + 1 && o + w > 64 {
        lemma_mask_range_disjoint(0, (o + w - 64) as u64, lo, hi);
        lemma_masked_agree(
            new[t],
            old[t],
            mask_range(0, (o + w - 64) as u64),
            mask_range(lo, hi),
        );
    }
}

/// A store into element `i` leaves every other element `j` as it was.
pub proof fn lemma_other_field_kept(
    old: Seq<u64>,
    new: Seq<u64>,
    width: u8,
    length: usize,
    i: int,
    j: int,
)
    requires
        1 <= width <= 64,
        old.len() == word_count(width, length),
        touches_only(old, new, width, i),
        0 <= i < length,
        0 <= j < length,
        i != j,
    ensures
        field(new, width, j) == field(old, width, j),
{
    lemma_words_in_range(width, length, i);
    lemma_words_in_range(width, length, j);
    let pi = i * width;
    let pj = j * width;
    if j < i {
        assert(pj + width <= pi) by (nonlinear_arith)
            requires
                pi == i * width,
                pj == j * width,
                j < i,
        ;
    } else {
        assert(pi + width <= pj) by (nonlinear_arith)
            requires
                pi == i * width,
                pj == j * width,
                i < j,
        ;
    }
    let kj = pj / 64;
    let oj = (pj % 64) as u64;
    let w = width as u64;
    if oj + w <= 64 {
        lemma_part_kept(old, new, width, i, kj, oj, (oj + w) as u64);
    } else {
        lemma_part_kept(old, new, width, i, kj, oj, 64);
        lemma_part_kept(old, new, width, i, kj + 1, 0, (oj + w - 64) as u64);
    }
}

impl LogArray {
    /// The element at `index`, in the low `width` bits of the result.
    pub fn load(&self, index: usize) -> (r: u64)
        requires
            self.wf(),
            index < self.spec_length(),
        ensures
            r == self@[index as int],
    {
        let LogArrayPos { u64_index, offset } = pos(self.width, index);
        proof {
            lemma_words_in_range(self.width, self.length, index as int);
        }
        if offset + self.width <= 64 {
            // everything fits within one word
            let LogArrayMask { mask, shift } = shift_mask_1(self.width, offset);
            let value_shifted = self.data[u64_index];
            (value_shifted & mask) >> shift
        } else {
            // crosses over into the next word
            let (
                LogArrayMask { mask: mask1, shift: shift1 },
                // no mask needed: the shift drops the other bits
                LogArrayMask { mask: _, shift: shift2 },
            ) = shift_mask_2(self.width, offset);
            let value_shifted1 = self.data[u64_index];
            let value_1 = (value_shifted1 & mask1) << shift1;
            let value_shifted2 = self.data[u64_index + 1];
            let value_2 = value_shifted2 >> shift2;
            proof {
                lemma_high_part(value_shifted2, shift1 as u64);
            }
            value_1 | value_2
        }
    }

    /// Overwrites the element at `index` with `value`, which must fit in
    /// `width` bits; every other element keeps its value.
    pub fn store(&mut self, index: usize, value: u64)
        requires
            old(self).wf(),
            index < old(self).spec_length(),
            fits(value, old(self).spec_width()),
        ensures
            final(self).wf(),
            final(self).spec_width() == old(self).spec_width(),
            final(self).spec_length() == old(self).spec_length(),
            final(self).spec_words().len() == old(self).spec_words().len(),
            final(self)@ == old(self)@.update(index as int, value),
    {
        let LogArrayPos { u64_index, offset } = pos(self.width, index);
        proof {
            lemma_words_in_range(self.width, self.length, index as int);
        }
        let ghost old_words = self.data@;
        if offset + self.width <= 64 {
            // everything fits within one word
            let LogArrayMask { mask, shift } = shift_mask_1(self.width, offset);
            proof {
                lemma_write_single(self.data[u64_index as int], value, offset as u64, self.width as u64);
            }
            let word = (self.data[u64_index] & !mask) | (value << shift);
            self.data.set(u64_index, word);
        } else {
            // crosses over into the next word
            let (
                LogArrayMask { mask: mask1, shift: shift1 },
                LogArrayMask { mask: mask2, shift: shift2 },
            ) = shift_mask_2(self.width, offset);
            proof {
                lemma_write_cross(
                    self.data[u64_index as int],
                    self.data[u64_index + 1],
                    value,
                    offset as u64,
                    self.width as u64,
                );
            }
            let word1 = (self.data[u64_index] & !mask1) | (value >> shift1);
            let word2 = (self.data[u64_index + 1] & !mask2) | (value << shift2);
            self.data.set(u64_index, word1);
            self.data.set(u64_index + 1, word2);
        }
        proof {
            assert(touches_only(old_words, self.data@, self.width, index as int));
            assert forall|j: int| 0 <= j < self.length implies field(self.data@, self.width, j)
                == old(self)@.update(index as int, value)[j] by {
                if j != index {
                    lemma_other_field_kept(old_words, self.data@, self.width, self.length, index as int, j);
                }
            }
            assert(self@ =~= old(self)@.update(index as int, value));
        }
    }
}

/// In every well-formed array the buffer holds `ceil(width * length / 64)`
/// words, the width lies in `1..=64` and there are `length` elements.
pub proof fn lemma_word_count(a: LogArray)
    requires
        a.wf(),
    ensures
        a.spec_words().len() == word_count(a.spec_width(), a.spec_length()),
        1 <= a.spec_width() <= 64,
        a@.len() == a.spec_length(),
{
}

/// A load right after a store at the same index gives back the stored value,
/// for every width and every value that fits in it.
pub proof fn lemma_store_load_round_trip(before: LogArray, after: LogArray, index: usize, value: u64)
    requires
        before.wf(),
        index < before.spec_length(),
        fits(value, before.spec_width()),
        after.wf(),
        after.spec_width() == before.spec_width(),
        after.spec_length() == before.spec_length(),
        after@ == before@.update(index as int, value),
    ensures
        after@[index as int] == value,
{
    lemma_word_count(before);
}

/// A store at `index` leaves the element at every other index, its
/// neighbours included, as it was.
pub proof fn lemma_store_keeps_others(before: LogArray, after: LogArray, index: usize, value: u64)
    requires
        before.wf(),
        index < before.spec_length(),
        fits(value, before.spec_width()),
        after.wf(),
        after.spec_width() == before.spec_width(),
        after.spec_length() == before.spec_length(),
        after@ == before@.update(index as int, value),
    ensures
        forall|j: int| 0 <= j < before.spec_length() && j != index ==> after@[j] == before@[j],
{
    lemma_word_count(before);
}

} // verus!
