//! Masks over the bits of a 64-bit word, and the facts about them that the
//! packed array needs. Bits inside a word are numbered from the most
//! significant one: position 0 is bit 63, position 63 is bit 0.
use vstd::prelude::*;

verus! {

/// The value whose `n` low-order bits are set and all others clear.
pub open spec fn low_ones(n: u64) -> u64 {
    if n >= 64 {
        !0u64
    } else {
        ((1u64 << n) - 1) as u64
    }
}

/// The mask of positions `lo..hi` of a word, counted from the most
/// significant bit.
pub open spec fn mask_range(lo: u64, hi: u64) -> u64 {
    if hi <= lo {
        0u64
    } else {
        low_ones((hi - lo) as u64) << ((64 - hi) as u64)
    }
}

/// Masks of position ranges that do not overlap share no bit.
pub proof fn lemma_mask_range_disjoint(lo1: u64, hi1: u64, lo2: u64, hi2: u64)
    requires
        lo1 <= hi1 <= lo2 <= hi2 <= 64,
    ensures
        mask_range(lo1, hi1) & mask_range(lo2, hi2) == 0,
        mask_range(lo2, hi2) & mask_range(lo1, hi1) == 0,
{
    assert(mask_range(lo1, hi1) & mask_range(lo2, hi2) == 0 && mask_range(lo2, hi2) & mask_range(
        lo1,
        hi1,
    ) == 0) by (bit_vector)
        requires
            lo1 <= hi1 <= lo2 <= hi2 <= 64,
    ;
}

/// The ones of the `w` low-order bits, moved up by `64 - o - w`, cover
/// positions `o..o + w`.
pub proof fn lemma_single_mask(w: u64, o: u64)
    requires
        1 <= w <= 64,
        o + w <= 64,
    ensures
        mask_range(o, (o + w) as u64) == low_ones(w) << ((64 - o - w) as u64),
{
}

/// The masks of a field that crosses a word boundary: its first `64 - o`
/// bits end the first word, its last `w2` bits start the second.
pub proof fn lemma_cross_masks(o: u64, w2: u64)
    requires
        1 <= o < 64,
        1 <= w2 < 64,
    ensures
        mask_range(o, 64) == low_ones((64 - o) as u64),
        mask_range(0, w2) == !low_ones((64 - w2) as u64),
{
    assert(mask_range(o, 64) == low_ones((64 - o) as u64)) by (bit_vector)
        requires
            1 <= o < 64,
    ;
    assert(mask_range(0, w2) == !low_ones((64 - w2) as u64)) by (bit_vector)
        requires
            1 <= w2 < 64,
    ;
}

/// For `n < 64` the value `1 << n` is at least one, so `(1 << n) - 1` does
/// not wrap.
pub proof fn lemma_one_shifted(n: u64)
    requires
        n < 64,
    ensures
        (1u64 << n) >= 1,
        low_ones(n) == ((1u64 << n) - 1) as u64,
{
    assert((1u64 << n) >= 1) by (bit_vector)
        requires
            n < 64,
    ;
}

/// Bits outside `m` that agree between `a` and `b` agree in particular under
/// any `n` disjoint from `m`.
pub proof fn lemma_masked_agree(a: u64, b: u64, m: u64, n: u64)
    requires
        a & !m == b & !m,
        m & n == 0,
    ensures
        a & n == b & n,
{
    assert(a & n == b & n) by (bit_vector)
        requires
            a & !m == b & !m,
            m & n == 0,
    ;
}

/// Writing a value of at most `w` bits into positions `o..o + w` of a word:
/// reading those positions back gives the value, and the other positions
/// keep their bits.
pub proof fn lemma_write_single(old: u64, v: u64, o: u64, w: u64)
    requires
        1 <= w <= 64,
        o + w <= 64,
        v <= low_ones(w),
    ensures
        ({
            let m = mask_range(o, (o + w) as u64);
            let s = (64 - o - w) as u64;
            let new = (old & !m) | (v << s);
            &&& (new & m) >> s == v
            &&& new & !m == old & !m
        }),
{
    let m = mask_range(o, (o + w) as u64);
    let s = (64 - o - w) as u64;
    let new = (old & !m) | (v << s);
    assert((new & m) >> s == v && new & !m == old & !m) by (bit_vector)
        requires
            1 <= w <= 64,
            o + w <= 64,
            v <= low_ones(w),
            m == mask_range(o, (o + w) as u64),
            s == (64 - o - w) as u64,
            new == (old & !m) | (v << s),
    ;
}

/// Writing a value of at most `w` bits across a word boundary, from position
/// `o` of the first word on: its high `64 - o` bits end the first word and
/// its low `w2 = o + w - 64` bits start the second. Reading both parts back
/// gives the value; the other positions of both words keep their bits.
pub proof fn lemma_write_cross(old1: u64, old2: u64, v: u64, o: u64, w: u64)
    requires
        o < 64,
        w <= 64,
        o + w > 64,
        v <= low_ones(w),
    ensures
        ({
            let w2 = (o + w - 64) as u64;
            let m1 = mask_range(o, 64);
            let m2 = mask_range(0, w2);
            let new1 = (old1 & !m1) | (v >> w2);
            let new2 = (old2 & !m2) | (v << ((64 - w2) as u64));
            &&& ((new1 & m1) << w2) | ((new2 & m2) >> ((64 - w2) as u64)) == v
            &&& new1 & !m1 == old1 & !m1
            &&& new2 & !m2 == old2 & !m2
        }),
{
    let w2 = (o + w - 64) as u64;
    let m1 = mask_range(o, 64);
    let m2 = mask_range(0, w2);
    let new1 = (old1 & !m1) | (v >> w2);
    let new2 = (old2 & !m2) | (v << ((64 - w2) as u64));
    assert(((new1 & m1) << w2) | ((new2 & m2) >> ((64 - w2) as u64)) == v && new1 & !m1 == old1
        & !m1 && new2 & !m2 == old2 & !m2) by (bit_vector)
        requires
            o < 64,
            w <= 64,
            o + w > 64,
            v <= low_ones(w),
            w2 == (o + w - 64) as u64,
            m1 == mask_range(o, 64),
            m2 == mask_range(0, w2),
            new1 == (old1 & !m1) | (v >> w2),
            new2 == (old2 & !m2) | (v << ((64 - w2) as u64)),
    ;
}

/// Shifting the `w2` leading bits down to the bottom needs no mask.
pub proof fn lemma_high_part(d: u64, w2: u64)
    requires
        1 <= w2 < 64,
    ensures
        d >> ((64 - w2) as u64) == (d & mask_range(0, w2)) >> ((64 - w2) as u64),
{
    assert(d >> ((64 - w2) as u64) == (d & mask_range(0, w2)) >> ((64 - w2) as u64))
        by (bit_vector)
        requires
            1 <= w2 < 64,
    ;
}

/// A zero word holds zero under every mask and shift.
pub proof fn lemma_zero_word(m: u64, s: u64)
    ensures
        (0u64 & m) >> s == 0,
        (0u64 & m) << s == 0,
{
    assert((0u64 & m) >> s == 0 && (0u64 & m) << s == 0) by (bit_vector);
}

} // verus!
