//! Binary64 numbers held as their bit patterns.
//!
//! The corpus carries one floating-point column, `quality`. Its values are
//! hundredths, and the only question asked of one is whether it lies below a
//! floor, so the library keeps the 64 bits and answers on those.
use vstd::prelude::*;

verus! {

/// The hidden bit of a binary64 significand, `2^52`.
pub const HIDDEN_BIT: u64 = 0x10_0000_0000_0000;

/// The bit pattern of positive infinity; a larger magnitude is not a number.
pub const INFINITY_BITS: u64 = 0x7ff0_0000_0000_0000;

/// The sign bit, `2^63`.
pub const SIGN_BIT: u64 = 0x8000_0000_0000_0000;

/// The scaling exponent that brings `k / 100` to a 53-bit significand.
pub open spec fn hundredth_shift(k: int) -> int {
    if k >= 50 {
        53
    } else if k >= 25 {
        54
    } else if k >= 13 {
        55
    } else if k >= 7 {
        56
    } else if k >= 4 {
        57
    } else if k >= 2 {
        58
    } else {
        59
    }
}

/// `2^shift` for the shifts above.
pub open spec fn shift_power(shift: int) -> int {
    if shift == 53 {
        0x20_0000_0000_0000
    } else if shift == 54 {
        0x40_0000_0000_0000
    } else if shift == 55 {
        0x80_0000_0000_0000
    } else if shift == 56 {
        0x100_0000_0000_0000
    } else if shift == 57 {
        0x200_0000_0000_0000
    } else if shift == 58 {
        0x400_0000_0000_0000
    } else {
        0x800_0000_0000_0000
    }
}

/// The 53-bit significand of the double nearest to `k / 100`, for `1 <= k < 100`.
pub open spec fn hundredth_significand(k: int) -> int {
    (k * shift_power(hundredth_shift(k)) + 50) / 100
}

/// The bits of the double nearest to `k / 100`, for `0 <= k < 100`.
pub open spec fn hundredth_bits(k: int) -> int {
    if k == 0 {
        0
    } else {
        (1075 - hundredth_shift(k)) * HIDDEN_BIT + (hundredth_significand(k) - HIDDEN_BIT)
    }
}

/// The significand is normalised, and no other double of that exponent lies as
/// near: it is within half a unit in the last place of `k / 100`, never at
/// exactly half, so no rounding rule for ties is involved.
pub proof fn lemma_hundredth_nearest(k: int)
    requires
        1 <= k < 100,
    ensures
        HIDDEN_BIT <= hundredth_significand(k) < 2 * HIDDEN_BIT,
        -50 < 100 * hundredth_significand(k) - k * shift_power(hundredth_shift(k)) < 50,
{
    let n = k * shift_power(hundredth_shift(k));
    if k >= 50 {
        assert(n == k * 0x20_0000_0000_0000);
    } else if k >= 25 {
        assert(n == k * 0x40_0000_0000_0000);
    } else if k >= 13 {
        assert(n == k * 0x80_0000_0000_0000);
    } else if k >= 7 {
        assert(n == k * 0x100_0000_0000_0000);
    } else if k >= 4 {
        assert(n == k * 0x200_0000_0000_0000);
    } else if k >= 2 {
        assert(n == k * 0x400_0000_0000_0000);
    } else {
        assert(n == k * 0x800_0000_0000_0000);
    }
}

/// Hundredths are ordered as their bit patterns are.
pub proof fn lemma_hundredth_order(j: int, k: int)
    requires
        0 <= j < k < 100,
    ensures
        0 <= hundredth_bits(j) < hundredth_bits(k) < INFINITY_BITS,
{
    lemma_hundredth_nearest(k);
    if j > 0 {
        lemma_hundredth_nearest(j);
        let (sj, sk) = (hundredth_shift(j), hundredth_shift(k));
        if sj == sk {
            let p = shift_power(sk);
            assert(k * p >= j * p + p) by (nonlinear_arith)
                requires
                    j + 1 <= k,
                    p >= 0,
            ;
            assert(hundredth_significand(j) < hundredth_significand(k));
        } else {
            assert(sj >= sk + 1);
        }
    }
}

/// The double nearest to `k / 100`.
pub fn hundredth(k: u64) -> (r: u64)
    requires
        k < 100,
    ensures
        r == hundredth_bits(k as int),
{
    if k == 0 {
        return 0;
    }
    let mut shift: u64 = 53;
    let mut power: u128 = 0x20_0000_0000_0000;
    if k < 50 {
        shift = 54;
        power = 0x40_0000_0000_0000;
    }
    if k < 25 {
        shift = 55;
        power = 0x80_0000_0000_0000;
    }
    if k < 13 {
        shift = 56;
        power = 0x100_0000_0000_0000;
    }
    if k < 7 {
        shift = 57;
        power = 0x200_0000_0000_0000;
    }
    if k < 4 {
        shift = 58;
        power = 0x400_0000_0000_0000;
    }
    if k < 2 {
        shift = 59;
        power = 0x800_0000_0000_0000;
    }
    proof {
        lemma_hundredth_nearest(k as int);
    }
    assert(k as int * power as int <= 99 * 0x800_0000_0000_0000) by (nonlinear_arith)
        requires
            k < 100,
            power <= 0x800_0000_0000_0000,
    ;
    let significand: u64 = ((k as u128 * power + 50) / 100) as u64;
    (1075 - shift) * HIDDEN_BIT + (significand - HIDDEN_BIT)
}

/// The magnitude bits of a pattern.
pub open spec fn magnitude(bits: u64) -> u64 {
    if bits >= SIGN_BIT {
        (bits - SIGN_BIT) as u64
    } else {
        bits
    }
}

/// The pattern does not denote a number.
pub open spec fn is_nan(bits: u64) -> bool {
    magnitude(bits) > INFINITY_BITS
}

/// `a < floor` between doubles, for a positive finite `floor`.
pub open spec fn is_below(a: u64, floor: u64) -> bool {
    !is_nan(a) && (a >= SIGN_BIT || a < floor)
}

/// `a == b` between doubles: equal bits, or two zeroes, and never a NaN.
pub open spec fn is_equal(a: u64, b: u64) -> bool {
    !is_nan(a) && !is_nan(b) && (a == b || (magnitude(a) == 0 && magnitude(b) == 0))
}

fn magnitude_of(bits: u64) -> (r: u64)
    ensures
        r == magnitude(bits),
{
    if bits >= SIGN_BIT {
        bits - SIGN_BIT
    } else {
        bits
    }
}

/// Whether a double lies below a positive floor, both by their bits.
pub fn below(a: u64, floor: u64) -> (r: bool)
    ensures
        r == is_below(a, floor),
{
    magnitude_of(a) <= INFINITY_BITS && (a >= SIGN_BIT || a < floor)
}

/// Whether two doubles are equal, both by their bits.
pub fn equal(a: u64, b: u64) -> (r: bool)
    ensures
        r == is_equal(a, b),
{
    magnitude_of(a) <= INFINITY_BITS && magnitude_of(b) <= INFINITY_BITS && (a == b || (
    magnitude_of(a) == 0 && magnitude_of(b) == 0))
}

/// The order of a floor: what is not a number lies below nothing; every negative number
/// lies below, and so does every smaller pattern of the same sign; the floor does not lie
/// below itself, nor does anything larger.
pub proof fn law_below_is_an_order(a: u64, b: u64, floor: u64)
    requires
        0 < floor < INFINITY_BITS,
    ensures
        is_nan(a) ==> !is_below(a, floor),
        a > 0x7ff0_0000_0000_0000 && a < 0x8000_0000_0000_0000 ==> is_nan(a),
        a > 0xfff0_0000_0000_0000 ==> is_nan(a),
        0x8000_0000_0000_0000 <= a <= 0xfff0_0000_0000_0000 ==> is_below(a, floor),
        a < floor ==> is_below(a, floor),
        floor <= a < 0x8000_0000_0000_0000 ==> !is_below(a, floor),
{
}

/// Equality is that of numbers: the two zeroes are equal, nothing that is not a number
/// is, and all other patterns are equal only to themselves.
pub proof fn law_equality_is_of_numbers(a: u64, b: u64)
    ensures
        is_equal(a, b) == is_equal(b, a),
        is_equal(0, 0x8000_0000_0000_0000),
        is_nan(a) ==> !is_equal(a, b),
        !is_nan(a) ==> is_equal(a, a),
        is_equal(a, b) && a != b ==> (a == 0 || a == 0x8000_0000_0000_0000) && (b == 0 || b
            == 0x8000_0000_0000_0000),
{
}

} // verus!
