//! Doubles as their 64 bits: one bit of sign, eleven of exponent, fifty-two of
//! fraction. What the library asks of a double (whether it is a number,
//! whether it is zero, and what whole number it is cut to) is computed from
//! these bits with whole-number arithmetic.
use vstd::prelude::*;
use vstd::arithmetic::power2::{
    lemma2_to64, lemma2_to64_rest, lemma_pow2_pos, lemma_pow2_strictly_increases,
    lemma_pow2_unfold, pow2,
};

verus! {

/// The exponent field.
pub open spec fn exponent(bits: u64) -> int {
    (bits as int / 4503599627370496) % 2048
}

/// The fraction field.
pub open spec fn fraction(bits: u64) -> int {
    bits as int % 4503599627370496
}

/// The sign bit is set.
pub open spec fn is_negative(bits: u64) -> bool {
    bits >= 9223372036854775808
}

/// The bits are those of a NaN: the exponent is all ones and the fraction is
/// not zero.
pub open spec fn is_nan(bits: u64) -> bool {
    exponent(bits) == 2047 && fraction(bits) != 0
}

/// The bits are those of zero, of either sign.
pub open spec fn is_zero(bits: u64) -> bool {
    bits as int % 9223372036854775808 == 0
}

/// The magnitude of the double, cut to a whole number. A double below one is
/// cut to zero; from there on the fraction with its hidden leading bit is
/// shifted as the exponent says. Infinity comes out as a number beyond every
/// machine integer.
pub open spec fn whole_magnitude(bits: u64) -> nat {
    let e = exponent(bits);
    let m = 4503599627370496 + fraction(bits);
    if e < 1023 {
        0
    } else if e <= 1075 {
        (m / pow2((1075 - e) as nat) as int) as nat
    } else {
        (m * pow2((e - 1075) as nat)) as nat
    }
}

/// The double as a whole number in a range: cut towards zero, held to the
/// bounds, and zero for a NaN.
pub open spec fn cut_to(bits: u64, min: int, max: int) -> int {
    if is_nan(bits) {
        0
    } else if is_negative(bits) {
        if -whole_magnitude(bits) < min {
            min
        } else {
            -whole_magnitude(bits)
        }
    } else {
        if whole_magnitude(bits) > max {
            max
        } else {
            whole_magnitude(bits) as int
        }
    }
}

/// Whether the bits are those of a NaN.
pub fn bits_are_nan(bits: u64) -> (r: bool)
    ensures
        r == is_nan(bits),
{
    (bits / 4503599627370496) % 2048 == 2047 && bits % 4503599627370496 != 0
}

/// Whether the bits are those of zero.
pub fn bits_are_zero(bits: u64) -> (r: bool)
    ensures
        r == is_zero(bits),
{
    bits % 9223372036854775808 == 0
}

/// Two to the power `k`.
fn power_of_two(k: u64) -> (r: u64)
    requires
        k <= 52,
    ensures
        r == pow2(k as nat),
        r <= 4503599627370496,
{
    let mut r: u64 = 1;
    let mut i: u64 = 0;
    proof {
        lemma2_to64();
        lemma2_to64_rest();
    }
    while i < k
        invariant
            i <= k <= 52,
            r == pow2(i as nat),
            pow2(52) == 4503599627370496,
            r <= 4503599627370496,
        decreases k - i,
    {
        proof {
            lemma_pow2_unfold((i + 1) as nat);
            if i + 1 < 52 {
                lemma_pow2_strictly_increases((i + 1) as nat, 52);
            }
        }
        r = r * 2;
        i += 1;
    }
    r
}

/// The magnitude of the double, cut to a whole number and held to what 64
/// bits can hold.
fn magnitude_capped(bits: u64) -> (r: u64)
    ensures
        r == if whole_magnitude(bits) > u64::MAX {
            u64::MAX as int
        } else {
            whole_magnitude(bits) as int
        },
{
    let e = (bits / 4503599627370496) % 2048;
    let m = 4503599627370496 + bits % 4503599627370496;
    if e < 1023 {
        0
    } else if e <= 1075 {
        let p = power_of_two(1075 - e);
        proof {
            lemma_pow2_pos((1075 - e) as nat);
        }
        m / p
    } else {
        let k = e - 1075;
        proof {
            lemma2_to64();
        }
        if k >= 12 {
            proof {
                if k > 12 {
                    lemma_pow2_strictly_increases(12, k as nat);
                }
                assert(m * pow2(k as nat) >= 4503599627370496 * 4096) by (nonlinear_arith)
                    requires
                        m >= 4503599627370496,
                        pow2(k as nat) >= 4096,
                ;
            }
            u64::MAX
        } else {
            let p = power_of_two(k);
            proof {
                if k < 11 {
                    lemma_pow2_strictly_increases(k as nat, 11);
                }
                assert(m * p <= 9007199254740991 * 2048) by (nonlinear_arith)
                    requires
                        m <= 9007199254740991,
                        p <= 2048,
                ;
            }
            m * p
        }
    }
}

/// The double as a `usize`, as a cast gives it: cut towards zero, zero for
/// what is negative or no number, the greatest `usize` for what is beyond it.
pub fn double_as_usize(bits: u64) -> (r: usize)
    ensures
        r == cut_to(bits, 0, usize::MAX as int),
{
    if bits_are_nan(bits) || bits >= 9223372036854775808 {
        0
    } else {
        let c = magnitude_capped(bits);
        if c > usize::MAX as u64 {
            usize::MAX
        } else {
            c as usize
        }
    }
}

/// The double as an `i64`, as a cast gives it.
pub fn double_as_i64(bits: u64) -> (r: i64)
    ensures
        r == cut_to(bits, i64::MIN as int, i64::MAX as int),
{
    if bits_are_nan(bits) {
        0
    } else {
        let c = magnitude_capped(bits);
        if bits >= 9223372036854775808 {
            if c >= 9223372036854775808 {
                i64::MIN
            } else {
                -(c as i64)
            }
        } else {
            if c > 9223372036854775807 {
                i64::MAX
            } else {
                c as i64
            }
        }
    }
}

/// The double as an `i32`, as a cast gives it.
pub fn double_as_i32(bits: u64) -> (r: i32)
    ensures
        r == cut_to(bits, i32::MIN as int, i32::MAX as int),
{
    if bits_are_nan(bits) {
        0
    } else {
        let c = magnitude_capped(bits);
        if bits >= 9223372036854775808 {
            if c >= 2147483648 {
                i32::MIN
            } else {
                -(c as i32)
            }
        } else {
            if c > 2147483647 {
                i32::MAX
            } else {
                c as i32
            }
        }
    }
}

} // verus!
