//! Binary floating-point numbers as bit patterns: what a pattern of 32 or 64
//! bits denotes, and the conversions between the two widths and from
//! unsigned integers, in integer arithmetic.

use vstd::arithmetic::div_mod::{
    lemma_fundamental_div_mod, lemma_fundamental_div_mod_converse_div,
    lemma_fundamental_div_mod_converse_mod,
};
use vstd::arithmetic::power2::{
    lemma2_to64, lemma2_to64_rest, lemma_pow2_adds, lemma_pow2_pos,
    lemma_pow2_strictly_increases, lemma_pow2_unfold, pow2,
};
use vstd::prelude::*;

verus! {

/// Number of binary digits of `n`: the least `k` for which `n` is below two
/// to the power of `k`.
pub open spec fn bit_length(n: nat) -> nat
    decreases n,
{
    if n == 0 {
        0
    } else {
        1 + bit_length(n / 2)
    }
}

/// A positive number lies between the powers of two that its number of
/// digits gives.
pub proof fn lemma_bit_length(n: nat)
    requires
        n > 0,
    ensures
        bit_length(n) >= 1,
        pow2((bit_length(n) - 1) as nat) <= n < pow2(bit_length(n)),
    decreases n,
{
    lemma2_to64();
    if n >= 2 {
        lemma_bit_length(n / 2);
        lemma_pow2_unfold(bit_length(n));
        lemma_pow2_unfold((bit_length(n) - 1) as nat);
    } else {
        assert(n / 2 == 0);
        assert(bit_length(n / 2) == 0);
    }
}

/// A number below two to the power of `k` has at most `k` digits.
pub proof fn lemma_bit_length_bound(n: nat, k: nat)
    requires
        n < pow2(k),
    ensures
        bit_length(n) <= k,
{
    if n > 0 {
        lemma_bit_length(n);
        if bit_length(n) > k {
            if bit_length(n) - 1 > k {
                lemma_pow2_strictly_increases(k, (bit_length(n) - 1) as nat);
            }
        }
    }
}

/// The sign of a single-precision pattern: one for negative.
pub open spec fn single_sign(bits: nat) -> nat {
    bits / 0x8000_0000
}

/// The exponent field of a single-precision pattern.
pub open spec fn single_exponent(bits: nat) -> nat {
    (bits / 0x80_0000) % 0x100
}

/// The fraction field of a single-precision pattern.
pub open spec fn single_fraction(bits: nat) -> nat {
    bits % 0x80_0000
}

/// The pattern denotes no number.
pub open spec fn single_is_nan(bits: nat) -> bool {
    single_exponent(bits) == 255 && single_fraction(bits) != 0
}

/// The pattern denotes a number, not an infinity.
pub open spec fn single_is_finite(bits: nat) -> bool {
    single_exponent(bits) < 255
}

/// The magnitude of the number that a finite single-precision pattern
/// denotes, in units of two to the power of -149, the smallest positive
/// single-precision number.
pub open spec fn single_scaled(bits: nat) -> nat {
    if single_exponent(bits) == 0 {
        single_fraction(bits)
    } else {
        (0x80_0000 + single_fraction(bits)) * pow2((single_exponent(bits) - 1) as nat)
    }
}

/// The sign of a double-precision pattern: one for negative.
pub open spec fn double_sign(bits: nat) -> nat {
    bits / 0x8000_0000_0000_0000
}

/// The exponent field of a double-precision pattern.
pub open spec fn double_exponent(bits: nat) -> nat {
    (bits / 0x10_0000_0000_0000) % 0x800
}

/// The fraction field of a double-precision pattern.
pub open spec fn double_fraction(bits: nat) -> nat {
    bits % 0x10_0000_0000_0000
}

/// The pattern denotes no number.
pub open spec fn double_is_nan(bits: nat) -> bool {
    double_exponent(bits) == 2047 && double_fraction(bits) != 0
}

/// The pattern denotes a number, not an infinity.
pub open spec fn double_is_finite(bits: nat) -> bool {
    double_exponent(bits) < 2047
}

/// The magnitude of the number that a finite double-precision pattern
/// denotes, in units of two to the power of -1074, the smallest positive
/// double-precision number.
pub open spec fn double_scaled(bits: nat) -> nat {
    if double_exponent(bits) == 0 {
        double_fraction(bits)
    } else {
        (0x10_0000_0000_0000 + double_fraction(bits)) * pow2((double_exponent(bits) - 1) as nat)
    }
}

/// The single-precision pattern of the given sign, exponent field and
/// fraction field.
pub open spec fn single_pattern(sign: nat, exponent: nat, fraction: nat) -> nat {
    sign * 0x8000_0000 + exponent * 0x80_0000 + fraction
}

/// The double-precision pattern of the given sign, exponent field and
/// fraction field.
pub open spec fn double_pattern(sign: nat, exponent: nat, fraction: nat) -> nat {
    sign * 0x8000_0000_0000_0000 + exponent * 0x10_0000_0000_0000 + fraction
}

/// The fields of a pattern put together are the pattern's fields.
pub proof fn lemma_single_pattern(sign: nat, exponent: nat, fraction: nat)
    requires
        sign <= 1,
        exponent < 0x100,
        fraction < 0x80_0000,
    ensures
        single_pattern(sign, exponent, fraction) < 0x1_0000_0000,
        single_sign(single_pattern(sign, exponent, fraction)) == sign,
        single_exponent(single_pattern(sign, exponent, fraction)) == exponent,
        single_fraction(single_pattern(sign, exponent, fraction)) == fraction,
{
    let bits = single_pattern(sign, exponent, fraction);
    let upper = sign * 0x100 + exponent;
    assert(bits == upper * 0x80_0000 + fraction);
    lemma_fundamental_div_mod_converse_div(bits as int, 0x80_0000, upper as int, fraction as int);
    lemma_fundamental_div_mod_converse_mod(bits as int, 0x80_0000, upper as int, fraction as int);
    lemma_fundamental_div_mod_converse_mod(upper as int, 0x100, sign as int, exponent as int);
    let lower = exponent * 0x80_0000 + fraction;
    assert(bits == sign * 0x8000_0000 + lower);
    lemma_fundamental_div_mod_converse_div(bits as int, 0x8000_0000, sign as int, lower as int);
}

/// The fields of a pattern put together are the pattern's fields.
pub proof fn lemma_double_pattern(sign: nat, exponent: nat, fraction: nat)
    requires
        sign <= 1,
        exponent < 0x800,
        fraction < 0x10_0000_0000_0000,
    ensures
        double_pattern(sign, exponent, fraction) < 0x1_0000_0000_0000_0000,
        double_sign(double_pattern(sign, exponent, fraction)) == sign,
        double_exponent(double_pattern(sign, exponent, fraction)) == exponent,
        double_fraction(double_pattern(sign, exponent, fraction)) == fraction,
{
    let bits = double_pattern(sign, exponent, fraction);
    let upper = sign * 0x800 + exponent;
    assert(bits == upper * 0x10_0000_0000_0000 + fraction);
    lemma_fundamental_div_mod_converse_div(
        bits as int,
        0x10_0000_0000_0000,
        upper as int,
        fraction as int,
    );
    lemma_fundamental_div_mod_converse_mod(
        bits as int,
        0x10_0000_0000_0000,
        upper as int,
        fraction as int,
    );
    lemma_fundamental_div_mod_converse_mod(upper as int, 0x800, sign as int, exponent as int);
    let lower = exponent * 0x10_0000_0000_0000 + fraction;
    assert(bits == sign * 0x8000_0000_0000_0000 + lower);
    lemma_fundamental_div_mod_converse_div(
        bits as int,
        0x8000_0000_0000_0000,
        sign as int,
        lower as int,
    );
}

/// A pattern is its fields put together.
pub proof fn lemma_single_fields(bits: nat)
    requires
        bits < 0x1_0000_0000,
    ensures
        single_sign(bits) <= 1,
        single_exponent(bits) < 0x100,
        single_fraction(bits) < 0x80_0000,
        bits == single_pattern(single_sign(bits), single_exponent(bits), single_fraction(bits)),
{
    let upper = bits / 0x80_0000;
    lemma_fundamental_div_mod(bits as int, 0x80_0000);
    lemma_fundamental_div_mod(upper as int, 0x100);
    assert(upper / 0x100 == bits / 0x8000_0000) by {
        vstd::arithmetic::div_mod::lemma_div_denominator(bits as int, 0x80_0000, 0x100);
    }
}

/// A pattern is its fields put together.
pub proof fn lemma_double_fields(bits: nat)
    requires
        bits < 0x1_0000_0000_0000_0000,
    ensures
        double_sign(bits) <= 1,
        double_exponent(bits) < 0x800,
        double_fraction(bits) < 0x10_0000_0000_0000,
        bits == double_pattern(double_sign(bits), double_exponent(bits), double_fraction(bits)),
{
    let upper = bits / 0x10_0000_0000_0000;
    lemma_fundamental_div_mod(bits as int, 0x10_0000_0000_0000);
    lemma_fundamental_div_mod(upper as int, 0x800);
    assert(upper / 0x800 == bits / 0x8000_0000_0000_0000) by {
        vstd::arithmetic::div_mod::lemma_div_denominator(bits as int, 0x10_0000_0000_0000, 0x800);
    }
}

/// Two to the power of `exponent`.
pub fn power_of_two(exponent: u32) -> (power: u64)
    requires
        exponent < 64,
    ensures
        power == pow2(exponent as nat),
{
    let mut power: u64 = 1;
    let mut i: u32 = 0;
    proof {
        lemma2_to64();
    }
    while i < exponent
        invariant
            i <= exponent,
            exponent < 64,
            power == pow2(i as nat),
        decreases exponent - i,
    {
        proof {
            lemma_pow2_unfold((i + 1) as nat);
            lemma2_to64_rest();
            if i + 1 < 63 {
                lemma_pow2_strictly_increases((i + 1) as nat, 63);
            }
        }
        power = power * 2;
        i += 1;
    }
    power
}

/// Number of binary digits of `n`.
pub fn count_bits(n: u64) -> (digits: u32)
    ensures
        digits == bit_length(n as nat),
        digits <= 64,
{
    let mut rest: u64 = n;
    let mut digits: u32 = 0;
    proof {
        lemma2_to64();
        lemma_bit_length_bound(n as nat, 64);
    }
    while rest > 0
        invariant
            bit_length(n as nat) == digits + bit_length(rest as nat),
            bit_length(n as nat) <= 64,
        decreases rest,
    {
        rest = rest / 2;
        digits += 1;
    }
    digits
}

/// The double-precision pattern of the number that a single-precision
/// pattern denotes. Every single-precision number is a double-precision
/// number, so nothing is rounded; what is no number stays no number.
pub open spec fn double_from_single(bits: nat) -> nat {
    let exponent = single_exponent(bits);
    let fraction = single_fraction(bits);
    let magnitude = if exponent == 255 {
        if fraction == 0 {
            double_pattern(0, 2047, 0)
        } else {
            double_pattern(0, 2047, 0x8_0000_0000_0000 + (fraction % 0x40_0000) * 0x2000_0000)
        }
    } else if exponent == 0 {
        if fraction == 0 {
            0
        } else {
            let digits = bit_length(fraction);
            double_pattern(
                0,
                digits + 873,
                ((fraction - pow2((digits - 1) as nat)) * pow2((53 - digits) as nat)) as nat,
            )
        }
    } else {
        double_pattern(0, exponent + 896, fraction * 0x2000_0000)
    };
    single_sign(bits) * 0x8000_0000_0000_0000 + magnitude
}

/// Widening keeps the sign and the kind of a pattern, and the magnitude of a
/// number: measured in the double-precision unit, which is two to the power
/// of 925 times smaller, the magnitude is that much larger.
pub proof fn lemma_widening_keeps_value(bits: nat)
    requires
        bits < 0x1_0000_0000,
    ensures
        double_from_single(bits) < 0x1_0000_0000_0000_0000,
        double_sign(double_from_single(bits)) == single_sign(bits),
        double_is_nan(double_from_single(bits)) == single_is_nan(bits),
        double_is_finite(double_from_single(bits)) == single_is_finite(bits),
        single_is_finite(bits) ==> double_scaled(double_from_single(bits)) == single_scaled(bits)
            * pow2(925),
{
    let sign = single_sign(bits);
    let exponent = single_exponent(bits);
    let fraction = single_fraction(bits);
    lemma_single_fields(bits);
    lemma2_to64();
    lemma2_to64_rest();
    let wide = double_from_single(bits);
    if exponent == 255 {
        if fraction == 0 {
            lemma_double_pattern(sign, 2047, 0);
        } else {
            let payload = 0x8_0000_0000_0000 + (fraction % 0x40_0000) * 0x2000_0000;
            lemma_double_pattern(sign, 2047, payload as nat);
        }
    } else if exponent == 0 {
        if fraction == 0 {
            lemma_double_pattern(sign, 0, 0);
        } else {
            let digits = bit_length(fraction);
            lemma_bit_length(fraction);
            lemma_bit_length_bound(fraction, 23);
            let low = pow2((digits - 1) as nat);
            let scale = pow2((53 - digits) as nat);
            let wide_fraction = ((fraction - low) * scale) as nat;
            lemma_pow2_adds((digits - 1) as nat, (53 - digits) as nat);
            lemma_pow2_unfold(digits);
            assert(low * scale == 0x10_0000_0000_0000);
            assert(wide_fraction < 0x10_0000_0000_0000) by (nonlinear_arith)
                requires
                    wide_fraction == (fraction - low) * scale,
                    fraction - low < low,
                    low * scale == 0x10_0000_0000_0000,
                    scale > 0,
                    fraction >= low,
            {
            }
            lemma_pow2_pos((53 - digits) as nat);
            lemma_double_pattern(sign, digits + 873, wide_fraction);
            assert(wide == double_pattern(sign, digits + 873, wide_fraction));
            let rest = pow2((digits + 872) as nat);
            lemma_pow2_adds((53 - digits) as nat, (digits + 872) as nat);
            assert(scale * rest == pow2(925));
            assert((0x10_0000_0000_0000 + wide_fraction) * rest == fraction * pow2(925))
                by (nonlinear_arith)
                requires
                    wide_fraction == (fraction - low) * scale,
                    low * scale == 0x10_0000_0000_0000,
                    scale * rest == pow2(925),
                    fraction >= low,
            {
            }
        }
    } else {
        lemma_double_pattern(sign, exponent + 896, fraction * 0x2000_0000);
        assert(wide == double_pattern(sign, exponent + 896, fraction * 0x2000_0000));
        let small = pow2((exponent - 1) as nat);
        let large = pow2((exponent + 895) as nat);
        lemma_pow2_adds((exponent - 1) as nat, 896);
        lemma_pow2_adds(29, 896);
        assert(large == small * pow2(896));
        assert(pow2(925) == 0x2000_0000 * pow2(896));
        assert((0x10_0000_0000_0000 + fraction * 0x2000_0000) * large == ((0x80_0000 + fraction)
            * small) * pow2(925)) by (nonlinear_arith)
            requires
                large == small * pow2(896),
                pow2(925) == 0x2000_0000 * pow2(896),
        {
        }
    }
}

/// The double-precision pattern of the number that a single-precision
/// pattern denotes.
pub fn single_to_double(bits: u32) -> (wide: u64)
    ensures
        wide == double_from_single(bits as nat),
{
    let sign: u64 = (bits / 0x8000_0000) as u64;
    let exponent: u64 = ((bits / 0x80_0000) % 0x100) as u64;
    let fraction: u64 = (bits % 0x80_0000) as u64;
    proof {
        lemma2_to64();
        lemma2_to64_rest();
        lemma_widening_keeps_value(bits as nat);
    }
    let magnitude: u64 = if exponent == 255 {
        if fraction == 0 {
            2047 * 0x10_0000_0000_0000
        } else {
            2047 * 0x10_0000_0000_0000 + 0x8_0000_0000_0000 + (fraction % 0x40_0000) * 0x2000_0000
        }
    } else if exponent == 0 {
        if fraction == 0 {
            0
        } else {
            let digits: u32 = count_bits(fraction);
            proof {
                lemma_bit_length(fraction as nat);
                lemma_bit_length_bound(fraction as nat, 23);
                lemma_pow2_adds((digits - 1) as nat, (53 - digits) as nat);
                lemma_pow2_pos((53 - digits) as nat);
            }
            let low: u64 = power_of_two(digits - 1);
            let scale: u64 = power_of_two(53 - digits);
            assert((fraction - low) * scale < 0x10_0000_0000_0000) by (nonlinear_arith)
                requires
                    fraction - low < low,
                    low * scale == 0x10_0000_0000_0000,
                    scale > 0,
                    fraction >= low,
            {
            }
            (digits as u64 + 873) * 0x10_0000_0000_0000 + (fraction - low) * scale
        }
    } else {
        (exponent + 896) * 0x10_0000_0000_0000 + fraction * 0x2000_0000
    };
    sign * 0x8000_0000_0000_0000 + magnitude
}

/// `amount` in units of two to the power of `shift`, rounded to the nearest
/// unit, and to the even one of two that are equally near.
pub open spec fn round_half_even(amount: nat, shift: nat) -> nat {
    let unit = pow2(shift);
    let low = amount / unit;
    let rest = amount % unit;
    if 2 * rest > unit || (2 * rest == unit && low % 2 == 1) {
        low + 1
    } else {
        low
    }
}

/// Rounding moves an amount by at most half a unit, leaves out nothing where
/// the amount is a whole number of units, and chooses the even neighbour
/// where the amount lies in the middle between two.
pub proof fn lemma_round_half_even(amount: nat, shift: nat)
    ensures
        2 * (round_half_even(amount, shift) * pow2(shift) - amount) <= pow2(shift),
        2 * (amount - round_half_even(amount, shift) * pow2(shift)) <= pow2(shift),
        amount % pow2(shift) == 0 ==> round_half_even(amount, shift) * pow2(shift) == amount,
        2 * (amount % pow2(shift)) == pow2(shift) ==> round_half_even(amount, shift) % 2 == 0,
{
    let unit = pow2(shift);
    lemma_pow2_pos(shift);
    lemma_fundamental_div_mod(amount as int, unit as int);
    let low = amount / unit;
    let rest = amount % unit;
    assert(amount == unit * low + rest);
    assert((low + 1) * unit == unit * low + unit) by (nonlinear_arith);
    assert(low * unit == unit * low) by (nonlinear_arith);
}

/// `amount` in units of two to the power of `shift`, rounded to the nearest
/// unit, and to the even one of two that are equally near.
pub fn round_to_unit(amount: u64, shift: u32) -> (rounded: u64)
    requires
        shift < 63,
        amount < 0x8000_0000_0000_0000,
    ensures
        rounded == round_half_even(amount as nat, shift as nat),
{
    let unit: u64 = power_of_two(shift);
    proof {
        lemma_pow2_pos(shift as nat);
        lemma2_to64_rest();
        if shift < 62 {
            lemma_pow2_strictly_increases(shift as nat, 62);
        }
    }
    let low: u64 = amount / unit;
    let rest: u64 = amount % unit;
    if 2 * rest > unit || (2 * rest == unit && low % 2 == 1) {
        low + 1
    } else {
        low
    }
}

/// The exponent field by which a double-precision pattern is measured: one
/// for the numbers below the normal range, the field itself otherwise.
pub open spec fn double_effective_exponent(bits: nat) -> nat {
    if double_exponent(bits) == 0 {
        1
    } else {
        double_exponent(bits)
    }
}

/// The significand of a double-precision pattern: the fraction, with the
/// leading one in front in the normal range.
pub open spec fn double_significand(bits: nat) -> nat {
    if double_exponent(bits) == 0 {
        double_fraction(bits)
    } else {
        0x10_0000_0000_0000 + double_fraction(bits)
    }
}

/// Binary digits that a double-precision number loses when it becomes a
/// single-precision one: 29 in the normal range of single precision, and one
/// more for every step below it.
pub open spec fn narrowing_shift(bits: nat) -> nat {
    if double_effective_exponent(bits) >= 897 {
        29
    } else {
        (926 - double_effective_exponent(bits)) as nat
    }
}

/// The single-precision pattern of the number nearest to the one that a
/// double-precision pattern denotes, and of the even one of two that are
/// equally near; of an infinity where the number is beyond the range. What
/// is no number stays no number.
pub open spec fn single_from_double(bits: nat) -> nat {
    let exponent = double_exponent(bits);
    let fraction = double_fraction(bits);
    let magnitude = if exponent == 2047 {
        if fraction == 0 {
            single_pattern(0, 255, 0)
        } else {
            single_pattern(0, 255, 0x40_0000 + (fraction / 0x2000_0000) % 0x40_0000)
        }
    } else {
        let rounded = round_half_even(double_significand(bits), narrowing_shift(bits));
        let placed = if double_effective_exponent(bits) >= 897 {
            (double_effective_exponent(bits) - 897) * 0x80_0000 + rounded
        } else {
            rounded as int
        };
        if placed >= 255 * 0x80_0000 {
            single_pattern(0, 255, 0)
        } else {
            placed as nat
        }
    };
    double_sign(bits) * 0x8000_0000 + magnitude
}

/// A significand rounded by at least 29 digits fits the single-precision
/// fraction with its leading one; rounded by more, it fits the fraction
/// alone; rounded by more digits than it has and one more, it is zero.
pub proof fn lemma_rounded_significand(significand: nat, shift: nat)
    requires
        significand < 0x20_0000_0000_0000,
        shift >= 29,
    ensures
        round_half_even(significand, shift) <= 0x100_0000,
        shift >= 30 ==> round_half_even(significand, shift) <= 0x80_0000,
        shift >= 55 ==> round_half_even(significand, shift) == 0,
{
    let unit = pow2(shift);
    lemma2_to64();
    lemma2_to64_rest();
    lemma_pow2_pos(shift);
    lemma_fundamental_div_mod(significand as int, unit as int);
    let low = significand / unit;
    if shift > 29 {
        lemma_pow2_strictly_increases(29, shift);
    }
    assert(low < 0x100_0000) by (nonlinear_arith)
        requires
            significand == unit * low + significand % unit,
            significand < 0x20_0000_0000_0000,
            unit >= 0x2000_0000,
            significand % unit >= 0,
    {
    }
    if shift >= 30 {
        if shift > 30 {
            lemma_pow2_strictly_increases(30, shift);
        }
        assert(low < 0x80_0000) by (nonlinear_arith)
            requires
                significand == unit * low + significand % unit,
                significand < 0x20_0000_0000_0000,
                unit >= 0x4000_0000,
                significand % unit >= 0,
        {
        }
    }
    if shift >= 55 {
        if shift > 55 {
            lemma_pow2_strictly_increases(55, shift);
        }
        lemma_fundamental_div_mod_converse_div(significand as int, unit as int, 0, significand as int);
        lemma_fundamental_div_mod_converse_mod(significand as int, unit as int, 0, significand as int);
    }
}

/// The single-precision pattern of the number nearest to the one that a
/// double-precision pattern denotes.
pub fn double_to_single(bits: u64) -> (narrow: u32)
    ensures
        narrow == single_from_double(bits as nat),
{
    let sign: u64 = bits / 0x8000_0000_0000_0000;
    let exponent: u64 = (bits / 0x10_0000_0000_0000) % 0x800;
    let fraction: u64 = bits % 0x10_0000_0000_0000;
    let magnitude: u64 = if exponent == 2047 {
        if fraction == 0 {
            255 * 0x80_0000
        } else {
            255 * 0x80_0000 + 0x40_0000 + (fraction / 0x2000_0000) % 0x40_0000
        }
    } else {
        let effective: u64 = if exponent == 0 {
            1
        } else {
            exponent
        };
        let significand: u64 = if exponent == 0 {
            fraction
        } else {
            0x10_0000_0000_0000 + fraction
        };
        proof {
            lemma_rounded_significand(significand as nat, narrowing_shift(bits as nat));
        }
        let placed: u64 = if effective >= 897 {
            (effective - 897) * 0x80_0000 + round_to_unit(significand, 29)
        } else if effective >= 872 {
            round_to_unit(significand, (926 - effective) as u32)
        } else {
            0
        };
        if placed >= 255 * 0x80_0000 {
            255 * 0x80_0000
        } else {
            placed
        }
    };
    (sign * 0x8000_0000 + magnitude) as u32
}

/// What narrowing makes of a widened single-precision pattern: the pattern
/// itself where it denotes a number or an infinity, and the pattern with the
/// first bit of its fraction set where it denotes none.
pub open spec fn single_settled(bits: nat) -> nat {
    if single_is_nan(bits) {
        single_pattern(single_sign(bits), 255, 0x40_0000 + single_fraction(bits) % 0x40_0000)
    } else {
        bits
    }
}

/// Widening a single-precision pattern and narrowing the result gives the
/// pattern back, settled where it denotes no number.
pub proof fn lemma_narrowing_undoes_widening(bits: nat)
    requires
        bits < 0x1_0000_0000,
    ensures
        single_from_double(double_from_single(bits)) == single_settled(bits),
{
    let sign = single_sign(bits);
    let exponent = single_exponent(bits);
    let fraction = single_fraction(bits);
    let wide = double_from_single(bits);
    lemma_single_fields(bits);
    lemma_widening_keeps_value(bits);
    lemma2_to64();
    lemma2_to64_rest();
    if exponent == 255 {
        if fraction == 0 {
            lemma_double_pattern(sign, 2047, 0);
        } else {
            let payload = (0x8_0000_0000_0000 + (fraction % 0x40_0000) * 0x2000_0000) as nat;
            lemma_double_pattern(sign, 2047, payload);
            assert(wide == double_pattern(sign, 2047, payload));
            let upper = 0x40_0000 + fraction % 0x40_0000;
            assert(payload == 0x2000_0000 * upper);
            lemma_fundamental_div_mod_converse_div(payload as int, 0x2000_0000, upper as int, 0);
        }
    } else if exponent == 0 {
        if fraction == 0 {
            lemma_double_pattern(sign, 0, 0);
            assert(wide == double_pattern(sign, 0, 0));
            lemma_pow2_pos(925);
            lemma_fundamental_div_mod_converse_div(0, pow2(925) as int, 0, 0);
            lemma_fundamental_div_mod_converse_mod(0, pow2(925) as int, 0, 0);
        } else {
            let digits = bit_length(fraction);
            lemma_bit_length(fraction);
            lemma_bit_length_bound(fraction, 23);
            let low = pow2((digits - 1) as nat);
            let scale = pow2((53 - digits) as nat);
            let wide_fraction = ((fraction - low) * scale) as nat;
            lemma_pow2_adds((digits - 1) as nat, (53 - digits) as nat);
            lemma_pow2_pos((53 - digits) as nat);
            assert(low * scale == 0x10_0000_0000_0000);
            assert(wide_fraction < 0x10_0000_0000_0000) by (nonlinear_arith)
                requires
                    wide_fraction == (fraction - low) * scale,
                    fraction - low < low,
                    low * scale == 0x10_0000_0000_0000,
                    scale > 0,
                    fraction >= low,
            {
            }
            lemma_double_pattern(sign, digits + 873, wide_fraction);
            assert(wide == double_pattern(sign, digits + 873, wide_fraction));
            assert(narrowing_shift(wide) == 53 - digits);
            let significand = double_significand(wide);
            assert(significand == scale * fraction) by (nonlinear_arith)
                requires
                    significand == 0x10_0000_0000_0000 + wide_fraction,
                    wide_fraction == (fraction - low) * scale,
                    low * scale == 0x10_0000_0000_0000,
                    fraction >= low,
            {
            }
            lemma_fundamental_div_mod_converse_div(
                significand as int,
                scale as int,
                fraction as int,
                0,
            );
            lemma_fundamental_div_mod_converse_mod(
                significand as int,
                scale as int,
                fraction as int,
                0,
            );
            assert(fraction * scale == scale * fraction) by (nonlinear_arith);
            assert(round_half_even(significand, (53 - digits) as nat) == fraction);
            lemma_single_pattern(sign, 0, fraction);
        }
    } else {
        lemma_double_pattern(sign, exponent + 896, fraction * 0x2000_0000);
        assert(wide == double_pattern(sign, exponent + 896, fraction * 0x2000_0000));
        let significand = double_significand(wide);
        let upper = 0x80_0000 + fraction;
        assert(significand == 0x2000_0000 * upper);
        lemma_fundamental_div_mod_converse_div(significand as int, 0x2000_0000, upper as int, 0);
        lemma_fundamental_div_mod_converse_mod(significand as int, 0x2000_0000, upper as int, 0);
        assert(round_half_even(significand, 29) == upper);
        lemma_single_pattern(sign, exponent, fraction);
    }
}

/// The distance between the single-precision numbers around the number that
/// a double-precision pattern denotes, in the double-precision unit.
pub open spec fn narrowing_spacing(bits: nat) -> nat {
    pow2((narrowing_shift(bits) + double_effective_exponent(bits) - 1) as nat)
}

/// The magnitude of a double-precision number is its significand at the
/// weight of its exponent.
pub proof fn lemma_double_scaled(bits: nat)
    ensures
        double_scaled(bits) == double_significand(bits) * pow2(
            (double_effective_exponent(bits) - 1) as nat,
        ),
{
    lemma2_to64();
    assert(double_fraction(bits) * 1 == double_fraction(bits));
}

/// Narrowing keeps the sign, and gives a number that is at most half the
/// distance between neighbouring single-precision numbers away.
pub proof fn lemma_narrowing_rounds_to_nearest(bits: nat)
    requires
        bits < 0x1_0000_0000_0000_0000,
        double_is_finite(bits),
        single_is_finite(single_from_double(bits)),
    ensures
        single_from_double(bits) < 0x1_0000_0000,
        single_sign(single_from_double(bits)) == double_sign(bits),
        2 * (double_scaled(bits) - single_scaled(single_from_double(bits)) * pow2(925))
            <= narrowing_spacing(bits),
        2 * (single_scaled(single_from_double(bits)) * pow2(925) - double_scaled(bits))
            <= narrowing_spacing(bits),
{
    let sign = double_sign(bits);
    let effective = double_effective_exponent(bits);
    let significand = double_significand(bits);
    let shift = narrowing_shift(bits);
    let rounded = round_half_even(significand, shift);
    let narrow = single_from_double(bits);
    let unit = pow2(shift);
    let weight = pow2((effective - 1) as nat);
    lemma_double_fields(bits);
    lemma_double_scaled(bits);
    lemma_rounded_significand(significand, shift);
    lemma_round_half_even(significand, shift);
    lemma2_to64();
    lemma2_to64_rest();
    lemma_pow2_pos(shift);
    lemma_pow2_pos((effective - 1) as nat);
    lemma_pow2_adds(shift, (effective - 1) as nat);
    assert(narrowing_spacing(bits) == unit * weight);
    let placed = if effective >= 897 {
        (effective - 897) * 0x80_0000 + rounded
    } else {
        rounded as int
    };
    if placed >= 255 * 0x80_0000 {
        lemma_single_pattern(sign, 255, 0);
        assert(narrow == single_pattern(sign, 255, 0));
        assert(false);
    }
    assert(narrow == sign * 0x8000_0000 + placed);
    assert(single_scaled(narrow) * pow2(925) == rounded * (unit * weight)) by {
        if effective >= 897 {
            assert(significand >= 0x10_0000_0000_0000);
            lemma_fundamental_div_mod(significand as int, unit as int);
            assert(significand / unit >= 0x80_0000) by (nonlinear_arith)
                requires
                    significand == unit * (significand / unit) + significand % unit,
                    significand % unit < unit,
                    unit == 0x2000_0000,
                    significand >= 0x10_0000_0000_0000,
            {
            }
            assert(rounded >= 0x80_0000);
            let below = pow2((effective - 897) as nat);
            lemma_pow2_adds((effective - 897) as nat, 925);
            assert(below * pow2(925) == unit * weight) by {
                lemma_pow2_adds(29, (effective - 1) as nat);
            }
            if rounded < 0x100_0000 {
                lemma_single_pattern(sign, (effective - 896) as nat, (rounded - 0x80_0000) as nat);
                assert(narrow == single_pattern(
                    sign,
                    (effective - 896) as nat,
                    (rounded - 0x80_0000) as nat,
                ));
                assert(single_scaled(narrow) == rounded * below);
            } else {
                lemma_single_pattern(sign, (effective - 895) as nat, 0);
                assert(narrow == single_pattern(sign, (effective - 895) as nat, 0));
                lemma_pow2_unfold((effective - 896) as nat);
                let above = pow2((effective - 896) as nat);
                assert(single_scaled(narrow) == 0x80_0000 * above);
                assert(0x80_0000 * above == rounded * below) by (nonlinear_arith)
                    requires
                        above == 2 * below,
                        rounded == 0x100_0000,
                {
                }
            }
            assert((rounded * below) * pow2(925) == rounded * (below * pow2(925)))
                by (nonlinear_arith);
        } else {
            assert(shift + effective - 1 == 925);
            if rounded < 0x80_0000 {
                lemma_single_pattern(sign, 0, rounded);
                assert(narrow == single_pattern(sign, 0, rounded));
            } else {
                lemma_single_pattern(sign, 1, 0);
                assert(narrow == single_pattern(sign, 1, 0));
                assert(0x80_0000 * 1 == 0x80_0000);
            }
            assert(single_scaled(narrow) == rounded);
        }
    }
    assert(2 * (significand * weight - rounded * (unit * weight)) <= unit * weight
        && 2 * (rounded * (unit * weight) - significand * weight) <= unit * weight)
        by (nonlinear_arith)
        requires
            2 * (rounded * unit - significand) <= unit,
            2 * (significand - rounded * unit) <= unit,
            weight > 0,
    {
    }
}

/// The single-precision pattern of an unsigned number of at most 24 binary
/// digits, all of which single precision holds.
pub open spec fn single_from_unsigned(value: nat) -> nat {
    if value == 0 {
        0
    } else {
        let digits = bit_length(value);
        single_pattern(
            0,
            digits + 126,
            ((value - pow2((digits - 1) as nat)) * pow2((24 - digits) as nat)) as nat,
        )
    }
}

/// The single-precision pattern of an unsigned number denotes that number.
pub proof fn lemma_single_from_unsigned(value: nat)
    requires
        value < 0x100_0000,
    ensures
        single_from_unsigned(value) < 0x8000_0000,
        single_is_finite(single_from_unsigned(value)),
        single_sign(single_from_unsigned(value)) == 0,
        single_scaled(single_from_unsigned(value)) == value * pow2(149),
{
    lemma2_to64();
    if value == 0 {
        lemma_single_pattern(0, 0, 0);
        assert(0 * pow2(149) == 0);
    } else {
        let digits = bit_length(value);
        lemma_bit_length(value);
        lemma_bit_length_bound(value, 24);
        let low = pow2((digits - 1) as nat);
        let scale = pow2((24 - digits) as nat);
        let fraction = ((value - low) * scale) as nat;
        lemma_pow2_adds((digits - 1) as nat, (24 - digits) as nat);
        lemma_pow2_pos((24 - digits) as nat);
        lemma_pow2_unfold(digits);
        assert(low * scale == 0x80_0000);
        assert(fraction < 0x80_0000) by (nonlinear_arith)
            requires
                fraction == (value - low) * scale,
                value - low < low,
                low * scale == 0x80_0000,
                scale > 0,
                value >= low,
        {
        }
        lemma_single_pattern(0, digits + 126, fraction);
        let rest = pow2((digits + 125) as nat);
        lemma_pow2_adds((24 - digits) as nat, (digits + 125) as nat);
        assert(scale * rest == pow2(149));
        assert((0x80_0000 + fraction) * rest == value * pow2(149)) by (nonlinear_arith)
            requires
                fraction == (value - low) * scale,
                low * scale == 0x80_0000,
                scale * rest == pow2(149),
                value >= low,
        {
        }
    }
}

/// The single-precision pattern of an unsigned number of at most 24 binary
/// digits.
pub fn unsigned_to_single(value: u32) -> (bits: u32)
    requires
        value < 0x100_0000,
    ensures
        bits == single_from_unsigned(value as nat),
{
    if value == 0 {
        return 0;
    }
    let digits: u32 = count_bits(value as u64);
    proof {
        lemma2_to64();
        lemma_bit_length(value as nat);
        lemma_bit_length_bound(value as nat, 24);
        lemma_pow2_adds((digits - 1) as nat, (24 - digits) as nat);
        lemma_pow2_pos((24 - digits) as nat);
        lemma_pow2_unfold(digits as nat);
    }
    let low: u64 = power_of_two(digits - 1);
    let scale: u64 = power_of_two(24 - digits);
    assert((value - low) * scale < 0x80_0000) by (nonlinear_arith)
        requires
            value - low < low,
            low * scale == 0x80_0000,
            scale > 0,
            value >= low,
    {
    }
    let fraction: u64 = (value as u64 - low) * scale;
    ((digits as u64 + 126) * 0x80_0000 + fraction) as u32
}

/// What narrowing gives is settled: narrowing leaves no pattern that widening
/// and narrowing again would change.
pub proof fn lemma_narrowed_is_settled(bits: nat)
    requires
        bits < 0x1_0000_0000_0000_0000,
    ensures
        single_from_double(bits) < 0x1_0000_0000,
        single_settled(single_from_double(bits)) == single_from_double(bits),
{
    let sign = double_sign(bits);
    let exponent = double_exponent(bits);
    let fraction = double_fraction(bits);
    lemma_double_fields(bits);
    lemma2_to64();
    lemma2_to64_rest();
    if exponent == 2047 {
        if fraction == 0 {
            lemma_single_pattern(sign, 255, 0);
        } else {
            let payload = 0x40_0000 + (fraction / 0x2000_0000) % 0x40_0000;
            lemma_single_pattern(sign, 255, payload);
            assert(single_from_double(bits) == single_pattern(sign, 255, payload));
            lemma_fundamental_div_mod_converse_mod(
                payload as int,
                0x40_0000,
                1,
                ((fraction / 0x2000_0000) % 0x40_0000) as int,
            );
        }
    } else {
        let significand = double_significand(bits);
        let shift = narrowing_shift(bits);
        let rounded = round_half_even(significand, shift);
        let effective = double_effective_exponent(bits);
        lemma_rounded_significand(significand, shift);
        let placed = if effective >= 897 {
            (effective - 897) * 0x80_0000 + rounded
        } else {
            rounded as int
        };
        if placed >= 255 * 0x80_0000 {
            lemma_single_pattern(sign, 255, 0);
            assert(single_from_double(bits) == single_pattern(sign, 255, 0));
        } else {
            let upper = placed / 0x80_0000;
            let lower = placed % 0x80_0000;
            lemma_fundamental_div_mod(placed, 0x80_0000);
            lemma_single_pattern(sign, upper as nat, lower as nat);
            assert(single_from_double(bits) == single_pattern(sign, upper as nat, lower as nat));
        }
    }
}

} // verus!
