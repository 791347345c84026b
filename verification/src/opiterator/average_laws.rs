//! What an average is: a chain of operations, each rounded to the nearest number with 53 binary
//! digits, cut off in the end.

use vstd::arithmetic::power::pow;
use vstd::arithmetic::power2::pow2;
use vstd::prelude::*;

use super::average::{average, lemma_eleven_more, nearest, Float};
use crate::field::FieldView;
use crate::field_laws::{is_number_of, lemma_ten};

verus! {

/// Whether a number with 53 binary digits is the one nearest to `n / d * 2^exponent`, and has even
/// digits if another one is as near.
pub open spec fn is_nearest(float: Float, n: nat, d: nat, exponent: int) -> bool {
    let shift = float.exponent - exponent;
    // `float / 2^exponent` is `digits * unit / part`, and is held against `n / d`.
    let unit = if shift >= 0 {
        pow2(shift as nat)
    } else {
        1
    };
    let part = if shift >= 0 {
        1
    } else {
        pow2((-shift) as nat)
    };
    let off = 2 * (float.digits * (d * unit) - n * part);
    &&& 4503599627370496 <= float.digits <= 9007199254740992
    &&& -(d * unit) <= off <= d * unit
    &&& off == d * unit || off == -(d * unit) ==> float.digits % 2 == 0
}

/// Rounding gives the nearest number.
pub proof fn lemma_nearest(n: nat, d: nat, exponent: int)
    requires
        n > 0,
        d > 0,
    ensures
        is_nearest(nearest(n, d, exponent), n, d, exponent),
        n < 4503599627370496 * d <==> nearest(n, d, exponent).exponent < exponent,
        n >= 9007199254740992 * d <==> nearest(n, d, exponent).exponent > exponent,
    decreases
            (if n < 4503599627370496 * d {
                4503599627370496 * d - n
            } else if n >= 9007199254740992 * d {
                n - 9007199254740992 * d + 1
            } else {
                0
            }),
{
    let f = nearest(n, d, exponent);
    vstd::arithmetic::power2::lemma2_to64();
    if n < 4503599627370496 * d {
        lemma_nearest(2 * n, d, exponent - 1);
        let k = (exponent - f.exponent) as nat;
        vstd::arithmetic::power2::lemma_pow2_unfold(k);
        let half = pow2((k - 1) as nat);
        assert((2 * n) * half == n * (2 * half)) by (nonlinear_arith);
        assert(d * 1 == d);
        assert((2 * n) * 1 == 2 * n);
        assert(n * 2 == 2 * n);
    } else if n >= 9007199254740992 * d {
        lemma_nearest(n, 2 * d, exponent + 1);
        let k = (f.exponent - exponent) as nat;
        vstd::arithmetic::power2::lemma_pow2_unfold(k);
        let half = pow2((k - 1) as nat);
        assert((2 * d) * half == d * (2 * half)) by (nonlinear_arith);
        assert(n * 1 == n);
        assert((2 * d) * 1 == d * 2);
    } else {
        let quotient = n / d;
        let rest = n % d;
        vstd::arithmetic::div_mod::lemma_fundamental_div_mod(n as int, d as int);
        assert(d * 1 == d && n * 1 == n);
        assert(quotient * d == d * quotient) by (nonlinear_arith);
        assert((quotient + 1) * d == d * quotient + d) by (nonlinear_arith);
        assert(quotient < 9007199254740992) by (nonlinear_arith)
            requires
                n == d * quotient + rest,
                rest >= 0,
                d > 0,
                n < 9007199254740992 * d,
        ;
        assert(quotient >= 4503599627370496) by (nonlinear_arith)
            requires
                n == d * quotient + rest,
                rest < d,
                d > 0,
                n >= 4503599627370496 * d,
        ;
    }
}

/// The numbers that the computation of an average goes through.
pub struct AverageSteps {
    /// The digits of the sum.
    pub digits: Float,
    /// The power of ten that they are divided by.
    pub power: Float,
    /// The sum.
    pub sum: Float,
    /// The number of the values.
    pub count: Float,
    /// The average.
    pub average: Float,
    /// The average, with its decimal places before the point.
    pub scaled: Float,
    /// What is left of that once it is cut off behind the point.
    pub size: int,
}

/// Whether an integer is what is left of a number that is cut off behind the point.
pub open spec fn is_whole_part(size: int, float: Float) -> bool {
    if float.exponent >= 0 {
        size == float.digits * pow2(float.exponent as nat)
    } else {
        size * pow2((-float.exponent) as nat) <= float.digits < (size + 1) * pow2(
            (-float.exponent) as nat,
        )
    }
}

/// The average of some values with a sum that is not zero: the digits of the sum, divided by the power
/// of ten that its scale gives, divided by the number of the values, and multiplied by ten thousand,
/// each step rounded to the nearest number with 53 binary digits. What stands behind the point is cut
/// off, the sign is that of the sum, and what is too large is the largest that there is.
pub proof fn lemma_average(sum: FieldView, m: int, scale: nat, count: i64) -> (steps: AverageSteps)
    requires
        is_number_of(sum, m, scale),
        m != 0,
        count > 0,
        scale <= 22,
    ensures
        is_nearest(
            steps.digits,
            (if m < 0 {
                -m
            } else {
                m
            }) as nat,
            1,
            0,
        ),
        is_nearest(steps.power, pow(10, scale) as nat, 1, 0),
        is_nearest(
            steps.sum,
            steps.digits.digits,
            steps.power.digits,
            steps.digits.exponent - steps.power.exponent,
        ),
        is_nearest(steps.count, count as nat, 1, 0),
        is_nearest(
            steps.average,
            steps.sum.digits,
            steps.count.digits,
            steps.sum.exponent - steps.count.exponent,
        ),
        is_nearest(steps.scaled, steps.average.digits * 10000, 1, steps.average.exponent),
        is_whole_part(steps.size, steps.scaled),
        average(sum, count) == FieldView::Decimal(
            clamped(
                if m < 0 {
                    -steps.size
                } else {
                    steps.size
                },
            ),
            4,
        ),
{
    let size = if m < 0 {
        -m
    } else {
        m
    };
    vstd::arithmetic::power::lemma_pow_positive(10, scale);
    let digits = Float::of(size as nat);
    let power = Float::of(pow(10, scale) as nat);
    lemma_nearest(size as nat, 1, 0);
    lemma_nearest(pow(10, scale) as nat, 1, 0);
    let total = digits.over(power);
    lemma_nearest(digits.digits, power.digits, digits.exponent - power.exponent);
    let n = Float::of(count as nat);
    lemma_nearest(count as nat, 1, 0);
    let mean = total.over(n);
    lemma_nearest(total.digits, n.digits, total.exponent - n.exponent);
    let scaled = mean.times(10000);
    lemma_nearest(mean.digits * 10000, 1, mean.exponent);
    lemma_whole(scaled);
    let whole = scaled.whole() as int;
    assert(Float::power_of_ten(scale as int) == power);
    assert(average(sum, count) == FieldView::Decimal(
        clamped(
            if m < 0 {
                -whole
            } else {
                whole
            },
        ),
        4,
    ));
    AverageSteps { digits, power, sum: total, count: n, average: mean, scaled, size: whole }
}

/// An integer, or the nearest one that fits.
pub open spec fn clamped(n: int) -> i64 {
    if n > i64::MAX {
        i64::MAX
    } else if n < i64::MIN {
        i64::MIN
    } else {
        n as i64
    }
}

/// Cutting a number off behind the point.
pub proof fn lemma_whole(float: Float)
    ensures
        is_whole_part(float.whole() as int, float),
{
    if float.exponent < 0 {
        let power = pow2((-float.exponent) as nat);
        vstd::arithmetic::power2::lemma_pow2_pos((-float.exponent) as nat);
        vstd::arithmetic::div_mod::lemma_fundamental_div_mod(float.digits as int, power as int);
        vstd::arithmetic::div_mod::lemma_mod_bound(float.digits as int, power as int);
        let q = float.digits / power;
        assert(q * power == power * q) by (nonlinear_arith);
        assert((q + 1) * power == power * q + power) by (nonlinear_arith);
    }
}

/// The average of values that add up to zero, and one of what is no number, is zero.
pub proof fn lemma_average_of_nothing(sum: FieldView, count: i64)
    requires
        sum == FieldView::Int(0) || sum is Text || sum is Null || (sum is Decimal && sum->Decimal_0
            == 0),
    ensures
        average(sum, count) == FieldView::Decimal(0, 4),
{
}

/// A sum with more than twenty-two digits behind the point has no digit among the first four behind
/// the point: even the largest one stands behind them.
pub proof fn lemma_average_of_tiny_sum(m: i64, scale: u32, count: i64)
    requires
        22 < scale < 2147483648,
        count > 0,
    ensures
        average(FieldView::Decimal(m, scale), count) == FieldView::Decimal(0, 4),
        (if m < 0 {
            -m
        } else {
            m as int
        }) * 10000 < pow(10, scale as nat),
{
    vstd::arithmetic::power::lemma_pow_increases(10, 23, scale as nat);
    vstd::arithmetic::power::lemma_pow0(10);
    lemma_eleven_more(0);
    lemma_eleven_more(11);
    lemma_ten(22);
    assert(pow(10, 23) == 100000000000000000000000);
}

/// Turning the sign of a sum turns the sign of its average, unless that is too large.
pub proof fn lemma_average_sign(sum: FieldView, negated: FieldView, m: i64, scale: nat, count: i64)
    requires
        is_number_of(sum, m as int, scale),
        is_number_of(negated, -(m as int), scale),
        average(sum, count) matches FieldView::Decimal(d, _) && i64::MIN < d < i64::MAX,
    ensures
        average(sum, count) matches FieldView::Decimal(d, s) && average(negated, count)
            == FieldView::Decimal((-d) as i64, s) && s == 4,
{
}

/// A scale beyond those of a signed number of 32 bits counts as a negative one: the digits of the sum
/// are divided by a power of ten below one.
pub proof fn lemma_average_of_huge_scale(m: i64, scale: u32, count: i64) -> (steps: (
    Float,
    Float,
    AverageSteps,
))
    requires
        m != 0,
        count > 0,
        4294967296 - 33 <= scale,
    ensures
        ({
            let k = (4294967296 - scale) as nat;
            let (one, ten, steps) = steps;
            &&& is_nearest(one, 1, 1, 0)
            &&& is_nearest(ten, pow(10, k) as nat, 1, 0)
            &&& is_nearest(steps.power, one.digits, ten.digits, one.exponent - ten.exponent)
            &&& is_nearest(
                steps.digits,
                (if m < 0 {
                    -m
                } else {
                    m as int
                }) as nat,
                1,
                0,
            )
            &&& is_nearest(
                steps.sum,
                steps.digits.digits,
                steps.power.digits,
                steps.digits.exponent - steps.power.exponent,
            )
            &&& is_nearest(steps.count, count as nat, 1, 0)
            &&& is_nearest(
                steps.average,
                steps.sum.digits,
                steps.count.digits,
                steps.sum.exponent - steps.count.exponent,
            )
            &&& is_nearest(steps.scaled, steps.average.digits * 10000, 1, steps.average.exponent)
            &&& is_whole_part(steps.size, steps.scaled)
            &&& average(FieldView::Decimal(m, scale), count) == FieldView::Decimal(
                clamped(
                    if m < 0 {
                        -steps.size
                    } else {
                        steps.size
                    },
                ),
                4,
            )
        }),
{
    let k = (4294967296 - scale) as nat;
    let size = if m < 0 {
        -m
    } else {
        m as int
    };
    vstd::arithmetic::power::lemma_pow_positive(10, k);
    let one = Float::of(1);
    let ten = Float::of(pow(10, k) as nat);
    lemma_nearest(1, 1, 0);
    lemma_nearest(pow(10, k) as nat, 1, 0);
    let power = one.over(ten);
    lemma_nearest(one.digits, ten.digits, one.exponent - ten.exponent);
    let digits = Float::of(size as nat);
    lemma_nearest(size as nat, 1, 0);
    let total = digits.over(power);
    lemma_nearest(digits.digits, power.digits, digits.exponent - power.exponent);
    let n = Float::of(count as nat);
    lemma_nearest(count as nat, 1, 0);
    let mean = total.over(n);
    lemma_nearest(total.digits, n.digits, total.exponent - n.exponent);
    let scaled = mean.times(10000);
    lemma_nearest(mean.digits * 10000, 1, mean.exponent);
    lemma_whole(scaled);
    let whole = scaled.whole() as int;
    assert(Float::power_of_ten(-(k as int)) == power);
    assert(average(FieldView::Decimal(m, scale), count) == FieldView::Decimal(
        clamped(
            if m < 0 {
                -whole
            } else {
                whole
            },
        ),
        4,
    ));
    (one, ten, AverageSteps { digits, power, sum: total, count: n, average: mean, scaled, size: whole })
}

/// A scale that counts as a lower negative one still makes every average too large.
pub proof fn lemma_average_beyond_huge_scale(m: i64, scale: u32, count: i64)
    requires
        m != 0,
        count > 0,
        2147483648 <= scale < 4294967296 - 33,
    ensures
        average(FieldView::Decimal(m, scale), count) == FieldView::Decimal(
            if m < 0 {
                i64::MIN
            } else {
                i64::MAX
            },
            4,
        ),
{
}

} // verus!
