//! The average of some values: computed in binary floating point with 53 significant digits, as
//! double-precision numbers have them, and written down with a few decimal places.

use vstd::arithmetic::power2::pow2;
use vstd::prelude::*;

use crate::field::{lemma_pow10_step, pow10, Field, FieldView};

verus! {

/// How many digits of an average stand behind the point.
pub const AVG_DECIMAL_SCALE: u32 = 4;

/// What an average is multiplied by to have `AVG_DECIMAL_SCALE` more digits before the point.
pub const AVG_DECIMAL_MULTIPLIER: u64 = 10000;

/// The least number with 53 binary digits.
pub const MANTISSA_MIN: u64 = 4503599627370496;

/// The least number with 54 binary digits.
pub const MANTISSA_END: u64 = 9007199254740992;

/// The magnitude at which a number no longer fits into an `i64`, whatever its sign.
pub const SIZE_LIMIT: u64 = 9223372036854775808;

/// The largest power of ten that has at most 53 significant binary digits. A sum that is divided by
/// a larger one is so small that none of its first `AVG_DECIMAL_SCALE` decimal places is left.
pub const MAX_POWER: i32 = 22;

/// A sum that is divided by a lower power of ten has an average that exceeds every `i64`.
pub const MIN_POWER: i32 = -33;

/// A binary floating-point number that is not negative: `digits * 2^exponent`.
pub struct Float {
    pub digits: nat,
    pub exponent: int,
}

/// The integer nearest to `n / d`, the even one if there are two.
pub open spec fn round_half_even(n: nat, d: nat) -> nat {
    let quotient = n / d;
    let rest = n % d;
    if 2 * rest < d || (2 * rest == d && quotient % 2 == 0) {
        quotient
    } else {
        quotient + 1
    }
}

/// The number with 53 binary digits nearest to `n / d * 2^exponent`, the one with even digits if
/// there are two.
pub open spec fn nearest(n: nat, d: nat, exponent: int) -> Float
    decreases
            (if n < MANTISSA_MIN * d {
                MANTISSA_MIN * d - n
            } else if n >= MANTISSA_END * d {
                n - MANTISSA_END * d + 1
            } else {
                0
            }),
{
    if n == 0 || d == 0 {
        Float { digits: 0, exponent }
    } else if n < MANTISSA_MIN * d {
        nearest(2 * n, d, exponent - 1)
    } else if n >= MANTISSA_END * d {
        nearest(n, 2 * d, exponent + 1)
    } else {
        Float { digits: round_half_even(n, d), exponent }
    }
}

impl Float {
    /// The number nearest to an integer.
    pub open spec fn of(n: nat) -> Float {
        nearest(n, 1, 0)
    }

    /// The number nearest to a quotient.
    pub open spec fn over(self, other: Float) -> Float {
        nearest(self.digits, other.digits, self.exponent - other.exponent)
    }

    /// The number nearest to a product with an integer.
    pub open spec fn times(self, n: nat) -> Float {
        nearest(self.digits * n, 1, self.exponent)
    }

    /// The number, cut off behind the point.
    pub open spec fn whole(self) -> nat {
        if self.exponent >= 0 {
            self.digits * pow2(self.exponent as nat)
        } else {
            self.digits / pow2((-self.exponent) as nat)
        }
    }

    /// A power of ten, for an exponent from `MIN_POWER` to `MAX_POWER`.
    pub open spec fn power_of_ten(exponent: int) -> Float {
        if exponent >= 0 {
            Float::of(pow10(exponent as nat) as nat)
        } else {
            Float::of(1).over(Float::of(pow10((-exponent) as nat) as nat))
        }
    }
}

/// The magnitude of an integer.
pub open spec fn magnitude(n: int) -> nat {
    if n < 0 {
        (-n) as nat
    } else {
        n as nat
    }
}

/// The scale of a number, as far as it goes into the power of ten that its digits are divided by: a
/// signed number of 32 bits.
pub open spec fn signed_scale(scale: nat) -> int {
    if scale < 2147483648 {
        scale as int
    } else {
        scale - 4294967296
    }
}

/// The magnitude of the digits of an average, with `AVG_DECIMAL_SCALE` of them behind the point. It
/// is at least `SIZE_LIMIT` where there is no limit to it.
pub open spec fn average_size(digits: nat, power: int, count: nat) -> nat {
    if digits == 0 {
        0
    } else if count == 0 || power < MIN_POWER {
        SIZE_LIMIT as nat
    } else if power > MAX_POWER {
        0
    } else {
        Float::of(digits).over(Float::power_of_ten(power)).over(Float::of(count)).times(
            AVG_DECIMAL_MULTIPLIER as nat,
        ).whole()
    }
}

/// An integer, or the nearest `i64` if it is none.
pub open spec fn saturated(n: int) -> i64 {
    if n > i64::MAX {
        i64::MAX
    } else if n < i64::MIN {
        i64::MIN
    } else {
        n as i64
    }
}

/// The average of `count` values with the sum `sum`, where a sum that is no number counts as zero. It
/// is computed in floating point and cut off behind `AVG_DECIMAL_SCALE` decimal places.
pub open spec fn average(sum: FieldView, count: i64) -> FieldView {
    let size = average_size(
        magnitude(sum.digits()),
        signed_scale(sum.scale()),
        magnitude(count as int),
    ) as int;
    FieldView::Decimal(
        saturated(
            if (sum.digits() < 0) != (count < 0) {
                -size
            } else {
                size
            },
        ),
        AVG_DECIMAL_SCALE,
    )
}

/// A binary floating-point number that is not negative.
#[derive(Clone, Copy)]
struct Rounded {
    digits: u64,
    exponent: i32,
}

impl View for Rounded {
    type V = Float;

    closed spec fn view(&self) -> Float {
        Float { digits: self.digits as nat, exponent: self.exponent as int }
    }
}

/// The power of two with the exponent `WIDE_EXPONENT`. No number here exceeds it.
const WIDE: u128 = 1329227995784915872903807060280344576;

/// By how much rounding changes an exponent at most.
const WIDE_EXPONENT: i32 = 120;

/// A power of two that does not exceed `WIDE` has a small exponent.
proof fn lemma_wide(k: nat)
    requires
        pow2(k) < WIDE,
    ensures
        k < WIDE_EXPONENT,
{
    vstd::arithmetic::power2::lemma2_to64_rest();
    vstd::arithmetic::power2::lemma_pow2_adds(60, 60);
    assert(pow2(60) == 0x1000000000000000);
    assert(0x1000000000000000 * 0x1000000000000000 == 1329227995784915872903807060280344576int)
        by (nonlinear_arith);
    if k > 120 {
        vstd::arithmetic::power2::lemma_pow2_strictly_increases(120, k);
    }
}

/// The number nearest to `n / d * 2^exponent`; see `nearest`.
fn round(n: u128, d: u128, exponent: i32) -> (res: Rounded)
    requires
        0 < d < SIZE_LIMIT,
        n < WIDE,
        -1000 <= exponent <= 1000,
    ensures
        res@ == nearest(n as nat, d as nat, exponent as int),
        res.digits <= MANTISSA_END,
        res.digits > 0 <==> n > 0,
        exponent - WIDE_EXPONENT <= res.exponent <= exponent + WIDE_EXPONENT,
{
    if n == 0 {
        return Rounded { digits: 0, exponent };
    }
    let mut n: u128 = n;
    let mut d: u128 = d;
    let mut e: i32 = exponent;
    let ghost whole = nearest(n as nat, d as nat, exponent as int);
    proof {
        vstd::arithmetic::power2::lemma2_to64();
    }
    while n < MANTISSA_MIN as u128 * d
        invariant
            0 < d < SIZE_LIMIT,
            0 < n < WIDE,
            -1000 <= exponent <= 1000,
            e <= exponent,
            exponent - e < WIDE_EXPONENT,
            pow2((exponent - e) as nat) <= n,
            nearest(n as nat, d as nat, e as int) == whole,
        decreases
                (if n < MANTISSA_MIN * d {
                    MANTISSA_MIN * d - n
                } else {
                    0
                }),
    {
        proof {
            vstd::arithmetic::power2::lemma_pow2_unfold((exponent - e + 1) as nat);
        }
        n = n * 2;
        e = e - 1;
        proof {
            lemma_wide((exponent - e) as nat);
        }
    }
    let ghost low = e;
    while n >= MANTISSA_END as u128 * d
        invariant
            0 < n < WIDE,
            0 < d,
            MANTISSA_MIN * d <= n,
            -1000 <= exponent <= 1000,
            low <= e,
            exponent - WIDE_EXPONENT < low <= exponent,
            e - low < WIDE_EXPONENT,
            pow2((e - low) as nat) <= d,
            nearest(n as nat, d as nat, e as int) == whole,
        decreases
                (if n >= MANTISSA_END * d {
                    n - MANTISSA_END * d + 1
                } else {
                    0
                }),
    {
        proof {
            vstd::arithmetic::power2::lemma_pow2_unfold((e - low + 1) as nat);
        }
        d = d * 2;
        e = e + 1;
        proof {
            lemma_wide((e - low) as nat);
        }
    }
    let quotient: u128 = n / d;
    let rest: u128 = n % d;
    proof {
        vstd::arithmetic::div_mod::lemma_fundamental_div_mod(n as int, d as int);
        assert(quotient < MANTISSA_END) by (nonlinear_arith)
            requires
                n == d * quotient + rest,
                rest >= 0,
                d > 0,
                n < MANTISSA_END * d,
        ;
        assert(quotient >= MANTISSA_MIN) by (nonlinear_arith)
            requires
                n == d * quotient + rest,
                rest < d,
                d > 0,
                n >= MANTISSA_MIN * d,
        ;
    }
    let digits: u64 = if 2 * rest < d || (2 * rest == d && quotient % 2 == 0) {
        quotient as u64
    } else {
        quotient as u64 + 1
    };
    Rounded { digits, exponent: e }
}

/// The number nearest to an integer.
fn float_of(n: u128) -> (res: Rounded)
    requires
        n < WIDE,
    ensures
        res@ == Float::of(n as nat),
        res.digits <= MANTISSA_END,
        res.digits > 0 <==> n > 0,
        -WIDE_EXPONENT <= res.exponent <= WIDE_EXPONENT,
{
    round(n, 1, 0)
}

/// The number nearest to a quotient.
fn quotient_of(a: Rounded, b: Rounded) -> (res: Rounded)
    requires
        a.digits <= MANTISSA_END,
        0 < b.digits <= MANTISSA_END,
        -1000 <= a.exponent - b.exponent <= 1000,
    ensures
        res@ == a@.over(b@),
        res.digits <= MANTISSA_END,
        res.digits > 0 <==> a.digits > 0,
        a.exponent - b.exponent - WIDE_EXPONENT <= res.exponent <= a.exponent - b.exponent
            + WIDE_EXPONENT,
{
    round(a.digits as u128, b.digits as u128, a.exponent - b.exponent)
}

/// A power of ten.
fn power_of_ten(exponent: i32) -> (res: Rounded)
    requires
        MIN_POWER <= exponent <= MAX_POWER,
    ensures
        res@ == Float::power_of_ten(exponent as int),
        0 < res.digits <= MANTISSA_END,
        -3 * WIDE_EXPONENT <= res.exponent <= 3 * WIDE_EXPONENT,
{
    let steps: u32 = if exponent < 0 {
        (-exponent) as u32
    } else {
        exponent as u32
    };
    let mut power: u128 = 1;
    proof {
        vstd::arithmetic::power::lemma_pow0(10);
        lemma_largest_power();
    }
    for i in 0..steps
        invariant
            steps <= 33,
            power == pow10(i as nat),
            pow10(33) < WIDE,
    {
        proof {
            lemma_pow10_step(i as nat);
            vstd::arithmetic::power::lemma_pow_increases(10, i as nat, 33);
        }
        power = power * 10;
    }
    proof {
        lemma_pow10_step(steps as nat);
        vstd::arithmetic::power::lemma_pow_increases(10, steps as nat, 33);
    }
    let whole = float_of(power);
    if exponent < 0 {
        quotient_of(float_of(1), whole)
    } else {
        whole
    }
}

/// The largest power of ten that is computed is not too large.
proof fn lemma_largest_power()
    ensures
        pow10(33) < WIDE,
{
    vstd::arithmetic::power::lemma_pow0(10);
    lemma_eleven_more(0);
    lemma_eleven_more(11);
    lemma_eleven_more(22);
}

/// Eleven more zeros.
pub(crate) proof fn lemma_eleven_more(k: nat)
    ensures
        pow10(k + 11) == 100000000000 * pow10(k),
{
    lemma_pow10_step(k);
    lemma_pow10_step(k + 1);
    lemma_pow10_step(k + 2);
    lemma_pow10_step(k + 3);
    lemma_pow10_step(k + 4);
    lemma_pow10_step(k + 5);
    lemma_pow10_step(k + 6);
    lemma_pow10_step(k + 7);
    lemma_pow10_step(k + 8);
    lemma_pow10_step(k + 9);
    lemma_pow10_step(k + 10);
}

/// A number, cut off behind the point; `SIZE_LIMIT` if it is larger than that.
fn whole_of(a: Rounded) -> (res: u64)
    requires
        a.digits <= MANTISSA_END,
        -2000 <= a.exponent <= 2000,
    ensures
        res == if a@.whole() > SIZE_LIMIT {
            SIZE_LIMIT as nat
        } else {
            a@.whole()
        },
{
    proof {
        vstd::arithmetic::power2::lemma2_to64();
        vstd::arithmetic::power2::lemma2_to64_rest();
    }
    if a.exponent >= 0 {
        let steps: u32 = a.exponent as u32;
        let mut size: u128 = a.digits as u128;
        let mut done: u32 = 0;
        while done < steps && size < SIZE_LIMIT as u128 && size > 0
            invariant
                done <= steps,
                size == a.digits * pow2(done as nat),
                size <= 2 * SIZE_LIMIT,
            decreases steps - done,
        {
            proof {
                vstd::arithmetic::power2::lemma_pow2_unfold((done + 1) as nat);
                lemma_double(a.digits as nat, pow2(done as nat));
            }
            size = size * 2;
            done = done + 1;
        }
        proof {
            lemma_doubling_grows(a.digits as nat, done as nat, steps as nat);
        }
        if size > SIZE_LIMIT as u128 {
            SIZE_LIMIT
        } else {
            size as u64
        }
    } else {
        let steps: u32 = (-a.exponent) as u32;
        let mut size: u64 = a.digits;
        let mut done: u32 = 0;
        while done < steps && size > 0
            invariant
                done <= steps,
                size == a.digits as nat / pow2(done as nat),
                size <= a.digits,
            decreases steps - done,
        {
            proof {
                lemma_halve(a.digits as nat, done as nat);
            }
            size = size / 2;
            done = done + 1;
        }
        proof {
            if size == 0 {
                lemma_halving_ends(a.digits as nat, done as nat, steps as nat);
            }
        }
        size
    }
}

proof fn lemma_double(n: nat, power: nat)
    ensures
        n * (2 * power) == 2 * (n * power),
{
    assert(n * (2 * power) == 2 * (n * power)) by (nonlinear_arith);
}

/// Doubling further does not make a number smaller, and leaves zero as it is.
proof fn lemma_doubling_grows(n: nat, from: nat, to: nat)
    requires
        from <= to,
    ensures
        n * pow2(to) >= n * pow2(from),
        n * pow2(from) == 0 ==> n * pow2(to) == 0,
    decreases to - from,
{
    if from < to {
        vstd::arithmetic::power2::lemma_pow2_unfold(from + 1);
        lemma_double(n, pow2(from));
        lemma_doubling_grows(n, from + 1, to);
    }
}

/// Halving once more.
proof fn lemma_halve(n: nat, k: nat)
    ensures
        n / pow2(k + 1) == (n / pow2(k)) / 2,
{
    vstd::arithmetic::power2::lemma_pow2_unfold(k + 1);
    vstd::arithmetic::power2::lemma_pow2_pos(k);
    vstd::arithmetic::div_mod::lemma_div_denominator(n as int, pow2(k) as int, 2);
}

/// Halving further leaves zero as it is.
proof fn lemma_halving_ends(n: nat, from: nat, to: nat)
    requires
        from <= to,
        n / pow2(from) == 0,
    ensures
        n / pow2(to) == 0,
    decreases to - from,
{
    if from < to {
        lemma_halve(n, from);
        lemma_halving_ends(n, from + 1, to);
    }
}

/// The magnitude of the digits of an average; see `average_size`. `SIZE_LIMIT` if it is larger than
/// that.
fn compute_size(digits: u64, power: i32, count: u64) -> (res: u64)
    ensures
        ({
            let size = average_size(digits as nat, power as int, count as nat);
            res == if size > SIZE_LIMIT {
                SIZE_LIMIT as nat
            } else {
                size
            }
        }),
{
    if digits == 0 {
        0
    } else if count == 0 || power < MIN_POWER {
        SIZE_LIMIT
    } else if power > MAX_POWER {
        0
    } else {
        let sum = quotient_of(float_of(digits as u128), power_of_ten(power));
        let average = quotient_of(sum, float_of(count as u128));
        let scaled = round(
            average.digits as u128 * AVG_DECIMAL_MULTIPLIER as u128,
            1,
            average.exponent,
        );
        whole_of(scaled)
    }
}

/// The average of `count` values with the sum `sum`; see `average`.
pub fn average_of(sum: &Field, count: i64) -> (res: Field)
    ensures
        res@ == average(sum@, count),
{
    let (digits, scale): (i64, u32) = match sum {
        Field::Int(n) => (*n, 0),
        Field::Decimal(n, scale) => (*n, *scale),
        _ => (0, 0),
    };
    let power: i32 = if scale < 2147483648 {
        scale as i32
    } else {
        (scale as i64 - 4294967296) as i32
    };
    let size: u64 = compute_size(size_of(digits), power, size_of(count));
    let signed: i128 = if (digits < 0) != (count < 0) {
        -(size as i128)
    } else {
        size as i128
    };
    let average: i64 = if signed > i64::MAX as i128 {
        i64::MAX
    } else {
        signed as i64
    };
    Field::Decimal(average, AVG_DECIMAL_SCALE)
}

/// The magnitude of an integer.
fn size_of(n: i64) -> (res: u64)
    ensures
        res == magnitude(n as int),
{
    if n < 0 {
        (-(n as i128)) as u64
    } else {
        n as u64
    }
}

} // verus!
