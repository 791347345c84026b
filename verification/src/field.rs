//! The values that a tuple is made of, their order and their sum.

use vstd::arithmetic::power::pow;
use vstd::prelude::*;

use crate::error::CrustyError;

verus! {

/// A single value of a tuple.
#[derive(Debug)]
pub enum Field {
    Int(i64),
    /// A fixed-point number: the digits, and how many of them stand behind the point.
    Decimal(i64, u32),
    String(String),
    Null,
}

/// What a `Field` holds.
pub enum FieldView {
    Int(i64),
    Decimal(i64, u32),
    Text(Seq<char>),
    Null,
}

/// How one value stands to another.
#[derive(Clone, Copy, Debug, PartialEq, Eq, Structural)]
pub enum FieldOrder {
    Less,
    Equal,
    Greater,
}

/// The comparison that a join predicate asks for.
#[derive(Clone, Copy, Debug, PartialEq, Eq, Structural)]
pub enum BooleanOp {
    Eq,
    Neq,
    Gt,
    Gte,
    Lt,
    Lte,
}

impl View for Field {
    type V = FieldView;

    open spec fn view(&self) -> FieldView {
        match self {
            Field::Int(n) => FieldView::Int(*n),
            Field::Decimal(n, scale) => FieldView::Decimal(*n, *scale),
            Field::String(s) => FieldView::Text(s@),
            Field::Null => FieldView::Null,
        }
    }
}

/// The power of ten with the given exponent.
pub open spec fn pow10(exponent: nat) -> int {
    pow(10, exponent)
}

/// How two integers stand to each other.
pub open spec fn int_order(a: int, b: int) -> FieldOrder {
    if a < b {
        FieldOrder::Less
    } else if a == b {
        FieldOrder::Equal
    } else {
        FieldOrder::Greater
    }
}

/// The lexicographic order of two texts, character by character.
pub open spec fn text_order(a: Seq<char>, b: Seq<char>) -> FieldOrder
    decreases a.len(),
{
    if a.len() == 0 && b.len() == 0 {
        FieldOrder::Equal
    } else if a.len() == 0 {
        FieldOrder::Less
    } else if b.len() == 0 {
        FieldOrder::Greater
    } else if a[0] < b[0] {
        FieldOrder::Less
    } else if b[0] < a[0] {
        FieldOrder::Greater
    } else {
        text_order(a.drop_first(), b.drop_first())
    }
}

impl FieldView {
    /// Whether the value is a number.
    pub open spec fn is_number(self) -> bool {
        self is Int || self is Decimal
    }

    /// The digits of a number.
    pub open spec fn digits(self) -> int {
        match self {
            FieldView::Int(n) => n as int,
            FieldView::Decimal(n, _) => n as int,
            _ => 0,
        }
    }

    /// How many digits of a number stand behind the point.
    pub open spec fn scale(self) -> nat {
        match self {
            FieldView::Decimal(_, scale) => scale as nat,
            _ => 0,
        }
    }

    /// The larger of two scales: at this scale both numbers are whole.
    pub open spec fn common_scale(self, other: FieldView) -> nat {
        if self.scale() < other.scale() {
            other.scale()
        } else {
            self.scale()
        }
    }

    /// The digits of a number, written with `scale` digits behind the point.
    pub open spec fn digits_at(self, scale: nat) -> int {
        self.digits() * pow10((scale - self.scale()) as nat)
    }

    /// How two values stand to each other: numbers by their value, texts lexicographically. Values
    /// of different kinds, and nulls, have no order.
    pub open spec fn order(self, other: FieldView) -> Option<FieldOrder> {
        if self.is_number() && other.is_number() {
            let scale = self.common_scale(other);
            Some(int_order(self.digits_at(scale), other.digits_at(scale)))
        } else {
            match (self, other) {
                (FieldView::Text(a), FieldView::Text(b)) => Some(text_order(a, b)),
                _ => None,
            }
        }
    }

    /// The sum of two values. The sum of integers is an integer, that of other numbers a decimal
    /// with the larger of their scales. There is none if a value is no number, or if the digits
    /// of the sum do not fit.
    pub open spec fn plus(self, other: FieldView) -> Option<FieldView> {
        if self.is_number() && other.is_number() {
            let scale = self.common_scale(other);
            let sum = self.digits_at(scale) + other.digits_at(scale);
            if i64::MIN <= sum <= i64::MAX {
                if self is Int && other is Int {
                    Some(FieldView::Int(sum as i64))
                } else {
                    Some(FieldView::Decimal(sum as i64, scale as u32))
                }
            } else {
                None
            }
        } else {
            None
        }
    }

    /// Whether two values satisfy a comparison.
    pub open spec fn satisfies(self, op: BooleanOp, other: FieldView) -> bool {
        match op {
            BooleanOp::Eq => self == other,
            BooleanOp::Neq => self != other,
            BooleanOp::Gt => self.order(other) == Some(FieldOrder::Greater),
            BooleanOp::Gte => self.order(other) == Some(FieldOrder::Greater) || self.order(other)
                == Some(FieldOrder::Equal),
            BooleanOp::Lt => self.order(other) == Some(FieldOrder::Less),
            BooleanOp::Lte => self.order(other) == Some(FieldOrder::Less) || self.order(other)
                == Some(FieldOrder::Equal),
        }
    }
}

impl Clone for Field {
    fn clone(&self) -> (res: Self)
        ensures
            res == *self,
    {
        match self {
            Field::Int(n) => Field::Int(*n),
            Field::Decimal(n, scale) => Field::Decimal(*n, *scale),
            Field::String(s) => Field::String(s.clone()),
            Field::Null => Field::Null,
        }
    }
}

impl PartialEq for Field {
    fn eq(&self, other: &Self) -> (res: bool) {
        match (self, other) {
            (Field::Int(a), Field::Int(b)) => *a == *b,
            (Field::Decimal(a, s), Field::Decimal(b, t)) => *a == *b && *s == *t,
            (Field::String(a), Field::String(b)) => *a == *b,
            (Field::Null, Field::Null) => true,
            _ => false,
        }
    }
}

impl vstd::std_specs::cmp::PartialEqSpecImpl for Field {
    open spec fn obeys_eq_spec() -> bool {
        true
    }

    open spec fn eq_spec(&self, other: &Self) -> bool {
        self@ == other@
    }
}

impl Eq for Field {

}

/// Above this magnitude a scaled number exceeds any two `i64` taken together.
const SCALED_LIMIT: i128 = 18446744073709551616;

/// The digits `digits`, written with `by` more digits behind the point; `None` if they are of a
/// larger magnitude than `SCALED_LIMIT`.
fn scale_up(digits: i64, by: u32) -> (res: Option<i128>)
    ensures
        match res {
            Some(v) => v == digits * pow10(by as nat) && -SCALED_LIMIT <= v <= SCALED_LIMIT,
            None => if digits < 0 {
                digits * pow10(by as nat) < -SCALED_LIMIT
            } else {
                digits * pow10(by as nat) > SCALED_LIMIT
            },
        },
{
    let mut v: i128 = digits as i128;
    let mut k: u32 = 0;
    proof {
        vstd::arithmetic::power::lemma_pow0(10);
    }
    while k < by && v != 0
        invariant
            k <= by,
            v == digits * pow10(k as nat),
            -SCALED_LIMIT <= v <= SCALED_LIMIT,
        decreases by - k,
    {
        v = v * 10;
        k = k + 1;
        proof {
            lemma_pow10_step((k - 1) as nat);
            assert(digits * (10 * pow10((k - 1) as nat)) == 10 * (digits * pow10((k - 1) as nat)))
                by (nonlinear_arith);
        }
        if v > SCALED_LIMIT || v < -SCALED_LIMIT {
            proof {
                lemma_scaling_grows(digits as int, k as nat, by as nat);
            }
            return None;
        }
    }
    proof {
        if v == 0 {
            vstd::arithmetic::power::lemma_pow_positive(10, k as nat);
            assert(digits == 0) by (nonlinear_arith)
                requires
                    digits * pow10(k as nat) == 0,
                    pow10(k as nat) > 0,
            ;
            assert(digits * pow10(by as nat) == 0) by (nonlinear_arith)
                requires
                    digits == 0,
            ;
        }
    }
    Some(v)
}

/// One more digit multiplies by ten.
pub(crate) proof fn lemma_pow10_step(k: nat)
    ensures
        pow10(k + 1) == 10 * pow10(k),
        pow10(k) > 0,
{
    reveal(pow);
    vstd::arithmetic::power::lemma_pow_positive(10, k);
}

/// Without more digits behind the point a number stays as it is.
proof fn lemma_unscaled(digits: int)
    ensures
        digits * pow10(0) == digits,
{
    vstd::arithmetic::power::lemma_pow0(10);
    assert(digits * 1 == digits);
}

/// Scaling further keeps the sign of a number and does not make it smaller.
proof fn lemma_scaling_grows(digits: int, from: nat, to: nat)
    requires
        from <= to,
    ensures
        digits >= 0 ==> digits * pow10(to) >= digits * pow10(from),
        digits <= 0 ==> digits * pow10(to) <= digits * pow10(from),
        digits > 0 ==> digits * pow10(from) > 0,
        digits < 0 ==> digits * pow10(from) < 0,
    decreases to - from,
{
    lemma_pow10_step(from);
    if from < to {
        lemma_scaling_grows(digits, from + 1, to);
        assert(digits * (10 * pow10(from)) == 10 * (digits * pow10(from))) by (nonlinear_arith);
    }
    assert(digits > 0 ==> digits * pow10(from) > 0) by (nonlinear_arith)
        requires
            pow10(from) > 0,
    ;
    assert(digits < 0 ==> digits * pow10(from) < 0) by (nonlinear_arith)
        requires
            pow10(from) > 0,
    ;
    assert(digits == 0 ==> digits * pow10(from) == 0) by (nonlinear_arith);
}

/// Compares two texts character by character.
fn compare_text(a: &String, b: &String) -> (res: FieldOrder)
    ensures
        res == text_order(a@, b@),
{
    let mut left = a.as_str().chars();
    let mut right = b.as_str().chars();
    loop
        invariant
            text_order(a@, b@) == text_order(
                vstd::std_specs::iter::IteratorSpec::remaining(&left),
                vstd::std_specs::iter::IteratorSpec::remaining(&right),
            ),
            vstd::std_specs::iter::IteratorSpec::decrease(&left) is Some,
        decreases vstd::std_specs::iter::IteratorSpec::decrease(&left)->0,
    {
        let l = left.next();
        let r = right.next();
        match (l, r) {
            (None, None) => {
                return FieldOrder::Equal;
            },
            (None, Some(_)) => {
                return FieldOrder::Less;
            },
            (Some(_), None) => {
                return FieldOrder::Greater;
            },
            (Some(x), Some(y)) => {
                if x < y {
                    return FieldOrder::Less;
                }
                if y < x {
                    return FieldOrder::Greater;
                }
            },
        }
    }
}

/// Compares two numbers, given by their digits and scales.
fn compare_numbers(a: i64, a_scale: u32, b: i64, b_scale: u32) -> (res: FieldOrder)
    ensures
        FieldView::Decimal(a, a_scale).order(FieldView::Decimal(b, b_scale)) == Some(res),
{
    proof {
        lemma_unscaled(a as int);
        lemma_unscaled(b as int);
    }
    if a_scale <= b_scale {
        match scale_up(a, b_scale - a_scale) {
            Some(v) => compare_ints(v, b as i128),
            None => if a < 0 {
                FieldOrder::Less
            } else {
                FieldOrder::Greater
            },
        }
    } else {
        match scale_up(b, a_scale - b_scale) {
            Some(v) => compare_ints(a as i128, v),
            None => if b < 0 {
                FieldOrder::Greater
            } else {
                FieldOrder::Less
            },
        }
    }
}

fn compare_ints(a: i128, b: i128) -> (res: FieldOrder)
    ensures
        res == int_order(a as int, b as int),
{
    if a < b {
        FieldOrder::Less
    } else if a == b {
        FieldOrder::Equal
    } else {
        FieldOrder::Greater
    }
}

/// The digits of the sum of two numbers, at the larger of their scales.
fn sum_numbers(a: i64, a_scale: u32, b: i64, b_scale: u32) -> (res: Option<i64>)
    ensures
        ({
            let left = FieldView::Decimal(a, a_scale);
            let right = FieldView::Decimal(b, b_scale);
            let scale = left.common_scale(right);
            let sum = left.digits_at(scale) + right.digits_at(scale);
            res == if i64::MIN <= sum <= i64::MAX {
                Some(sum as i64)
            } else {
                None
            }
        }),
{
    proof {
        lemma_unscaled(a as int);
        lemma_unscaled(b as int);
    }
    let sum: Option<i128> = if a_scale <= b_scale {
        match scale_up(a, b_scale - a_scale) {
            Some(v) => Some(v + b as i128),
            None => None,
        }
    } else {
        match scale_up(b, a_scale - b_scale) {
            Some(v) => Some(a as i128 + v),
            None => None,
        }
    };
    match sum {
        Some(v) => if v >= i64::MIN as i128 && v <= i64::MAX as i128 {
            Some(v as i64)
        } else {
            None
        },
        None => None,
    }
}

impl Field {
    /// How this value stands to another; see `FieldView::order`.
    pub fn order(&self, other: &Field) -> (res: Option<FieldOrder>)
        ensures
            res == self@.order(other@),
    {
        match (self, other) {
            (Field::Int(a), Field::Int(b)) => Some(compare_numbers(*a, 0, *b, 0)),
            (Field::Int(a), Field::Decimal(b, t)) => Some(compare_numbers(*a, 0, *b, *t)),
            (Field::Decimal(a, s), Field::Int(b)) => Some(compare_numbers(*a, *s, *b, 0)),
            (Field::Decimal(a, s), Field::Decimal(b, t)) => Some(compare_numbers(*a, *s, *b, *t)),
            (Field::String(a), Field::String(b)) => Some(compare_text(a, b)),
            _ => None,
        }
    }

    /// Whether this value comes before another.
    pub fn less_than(&self, other: &Field) -> (res: bool)
        ensures
            res == (self@.order(other@) == Some(FieldOrder::Less)),
    {
        match self.order(other) {
            Some(FieldOrder::Less) => true,
            _ => false,
        }
    }

    /// Whether this value comes after another.
    pub fn greater_than(&self, other: &Field) -> (res: bool)
        ensures
            res == (self@.order(other@) == Some(FieldOrder::Greater)),
    {
        match self.order(other) {
            Some(FieldOrder::Greater) => true,
            _ => false,
        }
    }

    /// The sum of two values; see `FieldView::plus`.
    pub fn plus(&self, other: &Field) -> (res: Result<Field, CrustyError>)
        ensures
            match res {
                Ok(sum) => self@.plus(other@) == Some(sum@),
                Err(e) => self@.plus(other@) is None && e == CrustyError::FieldAddition,
            },
    {
        let sum: Option<Field> = match (self, other) {
            (Field::Int(a), Field::Int(b)) => match sum_numbers(*a, 0, *b, 0) {
                Some(n) => Some(Field::Int(n)),
                None => None,
            },
            (Field::Int(a), Field::Decimal(b, t)) => match sum_numbers(*a, 0, *b, *t) {
                Some(n) => Some(Field::Decimal(n, *t)),
                None => None,
            },
            (Field::Decimal(a, s), Field::Int(b)) => match sum_numbers(*a, *s, *b, 0) {
                Some(n) => Some(Field::Decimal(n, *s)),
                None => None,
            },
            (Field::Decimal(a, s), Field::Decimal(b, t)) => match sum_numbers(*a, *s, *b, *t) {
                Some(n) => Some(Field::Decimal(n, if *s < *t { *t } else { *s })),
                None => None,
            },
            _ => None,
        };
        match sum {
            Some(field) => Ok(field),
            None => Err(CrustyError::FieldAddition),
        }
    }
}

/// Whether two values satisfy a comparison; see `FieldView::satisfies`.
pub fn compare_fields(op: BooleanOp, left: &Field, right: &Field) -> (res: bool)
    ensures
        res == left@.satisfies(op, right@),
{
    match op {
        BooleanOp::Eq => *left == *right,
        BooleanOp::Neq => !(*left == *right),
        BooleanOp::Gt => left.greater_than(right),
        BooleanOp::Gte => match left.order(right) {
            Some(FieldOrder::Greater) => true,
            Some(FieldOrder::Equal) => true,
            _ => false,
        },
        BooleanOp::Lt => left.less_than(right),
        BooleanOp::Lte => match left.order(right) {
            Some(FieldOrder::Less) => true,
            Some(FieldOrder::Equal) => true,
            _ => false,
        },
    }
}

} // verus!
