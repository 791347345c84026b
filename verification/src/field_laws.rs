//! What holds of the order and the sum of values, said of the numbers and texts that they stand for.

use vstd::arithmetic::power::pow;
use vstd::prelude::*;

use crate::field::{lemma_pow10_step, text_order, BooleanOp, Field, FieldOrder, FieldView};

verus! {

/// Whether a value is the number with the given digits, of which `scale` stand behind the point.
pub open spec fn is_number_of(value: FieldView, digits: int, scale: nat) -> bool {
    match value {
        FieldView::Int(n) => n == digits && scale == 0,
        FieldView::Decimal(n, s) => n == digits && s == scale,
        _ => false,
    }
}

/// The digits of a number once it is written with `at` digits behind the point.
pub open spec fn written_at(digits: int, scale: nat, at: nat) -> int {
    digits * pow(10, (at - scale) as nat)
}

/// What a field holds is what it was made of.
pub proof fn lemma_field_view(field: Field)
    ensures
        match field {
            Field::Int(n) => field@ == FieldView::Int(n),
            Field::Decimal(n, scale) => field@ == FieldView::Decimal(n, scale),
            Field::String(text) => field@ == FieldView::Text(text@),
            Field::Null => field@ == FieldView::Null,
        },
{
}

/// Two fields count as equal if and only if they are of the same kind and hold the same.
pub proof fn lemma_field_equality(a: Field, b: Field)
    ensures
        vstd::std_specs::cmp::PartialEqSpec::eq_spec(&a, &b) <==> match (a, b) {
            (Field::Int(m), Field::Int(n)) => m == n,
            (Field::Decimal(m, s), Field::Decimal(n, t)) => m == n && s == t,
            (Field::String(x), Field::String(y)) => x@ == y@,
            (Field::Null, Field::Null) => true,
            _ => false,
        },
{
}

/// Writing a number with more digits behind the point multiplies its digits.
proof fn lemma_rewritten(digits: int, scale: nat, from: nat, to: nat)
    requires
        scale <= from <= to,
    ensures
        written_at(digits, scale, to) == written_at(digits, scale, from) * pow(
            10,
            (to - from) as nat,
        ),
        pow(10, (to - from) as nat) > 0,
{
    let p = (from - scale) as nat;
    let q = (to - from) as nat;
    vstd::arithmetic::power::lemma_pow_adds(10, p, q);
    vstd::arithmetic::power::lemma_pow_positive(10, q);
    assert(p + q == to - scale);
    let x = pow(10, p);
    let y = pow(10, q);
    assert(digits * (x * y) == (digits * x) * y) by (nonlinear_arith);
}

/// Numbers are ordered by their value, whatever their scales: as their digits are, once both are
/// written with the same number of digits behind the point. The comparisons follow that order.
pub proof fn lemma_numbers_by_value(
    a: FieldView,
    b: FieldView,
    m: int,
    s: nat,
    n: int,
    t: nat,
    at: nat,
)
    requires
        is_number_of(a, m, s),
        is_number_of(b, n, t),
        s <= at,
        t <= at,
    ensures
        a.order(b) == Some(
            if written_at(m, s, at) < written_at(n, t, at) {
                FieldOrder::Less
            } else if written_at(m, s, at) == written_at(n, t, at) {
                FieldOrder::Equal
            } else {
                FieldOrder::Greater
            },
        ),
        a.satisfies(BooleanOp::Lt, b) <==> written_at(m, s, at) < written_at(n, t, at),
        a.satisfies(BooleanOp::Lte, b) <==> written_at(m, s, at) <= written_at(n, t, at),
        a.satisfies(BooleanOp::Gt, b) <==> written_at(m, s, at) > written_at(n, t, at),
        a.satisfies(BooleanOp::Gte, b) <==> written_at(m, s, at) >= written_at(n, t, at),
{
    let common = if s < t {
        t
    } else {
        s
    };
    lemma_rewritten(m, s, common, at);
    lemma_rewritten(n, t, common, at);
    let factor = pow(10, (at - common) as nat);
    let x = written_at(m, s, common);
    let y = written_at(n, t, common);
    assert((x < y <==> x * factor < y * factor) && (x == y <==> x * factor == y * factor))
        by (nonlinear_arith)
        requires
            factor > 0,
    ;
    assert(a.digits_at(common) == x);
    assert(b.digits_at(common) == y);
}

/// Equality and inequality of values are those of what they are made of: of the digits and the scale
/// of numbers, too.
pub proof fn lemma_equal_values(a: FieldView, b: FieldView)
    ensures
        a.satisfies(BooleanOp::Eq, b) <==> a == b,
        a.satisfies(BooleanOp::Neq, b) <==> a != b,
{
}

/// Values that are not both numbers and not both texts have no order: they satisfy none of the
/// comparisons that ask for one.
pub proof fn lemma_no_order(a: FieldView, b: FieldView)
    requires
        !((a is Int || a is Decimal) && (b is Int || b is Decimal)),
        !(a is Text && b is Text),
    ensures
        a.order(b) is None,
        !a.satisfies(BooleanOp::Lt, b),
        !a.satisfies(BooleanOp::Lte, b),
        !a.satisfies(BooleanOp::Gt, b),
        !a.satisfies(BooleanOp::Gte, b),
{
}

/// A comparison can be read from either side, and a weak one is the strict one or equal order.
pub proof fn lemma_comparisons_flip(a: FieldView, b: FieldView)
    ensures
        a.satisfies(BooleanOp::Gt, b) <==> b.satisfies(BooleanOp::Lt, a),
        a.satisfies(BooleanOp::Gte, b) <==> b.satisfies(BooleanOp::Lte, a),
        a.satisfies(BooleanOp::Gte, b) <==> a.satisfies(BooleanOp::Gt, b) || a.order(b) == Some(
            FieldOrder::Equal,
        ),
        a.satisfies(BooleanOp::Lte, b) <==> a.satisfies(BooleanOp::Lt, b) || a.order(b) == Some(
            FieldOrder::Equal,
        ),
        !(a.satisfies(BooleanOp::Gt, b) && a.satisfies(BooleanOp::Lte, b)),
        !(a.satisfies(BooleanOp::Lt, b) && a.satisfies(BooleanOp::Gte, b)),
        a.order(b) is Some ==> a.satisfies(BooleanOp::Gt, b) || a.satisfies(BooleanOp::Lte, b),
        a.order(b) is Some <==> b.order(a) is Some,
{
    if let (FieldView::Text(x), FieldView::Text(y)) = (a, b) {
        lemma_texts_flip(x, y);
    }
}

/// The order of texts can be read from either side.
pub proof fn lemma_texts_flip(a: Seq<char>, b: Seq<char>)
    ensures
        text_order(a, b) == FieldOrder::Less <==> text_order(b, a) == FieldOrder::Greater,
        text_order(a, b) == FieldOrder::Greater <==> text_order(b, a) == FieldOrder::Less,
        text_order(a, b) == FieldOrder::Equal <==> text_order(b, a) == FieldOrder::Equal,
    decreases a.len(),
{
    if a.len() > 0 && b.len() > 0 {
        lemma_texts_flip(a.drop_first(), b.drop_first());
    }
}

/// A common start does not change how texts stand to each other.
proof fn lemma_common_start(a: Seq<char>, b: Seq<char>, k: int)
    requires
        0 <= k <= a.len(),
        k <= b.len(),
        a.take(k) == b.take(k),
    ensures
        text_order(a, b) == text_order(a.skip(k), b.skip(k)),
    decreases k,
{
    if k == 0 {
        assert(a.skip(0) =~= a);
        assert(b.skip(0) =~= b);
    } else {
        assert(a.take(k)[0] == a[0] && b.take(k)[0] == b[0]);
        let x = a.drop_first();
        let y = b.drop_first();
        assert(x.take(k - 1) =~= a.take(k).drop_first());
        assert(y.take(k - 1) =~= b.take(k).drop_first());
        lemma_common_start(x, y, k - 1);
        assert(x.skip(k - 1) =~= a.skip(k));
        assert(y.skip(k - 1) =~= b.skip(k));
    }
}

/// Texts that first differ at some position stand to each other as their characters there do.
pub proof fn lemma_texts_differ(a: Seq<char>, b: Seq<char>, k: int)
    requires
        0 <= k < a.len(),
        k < b.len(),
        a.take(k) == b.take(k),
        a[k] < b[k],
    ensures
        text_order(a, b) == FieldOrder::Less,
        text_order(b, a) == FieldOrder::Greater,
        FieldView::Text(a).order(FieldView::Text(b)) == Some(FieldOrder::Less),
        FieldView::Text(b).order(FieldView::Text(a)) == Some(FieldOrder::Greater),
        FieldView::Text(a).satisfies(BooleanOp::Lt, FieldView::Text(b)),
        FieldView::Text(a).satisfies(BooleanOp::Lte, FieldView::Text(b)),
        !FieldView::Text(a).satisfies(BooleanOp::Gt, FieldView::Text(b)),
        !FieldView::Text(a).satisfies(BooleanOp::Gte, FieldView::Text(b)),
{
    lemma_common_start(a, b, k);
    lemma_common_start(b, a, k);
    assert(a.skip(k)[0] == a[k]);
    assert(b.skip(k)[0] == b[k]);
}

/// The start of a text comes before the whole of it.
pub proof fn lemma_texts_prefix(a: Seq<char>, b: Seq<char>)
    requires
        a.len() < b.len(),
        b.take(a.len() as int) == a,
    ensures
        text_order(a, b) == FieldOrder::Less,
        text_order(b, a) == FieldOrder::Greater,
        FieldView::Text(a).order(FieldView::Text(b)) == Some(FieldOrder::Less),
        FieldView::Text(b).order(FieldView::Text(a)) == Some(FieldOrder::Greater),
{
    assert(a.take(a.len() as int) =~= a);
    lemma_common_start(a, b, a.len() as int);
    lemma_common_start(b, a, a.len() as int);
}

/// Texts are of equal order if and only if they are the same.
pub proof fn lemma_texts_equal(a: Seq<char>, b: Seq<char>)
    ensures
        text_order(a, b) == FieldOrder::Equal <==> a == b,
        FieldView::Text(a).order(FieldView::Text(b)) == Some(FieldOrder::Equal) <==> a == b,
        FieldView::Text(a).order(FieldView::Text(b)) is Some,
    decreases a.len(),
{
    if a.len() > 0 && b.len() > 0 {
        lemma_texts_equal(a.drop_first(), b.drop_first());
        if text_order(a, b) == FieldOrder::Equal {
            assert(a =~= seq![a[0]] + a.drop_first());
            assert(b =~= seq![b[0]] + b.drop_first());
            assert(a[0] == b[0]);
        }
    } else {
        assert(a.len() == 0 && b.len() == 0 ==> a =~= b);
    }
}

/// The sum of two numbers: it has the exact value, with as many digits behind the point as the one of
/// them that has more. It is an integer if and only if both are. It exists if and only if its digits
/// fit.
pub proof fn lemma_sum_of_numbers(a: FieldView, b: FieldView, m: int, s: nat, n: int, t: nat)
    requires
        is_number_of(a, m, s),
        is_number_of(b, n, t),
    ensures
        ({
            let at = if s < t {
                t
            } else {
                s
            };
            let total = written_at(m, s, at) + written_at(n, t, at);
            &&& a.plus(b) is Some <==> i64::MIN <= total <= i64::MAX
            &&& a.plus(b) matches Some(sum) ==> is_number_of(sum, total, at) && (sum is Int <==> a
                is Int && b is Int)
        }),
{
}

/// The value of a sum is the sum of the values, at every scale at which all three are whole.
pub proof fn lemma_sum_keeps_value(
    a: FieldView,
    b: FieldView,
    c: FieldView,
    m: int,
    s: nat,
    n: int,
    t: nat,
    l: int,
    u: nat,
    at: nat,
)
    requires
        is_number_of(a, m, s),
        is_number_of(b, n, t),
        a.plus(b) == Some(c),
        is_number_of(c, l, u),
        s <= at,
        t <= at,
        u <= at,
    ensures
        written_at(l, u, at) == written_at(m, s, at) + written_at(n, t, at),
{
    lemma_sum_of_numbers(a, b, m, s, n, t);
    let common = if s < t {
        t
    } else {
        s
    };
    assert(u == common);
    lemma_rewritten(m, s, common, at);
    lemma_rewritten(n, t, common, at);
    let factor = pow(10, (at - common) as nat);
    let x = written_at(m, s, common);
    let y = written_at(n, t, common);
    assert((x + y) * factor == x * factor + y * factor) by (nonlinear_arith);
}

/// A value that is no number has no sum with any other.
pub proof fn lemma_no_sum(a: FieldView, b: FieldView)
    requires
        !((a is Int || a is Decimal) && (b is Int || b is Decimal)),
    ensures
        a.plus(b) is None,
{
}

/// The sum of two integers is their sum.
pub proof fn lemma_sum_of_ints_is_int(m: i64, n: i64)
    ensures
        FieldView::Int(m).plus(FieldView::Int(n)) == if i64::MIN <= m + n <= i64::MAX {
            Some(FieldView::Int((m + n) as i64))
        } else {
            None
        },
{
    vstd::arithmetic::power::lemma_pow0(10);
    assert(m * 1 == m && n * 1 == n);
}

/// One more digit behind the point multiplies by ten.
pub proof fn lemma_ten(k: nat)
    ensures
        crate::field::pow10(k) == pow(10, k),
        pow(10, k + 1) == 10 * pow(10, k),
        pow(10, 0) == 1,
{
    lemma_pow10_step(k);
    vstd::arithmetic::power::lemma_pow0(10);
}

} // verus!
