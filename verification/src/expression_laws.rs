//! What holds of expressions: the code of an expression computes what the expression means.

use vstd::prelude::*;

use crate::bytecode_expr::{run_codes, ByteCodeExpr, ADD, PUSH_FIELD};
use crate::field::FieldView;
use crate::tuple::Row;

verus! {

/// An expression over the fields of a row: a field, or the sum of two expressions.
pub enum Expression {
    Column(usize),
    Sum(Box<Expression>, Box<Expression>),
}

impl Expression {
    /// The code of an expression: that of its operands, the left one first, and then that of the
    /// sum.
    pub open spec fn codes(self) -> Seq<usize>
        decreases self,
    {
        match self {
            Expression::Column(index) => seq![PUSH_FIELD, index],
            Expression::Sum(left, right) => left.codes() + right.codes() + seq![ADD],
        }
    }

    /// What an expression means on a row; `None` if a field or a sum is missing.
    pub open spec fn meaning(self, row: Row) -> Option<FieldView>
        decreases self,
    {
        match self {
            Expression::Column(index) => if index < row.len() {
                Some(row[index as int])
            } else {
                None
            },
            Expression::Sum(left, right) => match (left.meaning(row), right.meaning(row)) {
                (Some(a), Some(b)) => a.plus(b),
                _ => None,
            },
        }
    }
}

/// Wherever the code of an expression stands, running it puts the value of the expression on top of
/// the stack, and leaves what lies below as it is.
proof fn lemma_run_expression(
    before: Seq<usize>,
    expression: Expression,
    after: Seq<usize>,
    row: Row,
    stack: Seq<FieldView>,
)
    ensures
        ({
            let all = before + expression.codes() + after;
            let start = before.len() as int;
            let end = start + expression.codes().len();
            run_codes(all, start, row, stack) == match expression.meaning(row) {
                Some(value) => run_codes(all, end, row, stack.push(value)),
                None => None,
            }
        }),
    decreases expression,
{
    let all = before + expression.codes() + after;
    let start = before.len() as int;
    match expression {
        Expression::Column(index) => {
            assert(all[start] == PUSH_FIELD);
            assert(all[start + 1] == index);
        },
        Expression::Sum(left, right) => {
            let middle = before + left.codes();
            let right_end = (middle.len() + right.codes().len()) as int;
            lemma_run_expression(before, *left, right.codes() + seq![ADD] + after, row, stack);
            assert(before + left.codes() + (right.codes() + seq![ADD] + after) =~= all);
            if let Some(a) = left.meaning(row) {
                lemma_run_expression(middle, *right, seq![ADD] + after, row, stack.push(a));
                assert(middle + right.codes() + (seq![ADD] + after) =~= all);
                if let Some(b) = right.meaning(row) {
                    let full = stack.push(a).push(b);
                    assert(all[right_end] == ADD);
                    assert(full[full.len() - 2] == a && full[full.len() - 1] == b);
                    assert(full.take(full.len() - 2) =~= stack);
                }
            }
        },
    }
}

/// The code of an expression computes what the expression means, however sums are nested in it.
pub proof fn lemma_expression_value(expr: ByteCodeExpr, expression: Expression, row: Row)
    requires
        expr.codes@ == expression.codes(),
    ensures
        expr.value(row) == expression.meaning(row),
{
    let none = Seq::<usize>::empty();
    lemma_run_expression(none, expression, none, row, Seq::empty());
    assert(none + expression.codes() + none =~= expr.codes@);
}

/// Of the codes of two expressions, one after the other, the second one gives the value, if the first
/// one has one.
pub proof fn lemma_last_expression_counts(
    expr: ByteCodeExpr,
    first: Expression,
    second: Expression,
    row: Row,
)
    requires
        expr.codes@ == first.codes() + second.codes(),
    ensures
        expr.value(row) == if first.meaning(row) is Some {
            second.meaning(row)
        } else {
            None
        },
{
    let none = Seq::<usize>::empty();
    lemma_run_expression(none, first, second.codes(), row, Seq::empty());
    assert(none + first.codes() + second.codes() =~= expr.codes@);
    if let Some(a) = first.meaning(row) {
        lemma_run_expression(first.codes(), second, none, row, Seq::empty().push(a));
        assert(first.codes() + second.codes() + none =~= expr.codes@);
    }
}

/// What lies below the values that a code works on stays as it is.
pub proof fn lemma_stack_below(
    codes: Seq<usize>,
    at: int,
    row: Row,
    below: Seq<FieldView>,
    stack: Seq<FieldView>,
)
    requires
        run_codes(codes, at, row, stack) is Some,
    ensures
        run_codes(codes, at, row, below + stack) == Some(
            below + run_codes(codes, at, row, stack)->0,
        ),
    decreases codes.len() - at,
{
    if at < codes.len() {
        let all = below + stack;
        if codes[at] == PUSH_FIELD {
            let value = row[codes[at + 1] as int];
            lemma_stack_below(codes, at + 2, row, below, stack.push(value));
            assert(all.push(value) =~= below + stack.push(value));
        } else {
            let sum = stack[stack.len() - 2].plus(stack[stack.len() - 1])->0;
            let rest = stack.take(stack.len() - 2).push(sum);
            lemma_stack_below(codes, at + 1, row, below, rest);
            assert(all.take(all.len() - 2).push(sum) =~= below + rest);
            assert(all[all.len() - 2] == stack[stack.len() - 2]);
            assert(all[all.len() - 1] == stack[stack.len() - 1]);
        }
    }
}

/// Running codes and then more is running the latter on what the former leave.
proof fn lemma_run_more(
    before: Seq<usize>,
    codes: Seq<usize>,
    after: Seq<usize>,
    at: int,
    row: Row,
    stack: Seq<FieldView>,
)
    requires
        0 <= at,
        run_codes(codes, at, row, stack) is Some,
        at <= codes.len(),
    ensures
        run_codes(before + codes + after, before.len() + at, row, stack) == run_codes(
            before + codes + after,
            (before.len() + codes.len()) as int,
            row,
            run_codes(codes, at, row, stack)->0,
        ),
    decreases codes.len() - at,
{
    let all = before + codes + after;
    if at < codes.len() {
        assert(all[before.len() + at] == codes[at]);
        if codes[at] == PUSH_FIELD {
            assert(all[before.len() + at + 1] == codes[at + 1]);
            let value = row[codes[at + 1] as int];
            lemma_run_more(before, codes, after, at + 2, row, stack.push(value));
        } else {
            let sum = stack[stack.len() - 2].plus(stack[stack.len() - 1])->0;
            lemma_run_more(
                before,
                codes,
                after,
                at + 1,
                row,
                stack.take(stack.len() - 2).push(sum),
            );
        }
    }
}

/// The codes of two expressions that each leave one value, followed by the code of the sum, have the
/// sum of the two values: at any depth of the stack.
pub proof fn lemma_sum_of_codes(
    x: Seq<usize>,
    y: Seq<usize>,
    expr: ByteCodeExpr,
    row: Row,
    a: FieldView,
    b: FieldView,
    below: Seq<FieldView>,
)
    requires
        run_codes(x, 0, row, Seq::empty()) == Some(seq![a]),
        run_codes(y, 0, row, Seq::empty()) == Some(seq![b]),
        expr.codes@ == x + y + seq![ADD],
    ensures
        expr.value(row) == a.plus(b),
        run_codes(expr.codes@, 0, row, below) == match a.plus(b) {
            Some(sum) => Some(below.push(sum)),
            None => None,
        },
{
    lemma_sum_on_stack(x, y, expr.codes@, row, a, b, below);
    lemma_sum_on_stack(x, y, expr.codes@, row, a, b, Seq::empty());
}

proof fn lemma_sum_on_stack(
    x: Seq<usize>,
    y: Seq<usize>,
    codes: Seq<usize>,
    row: Row,
    a: FieldView,
    b: FieldView,
    below: Seq<FieldView>,
)
    requires
        run_codes(x, 0, row, Seq::empty()) == Some(seq![a]),
        run_codes(y, 0, row, Seq::empty()) == Some(seq![b]),
        codes == x + y + seq![ADD],
    ensures
        run_codes(codes, 0, row, below) == match a.plus(b) {
            Some(sum) => Some(below.push(sum)),
            None => None,
        },
{
    let none = Seq::<usize>::empty();
    let middle = below.push(a);
    let full = middle.push(b);
    lemma_stack_below(x, 0, row, below, Seq::empty());
    assert(below + Seq::<FieldView>::empty() =~= below);
    assert(below + seq![a] =~= middle);
    lemma_run_more(none, x, y + seq![ADD], 0, row, below);
    assert(none + x + (y + seq![ADD]) =~= codes);
    lemma_stack_below(y, 0, row, middle, Seq::empty());
    assert(middle + Seq::<FieldView>::empty() =~= middle);
    assert(middle + seq![b] =~= full);
    lemma_run_more(x, y, seq![ADD], 0, row, middle);
    let at = (x.len() + y.len()) as int;
    assert(codes[at] == ADD);
    assert(full[full.len() - 2] == a && full[full.len() - 1] == b);
    assert(full.take(full.len() - 2) =~= below);
    assert(codes.len() == at + 1);
    assert(run_codes(codes, 0, row, below) == run_codes(codes, x.len() as int, row, middle));
    assert(run_codes(codes, x.len() as int, row, middle) == run_codes(codes, at, row, full));
    if let Some(sum) = a.plus(b) {
        assert(run_codes(codes, at + 1, row, below.push(sum)) == Some(below.push(sum)));
    }
}

} // verus!
