//! What an aggregation gives: which groups, and what comes out for each of them.

use vstd::prelude::*;

use super::aggregate::{
    initial_state, merge, row_values, state_fits, state_result, AggOp, AggView, Aggregate, Grouping,
    Groups,
};
use super::aggregate_laws::{
    group_occurs, group_values, lemma_groups, lemma_max, lemma_min, lemma_no_group_values,
    merge_each, non_nulls,
};
use super::average::average;
use super::tuple_iterator::outcomes;
use super::OpIterator;
use crate::bytecode_expr::ByteCodeExpr;
use crate::field::{BooleanOp, FieldOrder, FieldView};
use crate::field_laws::{
    is_number_of, lemma_no_order, lemma_numbers_by_value, lemma_sum_of_numbers,
    lemma_sum_keeps_value, lemma_texts_equal, written_at,
};
use crate::tuple::Row;

verus! {

/// The digits of a number.
pub open spec fn digits_of(value: FieldView) -> int {
    match value {
        FieldView::Int(n) => n as int,
        FieldView::Decimal(n, _) => n as int,
        _ => 0,
    }
}

/// How many digits of a number stand behind the point.
pub open spec fn scale_of(value: FieldView) -> nat {
    match value {
        FieldView::Decimal(_, scale) => scale as nat,
        _ => 0,
    }
}

/// Whether some values are numbers or null.
pub open spec fn all_numbers(values: Seq<FieldView>) -> bool {
    forall|i: int|
        0 <= i < values.len() ==> (#[trigger] values[i]) is Int || values[i] is Decimal
            || values[i] is Null
}

/// The largest number of digits behind the point that a value has.
pub open spec fn largest_scale(values: Seq<FieldView>) -> nat
    decreases values.len(),
{
    if values.len() == 0 {
        0
    } else {
        let before = largest_scale(values.drop_last());
        if before < scale_of(values.last()) {
            scale_of(values.last())
        } else {
            before
        }
    }
}

/// The exact sum of some numbers, written with `at` digits behind the point.
pub open spec fn exact_sum(values: Seq<FieldView>, at: nat) -> int
    decreases values.len(),
{
    if values.len() == 0 {
        0
    } else {
        exact_sum(values.drop_last(), at) + written_at(
            digits_of(values.last()),
            scale_of(values.last()),
            at,
        )
    }
}

/// Whether the exact sums of the first of some numbers, as far as they have come up, all fit.
pub open spec fn sums_fit(values: Seq<FieldView>) -> bool {
    forall|k: int|
        0 <= k <= values.len() ==> i64::MIN <= exact_sum(
            #[trigger] values.take(k),
            largest_scale(values.take(k)),
        ) <= i64::MAX
}

/// The values of expressions on a row: those of all of them, in their order, if each has one.
pub proof fn lemma_row_values(exprs: Seq<ByteCodeExpr>, row: Row)
    ensures
        row_values(exprs, row) is Some <==> forall|i: int|
            0 <= i < exprs.len() ==> (#[trigger] exprs[i]).value(row) is Some,
        row_values(exprs, row) matches Some(values) ==> values.len() == exprs.len() && forall|
            i: int,
        |
            0 <= i < exprs.len() ==> exprs[i].value(row) == Some(#[trigger] values[i]),
{
}

/// What one more value does to a minimum or a maximum: the first value starts it, and after that it
/// is replaced by a value that comes before it, or after it.
pub proof fn lemma_merge_extreme(value: FieldView, so_far: FieldView)
    requires
        !(value is Null),
    ensures
        merge(AggOp::Min, value, AggView::Value(FieldView::Null)) == Some(AggView::Value(value)),
        merge(AggOp::Max, value, AggView::Value(FieldView::Null)) == Some(AggView::Value(value)),
        !(so_far is Null) ==> merge(AggOp::Min, value, AggView::Value(so_far)) == Some(
            AggView::Value(
                if value.satisfies(BooleanOp::Lt, so_far) {
                    value
                } else {
                    so_far
                },
            ),
        ),
        !(so_far is Null) ==> merge(AggOp::Max, value, AggView::Value(so_far)) == Some(
            AggView::Value(
                if value.satisfies(BooleanOp::Gt, so_far) {
                    value
                } else {
                    so_far
                },
            ),
        ),
{
}

/// What one more value does to a sum, a count and an average.
pub proof fn lemma_merge_total(value: FieldView, so_far: FieldView, n: i64)
    requires
        !(value is Null),
    ensures
        merge(AggOp::Sum, value, AggView::Value(FieldView::Null)) == Some(AggView::Value(value)),
        !(so_far is Null) ==> merge(AggOp::Sum, value, AggView::Value(so_far)) == match so_far.plus(
            value,
        ) {
            Some(sum) => Some(AggView::Value(sum)),
            None => None,
        },
        merge(AggOp::Count, value, AggView::Value(FieldView::Null)) == Some(
            AggView::Value(FieldView::Int(1)),
        ),
        n < i64::MAX ==> merge(AggOp::Count, value, AggView::Value(FieldView::Int(n))) == Some(
            AggView::Value(FieldView::Int((n + 1) as i64)),
        ),
        !(so_far is Null) && n < i64::MAX ==> merge(
            AggOp::Avg,
            value,
            AggView::AvgState(so_far, n),
        ) == match so_far.plus(value) {
            Some(sum) => Some(AggView::AvgState(sum, (n + 1) as i64)),
            None => None,
        },
{
    crate::field_laws::lemma_sum_of_ints_is_int(n, 1);
}

/// The values before the last one.
proof fn lemma_before_last(values: Seq<FieldView>)
    requires
        values.len() > 0,
    ensures
        all_numbers(values) ==> all_numbers(values.drop_last()),
        all_numbers(values) ==> values.last() is Int || values.last() is Decimal || values.last()
            is Null,
        sums_fit(values) ==> sums_fit(values.drop_last()),
        forall|k: int|
            0 <= k < values.len() ==> #[trigger] values.drop_last().take(k) == values.take(k),
{
    let before = values.drop_last();
    assert(values.last() == values[values.len() - 1]);
    assert(forall|i: int| 0 <= i < before.len() ==> before[i] == values[i]);
    assert forall|k: int| 0 <= k < values.len() implies #[trigger] before.take(k) == values.take(
        k,
    ) by {
        assert(before.take(k) =~= values.take(k));
    }
}

/// A number is what its digits and its scale say.
proof fn lemma_is_number(value: FieldView)
    requires
        value is Int || value is Decimal,
    ensures
        is_number_of(value, digits_of(value), scale_of(value)),
{
}

/// Writing a sum out with more digits behind the point.
proof fn lemma_exact_sum_bounds(values: Seq<FieldView>)
    requires
        all_numbers(values),
    ensures
        forall|i: int| 0 <= i < values.len() ==> scale_of(#[trigger] values[i]) <= largest_scale(
            values,
        ),
    decreases values.len(),
{
    if values.len() > 0 {
        lemma_before_last(values);
        lemma_exact_sum_bounds(values.drop_last());
        assert forall|i: int| 0 <= i < values.len() implies scale_of(#[trigger] values[i])
            <= largest_scale(values) by {
            if i < values.len() - 1 {
                assert(values.drop_last()[i] == values[i]);
            }
        }
    }
}

/// Nulls alone add nothing.
proof fn lemma_sum_of_nulls(values: Seq<FieldView>, at: nat)
    requires
        non_nulls(values) == 0,
    ensures
        exact_sum(values, at) == 0,
        largest_scale(values) == 0,
    decreases values.len(),
{
    if values.len() > 0 {
        lemma_sum_of_nulls(values.drop_last(), at);
        assert(0 * vstd::arithmetic::power::pow(10, at) == 0);
    }
}

/// A sum of numbers, decimals too, is null if there are none, and otherwise a number with the value of
/// their exact sum, with as many digits behind the point as the one of them that has the most.
pub proof fn lemma_sum_of_any_numbers(values: Seq<FieldView>, result: AggView, at: nat)
    requires
        all_numbers(values),
        merge_each(AggOp::Sum, initial_state(AggOp::Sum), values) == Some(result),
        largest_scale(values) <= at,
    ensures
        result matches AggView::Value(sum) && (non_nulls(values) == 0 <==> sum is Null) && (
        non_nulls(values) > 0 ==> (sum is Int || sum is Decimal) && scale_of(sum) == largest_scale(
            values,
        ) && written_at(digits_of(sum), scale_of(sum), at) == exact_sum(values, at)),
    decreases values.len(),
{
    if values.len() > 0 {
        let before = values.drop_last();
        let last = values.last();
        lemma_before_last(values);
        let earlier = merge_each(AggOp::Sum, initial_state(AggOp::Sum), before)->0;
        lemma_sum_of_any_numbers(before, earlier, at);
        if last is Null {
            assert(0 * vstd::arithmetic::power::pow(10, at) == 0);
        } else {
            let sum = result->Value_0;
            lemma_is_number(last);
            if non_nulls(before) == 0 {
                lemma_sum_of_nulls(before, at);
            } else {
                let so_far = earlier->Value_0;
                lemma_is_number(so_far);
                lemma_sum_of_numbers(
                    so_far,
                    last,
                    digits_of(so_far),
                    scale_of(so_far),
                    digits_of(last),
                    scale_of(last),
                );
                lemma_is_number(sum);
                lemma_sum_keeps_value(
                    so_far,
                    last,
                    sum,
                    digits_of(so_far),
                    scale_of(so_far),
                    digits_of(last),
                    scale_of(last),
                    digits_of(sum),
                    scale_of(sum),
                    at,
                );
            }
        }
    }
}

/// Whether the number of some values stays countable.
proof fn lemma_non_nulls_grow(values: Seq<FieldView>)
    requires
        values.len() > 0,
    ensures
        non_nulls(values.drop_last()) <= non_nulls(values),
        !(values.last() is Null) ==> non_nulls(values) == non_nulls(values.drop_last()) + 1,
{
}

/// A sum and an average of numbers exist as long as the exact sums of the first of them fit.
pub proof fn lemma_totals_exist(values: Seq<FieldView>)
    requires
        all_numbers(values),
        sums_fit(values),
        non_nulls(values) <= i64::MAX,
    ensures
        merge_each(AggOp::Sum, initial_state(AggOp::Sum), values) is Some,
        merge_each(AggOp::Avg, initial_state(AggOp::Avg), values) is Some,
    decreases values.len(),
{
    if values.len() > 0 {
        let before = values.drop_last();
        let last = values.last();
        let at = largest_scale(values);
        lemma_before_last(values);
        lemma_non_nulls_grow(values);
        lemma_totals_exist(before);
        let earlier = merge_each(AggOp::Sum, initial_state(AggOp::Sum), before)->0;
        let averaged = merge_each(AggOp::Avg, initial_state(AggOp::Avg), before)->0;
        lemma_sum_of_any_numbers(before, earlier, at);
        lemma_average_of_any_numbers(before, averaged, at);
        assert(values.take(values.len() as int) =~= values);
        if !(last is Null) {
            lemma_is_number(last);
            let so_far = earlier->Value_0;
            let sum = averaged->AvgState_0;
            lemma_is_number(sum);
            lemma_sum_of_numbers(
                sum,
                last,
                digits_of(sum),
                scale_of(sum),
                digits_of(last),
                scale_of(last),
            );
            if non_nulls(before) > 0 {
                lemma_is_number(so_far);
                lemma_sum_of_numbers(
                    so_far,
                    last,
                    digits_of(so_far),
                    scale_of(so_far),
                    digits_of(last),
                    scale_of(last),
                );
            }
        }
    }
}

/// What an average of numbers, decimals too, is computed from: a number with the value of their exact
/// sum, and how many they are.
pub proof fn lemma_average_of_any_numbers(values: Seq<FieldView>, result: AggView, at: nat)
    requires
        all_numbers(values),
        merge_each(AggOp::Avg, initial_state(AggOp::Avg), values) == Some(result),
        largest_scale(values) <= at,
    ensures
        result matches AggView::AvgState(sum, count) && count == non_nulls(values) && (sum is Int
            || sum is Decimal) && scale_of(sum) == largest_scale(values) && written_at(
            digits_of(sum),
            scale_of(sum),
            at,
        ) == exact_sum(values, at),
    decreases values.len(),
{
    assert(0 * vstd::arithmetic::power::pow(10, at) == 0);
    if values.len() > 0 {
        let before = values.drop_last();
        let last = values.last();
        lemma_before_last(values);
        let earlier = merge_each(AggOp::Avg, initial_state(AggOp::Avg), before)->0;
        lemma_average_of_any_numbers(before, earlier, at);
        if !(last is Null) {
            let so_far = earlier->AvgState_0;
            let sum = result->AvgState_0;
            lemma_is_number(last);
            lemma_is_number(so_far);
            lemma_sum_of_numbers(
                so_far,
                last,
                digits_of(so_far),
                scale_of(so_far),
                digits_of(last),
                scale_of(last),
            );
            lemma_is_number(sum);
            lemma_sum_keeps_value(
                so_far,
                last,
                sum,
                digits_of(so_far),
                scale_of(so_far),
                digits_of(last),
                scale_of(last),
                digits_of(sum),
                scale_of(sum),
                at,
            );
        }
    }
}

/// A value of equal order with one that comes before a third comes before the third too.
proof fn lemma_equal_chains(a: FieldView, b: FieldView, c: FieldView)
    requires
        a.order(b) == Some(FieldOrder::Equal),
    ensures
        b.order(c) == Some(FieldOrder::Less) ==> a.order(c) == Some(FieldOrder::Less),
        b.order(c) == Some(FieldOrder::Greater) ==> a.order(c) == Some(FieldOrder::Greater),
{
    if let (FieldView::Text(x), FieldView::Text(y)) = (a, b) {
        lemma_texts_equal(x, y);
    } else {
        if !((a is Int || a is Decimal) && (b is Int || b is Decimal)) {
            lemma_no_order(a, b);
        }
        if c is Int || c is Decimal {
            let s = scale_of(a);
            let t = scale_of(b);
            let u = scale_of(c);
            let at = s + t + u;
            lemma_numbers_by_value(a, b, digits_of(a), s, digits_of(b), t, at);
            lemma_numbers_by_value(b, c, digits_of(b), t, digits_of(c), u, at);
            lemma_numbers_by_value(a, c, digits_of(a), s, digits_of(c), u, at);
        } else {
            lemma_no_order(b, c);
        }
    }
}

/// Of values of equal order, a minimum and a maximum are the one that came first.
pub proof fn lemma_first_of_equals(op: AggOp, values: Seq<FieldView>, extreme: FieldView) -> (place:
    int)
    requires
        op == AggOp::Min || op == AggOp::Max,
        merge_each(op, initial_state(op), values) == Some(AggView::Value(extreme)),
        !(extreme is Null),
    ensures
        0 <= place < values.len(),
        values[place] == extreme,
        forall|i: int|
            0 <= i < place ==> (#[trigger] values[i]).order(extreme) != Some(FieldOrder::Equal),
    decreases values.len(),
{
    let before = values.drop_last();
    let last = values.last();
    assert(forall|i: int| 0 <= i < before.len() ==> before[i] == values[i]);
    let earlier = merge_each(op, initial_state(op), before)->0->Value_0;
    if last is Null || (!(earlier is Null) && earlier == extreme) {
        lemma_first_of_equals(op, before, extreme)
    } else {
        if earlier is Null {
            lemma_nulls_before(op, before);
        }
        assert forall|i: int| 0 <= i < values.len() - 1 implies (#[trigger] values[i]).order(last)
            != Some(FieldOrder::Equal) by {
            if !(earlier is Null) {
                if values[i].order(last) == Some(FieldOrder::Equal) {
                    lemma_equal_chains(values[i], last, earlier);
                    if op == AggOp::Min {
                        lemma_min(before);
                    } else {
                        lemma_max(before);
                    }
                    assert(before[i] == values[i]);
                }
            } else {
                assert(before[i] is Null);
            }
        }
        values.len() - 1
    }
}

/// As long as a minimum or a maximum is null, all values were.
proof fn lemma_nulls_before(op: AggOp, values: Seq<FieldView>)
    requires
        op == AggOp::Min || op == AggOp::Max,
        merge_each(op, initial_state(op), values) == Some(AggView::Value(FieldView::Null)),
    ensures
        forall|i: int| 0 <= i < values.len() ==> (#[trigger] values[i]) is Null,
    decreases values.len(),
{
    if values.len() > 0 {
        let before = values.drop_last();
        lemma_nulls_before(op, before);
        assert forall|i: int| 0 <= i < values.len() implies (#[trigger] values[i]) is Null by {
            if i < before.len() {
                assert(before[i] == values[i]);
            }
        }
    }
}

/// What an aggregation that has not read its child yet gives: one row for each group that occurs among
/// the rows of the child. It starts with the key of the group. Behind that stands what each operation
/// has come to over the values that the rows of the group give for it: the value itself, or, for an
/// average, that of the sum and the number of the values.
pub proof fn lemma_aggregate_result<C: OpIterator>(aggregate: Aggregate<C>)
    requires
        aggregate.buffered() is None,
        aggregate.groups() == Groups::none(),
        aggregate.grouping().ops.len() == aggregate.grouping().args.len(),
        aggregate.rows().len() > 0 ==> aggregate.rows()[0] is Some,
    ensures
        ({
            let grouping = aggregate.grouping();
            let inputs = aggregate.input().remaining();
            let rows = aggregate.rows();
            let width = grouping.groupby.len() as int;
            &&& forall|k: int|
                0 <= k < rows.len() ==> (#[trigger] rows[k]) is Some && rows[k]->0.len() == width
                    + grouping.ops.len() && group_occurs(grouping, inputs, rows[k]->0.take(width))
            &&& forall|k: int, l: int|
                0 <= k < l < rows.len() ==> (#[trigger] rows[k])->0.take(width) != (
                #[trigger] rows[l])->0.take(width)
            &&& forall|key: Row| #[trigger]
                group_occurs(grouping, inputs, key) ==> exists|k: int|
                    0 <= k < rows.len() && (#[trigger] rows[k])->0.take(width) == key
            &&& forall|k: int, arg: int|
                0 <= k < rows.len() && 0 <= arg < grouping.ops.len() ==> ({
                    let state = merge_each(
                        grouping.ops[arg],
                        initial_state(grouping.ops[arg]),
                        group_values(grouping, inputs, rows[k]->0.take(width), arg),
                    );
                    &&& state is Some
                    &&& #[trigger] rows[k]->0[width + arg] == match state->0 {
                        AggView::Value(value) => value,
                        AggView::AvgState(sum, count) => average(sum, count),
                    }
                })
        }),
{
    let grouping = aggregate.grouping();
    let inputs = aggregate.input().remaining();
    let rows = aggregate.rows();
    let width = grouping.groupby.len() as int;
    let merged = grouping.merge_rows(Groups::none(), inputs);
    if merged is None {
        assert(rows =~= seq![None]);
        assert(rows[0] is None);
    }
    let groups = merged->0;
    lemma_groups(grouping, inputs, groups);
    let finished = groups.finish();
    assert(rows == outcomes(finished));
    assert forall|k: int| 0 <= k < rows.len() implies (#[trigger] rows[k]) is Some
        && groups.keys[k].len() == width && rows[k]->0.len() == width + grouping.ops.len()
        && rows[k]->0.take(width) == groups.keys[k] && group_occurs(
        grouping,
        inputs,
        groups.keys[k],
    ) by {
        assert(rows[k] == Some(finished[k]));
        assert(groups.keys.contains(groups.keys[k]));
        lemma_key_width(grouping, inputs, groups.keys[k]);
        assert(groups.states[k].len() == grouping.ops.len());
        assert(finished[k].take(width) =~= groups.keys[k]);
    }
    assert forall|key: Row| #[trigger] group_occurs(grouping, inputs, key) implies exists|k: int|
        0 <= k < rows.len() && (#[trigger] rows[k])->0.take(width) == key by {
        assert(groups.keys.contains(key));
        let k = groups.keys.index_of(key);
        assert(rows[k]->0.take(width) == key);
    }
    assert forall|k: int, arg: int| 0 <= k < rows.len() && 0 <= arg < grouping.ops.len() implies ({
        let state = merge_each(
            grouping.ops[arg],
            initial_state(grouping.ops[arg]),
            group_values(grouping, inputs, rows[k]->0.take(width), arg),
        );
        &&& state is Some
        &&& #[trigger] rows[k]->0[width + arg] == match state->0 {
            AggView::Value(value) => value,
            AggView::AvgState(sum, count) => average(sum, count),
        }
    }) by {
        assert(rows[k] == Some(finished[k]));
        assert(rows[k]->0.take(width) == groups.keys[k]);
        assert(merge_each(
            grouping.ops[arg],
            initial_state(grouping.ops[arg]),
            group_values(grouping, inputs, groups.keys[k], arg),
        ) == Some(groups.states[k][arg]));
        assert(finished[k][width + arg] == state_result(groups.states[k][arg]));
    }
}

/// The groups of some rows exist if every row has a key and values, and if for every group the
/// operations have come to something over the values that its rows give.
pub proof fn lemma_groups_exist(grouping: Grouping, rows: Seq<super::Outcome>)
    requires
        grouping.ops.len() == grouping.args.len(),
        forall|i: int|
            0 <= i < rows.len() ==> (#[trigger] rows[i]) is Some && row_values(
                grouping.groupby,
                rows[i]->0,
            ) is Some && row_values(grouping.args, rows[i]->0) is Some,
        forall|key: Row, arg: int|
            0 <= arg < grouping.ops.len() ==> merge_each(
                grouping.ops[arg],
                initial_state(grouping.ops[arg]),
                #[trigger] group_values(grouping, rows, key, arg),
            ) is Some,
    ensures
        grouping.merge_rows(Groups::none(), rows) is Some,
    decreases rows.len(),
{
    if rows.len() > 0 {
        let earlier = rows.drop_last();
        let row = rows.last()->0;
        assert(rows.last() == rows[rows.len() - 1]);
        assert(forall|i: int| 0 <= i < earlier.len() ==> earlier[i] == rows[i]);
        assert forall|key: Row, arg: int| 0 <= arg < grouping.ops.len() implies merge_each(
            grouping.ops[arg],
            initial_state(grouping.ops[arg]),
            #[trigger] group_values(grouping, earlier, key, arg),
        ) is Some by {
            let all = group_values(grouping, rows, key, arg);
            let seen = group_values(grouping, earlier, key, arg);
            if all != seen {
                assert(all.drop_last() =~= seen);
            }
        }
        lemma_groups_exist(grouping, earlier);
        let before = grouping.merge_rows(Groups::none(), earlier)->0;
        lemma_groups(grouping, earlier, before);
        let key = row_values(grouping.groupby, row)->0;
        let values = row_values(grouping.args, row)->0;
        let states = match before.of(key) {
            Some(states) => states,
            None => grouping.initial(),
        };
        assert forall|arg: int| 0 <= arg < grouping.ops.len() implies merge(
            #[trigger] grouping.ops[arg],
            values[arg],
            states[arg],
        ) is Some by {
            let op = grouping.ops[arg];
            let all = group_values(grouping, rows, key, arg);
            let seen = group_values(grouping, earlier, key, arg);
            assert(all == seen.push(values[arg]));
            assert(all.drop_last() =~= seen);
            assert(merge_each(op, initial_state(op), all) is Some);
            if before.keys.contains(key) {
                let g = before.keys.index_of(key);
                assert(before.keys[g] == key);
                assert(merge_each(op, initial_state(op), seen) == Some(before.states[g][arg]));
            } else {
                lemma_no_group_values(grouping, earlier, key, arg);
            }
        }
        assert(grouping.merge_row(before, row) is Some);
        assert(earlier.push(Some(row)) =~= rows);
        grouping.lemma_merge_one_more(Groups::none(), earlier, row);
    }
}

/// A key has a field for each of the expressions for it.
proof fn lemma_key_width(grouping: Grouping, rows: Seq<super::Outcome>, key: Row)
    requires
        group_occurs(grouping, rows, key),
    ensures
        key.len() == grouping.groupby.len(),
{
    let i = choose|i: int|
        0 <= i < rows.len() && row_values(grouping.groupby, (#[trigger] rows[i])->0) == Some(key);
    lemma_row_values(grouping.groupby, rows[i]->0);
}

/// A result that was computed outlives closing: what there is to hand out stays, and so does the whole
/// result.
pub proof fn lemma_aggregate_outlives_close<C: OpIterator>(aggregate: Aggregate<C>)
    requires
        aggregate.buffered() is Some,
    ensures
        aggregate.closed_rows() == aggregate.rows(),
        aggregate.closed_remaining() == aggregate.remaining(),
{
}

/// A result that was not computed yet is that of what the child has once it is closed, without the
/// groups so far.
pub proof fn lemma_aggregate_closed_early<C: OpIterator>(
    aggregate: Aggregate<C>,
    fresh: Aggregate<C>,
)
    requires
        aggregate.buffered() is None,
        fresh.buffered() is None,
        fresh.groups() == Groups::none(),
        fresh.grouping() == aggregate.grouping(),
        fresh.input().remaining() == aggregate.input().closed_remaining(),
    ensures
        aggregate.closed_rows() == fresh.rows(),
        aggregate.closed_remaining() == fresh.rows(),
{
}

/// When an aggregation is open, can report errors, and starts anew, in terms of its child.
pub proof fn lemma_aggregate_flags<C: OpIterator>(aggregate: Aggregate<C>)
    ensures
        aggregate.is_open() <==> aggregate.opened() && aggregate.input().is_open(),
        !aggregate.input().may_fail() ==> !aggregate.may_fail(),
        !aggregate.rewind_may_fail(),
        aggregate.input().keeps_place() ==> aggregate.keeps_place(),
        aggregate.restarts(),
        aggregate.regular(),
        aggregate.will_rewind() == aggregate.told_to_rewind(),
        aggregate.schema() == aggregate.columns(),
        aggregate.rewound() == aggregate.rows(),
{
}

/// Where aggregations start, and which states they work on.
pub proof fn lemma_states(op: AggOp, sum: FieldView, value: FieldView, count: i64)
    ensures
        initial_state(AggOp::Avg) == AggView::AvgState(FieldView::Int(0), 0),
        op != AggOp::Avg ==> initial_state(op) == AggView::Value(FieldView::Null),
        state_fits(op, AggView::AvgState(sum, count)) <==> op == AggOp::Avg,
        state_fits(op, AggView::Value(value)) <==> op != AggOp::Avg,
        state_result(AggView::Value(value)) == value,
        state_result(AggView::AvgState(sum, count)) == average(sum, count),
        merge(op, FieldView::Null, AggView::Value(value)) == Some(AggView::Value(value)),
        merge(op, FieldView::Null, AggView::AvgState(sum, count)) == Some(
            AggView::AvgState(sum, count),
        ),
{
}

} // verus!
