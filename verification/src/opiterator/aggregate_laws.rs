//! What holds of aggregations.

use vstd::prelude::*;

use super::aggregate::{
    initial_state, merge, row_values, AggOp, AggView, Grouping, Groups,
};
use super::Outcome;
use crate::field::{lemma_pow10_step, pow10, text_order, FieldOrder, FieldView};
use crate::tuple::Row;

verus! {

/// The state of an aggregation after some more values; `None` if there is none.
pub open spec fn merge_each(op: AggOp, state: AggView, values: Seq<FieldView>) -> Option<AggView>
    decreases values.len(),
{
    if values.len() == 0 {
        Some(state)
    } else {
        match merge_each(op, state, values.drop_last()) {
            Some(before) => merge(op, values.last(), before),
            None => None,
        }
    }
}

/// How many of some values are not null.
pub open spec fn non_nulls(values: Seq<FieldView>) -> nat
    decreases values.len(),
{
    if values.len() == 0 {
        0
    } else if values.last() is Null {
        non_nulls(values.drop_last())
    } else {
        non_nulls(values.drop_last()) + 1
    }
}

/// The sum of the digits of some values.
pub open spec fn digit_sum(values: Seq<FieldView>) -> int
    decreases values.len(),
{
    if values.len() == 0 {
        0
    } else {
        digit_sum(values.drop_last()) + values.last().digits()
    }
}

/// Whether some values are integers or null.
pub open spec fn all_ints(values: Seq<FieldView>) -> bool {
    forall|i: int| 0 <= i < values.len() ==> (#[trigger] values[i]) is Int || values[i] is Null
}

/// Nulls are passed over: they leave the state of any aggregation as it is.
pub proof fn lemma_nulls_ignored(op: AggOp, state: AggView)
    ensures
        merge(op, FieldView::Null, state) == Some(state),
{
}

/// A value that is there changes nothing about what came before it.
proof fn lemma_merge_each_prefix(op: AggOp, state: AggView, values: Seq<FieldView>)
    requires
        values.len() > 0,
        merge_each(op, state, values) is Some,
    ensures
        merge_each(op, state, values.drop_last()) is Some,
{
}

/// The sum of integers at scale zero is their sum.
proof fn lemma_int_plus(a: i64, b: i64)
    ensures
        FieldView::Int(a).plus(FieldView::Int(b)) == if i64::MIN <= a + b <= i64::MAX {
            Some(FieldView::Int((a + b) as i64))
        } else {
            None
        },
{
    vstd::arithmetic::power::lemma_pow0(10);
    assert(a * 1 == a && b * 1 == b);
}

/// A count gives the number of values that are not null, and null if there are none.
pub proof fn lemma_count(values: Seq<FieldView>)
    requires
        non_nulls(values) <= i64::MAX,
    ensures
        merge_each(AggOp::Count, initial_state(AggOp::Count), values) == Some(
            AggView::Value(
                if non_nulls(values) == 0 {
                    FieldView::Null
                } else {
                    FieldView::Int(non_nulls(values) as i64)
                },
            ),
        ),
    decreases values.len(),
{
    if values.len() > 0 {
        lemma_count(values.drop_last());
        lemma_int_plus(non_nulls(values.drop_last()) as i64, 1);
    }
}

/// The sum of integers is their sum, and null if there are none.
pub proof fn lemma_sum_of_ints(values: Seq<FieldView>, result: AggView)
    requires
        all_ints(values),
        merge_each(AggOp::Sum, initial_state(AggOp::Sum), values) == Some(result),
    ensures
        result == AggView::Value(
            if non_nulls(values) == 0 {
                FieldView::Null
            } else {
                FieldView::Int(digit_sum(values) as i64)
            },
        ),
        i64::MIN <= digit_sum(values) <= i64::MAX,
        non_nulls(values) == 0 ==> digit_sum(values) == 0,
    decreases values.len(),
{
    if values.len() > 0 {
        let before = values.drop_last();
        lemma_merge_each_prefix(AggOp::Sum, initial_state(AggOp::Sum), values);
        assert forall|i: int| 0 <= i < before.len() implies (#[trigger] before[i]) is Int
            || before[i] is Null by {
            assert(before[i] == values[i]);
        }
        lemma_sum_of_ints(before, merge_each(AggOp::Sum, initial_state(AggOp::Sum), before)->0);
        assert(values.last() == values[values.len() - 1]);
        if let FieldView::Int(last) = values.last() {
            lemma_int_plus(digit_sum(before) as i64, last);
        }
    }
}

/// What an average of integers is computed from: their sum and their number.
pub proof fn lemma_average_of_ints(values: Seq<FieldView>, result: AggView)
    requires
        all_ints(values),
        merge_each(AggOp::Avg, initial_state(AggOp::Avg), values) == Some(result),
    ensures
        result == AggView::AvgState(
            FieldView::Int(digit_sum(values) as i64),
            non_nulls(values) as i64,
        ),
        i64::MIN <= digit_sum(values) <= i64::MAX,
        non_nulls(values) <= i64::MAX,
    decreases values.len(),
{
    if values.len() > 0 {
        let before = values.drop_last();
        lemma_merge_each_prefix(AggOp::Avg, initial_state(AggOp::Avg), values);
        assert forall|i: int| 0 <= i < before.len() implies (#[trigger] before[i]) is Int
            || before[i] is Null by {
            assert(before[i] == values[i]);
        }
        lemma_average_of_ints(
            before,
            merge_each(AggOp::Avg, initial_state(AggOp::Avg), before)->0,
        );
        assert(values.last() == values[values.len() - 1]);
        if let FieldView::Int(last) = values.last() {
            lemma_int_plus(digit_sum(before) as i64, last);
        }
    }
}

/// Numbers compare the same at any scale at which they are whole.
proof fn lemma_order_at_scale(a: FieldView, b: FieldView, scale: nat)
    requires
        a.is_number(),
        b.is_number(),
        a.scale() <= scale,
        b.scale() <= scale,
    ensures
        a.order(b) == Some(FieldOrder::Less) <==> a.digits_at(scale) < b.digits_at(scale),
        a.order(b) == Some(FieldOrder::Greater) <==> a.digits_at(scale) > b.digits_at(scale),
{
    let common = a.common_scale(b);
    let factor = pow10((scale - common) as nat);
    lemma_pow10_step((scale - common) as nat);
    lemma_rescale(a, common, scale);
    lemma_rescale(b, common, scale);
    let x = a.digits_at(common);
    let y = b.digits_at(common);
    assert((x < y <==> x * factor < y * factor) && (x > y <==> x * factor > y * factor))
        by (nonlinear_arith)
        requires
            factor > 0,
    ;
}

/// Writing a number with more digits behind the point multiplies its digits.
proof fn lemma_rescale(a: FieldView, from: nat, to: nat)
    requires
        a.scale() <= from <= to,
    ensures
        a.digits_at(to) == a.digits_at(from) * pow10((to - from) as nat),
{
    let p = (from - a.scale()) as nat;
    let q = (to - from) as nat;
    vstd::arithmetic::power::lemma_pow_adds(10, p, q);
    assert(p + q == to - a.scale());
    let d = a.digits();
    let x = pow10(p);
    let y = pow10(q);
    assert(d * (x * y) == (d * x) * y) by (nonlinear_arith);
}

/// The order of texts can be read from either side.
proof fn lemma_text_order_flips(a: Seq<char>, b: Seq<char>)
    ensures
        text_order(a, b) == FieldOrder::Less <==> text_order(b, a) == FieldOrder::Greater,
        text_order(a, b) == FieldOrder::Greater <==> text_order(b, a) == FieldOrder::Less,
    decreases a.len(),
{
    if a.len() > 0 && b.len() > 0 {
        lemma_text_order_flips(a.drop_first(), b.drop_first());
    }
}

/// A text before a text before a third is before the third.
proof fn lemma_text_order_chains(a: Seq<char>, b: Seq<char>, c: Seq<char>)
    requires
        text_order(a, b) == FieldOrder::Less,
        text_order(b, c) == FieldOrder::Less,
    ensures
        text_order(a, c) == FieldOrder::Less,
    decreases a.len(),
{
    if a.len() > 0 && b.len() > 0 && c.len() > 0 {
        if a[0] == b[0] && b[0] == c[0] {
            lemma_text_order_chains(a.drop_first(), b.drop_first(), c.drop_first());
        }
    }
}

/// The order of values can be read from either side.
pub proof fn lemma_order_flips(a: FieldView, b: FieldView)
    ensures
        a.order(b) == Some(FieldOrder::Less) <==> b.order(a) == Some(FieldOrder::Greater),
        a.order(b) == Some(FieldOrder::Greater) <==> b.order(a) == Some(FieldOrder::Less),
{
    if let (FieldView::Text(x), FieldView::Text(y)) = (a, b) {
        lemma_text_order_flips(x, y);
    }
}

/// A value before a value before a third is before the third.
pub proof fn lemma_order_chains(a: FieldView, b: FieldView, c: FieldView)
    requires
        a.order(b) == Some(FieldOrder::Less),
        b.order(c) == Some(FieldOrder::Less),
    ensures
        a.order(c) == Some(FieldOrder::Less),
{
    if a.is_number() {
        let scale = if a.common_scale(b) < c.scale() {
            c.scale()
        } else {
            a.common_scale(b)
        };
        lemma_order_at_scale(a, b, scale);
        lemma_order_at_scale(b, c, scale);
        lemma_order_at_scale(a, c, scale);
    } else if let (FieldView::Text(x), FieldView::Text(y)) = (a, b) {
        lemma_text_order_chains(x, y, c->Text_0);
    }
}

/// No value comes before itself.
proof fn lemma_order_irreflexive(a: FieldView)
    ensures
        a.order(a) != Some(FieldOrder::Less),
        a.order(a) != Some(FieldOrder::Greater),
{
    lemma_order_flips(a, a);
}

/// A minimum is one of the values, and none of them comes before it. It is null if all values are.
pub proof fn lemma_min(values: Seq<FieldView>)
    ensures
        merge_each(AggOp::Min, initial_state(AggOp::Min), values) matches Some(
            AggView::Value(least),
        ) && (non_nulls(values) == 0 <==> least is Null) && (non_nulls(values) > 0
            ==> values.contains(least)) && forall|i: int|
            0 <= i < values.len() ==> (#[trigger] values[i]).order(least) != Some(FieldOrder::Less),
    decreases values.len(),
{
    if values.len() > 0 {
        let before = values.drop_last();
        let last = values.last();
        assert(last == values[values.len() - 1]);
        assert(forall|i: int| 0 <= i < before.len() ==> before[i] == values[i]);
        lemma_min(before);
        let old_least = merge_each(AggOp::Min, initial_state(AggOp::Min), before)->0->Value_0;
        let least = merge_each(AggOp::Min, initial_state(AggOp::Min), values)->0->Value_0;
        lemma_order_irreflexive(last);
        if non_nulls(before) > 0 {
            let k = before.index_of(old_least);
            assert(before[k] == old_least && values[k] == old_least);
        }
        assert forall|i: int| 0 <= i < values.len() implies (#[trigger] values[i]).order(least)
            != Some(FieldOrder::Less) by {
            if i < before.len() {
                assert(before[i].order(old_least) != Some(FieldOrder::Less));
                if least == last && !(last is Null) {
                    if !(old_least is Null) {
                        if values[i].order(last) == Some(FieldOrder::Less) {
                            lemma_order_chains(values[i], last, old_least);
                        }
                    } else {
                        lemma_all_null(before, i);
                    }
                }
            }
        }
    }
}

/// Where no value is anything but null, each is null.
proof fn lemma_all_null(values: Seq<FieldView>, i: int)
    requires
        non_nulls(values) == 0,
        0 <= i < values.len(),
    ensures
        values[i] is Null,
    decreases values.len(),
{
    if i < values.len() - 1 {
        lemma_all_null(values.drop_last(), i);
    }
}

/// A maximum is one of the values, and none of them comes after it. It is null if all values are.
pub proof fn lemma_max(values: Seq<FieldView>)
    ensures
        merge_each(AggOp::Max, initial_state(AggOp::Max), values) matches Some(
            AggView::Value(most),
        ) && (non_nulls(values) == 0 <==> most is Null) && (non_nulls(values) > 0
            ==> values.contains(most)) && forall|i: int|
            0 <= i < values.len() ==> (#[trigger] values[i]).order(most) != Some(
                FieldOrder::Greater,
            ),
    decreases values.len(),
{
    if values.len() > 0 {
        let before = values.drop_last();
        let last = values.last();
        assert(last == values[values.len() - 1]);
        assert(forall|i: int| 0 <= i < before.len() ==> before[i] == values[i]);
        lemma_max(before);
        let old_most = merge_each(AggOp::Max, initial_state(AggOp::Max), before)->0->Value_0;
        let most = merge_each(AggOp::Max, initial_state(AggOp::Max), values)->0->Value_0;
        lemma_order_irreflexive(last);
        if non_nulls(before) > 0 {
            let k = before.index_of(old_most);
            assert(before[k] == old_most && values[k] == old_most);
        }
        assert forall|i: int| 0 <= i < values.len() implies (#[trigger] values[i]).order(most)
            != Some(FieldOrder::Greater) by {
            if i < before.len() {
                assert(before[i].order(old_most) != Some(FieldOrder::Greater));
                if most == last && !(last is Null) {
                    if !(old_most is Null) {
                        if values[i].order(last) == Some(FieldOrder::Greater) {
                            lemma_order_flips(values[i], last);
                            lemma_order_flips(last, old_most);
                            lemma_order_chains(old_most, last, values[i]);
                            lemma_order_flips(values[i], old_most);
                        }
                    } else {
                        lemma_all_null(before, i);
                    }
                }
            }
        }
    }
}

/// The values that the rows of a group give for one of the aggregations, in the order of the rows.
pub open spec fn group_values(grouping: Grouping, rows: Seq<Outcome>, key: Row, arg: int) -> Seq<
    FieldView,
>
    decreases rows.len(),
{
    if rows.len() == 0 {
        Seq::empty()
    } else {
        let before = group_values(grouping, rows.drop_last(), key, arg);
        let row = rows.last()->0;
        if row_values(grouping.groupby, row) == Some(key) {
            before.push(row_values(grouping.args, row)->0[arg])
        } else {
            before
        }
    }
}

/// Whether some row belongs to a group.
pub open spec fn group_occurs(grouping: Grouping, rows: Seq<Outcome>, key: Row) -> bool {
    exists|i: int|
        0 <= i < rows.len() && row_values(grouping.groupby, (#[trigger] rows[i])->0) == Some(key)
}

/// Merging some rows is merging all but the last, and then the last.
proof fn lemma_merge_rows_last(grouping: Grouping, groups: Groups, rows: Seq<Outcome>)
    requires
        rows.len() > 0,
        grouping.merge_rows(groups, rows) is Some,
    ensures
        grouping.merge_rows(groups, rows.drop_last()) is Some,
        rows.last() is Some,
        grouping.merge_rows(groups, rows) == grouping.merge_row(
            grouping.merge_rows(groups, rows.drop_last())->0,
            rows.last()->0,
        ),
    decreases rows.len(),
{
    let later = rows.drop_first();
    let merged = grouping.merge_row(groups, rows[0]->0)->0;
    if later.len() > 0 {
        lemma_merge_rows_last(grouping, merged, later);
        assert(later.drop_last() =~= rows.drop_last().drop_first());
        assert(later.last() == rows.last());
        assert(rows.drop_last()[0] == rows[0]);
    } else {
        assert(rows.drop_last() =~= Seq::empty());
        assert(rows.last() == rows[0]);
        assert(grouping.merge_rows(merged, later) == Some(merged));
    }
}

/// A group that does not occur has no values.
pub proof fn lemma_no_group_values(grouping: Grouping, rows: Seq<Outcome>, key: Row, arg: int)
    requires
        !group_occurs(grouping, rows, key),
    ensures
        group_values(grouping, rows, key, arg) == Seq::<FieldView>::empty(),
    decreases rows.len(),
{
    if rows.len() > 0 {
        let before = rows.drop_last();
        assert(rows.last() == rows[rows.len() - 1]);
        if group_occurs(grouping, before, key) {
            let i = choose|i: int|
                0 <= i < before.len() && row_values(grouping.groupby, (#[trigger] before[i])->0)
                    == Some(key);
            assert(rows[i] == before[i]);
        }
        lemma_no_group_values(grouping, before, key, arg);
    }
}

/// The groups of some rows are those that occur among them, each once, and what the aggregations of
/// a group come to depends on the values that its own rows give, and on nothing else.
pub proof fn lemma_groups(grouping: Grouping, rows: Seq<Outcome>, groups: Groups)
    requires
        grouping.ops.len() == grouping.args.len(),
        grouping.merge_rows(Groups::none(), rows) == Some(groups),
    ensures
        groups.keys.no_duplicates(),
        groups.keys.len() == groups.states.len(),
        forall|key: Row| #[trigger]
            groups.keys.contains(key) <==> group_occurs(grouping, rows, key),
        forall|g: int|
            0 <= g < groups.keys.len() ==> (#[trigger] groups.states[g]).len()
                == grouping.ops.len(),
        forall|g: int, arg: int|
            0 <= g < groups.keys.len() && 0 <= arg < grouping.ops.len() ==> merge_each(
                grouping.ops[arg],
                initial_state(grouping.ops[arg]),
                group_values(grouping, rows, groups.keys[g], arg),
            ) == Some(#[trigger] groups.states[g][arg]),
    decreases rows.len(),
{
    if rows.len() > 0 {
        let earlier = rows.drop_last();
        lemma_merge_rows_last(grouping, Groups::none(), rows);
        let before = grouping.merge_rows(Groups::none(), earlier)->0;
        lemma_groups(grouping, earlier, before);
        let row = rows.last()->0;
        let key = row_values(grouping.groupby, row)->0;
        let values = row_values(grouping.args, row)->0;
        let found = before.keys.contains(key);
        let place = before.keys.index_of(key);
        let start = if found {
            before.states[place]
        } else {
            grouping.initial()
        };
        let merged = grouping.merge_values(start, values)->0;
        assert(groups == before.with(key, merged));
        assert forall|k: Row| group_occurs(grouping, rows, k) <==> (k == key || group_occurs(
            grouping,
            earlier,
            k,
        )) by {
            if group_occurs(grouping, rows, k) {
                let i = choose|i: int|
                    0 <= i < rows.len() && row_values(grouping.groupby, (#[trigger] rows[i])->0)
                        == Some(k);
                if i < earlier.len() {
                    assert(earlier[i] == rows[i]);
                }
            }
            if group_occurs(grouping, earlier, k) {
                let i = choose|i: int|
                    0 <= i < earlier.len() && row_values(
                        grouping.groupby,
                        (#[trigger] earlier[i])->0,
                    ) == Some(k);
                assert(rows[i] == earlier[i]);
            }
            assert(rows[rows.len() - 1] == rows.last());
        }
        assert forall|k: Row| #[trigger]
            groups.keys.contains(k) <==> group_occurs(grouping, rows, k) by {
            assert(before.keys.contains(k) <==> group_occurs(grouping, earlier, k));
            if !found {
                if k == key {
                    assert(groups.keys[before.keys.len() as int] == key);
                }
                if before.keys.contains(k) {
                    let i = before.keys.index_of(k);
                    assert(groups.keys[i] == k);
                }
                if groups.keys.contains(k) {
                    let i = groups.keys.index_of(k);
                    if i < before.keys.len() {
                        assert(before.keys[i] == k);
                    }
                }
            }
        }
        assert forall|g: int, arg: int|
            0 <= g < groups.keys.len() && 0 <= arg < grouping.ops.len() implies merge_each(
            grouping.ops[arg],
            initial_state(grouping.ops[arg]),
            group_values(grouping, rows, groups.keys[g], arg),
        ) == Some(#[trigger] groups.states[g][arg]) by {
            let k = groups.keys[g];
            let op = grouping.ops[arg];
            let seen = group_values(grouping, earlier, k, arg);
            if g < before.keys.len() && g != place || (g < before.keys.len() && !found) {
                assert(before.keys[g] == k);
                assert(k != key);
                assert(merge_each(op, initial_state(op), seen) == Some(before.states[g][arg]));
            } else {
                assert(k == key);
                if found {
                    assert(before.keys[place] == key);
                    assert(merge_each(op, initial_state(op), seen) == Some(
                        before.states[place][arg],
                    ));
                } else {
                    assert(!group_occurs(grouping, earlier, key));
                    lemma_no_group_values(grouping, earlier, key, arg);
                }
                assert(merge_each(op, initial_state(op), seen) == Some(start[arg]));
                let all = group_values(grouping, rows, k, arg);
                assert(all == seen.push(values[arg]));
                assert(all.drop_last() =~= seen);
                assert(merge(op, values[arg], start[arg]) == Some(merged[arg]));
            }
        }
    } else {
        assert(groups == Groups::none());
    }
}

} // verus!
