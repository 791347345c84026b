//! The operator that groups its input and sums each group up.

use vstd::prelude::*;

use super::average::{average, average_of};
use super::calls::{
    added, failure, grew, lemma_added, lemma_one_more_row, read_to_end, read_until_failure, rows_read,
    Answer, Call,
};
use super::tuple_iterator::outcomes;
use super::{OpIterator, Outcome};
use crate::bytecode_expr::ByteCodeExpr;
use crate::error::CrustyError;
use crate::field::{Field, FieldOrder, FieldView};
use crate::key_table::KeyTable;
use crate::tuple::{clone_fields, field_views, tuple_views, Row, TableSchema, Tuple};

verus! {

/// An aggregation operation.
#[derive(Clone, Copy, Debug, PartialEq, Eq, Structural)]
pub enum AggOp {
    Avg,
    Count,
    Max,
    Min,
    Sum,
}

/// How far the aggregation of some values has got.
#[derive(Debug)]
pub enum AggState {
    /// What a minimum, a maximum, a sum or a count has come to so far.
    Value(Field),
    /// What an average has come to so far: the sum of the values and their number.
    AvgState(Field, i64),
}

/// What an `AggState` holds.
pub enum AggView {
    Value(FieldView),
    AvgState(FieldView, i64),
}

impl View for AggState {
    type V = AggView;

    open spec fn view(&self) -> AggView {
        match self {
            AggState::Value(value) => AggView::Value(value@),
            AggState::AvgState(sum, count) => AggView::AvgState(sum@, *count),
        }
    }
}

/// What each of some states holds.
pub open spec fn state_views(states: Seq<AggState>) -> Seq<AggView> {
    states.map_values(|state: AggState| state@)
}

/// Where an aggregation starts.
pub open spec fn initial_state(op: AggOp) -> AggView {
    match op {
        AggOp::Avg => AggView::AvgState(FieldView::Int(0), 0),
        _ => AggView::Value(FieldView::Null),
    }
}

/// Whether a state is of the kind that an operation works on.
pub open spec fn state_fits(op: AggOp, state: AggView) -> bool {
    match op {
        AggOp::Avg => state is AvgState,
        _ => state is Value,
    }
}

/// The sum of a value and one more, where a null counts for nothing.
pub open spec fn sum_or_first(so_far: FieldView, value: FieldView) -> Option<FieldView> {
    if so_far is Null {
        Some(value)
    } else {
        so_far.plus(value)
    }
}

/// The state after one more value. Nulls are passed over. There is no such state where a sum does
/// not exist, where the values can no longer be counted, and where the state does not fit the
/// operation.
pub open spec fn merge(op: AggOp, value: FieldView, state: AggView) -> Option<AggView> {
    if value is Null {
        Some(state)
    } else if !state_fits(op, state) {
        None
    } else {
        match state {
            AggView::Value(so_far) => match op {
                AggOp::Min => if so_far is Null || value.order(so_far) == Some(FieldOrder::Less) {
                    Some(AggView::Value(value))
                } else {
                    Some(state)
                },
                AggOp::Max => if so_far is Null || value.order(so_far) == Some(
                    FieldOrder::Greater,
                ) {
                    Some(AggView::Value(value))
                } else {
                    Some(state)
                },
                AggOp::Count => match sum_or_first(so_far, FieldView::Int(1)) {
                    Some(count) => Some(AggView::Value(count)),
                    None => None,
                },
                _ => match sum_or_first(so_far, value) {
                    Some(sum) => Some(AggView::Value(sum)),
                    None => None,
                },
            },
            AggView::AvgState(so_far, count) => match sum_or_first(so_far, value) {
                Some(sum) => if count < i64::MAX {
                    Some(AggView::AvgState(sum, (count + 1) as i64))
                } else {
                    None
                },
                None => None,
            },
        }
    }
}

/// What an aggregation has come to in the end.
pub open spec fn state_result(state: AggView) -> FieldView {
    match state {
        AggView::Value(value) => value,
        AggView::AvgState(sum, count) => average(sum, count),
    }
}

/// The values of some expressions on a row; `None` if one of them has none.
pub open spec fn row_values(exprs: Seq<ByteCodeExpr>, row: Row) -> Option<Row> {
    if forall|i: int| 0 <= i < exprs.len() ==> (#[trigger] exprs[i]).value(row) is Some {
        Some(Seq::new(exprs.len(), |i: int| exprs[i].value(row)->0))
    } else {
        None
    }
}

/// The groups of some rows: their keys, in the order in which they first came up, and how far the
/// aggregations of each group have got.
#[verifier::ext_equal]
pub struct Groups {
    pub keys: Seq<Row>,
    pub states: Seq<Seq<AggView>>,
}

/// What a grouping is made of: the expressions for the keys, those for the values, and the
/// operations on the values.
pub struct Grouping {
    pub groupby: Seq<ByteCodeExpr>,
    pub args: Seq<ByteCodeExpr>,
    pub ops: Seq<AggOp>,
}

impl Groups {
    /// No group at all.
    pub open spec fn none() -> Groups {
        Groups { keys: Seq::empty(), states: Seq::empty() }
    }

    /// How far the aggregations of a group have got, if there is such a group.
    pub open spec fn of(self, key: Row) -> Option<Seq<AggView>> {
        if self.keys.contains(key) {
            Some(self.states[self.keys.index_of(key)])
        } else {
            None
        }
    }

    /// The groups, with other states for one of them, which is appended if it is not there yet.
    pub open spec fn with(self, key: Row, states: Seq<AggView>) -> Groups {
        if self.keys.contains(key) {
            Groups { keys: self.keys, states: self.states.update(self.keys.index_of(key), states) }
        } else {
            Groups { keys: self.keys.push(key), states: self.states.push(states) }
        }
    }

    /// The row that each group gives: its key, and what its aggregations have come to.
    pub open spec fn finish(self) -> Seq<Row> {
        Seq::new(
            self.keys.len(),
            |i: int|
                self.keys[i] + self.states[i].map_values(
                    |state: AggView| state_result(state),
                ),
        )
    }
}

impl Grouping {
    /// Where the aggregations of a group start.
    pub open spec fn initial(self) -> Seq<AggView> {
        self.ops.map_values(|op: AggOp| initial_state(op))
    }

    /// The states after one more value for each of them.
    pub open spec fn merge_values(self, states: Seq<AggView>, values: Row) -> Option<
        Seq<AggView>,
    > {
        if forall|i: int|
            0 <= i < self.ops.len() ==> merge(
                #[trigger] self.ops[i],
                values[i],
                states[i],
            ) is Some {
            Some(Seq::new(self.ops.len(), |i: int| merge(self.ops[i], values[i], states[i])->0))
        } else {
            None
        }
    }

    /// The groups after one more row; `None` if the row has no key or no values, or if the values
    /// cannot be merged into those of the group.
    pub open spec fn merge_row(self, groups: Groups, row: Row) -> Option<Groups> {
        match (row_values(self.groupby, row), row_values(self.args, row)) {
            (Some(key), Some(values)) => {
                let states = match groups.of(key) {
                    Some(states) => states,
                    None => self.initial(),
                };
                match self.merge_values(states, values) {
                    Some(merged) => Some(groups.with(key, merged)),
                    None => None,
                }
            },
            _ => None,
        }
    }

    /// The groups after some more rows.
    pub open spec fn merge_rows(self, groups: Groups, rows: Seq<Outcome>) -> Option<Groups>
        decreases rows.len(),
    {
        if rows.len() == 0 {
            Some(groups)
        } else {
            match rows[0] {
                None => None,
                Some(row) => match self.merge_row(groups, row) {
                    None => None,
                    Some(merged) => self.merge_rows(merged, rows.drop_first()),
                },
            }
        }
    }

    /// Merging a row after others is merging it into what these have come to.
    pub proof fn lemma_merge_one_more(self, groups: Groups, rows: Seq<Outcome>, row: Row)
        requires
            self.merge_rows(groups, rows) is Some,
        ensures
            self.merge_rows(groups, rows.push(Some(row))) == self.merge_row(
                self.merge_rows(groups, rows)->0,
                row,
            ),
        decreases rows.len(),
    {
        let all = rows.push(Some(row));
        if rows.len() == 0 {
            assert(all.drop_first() =~= Seq::empty());
            if let Some(merged) = self.merge_row(groups, row) {
                assert(self.merge_rows(merged, all.drop_first()) == Some(merged));
            }
        } else {
            assert(all[0] == rows[0]);
            assert(all.drop_first() =~= rows.drop_first().push(Some(row)));
            let merged = self.merge_row(groups, rows[0]->0)->0;
            self.lemma_merge_one_more(merged, rows.drop_first(), row);
        }
    }

    /// The result of the aggregation after some more rows. No row of it can be had if one of the
    /// input rows cannot be had or merged.
    pub open spec fn result(self, groups: Groups, rows: Seq<Outcome>) -> Seq<Outcome> {
        match self.merge_rows(groups, rows) {
            None => seq![None],
            Some(merged) => outcomes(merged.finish()),
        }
    }
}

/// What a table of groups holds.
spec fn table_groups(table: KeyTable<Vec<AggState>>) -> Groups {
    Groups {
        keys: table.key_rows(),
        states: table.values().map_values(|states: Vec<AggState>| state_views(states@)),
    }
}

/// Whether some states are of the kinds that the operations work on.
pub open spec fn states_fit(ops: Seq<AggOp>, states: Seq<AggView>) -> bool {
    &&& states.len() == ops.len()
    &&& forall|i: int| 0 <= i < ops.len() ==> state_fits(#[trigger] ops[i], states[i])
}

/// Whether the states of all groups are of the kinds that the operations work on.
pub open spec fn groups_fit(ops: Seq<AggOp>, groups: Groups) -> bool {
    &&& groups.keys.len() == groups.states.len()
    &&& groups.keys.no_duplicates()
    &&& forall|i: int| 0 <= i < groups.states.len() ==> states_fit(ops, #[trigger] groups.states[i])
}

/// The values of some expressions on a tuple.
fn eval_all(exprs: &Vec<ByteCodeExpr>, tuple: &Tuple) -> (res: Vec<Field>)
    requires
        row_values(exprs@, tuple@) is Some,
    ensures
        row_values(exprs@, tuple@) == Some(field_views(res@)),
{
    let mut res: Vec<Field> = Vec::new();
    for i in 0..exprs.len()
        invariant
            row_values(exprs@, tuple@) is Some,
            field_views(res@) == row_values(exprs@, tuple@)->0.take(i as int),
    {
        let ghost before = field_views(res@);
        assert(exprs@[i as int].value(tuple@) is Some);
        let value = exprs[i].eval(tuple);
        res.push(value);
        assert(field_views(res@) == before.push(value@));
        assert(row_values(exprs@, tuple@)->0.take(i + 1) == before.push(value@));
    }
    assert(field_views(res@) == row_values(exprs@, tuple@)->0);
    res
}

/// Where the aggregations of a group start.
fn initial_states(ops: &Vec<AggOp>) -> (res: Vec<AggState>)
    ensures
        state_views(res@) == ops@.map_values(|op: AggOp| initial_state(op)),
{
    let mut res: Vec<AggState> = Vec::new();
    let ghost expected = ops@.map_values(|op: AggOp| initial_state(op));
    for i in 0..ops.len()
        invariant
            expected == ops@.map_values(|op: AggOp| initial_state(op)),
            state_views(res@) == expected.take(i as int),
    {
        let ghost before = state_views(res@);
        let state = match ops[i] {
            AggOp::Avg => AggState::AvgState(Field::Int(0), 0),
            _ => AggState::Value(Field::Null),
        };
        res.push(state);
        assert(state_views(res@) == before.push(state@));
        assert(expected.take(i + 1) == before.push(state@));
    }
    assert(state_views(res@) == expected);
    res
}

/// The operator that groups the tuples of its child and sums each group up. Its result has one
/// tuple for each group: the key of the group, followed by what its aggregations have come to. It
/// reads the whole child when it is first asked for a tuple.
pub struct Aggregate<C: OpIterator> {
    schema: TableSchema,
    /// Give the key of the group of a tuple.
    groupby_expr: Vec<ByteCodeExpr>,
    /// Give the values to be aggregated.
    agg_expr: Vec<ByteCodeExpr>,
    /// What to do with each of the values.
    ops: Vec<AggOp>,
    child: C,
    /// Whether the operator has been told that it will be rewound.
    will_rewind: bool,
    /// The groups so far.
    hash_map: KeyTable<Vec<AggState>>,
    /// Whether the operator has been opened.
    open: bool,
    /// The result, once the child has been read.
    results: Option<Vec<Tuple>>,
    /// How many tuples of the result have been handed out.
    cursor: usize,
    /// The calls so far.
    log: Ghost<Seq<Call>>,
}

impl<C: OpIterator> Aggregate<C> {
    /// What the grouping is made of.
    pub closed spec fn grouping(&self) -> Grouping {
        Grouping { groupby: self.groupby_expr@, args: self.agg_expr@, ops: self.ops@ }
    }

    /// The child.
    pub closed spec fn input(&self) -> C {
        self.child
    }

    /// The groups so far.
    pub closed spec fn groups(&self) -> Groups {
        table_groups(self.hash_map)
    }

    /// The result, once the child has been read, and how many rows of it have been handed out.
    pub closed spec fn buffered(&self) -> Option<(Seq<Row>, int)> {
        match self.results {
            Some(tuples) => Some((tuple_views(tuples@), self.cursor as int)),
            None => None,
        }
    }

    /// Whether the table of groups and the place in the result are sound.
    pub closed spec fn sound(&self) -> bool {
        &&& self.hash_map.wf()
        &&& self.ops@.len() == self.agg_expr@.len()
        &&& groups_fit(self.ops@, table_groups(self.hash_map))
        &&& self.results matches Some(tuples) ==> self.cursor <= tuples@.len()
    }

    /// Whether the operator itself has been opened.
    pub closed spec fn opened(&self) -> bool {
        self.open
    }

    /// Whether the operator has been told that it will be rewound.
    pub closed spec fn told_to_rewind(&self) -> bool {
        self.will_rewind
    }

    /// The calls that the operator has got so far.
    pub closed spec fn history(&self) -> Seq<Call> {
        self.log@
    }

    /// The columns that the operator was made with.
    pub closed spec fn columns(&self) -> TableSchema {
        self.schema
    }

    /// Makes an aggregation that is not open yet. There must be one operation for each value.
    pub fn new(
        groupby_expr: Vec<ByteCodeExpr>,
        agg_expr: Vec<ByteCodeExpr>,
        ops: Vec<AggOp>,
        schema: TableSchema,
        child: C,
    ) -> (res: Self)
        requires
            ops@.len() == agg_expr@.len(),
            child.inv(),
        ensures
            res.inv(),
            !res.opened(),
            res.told_to_rewind(),
            res.history() == Seq::<Call>::empty(),
            res.grouping() == (Grouping { groupby: groupby_expr@, args: agg_expr@, ops: ops@ }),
            res.input() == child,
            res.groups() == Groups::none(),
            res.buffered() is None,
            res.columns() == schema,
    {
        let res = Aggregate {
            schema,
            groupby_expr,
            agg_expr,
            ops,
            child,
            will_rewind: true,
            hash_map: KeyTable::new(),
            open: false,
            results: None,
            cursor: 0,
            log: Ghost(Seq::empty()),
        };
        assert(res.groups() =~= Groups::none());
        res
    }

    /// Merges a value into the state of an aggregation; see `merge`. If a sum does not exist, that
    /// is an error, and the state stays as it is.
    pub fn merge_fields(op: AggOp, field_val: &Field, acc: &mut AggState) -> (res: Result<
        (),
        CrustyError,
    >)
        requires
            field_val@ is Null || state_fits(op, old(acc)@),
            old(acc)@ matches AggView::AvgState(_, count) ==> field_val@ is Null || count
                < i64::MAX,
        ensures
            match res {
                Ok(_) => merge(op, field_val@, old(acc)@) == Some(final(acc)@),
                Err(e) => {
                    &&& merge(op, field_val@, old(acc)@) is None
                    &&& e == CrustyError::FieldAddition
                    &&& final(acc)@ == old(acc)@
                },
            },
    {
        if let Field::Null = field_val {
            return Ok(());
        }
        match acc {
            AggState::Value(so_far) => {
                let unset = match so_far {
                    Field::Null => true,
                    _ => false,
                };
                match op {
                    AggOp::Min => {
                        if unset || field_val.less_than(so_far) {
                            *so_far = field_val.clone();
                        }
                    },
                    AggOp::Max => {
                        if unset || field_val.greater_than(so_far) {
                            *so_far = field_val.clone();
                        }
                    },
                    AggOp::Count => {
                        let count = if unset {
                            Field::Int(1)
                        } else {
                            so_far.plus(&Field::Int(1))?
                        };
                        *so_far = count;
                    },
                    _ => {
                        let sum = if unset {
                            field_val.clone()
                        } else {
                            so_far.plus(field_val)?
                        };
                        *so_far = sum;
                    },
                }
            },
            AggState::AvgState(so_far, count) => {
                let unset = match so_far {
                    Field::Null => true,
                    _ => false,
                };
                let sum = if unset {
                    field_val.clone()
                } else {
                    so_far.plus(field_val)?
                };
                *so_far = sum;
                *count = *count + 1;
            },
        }
        Ok(())
    }

    /// Merges a value into each of some states.
    fn merge_into_states(ops: &Vec<AggOp>, values: &Vec<Field>, states: &mut Vec<AggState>)
        requires
            values@.len() == ops@.len(),
            states_fit(ops@, state_views(old(states)@)),
            forall|i: int|
                0 <= i < ops@.len() ==> merge(
                    #[trigger] ops@[i],
                    field_views(values@)[i],
                    state_views(old(states)@)[i],
                ) is Some,
        ensures
            final(states)@.len() == ops@.len(),
            forall|i: int|
                0 <= i < ops@.len() ==> merge(
                    #[trigger] ops@[i],
                    field_views(values@)[i],
                    state_views(old(states)@)[i],
                ) == Some(state_views(final(states)@)[i]),
    {
        let ghost start = states@;
        for i in 0..ops.len()
            invariant
                values@.len() == ops@.len(),
                states@.len() == ops@.len(),
                start.len() == ops@.len(),
                states_fit(ops@, state_views(start)),
                forall|k: int| i <= k < ops@.len() ==> states@[k] == start[k],
                forall|k: int|
                    0 <= k < ops@.len() ==> merge(
                        #[trigger] ops@[k],
                        field_views(values@)[k],
                        state_views(start)[k],
                    ) is Some,
                forall|k: int|
                    0 <= k < i ==> merge(
                        #[trigger] ops@[k],
                        field_views(values@)[k],
                        state_views(start)[k],
                    ) == Some(states@[k]@),
        {
            assert(merge(ops@[i as int], values@[i as int]@, start[i as int]@) is Some);
            let res = Self::merge_fields(ops[i], &values[i], &mut states[i]);
            assert(res is Ok);
        }
    }

    /// Merges a tuple into its group; see `Grouping::merge_row`.
    pub fn merge_tuple_into_group(&mut self, tuple: &Tuple)
        requires
            old(self).sound(),
            old(self).grouping().merge_row(old(self).groups(), tuple@) is Some,
        ensures
            final(self).sound(),
            old(self).grouping().merge_row(old(self).groups(), tuple@) == Some(
                final(self).groups(),
            ),
            final(self).grouping() == old(self).grouping(),
            final(self).input() == old(self).input(),
            final(self).buffered() == old(self).buffered(),
            final(self).opened() == old(self).opened(),
            final(self).told_to_rewind() == old(self).told_to_rewind(),
            final(self).history() == old(self).history(),
            final(self).columns() == old(self).columns(),
    {
        let group_key = eval_all(&self.groupby_expr, tuple);
        let values = eval_all(&self.agg_expr, tuple);
        assert(field_views(values@).len() == self.agg_expr@.len());
        let ghost key = field_views(group_key@);
        let ghost groups = self.groups();
        let ghost initial = self.grouping().initial();
        proof {
            self.hash_map.lemma_shape();
        }
        let found = self.hash_map.find(&group_key);
        let place: usize = match found {
            Some(place) => place,
            None => {
                let states = initial_states(&self.ops);
                let place: usize = self.hash_map.len();
                self.hash_map.insert(group_key, states);
                place
            },
        };
        let ghost middle = self.hash_map;
        proof {
            middle.lemma_shape();
            if found is Some {
                assert(groups.keys[place as int] == key);
                assert(groups.keys.index_of(key) == place);
            } else {
                assert(groups.keys.len() == place);
                assert(middle.values()[place as int] == middle.values().last());
            }
        }
        let states = self.hash_map.value_mut(place);
        let ghost start = states@;
        assert(start == middle.values()[place as int]@);
        assert(state_views(start) == match groups.of(key) {
            Some(s) => s,
            None => initial,
        }) by {
            if found is Some {
                assert(groups.states[place as int] == state_views(start));
            }
        }
        Self::merge_into_states(&self.ops, &values, states);
        proof {
            self.hash_map.lemma_shape();
            let merged = self.grouping().merge_values(state_views(start), field_views(values@))->0;
            let end = self.hash_map.values()[place as int];
            assert(state_views(end@) =~= merged);
            let expected = groups.with(key, merged);
            assert(self.groups().keys =~= expected.keys);
            assert(self.groups().states =~= expected.states);
        }
    }

    /// Turns the groups into the result, and leaves no group behind.
    fn finish_groups(&mut self) -> (res: Vec<Tuple>)
        requires
            old(self).sound(),
        ensures
            final(self).sound(),
            tuple_views(res@) == old(self).groups().finish(),
            final(self).groups() == Groups::none(),
            final(self).grouping() == old(self).grouping(),
            final(self).input() == old(self).input(),
            final(self).buffered() == old(self).buffered(),
            final(self).opened() == old(self).opened(),
            final(self).told_to_rewind() == old(self).told_to_rewind(),
            final(self).history() == old(self).history(),
            final(self).columns() == old(self).columns(),
    {
        let ghost groups = self.groups();
        let ghost expected = groups.finish();
        let mut table: KeyTable<Vec<AggState>> = KeyTable::new();
        std::mem::swap(&mut table, &mut self.hash_map);
        assert(self.groups() =~= Groups::none());
        proof {
            table.lemma_shape();
        }
        let ghost shape = table;
        let (keys, states) = table.into_parts();
        let mut final_tuples: Vec<Tuple> = Vec::new();
        assert(shape.key_rows().len() == keys@.len());
        for i in 0..keys.len()
            invariant
                keys@.len() == states@.len(),
                keys@.len() == groups.keys.len(),
                groups.states.len() == states@.len(),
                forall|k: int| 0 <= k < keys@.len() ==> field_views(keys@[k]@) == groups.keys[k],
                forall|k: int|
                    0 <= k < keys@.len() ==> state_views(states@[k]@) == groups.states[k],
                expected == groups.finish(),
                tuple_views(final_tuples@) == expected.take(i as int),
        {
            let ghost before = tuple_views(final_tuples@);
            let row = Self::output_row(&keys[i], &states[i]);
            final_tuples.push(row);
            assert(row@ == expected[i as int]);
            assert(tuple_views(final_tuples@) == before.push(row@));
            assert(expected.take(i + 1) == before.push(row@));
        }
        assert(tuple_views(final_tuples@) == expected);
        final_tuples
    }

    /// The tuple that a group gives.
    fn output_row(key: &Vec<Field>, states: &Vec<AggState>) -> (res: Tuple)
        ensures
            res@ == field_views(key@) + state_views(states@).map_values(
                |state: AggView| state_result(state),
            ),
    {
        let mut output_row = clone_fields(key);
        let ghost values = state_views(states@).map_values(
            |state: AggView| state_result(state),
        );
        assert(field_views(key@) + values.take(0) == field_views(key@));
        for i in 0..states.len()
            invariant
                values == state_views(states@).map_values(
                    |state: AggView| state_result(state),
                ),
                field_views(output_row@) == field_views(key@) + values.take(i as int),
        {
            let ghost before = field_views(output_row@);
            let value = match &states[i] {
                AggState::Value(value) => value.clone(),
                AggState::AvgState(running_sum, count) => average_of(running_sum, *count),
            };
            output_row.push(value);
            assert(field_views(output_row@) == before.push(value@));
            assert(field_views(key@) + values.take(i + 1) == before.push(value@));
        }
        assert(values.take(states@.len() as int) == values);
        Tuple::new(output_row)
    }
}

impl<C: OpIterator> OpIterator for Aggregate<C> {
    open spec fn inv(&self) -> bool {
        self.input().inv() && self.sound()
    }

    open spec fn is_open(&self) -> bool {
        self.opened() && self.input().is_open()
    }

    open spec fn may_fail(&self) -> bool {
        self.input().may_fail()
    }

    open spec fn rewind_may_fail(&self) -> bool {
        false
    }

    open spec fn keeps_place(&self) -> bool {
        self.input().keeps_place()
    }

    open spec fn calls(&self) -> Seq<Call> {
        self.history()
    }

    open spec fn will_rewind(&self) -> bool {
        self.told_to_rewind()
    }

    open spec fn schema(&self) -> TableSchema {
        self.columns()
    }

    open spec fn rows(&self) -> Seq<Outcome> {
        match self.buffered() {
            Some((result, _)) => outcomes(result),
            None => self.grouping().result(self.groups(), self.input().remaining()),
        }
    }

    open spec fn remaining(&self) -> Seq<Outcome> {
        match self.buffered() {
            Some((result, cursor)) => outcomes(result).skip(cursor),
            None => self.rows(),
        }
    }

    open spec fn rewound(&self) -> Seq<Outcome> {
        self.rows()
    }

    open spec fn restarts(&self) -> bool {
        true
    }

    open spec fn regular(&self) -> bool {
        true
    }

    open spec fn closed_rows(&self) -> Seq<Outcome> {
        match self.buffered() {
            Some((result, _)) => outcomes(result),
            None => self.grouping().result(Groups::none(), self.input().closed_remaining()),
        }
    }

    open spec fn closed_remaining(&self) -> Seq<Outcome> {
        match self.buffered() {
            Some((result, cursor)) => outcomes(result).skip(cursor),
            None => self.closed_rows(),
        }
    }

    proof fn lemma_restarts(&self) {
    }

    /// The child is read once and never rewound.
    fn configure(&mut self, will_rewind: bool)
        ensures
            !final(self).input().will_rewind(),
            final(self).input().calls() == old(self).input().calls().push(Call::Configure(false)),
            final(self).input().remaining() == old(self).input().remaining(),
            final(self).grouping() == old(self).grouping(),
            final(self).groups() == old(self).groups(),
            final(self).buffered() == old(self).buffered(),
            final(self).opened() == old(self).opened(),
    {
        self.will_rewind = will_rewind;
        self.child.configure(false);
        self.log = Ghost(self.log@.push(Call::Configure(will_rewind)));
    }

    fn open(&mut self) -> (res: Result<(), CrustyError>)
        ensures
            final(self).grouping() == old(self).grouping(),
            final(self).groups() == old(self).groups(),
            final(self).buffered() == old(self).buffered(),
            final(self).input().calls() == old(self).input().calls().push(
                Call::Open(failure(res)),
            ),
            final(self).input().remaining() == old(self).input().remaining(),
            res is Err ==> final(self).opened() == old(self).opened(),
    {
        let res = self.child.open();
        if res.is_ok() {
            self.open = true;
        }
        self.log = Ghost(self.log@.push(Call::Open(failure(res))));
        res
    }

    fn next(&mut self) -> (res: Result<Option<Tuple>, CrustyError>)
        ensures
            final(self).grouping() == old(self).grouping(),
            res is Ok ==> final(self).buffered() is Some,
            old(self).buffered() is Some ==> res is Ok && final(self).input() == old(self).input(),
            res is Ok && old(self).buffered() is None ==> final(self).input().remaining().len()
                == 0,
            res is Ok ==> final(self).groups() == if old(self).buffered() is None {
                Groups::none()
            } else {
                old(self).groups()
            },
            grew(old(self).input().calls(), final(self).input().calls()),
            ({
                let calls = added(old(self).input().calls(), final(self).input().calls());
                &&& res is Ok && old(self).buffered() is None ==> calls == read_to_end(
                    old(self).input().remaining().len() as int,
                )
                &&& res matches Err(e) ==> {
                    &&& final(self).buffered() is None
                    &&& calls == read_until_failure(calls.len() - 1, e)
                    &&& calls.len() - 1 <= old(self).input().remaining().len()
                    &&& old(self).grouping().merge_rows(
                        old(self).groups(),
                        old(self).input().remaining().take(calls.len() - 1),
                    ) == Some(final(self).groups())
                }
            }),
            final(self).opened() == old(self).opened(),
    {
        if self.results.is_none() {
            let ghost grouping = self.grouping();
            let ghost start = self.groups();
            let ghost rows = self.input().remaining();
            let ghost before = self.input().calls();
            let ghost mut merged: int = 0;
            assert(before + rows_read(0) =~= before);
            let mut exhausted = false;
            assert(rows.take(0) =~= Seq::empty());
            assert(rows.skip(0) =~= rows);
            while !exhausted
                invariant
                    grouping == self.grouping(),
                    start == old(self).groups(),
                    rows == old(self).input().remaining(),
                    0 <= merged <= rows.len(),
                    self.input().remaining() == rows.skip(merged),
                    grouping.merge_rows(start, rows.take(merged)) == Some(self.groups()),
                    self.inv(),
                    self.is_open(),
                    self.may_fail() == old(self).may_fail(),
                    self.rewind_may_fail() == old(self).rewind_may_fail(),
                    self.keeps_place() == old(self).keeps_place(),
                    self.schema() == old(self).schema(),
                    self.calls() == old(self).calls(),
                    self.opened() == old(self).opened(),
                    before == old(self).input().calls(),
                    self.input().calls() == if exhausted {
                        before + read_to_end(merged)
                    } else {
                        before + rows_read(merged)
                    },
                    exhausted ==> merged == rows.len(),
                    self.grouping() == old(self).grouping(),
                    self.rows() == old(self).rows(),
                    self.will_rewind() == old(self).will_rewind(),
                    self.buffered() is None,
                    old(self).buffered() is None,
                    self.rows().len() > 0 ==> self.rows()[0] is Some,
                    exhausted ==> self.input().remaining().len() == 0,
                decreases
                        self.input().remaining().len(),
                        (if exhausted {
                            0int
                        } else {
                            1int
                        }),
            {
                let ghost known = before + rows_read(merged);
                match self.child.next() {
                    Ok(Some(child_tuple)) => {
                        self.merge_tuple_into_group(&child_tuple);
                        proof {
                            assert(rows.skip(merged)[0] == rows[merged]);
                            assert(rows.take(merged + 1) =~= rows.take(merged).push(rows[merged]));
                            grouping.lemma_merge_one_more(
                                start,
                                rows.take(merged),
                                child_tuple@,
                            );
                            assert(rows.skip(merged).drop_first() =~= rows.skip(merged + 1));
                            lemma_one_more_row(before, merged);
                            merged = merged + 1;
                        }
                    },
                    Ok(None) => {
                        exhausted = true;
                        assert(known.push(Call::Next(Answer::End)) =~= before + read_to_end(
                            merged,
                        ));
                    },
                    Err(e) => {
                        self.log = Ghost(self.log@.push(Call::Next(Answer::Failed(e))));
                        proof {
                            assert(known.push(Call::Next(Answer::Failed(e))) =~= before
                                + read_until_failure(merged, e));
                            lemma_added(before, read_until_failure(merged, e));
                        }
                        return Err(e);
                    },
                }
            }
            proof {
                lemma_added(before, read_to_end(merged));
            }
            let final_tuples = self.finish_groups();
            self.results = Some(final_tuples);
            self.cursor = 0;
        }
        let results_vec = self.results.as_ref().unwrap();
        if self.cursor < results_vec.len() {
            let next_tuple = results_vec[self.cursor].clone();
            self.cursor = self.cursor + 1;
            self.log = Ghost(self.log@.push(Call::Next(Answer::Row)));
            Ok(Some(next_tuple))
        } else {
            self.log = Ghost(self.log@.push(Call::Next(Answer::End)));
            Ok(None)
        }
    }

    /// The result is kept: only the place in it is reset.
    fn rewind(&mut self) -> (res: Result<(), CrustyError>)
        ensures
            res is Ok,
            final(self).grouping() == old(self).grouping(),
            final(self).groups() == old(self).groups(),
            final(self).input() == old(self).input(),
            final(self).buffered() == match old(self).buffered() {
                Some((rows, _)) => Some((rows, 0int)),
                None => None,
            },
            final(self).opened() == old(self).opened(),
    {
        self.cursor = 0;
        self.log = Ghost(self.log@.push(Call::Rewind(None)));
        proof {
            assert(self.rows().skip(0) == self.rows());
        }
        Ok(())
    }

    /// The groups are dropped. A result that has been computed stays.
    fn close(&mut self) -> (res: Result<(), CrustyError>)
        ensures
            final(self).grouping() == old(self).grouping(),
            final(self).buffered() == old(self).buffered(),
            res is Ok ==> !final(self).opened() && !final(self).input().is_open()
                && final(self).groups() == Groups::none(),
            res is Err ==> final(self).groups() == old(self).groups() && final(self).opened() == old(
                self,
            ).opened(),
            final(self).input().calls() == old(self).input().calls().push(
                Call::Close(failure(res)),
            ),
    {
        let res = self.child.close();
        if res.is_ok() {
            self.hash_map = KeyTable::new();
            assert(self.groups() =~= Groups::none());
            self.open = false;
        }
        self.log = Ghost(self.log@.push(Call::Close(failure(res))));
        res
    }

    fn get_schema(&self) -> (res: &TableSchema) {
        &self.schema
    }
}

} // verus!
