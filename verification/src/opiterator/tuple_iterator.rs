//! The operator that hands out given tuples.

use vstd::prelude::*;

use super::calls::{Answer, Call};
use super::{OpIterator, Outcome};
use crate::error::CrustyError;
use crate::tuple::{tuple_views, Row, TableSchema, Tuple};

verus! {

/// Hands out the tuples that it was made with, in their order.
pub struct TupleIterator {
    tuples: Vec<Tuple>,
    schema: TableSchema,
    /// How many tuples have been handed out since the start or the last rewind.
    index: usize,
    open: bool,
    will_rewind: bool,
    /// The calls so far.
    log: Ghost<Seq<Call>>,
}

/// Each of some rows as an outcome.
pub open spec fn outcomes(rows: Seq<Row>) -> Seq<Outcome> {
    rows.map_values(|row: Row| Some(row))
}

impl TupleIterator {
    /// The operator that hands out the given tuples.
    pub fn new(tuples: Vec<Tuple>, schema: TableSchema) -> (res: Self)
        ensures
            res.inv(),
            !res.is_open(),
            !res.may_fail(),
            !res.rewind_may_fail(),
            res.keeps_place(),
            res.calls() == Seq::<Call>::empty(),
            !res.will_rewind(),
            res.schema() == schema,
            res.rows() == outcomes(tuple_views(tuples@)),
            res.remaining() == res.rows(),
            res.rewound() == res.rows(),
            res.restarts(),
            res.regular(),
            res.closed_rows() == res.rows(),
            res.closed_remaining() == res.rows(),
    {
        let res = TupleIterator {
            tuples,
            schema,
            index: 0,
            open: false,
            will_rewind: false,
            log: Ghost(Seq::empty()),
        };
        assert(res.rows().skip(0) == res.rows());
        res
    }
}

impl OpIterator for TupleIterator {
    closed spec fn inv(&self) -> bool {
        self.index <= self.tuples@.len()
    }

    closed spec fn is_open(&self) -> bool {
        self.open
    }

    closed spec fn may_fail(&self) -> bool {
        false
    }

    closed spec fn rewind_may_fail(&self) -> bool {
        false
    }

    closed spec fn keeps_place(&self) -> bool {
        true
    }

    closed spec fn calls(&self) -> Seq<Call> {
        self.log@
    }

    closed spec fn will_rewind(&self) -> bool {
        self.will_rewind
    }

    closed spec fn schema(&self) -> TableSchema {
        self.schema
    }

    closed spec fn rows(&self) -> Seq<Outcome> {
        outcomes(tuple_views(self.tuples@))
    }

    closed spec fn remaining(&self) -> Seq<Outcome> {
        outcomes(tuple_views(self.tuples@)).skip(self.index as int)
    }

    closed spec fn rewound(&self) -> Seq<Outcome> {
        outcomes(tuple_views(self.tuples@))
    }

    closed spec fn restarts(&self) -> bool {
        true
    }

    closed spec fn regular(&self) -> bool {
        true
    }

    closed spec fn closed_rows(&self) -> Seq<Outcome> {
        outcomes(tuple_views(self.tuples@))
    }

    closed spec fn closed_remaining(&self) -> Seq<Outcome> {
        outcomes(tuple_views(self.tuples@))
    }

    proof fn lemma_restarts(&self) {
    }

    fn configure(&mut self, will_rewind: bool) {
        self.will_rewind = will_rewind;
        self.log = Ghost(self.log@.push(Call::Configure(will_rewind)));
    }

    fn open(&mut self) -> (res: Result<(), CrustyError>) {
        self.open = true;
        self.log = Ghost(self.log@.push(Call::Open(None)));
        Ok(())
    }

    fn next(&mut self) -> (res: Result<Option<Tuple>, CrustyError>) {
        if self.index < self.tuples.len() {
            let tuple = self.tuples[self.index].clone();
            self.index = self.index + 1;
            self.log = Ghost(self.log@.push(Call::Next(Answer::Row)));
            assert(self.remaining() == old(self).remaining().drop_first());
            Ok(Some(tuple))
        } else {
            self.log = Ghost(self.log@.push(Call::Next(Answer::End)));
            Ok(None)
        }
    }

    fn rewind(&mut self) -> (res: Result<(), CrustyError>) {
        self.index = 0;
        self.log = Ghost(self.log@.push(Call::Rewind(None)));
        assert(self.rows().skip(0) == self.rows());
        Ok(())
    }

    fn close(&mut self) -> (res: Result<(), CrustyError>) {
        self.index = 0;
        self.open = false;
        self.log = Ghost(self.log@.push(Call::Close(None)));
        assert(self.rows().skip(0) == self.rows());
        Ok(())
    }

    fn get_schema(&self) -> (res: &TableSchema) {
        &self.schema
    }
}

/// The outcomes of rows are these rows, one by one and in their order.
pub proof fn lemma_outcomes(rows: Seq<Row>)
    ensures
        outcomes(rows).len() == rows.len(),
        forall|i: int| 0 <= i < rows.len() ==> #[trigger] outcomes(rows)[i] == Some(rows[i]),
{
}

/// Given tuples can be handed out again at any time, and from their start once the operator is rewound
/// or closed. No call reports an error.
pub proof fn lemma_tuple_iterator(iter: TupleIterator)
    ensures
        iter.rewound() == iter.rows(),
        iter.restarts(),
        iter.regular(),
        iter.closed_rows() == iter.rows(),
        iter.closed_remaining() == iter.rows(),
        !iter.may_fail(),
        !iter.rewind_may_fail(),
        iter.keeps_place(),
        iter.inv() ==> iter.remaining().is_suffix_of(iter.rows()),
{
    if iter.inv() {
        let rows = iter.rows();
        let rest = iter.remaining();
        assert(rest =~= rows.subrange(rows.len() - rest.len(), rows.len() as int));
    }
}

} // verus!
