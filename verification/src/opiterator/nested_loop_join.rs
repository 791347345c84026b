//! The join that scans its right input once for every tuple of its left input.

use vstd::prelude::*;

use super::calls::{
    added, answer, called_in_turn, ends_rewound, failure, grew, lemma_added, lemma_one_more_rewind,
    lemma_one_more_row, lemma_reads_rewind_nothing, lemma_rewinds_add, lemma_scan_call, read_to_end,
    read_until_failure, rewinds, rows_read, scans, Answer, Call,
};
use super::{OpIterator, Outcome};
use crate::bytecode_expr::ByteCodeExpr;
use crate::error::CrustyError;
use crate::field::{compare_fields, BooleanOp};
use crate::tuple::{Row, TableSchema, Tuple};

verus! {

/// When a left and a right row belong together: their keys satisfy the comparison.
pub struct JoinPredicate {
    pub op: BooleanOp,
    pub left_expr: ByteCodeExpr,
    pub right_expr: ByteCodeExpr,
}

impl JoinPredicate {
    /// What a left row and the next outcome of the right input come to: a joined row if the
    /// predicate holds, nothing if it does not, and a failure if a key has no value.
    pub open spec fn pair(self, left: Row, right: Outcome) -> Seq<Outcome> {
        match right {
            None => seq![None],
            Some(right_row) => match (self.left_expr.value(left), self.right_expr.value(right_row)) {
                (Some(left_key), Some(right_key)) => if left_key.satisfies(self.op, right_key) {
                    seq![Some(left + right_row)]
                } else {
                    Seq::empty()
                },
                _ => seq![None],
            },
        }
    }

    /// What a left row comes to against some outcomes of the right input, one after the other.
    pub open spec fn scan(self, left: Row, rights: Seq<Outcome>) -> Seq<Outcome>
        decreases rights.len(),
    {
        if rights.len() == 0 {
            Seq::empty()
        } else {
            self.pair(left, rights[0]) + self.scan(left, rights.drop_first())
        }
    }

    /// The join of two inputs: every left row against the whole right input, one after the other.
    pub open spec fn nested(self, lefts: Seq<Outcome>, rights: Seq<Outcome>) -> Seq<Outcome>
        decreases lefts.len(),
    {
        if lefts.len() == 0 {
            Seq::empty()
        } else {
            match lefts[0] {
                None => seq![None],
                Some(left) => self.scan(left, rights) + self.nested(lefts.drop_first(), rights),
            }
        }
    }

    /// What is left of a join that has got as far as the row `current`, where the right input has
    /// `rights` left for it (or, if there is no current row, for the next one) and `again` for
    /// each row after that.
    pub open spec fn rest(
        self,
        current: Option<Row>,
        lefts: Seq<Outcome>,
        rights: Seq<Outcome>,
        again: Seq<Outcome>,
    ) -> Seq<Outcome> {
        match current {
            Some(left) => self.scan(left, rights) + self.nested(lefts, again),
            None => if lefts.len() == 0 {
                Seq::empty()
            } else {
                match lefts[0] {
                    None => seq![None],
                    Some(left) => self.scan(left, rights) + self.nested(lefts.drop_first(), again),
                }
            },
        }
    }
}

/// A join that evaluates a comparison for every pair of a left and a right tuple, by going through
/// the right child once for every tuple of the left child.
pub struct NestedLoopJoin<L: OpIterator, R: OpIterator> {
    schema: TableSchema,
    /// The comparison in the join predicate.
    op: BooleanOp,
    /// Gives the join key of a left tuple.
    left_expr: ByteCodeExpr,
    /// Gives the join key of a right tuple.
    right_expr: ByteCodeExpr,
    left_child: L,
    right_child: R,
    /// The left tuple that is being held against the right child.
    current_left_tuple: Option<Tuple>,
    /// Whether the operator has been opened.
    open: bool,
    /// The calls so far.
    log: Ghost<Seq<Call>>,
}

impl<L: OpIterator, R: OpIterator> NestedLoopJoin<L, R> {
    /// The join predicate.
    pub closed spec fn predicate(&self) -> JoinPredicate {
        JoinPredicate { op: self.op, left_expr: self.left_expr, right_expr: self.right_expr }
    }

    /// The left child.
    pub closed spec fn left(&self) -> L {
        self.left_child
    }

    /// The right child.
    pub closed spec fn right(&self) -> R {
        self.right_child
    }

    /// The left row that is being held against the right child.
    pub closed spec fn current(&self) -> Option<Row> {
        match self.current_left_tuple {
            Some(tuple) => Some(tuple@),
            None => None,
        }
    }

    /// Whether the operator itself has been opened.
    pub closed spec fn opened(&self) -> bool {
        self.open
    }

    /// The calls that the operator has got so far.
    pub closed spec fn history(&self) -> Seq<Call> {
        self.log@
    }

    /// The columns that the operator was made with.
    pub closed spec fn columns(&self) -> TableSchema {
        self.schema
    }

    /// Whether the right child has its whole result to hand out.
    pub open spec fn right_at_start(&self) -> bool {
        self.right().remaining() == self.right().rows()
    }

    /// How many left tuples still have to be held against the right child, or against the rest of
    /// it.
    pub open spec fn scans_left(&self) -> int {
        self.left().remaining().len() + if self.current() is Some {
            1int
        } else {
            0int
        }
    }

    /// Makes a join that is not open yet.
    ///
    /// Once the right child has handed out everything, rewinding must start its whole result anew.
    /// So it is for any operator that was made from operators that had not been asked for a tuple.
    pub fn new(
        op: BooleanOp,
        left_expr: ByteCodeExpr,
        right_expr: ByteCodeExpr,
        left_child: L,
        right_child: R,
        schema: TableSchema,
    ) -> (res: Self)
        requires
            left_child.inv(),
            right_child.inv(),
            right_child.regular(),
        ensures
            res.inv(),
            !res.opened(),
            res.predicate() == (JoinPredicate { op, left_expr, right_expr }),
            res.left() == left_child,
            res.right() == right_child,
            res.current() is None,
            res.columns() == schema,
            res.history() == Seq::<Call>::empty(),
    {
        NestedLoopJoin {
            op,
            left_expr,
            right_expr,
            left_child,
            right_child,
            schema,
            current_left_tuple: None,
            open: false,
            log: Ghost(Seq::empty()),
        }
    }
}

impl<L: OpIterator, R: OpIterator> OpIterator for NestedLoopJoin<L, R> {
    open spec fn inv(&self) -> bool {
        &&& self.left().inv()
        &&& self.right().inv()
        &&& self.right().regular()
    }

    open spec fn is_open(&self) -> bool {
        self.opened() && self.left().is_open() && self.right().is_open()
    }

    open spec fn may_fail(&self) -> bool {
        self.left().may_fail() || self.right().may_fail()
    }

    open spec fn rewind_may_fail(&self) -> bool {
        self.left().rewind_may_fail() || self.right().rewind_may_fail()
    }

    open spec fn keeps_place(&self) -> bool {
        self.left().keeps_place() && self.right().keeps_place() && !self.right().rewind_may_fail()
    }

    open spec fn calls(&self) -> Seq<Call> {
        self.history()
    }

    open spec fn will_rewind(&self) -> bool {
        self.left().will_rewind()
    }

    open spec fn schema(&self) -> TableSchema {
        self.columns()
    }

    open spec fn rows(&self) -> Seq<Outcome> {
        self.predicate().nested(self.left().rows(), self.right().rows())
    }

    open spec fn remaining(&self) -> Seq<Outcome> {
        self.predicate().rest(
            self.current(),
            self.left().remaining(),
            self.right().remaining(),
            self.right().rows(),
        )
    }

    open spec fn rewound(&self) -> Seq<Outcome> {
        self.predicate().rest(
            self.current(),
            self.left().rewound(),
            self.right().rewound(),
            self.right().rows(),
        )
    }

    open spec fn restarts(&self) -> bool {
        self.current() is None && self.left().restarts() && self.right().restarts()
    }

    open spec fn regular(&self) -> bool {
        self.left().regular() && (self.current() is None ==> self.right().restarts())
    }

    open spec fn closed_rows(&self) -> Seq<Outcome> {
        self.predicate().nested(self.left().closed_rows(), self.right().closed_rows())
    }

    open spec fn closed_remaining(&self) -> Seq<Outcome> {
        self.predicate().rest(
            self.current(),
            self.left().closed_remaining(),
            self.right().closed_remaining(),
            self.right().closed_rows(),
        )
    }

    proof fn lemma_restarts(&self) {
        self.left().lemma_restarts();
        self.right().lemma_restarts();
    }

    /// The right child is rewound for every left tuple, whatever becomes of the join.
    fn configure(&mut self, will_rewind: bool)
        ensures
            final(self).right().will_rewind(),
            final(self).left().calls() == old(self).left().calls().push(
                Call::Configure(will_rewind),
            ),
            final(self).left().remaining() == old(self).left().remaining(),
            final(self).right().calls() == old(self).right().calls().push(Call::Configure(true)),
            final(self).right().remaining() == old(self).right().remaining(),
            final(self).predicate() == old(self).predicate(),
            final(self).current() == old(self).current(),
            final(self).opened() == old(self).opened(),
    {
        self.left_child.configure(will_rewind);
        self.right_child.configure(true);
        self.log = Ghost(self.log@.push(Call::Configure(will_rewind)));
    }

    fn open(&mut self) -> (res: Result<(), CrustyError>)
        ensures
            final(self).predicate() == old(self).predicate(),
            final(self).current() == old(self).current(),
            final(self).left().remaining() == old(self).left().remaining(),
            final(self).right().remaining() == old(self).right().remaining(),
            called_in_turn(
                old(self).left().calls(),
                final(self).left().calls(),
                old(self).right().calls(),
                final(self).right().calls(),
                |error: Option<CrustyError>| Call::Open(error),
                failure(res),
            ),
            res is Err ==> final(self).opened() == old(self).opened(),
    {
        if let Err(e) = self.left_child.open() {
            self.log = Ghost(self.log@.push(Call::Open(Some(e))));
            return Err(e);
        }
        if let Err(e) = self.right_child.open() {
            self.log = Ghost(self.log@.push(Call::Open(Some(e))));
            return Err(e);
        }
        self.open = true;
        self.log = Ghost(self.log@.push(Call::Open(None)));
        Ok(())
    }

    fn next(&mut self) -> (res: Result<Option<Tuple>, CrustyError>)
        ensures
            final(self).predicate() == old(self).predicate(),
            final(self).opened() == old(self).opened(),
            res matches Ok(Some(_)) ==> final(self).current() is Some,
            res matches Ok(None) ==> final(self).current() is None && final(self).scans_left()
                == 0,
            res matches Ok(None) && (old(self).current() is Some || old(self).right_at_start())
                ==> final(self).right_at_start(),
            rewinds(final(self).left().calls()) == rewinds(old(self).left().calls()),
            res is Ok ==> rewinds(final(self).right().calls()) - rewinds(old(self).right().calls())
                == old(self).scans_left() - final(self).scans_left(),
            grew(old(self).left().calls(), final(self).left().calls()),
            grew(old(self).right().calls(), final(self).right().calls()),
            ({
                let left_calls = added(old(self).left().calls(), final(self).left().calls());
                let right_calls = added(old(self).right().calls(), final(self).right().calls());
                &&& scans(right_calls)
                &&& match res {
                    Ok(Some(_)) => {
                        &&& left_calls == rows_read(
                            old(self).left().remaining().len() - final(self).left().remaining().len(),
                        )
                        &&& right_calls.len() > 0
                        &&& right_calls.last() == Call::Next(Answer::Row)
                    },
                    Ok(None) => {
                        &&& left_calls == read_to_end(old(self).left().remaining().len() as int)
                        &&& ends_rewound(right_calls)
                    },
                    Err(e) => {
                        ||| left_calls == read_until_failure(left_calls.len() - 1, e)
                            && ends_rewound(right_calls)
                        ||| left_calls == rows_read(left_calls.len() as int) && right_calls.len() > 0
                            && right_calls.last().error() == Some(e)
                    },
                }
            }),
    {
        let ghost left_before = self.left().calls();
        let ghost right_before = self.right().calls();
        let ghost mut fetched: int = 0;
        let ghost mut asked: Seq<Call> = Seq::empty();
        assert(left_before + rows_read(0) =~= left_before);
        assert(right_before + asked =~= right_before);
        loop
            invariant
                self.inv(),
                self.is_open(),
                self.opened() == old(self).opened(),
                self.may_fail() == old(self).may_fail(),
                self.rewind_may_fail() == old(self).rewind_may_fail(),
                self.keeps_place() == old(self).keeps_place(),
                self.schema() == old(self).schema(),
                self.calls() == old(self).calls(),
                left_before == old(self).left().calls(),
                right_before == old(self).right().calls(),
                fetched == old(self).left().remaining().len() - self.left().remaining().len(),
                fetched >= 0,
                self.left().calls() == left_before + rows_read(fetched),
                self.right().calls() == right_before + asked,
                scans(asked),
                rewinds(asked) + self.scans_left() == old(self).scans_left(),
                ends_rewound(asked),
                old(self).regular() ==> self.regular(),
                self.predicate() == old(self).predicate(),
                self.remaining() == old(self).remaining(),
                self.rows() == old(self).rows(),
                self.will_rewind() == old(self).will_rewind(),
                old(self).remaining().len() > 0 ==> old(self).remaining()[0] is Some,
                self.current() is None && (old(self).current() is Some || old(
                    self,
                ).right_at_start()) ==> self.right_at_start(),
            decreases self.scans_left() + self.left().remaining().len(),
        {
            if self.current_left_tuple.is_none() {
                let ghost known = left_before + rows_read(fetched);
                match self.left_child.next() {
                    Ok(Some(left_tuple)) => {
                        self.current_left_tuple = Some(left_tuple);
                        proof {
                            lemma_one_more_row(left_before, fetched);
                            fetched = fetched + 1;
                        }
                    },
                    Ok(None) => {
                        self.log = Ghost(self.log@.push(Call::Next(Answer::End)));
                        proof {
                            assert(known.push(Call::Next(Answer::End)) =~= left_before
                                + read_to_end(fetched));
                            lemma_added(left_before, read_to_end(fetched));
                            lemma_added(right_before, asked);
                            lemma_reads_rewind_nothing(read_to_end(fetched));
                            lemma_rewinds_add(left_before, read_to_end(fetched));
                            lemma_rewinds_add(right_before, asked);
                        }
                        return Ok(None);
                    },
                    Err(e) => {
                        self.log = Ghost(self.log@.push(Call::Next(Answer::Failed(e))));
                        proof {
                            assert(known.push(Call::Next(Answer::Failed(e))) =~= left_before
                                + read_until_failure(fetched, e));
                            lemma_added(left_before, read_until_failure(fetched, e));
                            lemma_added(right_before, asked);
                            lemma_reads_rewind_nothing(read_until_failure(fetched, e));
                            lemma_rewinds_add(left_before, read_until_failure(fetched, e));
                        }
                        return Err(e);
                    },
                }
            }
            assert(self.remaining() == old(self).remaining());
            let ghost outer = self.left().remaining().len();
            let mut exhausted = false;
            while !exhausted
                invariant
                    self.inv(),
                    self.is_open(),
                    self.opened() == old(self).opened(),
                    self.may_fail() == old(self).may_fail(),
                    self.rewind_may_fail() == old(self).rewind_may_fail(),
                    self.keeps_place() == old(self).keeps_place(),
                    self.schema() == old(self).schema(),
                    self.calls() == old(self).calls(),
                    left_before == old(self).left().calls(),
                    right_before == old(self).right().calls(),
                    fetched == old(self).left().remaining().len() - self.left().remaining().len(),
                    fetched >= 0,
                    self.left().calls() == left_before + rows_read(fetched),
                    self.right().calls() == right_before + asked,
                    scans(asked),
                    rewinds(asked) + self.scans_left() == old(self).scans_left(),
                    asked.len() > 0 ==> asked.last().error() is None,
                    exhausted <==> asked.len() > 0 && asked.last() == Call::Next(Answer::End),
                    old(self).regular() ==> self.regular(),
                    self.predicate() == old(self).predicate(),
                    self.remaining() == old(self).remaining(),
                    self.rows() == old(self).rows(),
                    self.will_rewind() == old(self).will_rewind(),
                    self.left().remaining().len() == outer,
                    self.current() is Some,
                    old(self).remaining().len() > 0 ==> old(self).remaining()[0] is Some,
                    exhausted ==> self.right().remaining().len() == 0 && self.right().restarts(),
                decreases
                    self.right().remaining().len(),
                    (if exhausted {
                        0int
                    } else {
                        1int
                    }),
            {
                let ghost known = asked;
                let asked_now = self.right_child.next();
                proof {
                    let call = Call::Next(answer(asked_now));
                    lemma_scan_call(known, call);
                    assert((right_before + known).push(call) =~= right_before + known.push(call));
                    asked = known.push(call);
                    lemma_added(right_before, asked);
                    lemma_added(left_before, rows_read(fetched));
                    lemma_reads_rewind_nothing(rows_read(fetched));
                    lemma_rewinds_add(left_before, rows_read(fetched));
                    lemma_rewinds_add(right_before, asked);
                }
                match asked_now {
                    Ok(Some(right_tuple)) => {
                        let left_tuple = self.current_left_tuple.as_ref().unwrap();
                        let left_key = self.left_expr.eval(left_tuple);
                        let right_key = self.right_expr.eval(&right_tuple);
                        if compare_fields(self.op, &left_key, &right_key) {
                            let joined_tuple = left_tuple.merge(&right_tuple);
                            self.log = Ghost(self.log@.push(Call::Next(Answer::Row)));
                            return Ok(Some(joined_tuple));
                        }
                    },
                    Ok(None) => {
                        exhausted = true;
                    },
                    Err(e) => {
                        self.log = Ghost(self.log@.push(Call::Next(Answer::Failed(e))));
                        return Err(e);
                    },
                }
            }
            proof {
                self.right_child.lemma_restarts();
            }
            let ghost known = asked;
            let rewound = self.right_child.rewind();
            proof {
                let call = Call::Rewind(failure(rewound));
                lemma_scan_call(known, call);
                assert((right_before + known).push(call) =~= right_before + known.push(call));
                asked = known.push(call);
                lemma_added(right_before, asked);
                lemma_added(left_before, rows_read(fetched));
                lemma_reads_rewind_nothing(rows_read(fetched));
                lemma_rewinds_add(left_before, rows_read(fetched));
                lemma_rewinds_add(right_before, asked);
            }
            if let Err(e) = rewound {
                self.log = Ghost(self.log@.push(Call::Next(Answer::Failed(e))));
                return Err(e);
            }
            self.current_left_tuple = None;
        }
    }

    fn rewind(&mut self) -> (res: Result<(), CrustyError>)
        ensures
            final(self).predicate() == old(self).predicate(),
            final(self).current() == old(self).current(),
            final(self).opened() == old(self).opened(),
            res is Ok ==> final(self).left().remaining() == old(self).left().rewound(),
            res is Ok ==> final(self).right().remaining() == old(self).right().rewound(),
            res is Ok ==> rewinds(final(self).left().calls()) == rewinds(old(self).left().calls())
                + 1,
            res is Ok ==> rewinds(final(self).right().calls()) == rewinds(
                old(self).right().calls(),
            ) + 1,
            called_in_turn(
                old(self).left().calls(),
                final(self).left().calls(),
                old(self).right().calls(),
                final(self).right().calls(),
                |error: Option<CrustyError>| Call::Rewind(error),
                failure(res),
            ),
    {
        if let Err(e) = self.left_child.rewind() {
            self.log = Ghost(self.log@.push(Call::Rewind(Some(e))));
            return Err(e);
        }
        if let Err(e) = self.right_child.rewind() {
            self.log = Ghost(self.log@.push(Call::Rewind(Some(e))));
            return Err(e);
        }
        self.log = Ghost(self.log@.push(Call::Rewind(None)));
        proof {
            lemma_one_more_rewind(old(self).left().calls());
            lemma_one_more_rewind(old(self).right().calls());
        }
        Ok(())
    }

    fn close(&mut self) -> (res: Result<(), CrustyError>)
        ensures
            final(self).predicate() == old(self).predicate(),
            final(self).current() == old(self).current(),
            res is Ok ==> !final(self).opened() && !final(self).left().is_open()
                && !final(self).right().is_open(),
            res is Err ==> final(self).opened() == old(self).opened(),
            called_in_turn(
                old(self).left().calls(),
                final(self).left().calls(),
                old(self).right().calls(),
                final(self).right().calls(),
                |error: Option<CrustyError>| Call::Close(error),
                failure(res),
            ),
    {
        if let Err(e) = self.left_child.close() {
            self.log = Ghost(self.log@.push(Call::Close(Some(e))));
            return Err(e);
        }
        if let Err(e) = self.right_child.close() {
            self.log = Ghost(self.log@.push(Call::Close(Some(e))));
            return Err(e);
        }
        self.open = false;
        self.log = Ghost(self.log@.push(Call::Close(None)));
        Ok(())
    }

    fn get_schema(&self) -> (res: &TableSchema) {
        &self.schema
    }
}

} // verus!
