//! Query operators: each hands out the tuples of its result one by one.

use vstd::prelude::*;

use self::calls::{answer, failure, Call};
use crate::error::CrustyError;
use crate::tuple::{Row, TableSchema, Tuple};

pub mod aggregate;
pub mod aggregate_laws;
pub mod aggregate_result_laws;
pub mod average;
pub mod average_laws;
pub mod calls;
pub mod hash_join;
pub mod join_laws;
pub mod laws;
pub mod nested_loop_join;
pub mod tuple_iterator;

verus! {

/// What a call of `next` comes to: a row, or `None` where no row can be made (an expression has no
/// value on some input, or a sum does not exist). Such a call must not be made.
pub type Outcome = Option<Row>;

/// A query operator. It is opened, asked for its tuples one by one, rewound to hand them out
/// again, and closed.
pub trait OpIterator: Sized {
    /// Whether the operator is in a state that its methods can work with.
    spec fn inv(&self) -> bool;

    /// Whether the operator and all it draws from have been opened.
    spec fn is_open(&self) -> bool;

    /// Whether a call can report an error. An operator in this library does so only where one that
    /// it draws from can.
    spec fn may_fail(&self) -> bool;

    /// Whether rewinding can report an error.
    spec fn rewind_may_fail(&self) -> bool;

    /// Whether a call of `next` that reports an error leaves what there is to hand out as it was, so
    /// that nothing is lost and nothing comes twice once the calls succeed again.
    spec fn keeps_place(&self) -> bool;

    /// The calls that the operator has got so far.
    spec fn calls(&self) -> Seq<Call>;

    /// Whether the operator has been told that it will be rewound.
    spec fn will_rewind(&self) -> bool;

    /// The columns of the result.
    spec fn schema(&self) -> TableSchema;

    /// The whole result: what the operator hands out once it is rewound after it was exhausted.
    spec fn rows(&self) -> Seq<Outcome>;

    /// What the operator still has to hand out.
    spec fn remaining(&self) -> Seq<Outcome>;

    /// What the operator has to hand out once it is rewound in the state that it is in.
    spec fn rewound(&self) -> Seq<Outcome>;

    /// Whether the operator is in a state in which rewinding starts the whole result anew.
    spec fn restarts(&self) -> bool;

    /// Whether rewinding will start the whole result anew once everything has been handed out.
    spec fn regular(&self) -> bool;

    /// `rows`, once the operator is closed in the state that it is in.
    spec fn closed_rows(&self) -> Seq<Outcome>;

    /// `remaining`, once the operator is closed in the state that it is in.
    spec fn closed_remaining(&self) -> Seq<Outcome>;

    /// Where rewinding starts the whole result anew, what there is to hand out after it is the
    /// whole result.
    proof fn lemma_restarts(&self)
        requires
            self.inv(),
            self.restarts(),
        ensures
            self.rewound() == self.rows(),
    ;

    /// Tells the operator whether it will be rewound.
    fn configure(&mut self, will_rewind: bool)
        requires
            old(self).inv(),
        ensures
            final(self).inv(),
            final(self).calls() == old(self).calls().push(Call::Configure(will_rewind)),
            final(self).will_rewind() == will_rewind,
            final(self).is_open() == old(self).is_open(),
            final(self).may_fail() == old(self).may_fail(),
            final(self).rewind_may_fail() == old(self).rewind_may_fail(),
            final(self).keeps_place() == old(self).keeps_place(),
            final(self).schema() == old(self).schema(),
            final(self).rows() == old(self).rows(),
            final(self).remaining() == old(self).remaining(),
            final(self).rewound() == old(self).rewound(),
            final(self).restarts() == old(self).restarts(),
            final(self).regular() == old(self).regular(),
            final(self).closed_rows() == old(self).closed_rows(),
            final(self).closed_remaining() == old(self).closed_remaining(),
    ;

    /// Opens the operator. Nothing that it has to hand out changes, also where it cannot be opened.
    fn open(&mut self) -> (res: Result<(), CrustyError>)
        requires
            old(self).inv(),
        ensures
            final(self).inv(),
            final(self).calls() == old(self).calls().push(Call::Open(failure(res))),
            final(self).may_fail() == old(self).may_fail(),
            final(self).rewind_may_fail() == old(self).rewind_may_fail(),
            final(self).keeps_place() == old(self).keeps_place(),
            final(self).schema() == old(self).schema(),
            final(self).will_rewind() == old(self).will_rewind(),
            final(self).rows() == old(self).rows(),
            final(self).remaining() == old(self).remaining(),
            final(self).rewound() == old(self).rewound(),
            final(self).restarts() == old(self).restarts(),
            final(self).regular() == old(self).regular(),
            final(self).closed_rows() == old(self).closed_rows(),
            final(self).closed_remaining() == old(self).closed_remaining(),
            match res {
                Ok(_) => final(self).is_open(),
                Err(_) => old(self).may_fail(),
            },
    ;

    /// Hands out the next tuple of the result, or `None` at its end.
    fn next(&mut self) -> (res: Result<Option<Tuple>, CrustyError>)
        requires
            old(self).inv(),
            old(self).is_open(),
            old(self).remaining().len() > 0 ==> old(self).remaining()[0] is Some,
        ensures
            final(self).inv(),
            final(self).calls() == old(self).calls().push(Call::Next(answer(res))),
            final(self).is_open(),
            final(self).may_fail() == old(self).may_fail(),
            final(self).rewind_may_fail() == old(self).rewind_may_fail(),
            final(self).keeps_place() == old(self).keeps_place(),
            final(self).schema() == old(self).schema(),
            old(self).regular() ==> final(self).regular(),
            match res {
                Ok(Some(tuple)) => {
                    &&& old(self).remaining().len() > 0
                    &&& old(self).remaining()[0] == Some(tuple@)
                    &&& final(self).remaining() == old(self).remaining().drop_first()
                    &&& final(self).rows() == old(self).rows()
                    &&& final(self).will_rewind() == old(self).will_rewind()
                },
                Ok(None) => {
                    &&& old(self).remaining().len() == 0
                    &&& final(self).remaining().len() == 0
                    &&& old(self).regular() ==> final(self).restarts()
                    &&& final(self).rows() == old(self).rows()
                    &&& final(self).will_rewind() == old(self).will_rewind()
                },
                Err(_) => {
                    &&& old(self).may_fail()
                    &&& final(self).will_rewind() == old(self).will_rewind()
                    &&& old(self).keeps_place() ==> final(self).remaining() == old(
                        self,
                    ).remaining() && final(self).rows() == old(self).rows()
                },
            },
    ;

    /// Takes the operator back to the start of what it draws from.
    fn rewind(&mut self) -> (res: Result<(), CrustyError>)
        requires
            old(self).inv(),
            old(self).is_open(),
        ensures
            final(self).inv(),
            final(self).calls() == old(self).calls().push(Call::Rewind(failure(res))),
            final(self).is_open(),
            final(self).may_fail() == old(self).may_fail(),
            final(self).rewind_may_fail() == old(self).rewind_may_fail(),
            final(self).keeps_place() == old(self).keeps_place(),
            final(self).schema() == old(self).schema(),
            old(self).restarts() ==> final(self).restarts(),
            old(self).regular() ==> final(self).regular(),
            match res {
                Ok(_) => {
                    &&& final(self).remaining() == old(self).rewound()
                    &&& final(self).rewound() == old(self).rewound()
                    &&& final(self).rows() == old(self).rows()
                    &&& final(self).will_rewind() == old(self).will_rewind()
                },
                Err(_) => {
                    &&& old(self).may_fail()
                    &&& old(self).rewind_may_fail()
                },
            },
    ;

    /// Closes the operator.
    fn close(&mut self) -> (res: Result<(), CrustyError>)
        requires
            old(self).inv(),
        ensures
            final(self).inv(),
            final(self).calls() == old(self).calls().push(Call::Close(failure(res))),
            final(self).may_fail() == old(self).may_fail(),
            final(self).rewind_may_fail() == old(self).rewind_may_fail(),
            final(self).keeps_place() == old(self).keeps_place(),
            final(self).schema() == old(self).schema(),
            old(self).restarts() ==> final(self).restarts(),
            old(self).regular() ==> final(self).regular(),
            match res {
                Ok(_) => {
                    &&& !final(self).is_open()
                    &&& final(self).rows() == old(self).closed_rows()
                    &&& final(self).remaining() == old(self).closed_remaining()
                    &&& final(self).will_rewind() == old(self).will_rewind()
                },
                Err(_) => old(self).may_fail(),
            },
    ;

    /// The columns of the result.
    fn get_schema(&self) -> (res: &TableSchema)
        ensures
            *res == self.schema(),
    ;
}

} // verus!
