//! The calls that an operator gets, and how it answered them.

use vstd::prelude::*;

use crate::error::CrustyError;
use crate::tuple::Tuple;

verus! {

/// What a call of `next` was answered.
pub enum Answer {
    Row,
    End,
    Failed(CrustyError),
}

/// A call of one of the methods that change an operator, with what was asked and the error that was
/// reported, if one was.
pub enum Call {
    Configure(bool),
    Open(Option<CrustyError>),
    Next(Answer),
    Rewind(Option<CrustyError>),
    Close(Option<CrustyError>),
}

impl Call {
    /// The error that was reported, if one was.
    pub open spec fn error(self) -> Option<CrustyError> {
        match self {
            Call::Configure(_) => None,
            Call::Open(error) => error,
            Call::Next(Answer::Failed(error)) => Some(error),
            Call::Next(_) => None,
            Call::Rewind(error) => error,
            Call::Close(error) => error,
        }
    }
}

/// What a call of `next` with the given result was answered.
pub open spec fn answer(res: Result<Option<Tuple>, CrustyError>) -> Answer {
    match res {
        Ok(Some(_)) => Answer::Row,
        Ok(None) => Answer::End,
        Err(error) => Answer::Failed(error),
    }
}

/// The error in a result, if there is one.
pub open spec fn failure(res: Result<(), CrustyError>) -> Option<CrustyError> {
    match res {
        Ok(_) => None,
        Err(error) => Some(error),
    }
}

/// The calls that were added to earlier ones.
pub open spec fn added(before: Seq<Call>, after: Seq<Call>) -> Seq<Call> {
    after.skip(before.len() as int)
}

/// Whether all earlier calls are still there.
pub open spec fn grew(before: Seq<Call>, after: Seq<Call>) -> bool {
    before.is_prefix_of(after)
}

/// As many calls of `next`, each answered with a row.
pub open spec fn rows_read(count: int) -> Seq<Call> {
    Seq::new(count as nat, |i: int| Call::Next(Answer::Row))
}

/// The calls of `next` that read an operator with as many rows up to its end.
pub open spec fn read_to_end(count: int) -> Seq<Call> {
    rows_read(count).push(Call::Next(Answer::End))
}

/// The calls of `next` that read as many rows and then report an error.
pub open spec fn read_until_failure(count: int, error: CrustyError) -> Seq<Call> {
    rows_read(count).push(Call::Next(Answer::Failed(error)))
}

/// How often an operator was rewound in some calls.
pub open spec fn rewinds(calls: Seq<Call>) -> nat
    decreases calls.len(),
{
    if calls.len() == 0 {
        0
    } else if calls.last() == Call::Rewind(None) {
        rewinds(calls.drop_last()) + 1
    } else {
        rewinds(calls.drop_last())
    }
}

/// Whether some calls read an operator again and again: each asks for a row, but for one rewind
/// right after each time that the end was found. No call comes after one that failed.
pub open spec fn scans(calls: Seq<Call>) -> bool {
    forall|i: int|
        #![trigger calls[i]]
        0 <= i < calls.len() ==> {
            &&& calls[i] is Next || calls[i] is Rewind
            &&& calls[i] is Rewind ==> i > 0 && calls[i - 1] == Call::Next(Answer::End)
            &&& calls[i] == Call::Next(Answer::End) && i + 1 < calls.len() ==> calls[i
                + 1] is Rewind
            &&& i + 1 < calls.len() ==> calls[i].error() is None
        }
}

/// Whether some calls that read an operator again and again leave it rewound.
pub open spec fn ends_rewound(calls: Seq<Call>) -> bool {
    calls.len() == 0 || calls.last() == Call::Rewind(None)
}

/// Whether two operators got a call of the same kind in turn: the second one only if the first one
/// reported no error. `error` is the one that was reported in the end.
pub open spec fn called_in_turn(
    first_before: Seq<Call>,
    first_after: Seq<Call>,
    second_before: Seq<Call>,
    second_after: Seq<Call>,
    call: spec_fn(Option<CrustyError>) -> Call,
    error: Option<CrustyError>,
) -> bool {
    ||| first_after == first_before.push(call(None)) && second_after == second_before.push(
        call(error),
    )
    ||| error is Some && first_after == first_before.push(call(error)) && second_after
        == second_before
}

/// One more row that was read.
pub(crate) proof fn lemma_one_more_row(before: Seq<Call>, count: int)
    requires
        count >= 0,
    ensures
        (before + rows_read(count)).push(Call::Next(Answer::Row)) == before + rows_read(count + 1),
{
    assert((before + rows_read(count)).push(Call::Next(Answer::Row)) =~= before + rows_read(
        count + 1,
    ));
}

/// What was added is what stands behind the earlier calls.
pub(crate) proof fn lemma_added(before: Seq<Call>, new: Seq<Call>)
    ensures
        grew(before, before + new),
        added(before, before + new) == new,
{
    assert(added(before, before + new) =~= new);
}

/// One more call in a row of scans.
pub(crate) proof fn lemma_scan_call(calls: Seq<Call>, call: Call)
    requires
        scans(calls),
        calls.len() > 0 ==> calls.last().error() is None,
        call is Next || call is Rewind,
        call is Rewind <==> calls.len() > 0 && calls.last() == Call::Next(Answer::End),
    ensures
        scans(calls.push(call)),
        rewinds(calls.push(call)) == rewinds(calls) + if call == Call::Rewind(None) {
            1int
        } else {
            0int
        },
{
    let all = calls.push(call);
    assert(all.drop_last() =~= calls);
    assert forall|i: int| #![trigger all[i]] 0 <= i < all.len() implies {
        &&& all[i] is Next || all[i] is Rewind
        &&& all[i] is Rewind ==> i > 0 && all[i - 1] == Call::Next(Answer::End)
        &&& all[i] == Call::Next(Answer::End) && i + 1 < all.len() ==> all[i + 1] is Rewind
        &&& i + 1 < all.len() ==> all[i].error() is None
    } by {
        if i < calls.len() {
            assert(all[i] == calls[i]);
            if i > 0 {
                assert(all[i - 1] == calls[i - 1]);
            }
            if i + 1 < calls.len() {
                assert(all[i + 1] == calls[i + 1]);
            }
        }
    }
}

/// The rewinds in some calls and more are those in the former and those in the latter.
pub proof fn lemma_rewinds_add(calls: Seq<Call>, more: Seq<Call>)
    ensures
        rewinds(calls + more) == rewinds(calls) + rewinds(more),
    decreases more.len(),
{
    if more.len() == 0 {
        assert(calls + more =~= calls);
    } else {
        lemma_rewinds_add(calls, more.drop_last());
        assert((calls + more).drop_last() =~= calls + more.drop_last());
        assert((calls + more).last() == more.last());
    }
}

/// Asking for rows rewinds nothing.
pub proof fn lemma_reads_rewind_nothing(calls: Seq<Call>)
    requires
        forall|i: int| 0 <= i < calls.len() ==> (#[trigger] calls[i]) is Next,
    ensures
        rewinds(calls) == 0,
    decreases calls.len(),
{
    if calls.len() > 0 {
        assert(calls.last() == calls[calls.len() - 1]);
        assert(forall|i: int| 0 <= i < calls.len() - 1 ==> calls.drop_last()[i] == calls[i]);
        lemma_reads_rewind_nothing(calls.drop_last());
    }
}

/// One more rewind.
pub proof fn lemma_one_more_rewind(calls: Seq<Call>)
    ensures
        rewinds(calls.push(Call::Rewind(None))) == rewinds(calls) + 1,
{
    assert(calls.push(Call::Rewind(None)).drop_last() =~= calls);
}

/// The calls that read rows: as many as rows, each answered with one.
pub proof fn lemma_rows_read(count: int)
    requires
        count >= 0,
    ensures
        rows_read(count).len() == count,
        forall|i: int|
            0 <= i < count ==> #[trigger] rows_read(count)[i] == Call::Next(Answer::Row),
        read_to_end(count).len() == count + 1,
        read_to_end(count).take(count) == rows_read(count),
        read_to_end(count)[count] == Call::Next(Answer::End),
        forall|e: CrustyError|
            (#[trigger] read_until_failure(count, e)).len() == count + 1 && read_until_failure(
                count,
                e,
            ).take(count) == rows_read(count) && read_until_failure(count, e)[count] == Call::Next(
                Answer::Failed(e),
            ),
{
    assert(read_to_end(count).take(count) =~= rows_read(count));
    assert forall|e: CrustyError|
        (#[trigger] read_until_failure(count, e)).take(count) == rows_read(count) by {
        assert(read_until_failure(count, e).take(count) =~= rows_read(count));
    }
}

/// Of two operators that got a call in turn, each got at most one, the second one only after the first
/// one reported no error, and the error in the end is the one that was reported.
pub proof fn lemma_called_in_turn(
    first_before: Seq<Call>,
    first_after: Seq<Call>,
    second_before: Seq<Call>,
    second_after: Seq<Call>,
    call: spec_fn(Option<CrustyError>) -> Call,
    error: Option<CrustyError>,
)
    requires
        called_in_turn(first_before, first_after, second_before, second_after, call, error),
    ensures
        error is None ==> first_after == first_before.push(call(None)) && second_after
            == second_before.push(call(None)),
        error is Some ==> (first_after == first_before.push(call(error)) && second_after
            == second_before) || (first_after == first_before.push(call(None)) && second_after
            == second_before.push(call(error))),
{
}

/// What calls that read an operator again and again look like.
pub proof fn lemma_scans(calls: Seq<Call>, i: int)
    requires
        scans(calls),
        0 <= i < calls.len(),
    ensures
        calls[i] is Next || calls[i] is Rewind,
        calls[i] is Rewind ==> i > 0 && calls[i - 1] == Call::Next(Answer::End),
        calls[i] == Call::Next(Answer::End) && i + 1 < calls.len() ==> calls[i + 1] is Rewind,
        i + 1 < calls.len() ==> calls[i].error() is None,
{
}

/// Calls that were added come after those that were there.
pub proof fn lemma_grew(before: Seq<Call>, after: Seq<Call>)
    requires
        grew(before, after),
    ensures
        after == before + added(before, after),
{
    assert(after =~= before + added(before, after));
}

/// What is noted of a call is what it returned.
pub proof fn lemma_answers(tuple: Tuple, e: CrustyError)
    ensures
        answer(Ok(Some(tuple))) == Answer::Row,
        answer(Ok(None)) == Answer::End,
        answer(Err(e)) == Answer::Failed(e),
        failure(Ok(())) is None,
        failure(Err(e)) == Some(e),
        Call::Next(Answer::Failed(e)).error() == Some(e),
        Call::Next(Answer::Row).error() is None,
        Call::Next(Answer::End).error() is None,
        Call::Rewind(Some(e)).error() == Some(e),
        Call::Rewind(None).error() is None,
{
}

/// Only a rewind that reports no error counts as one.
pub proof fn lemma_rewinds_count(calls: Seq<Call>, call: Call)
    ensures
        rewinds(Seq::empty()) == 0,
        rewinds(calls.push(call)) == rewinds(calls) + if call == Call::Rewind(None) {
            1int
        } else {
            0int
        },
{
    assert(calls.push(call).drop_last() =~= calls);
}

} // verus!
