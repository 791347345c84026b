//! What holds of the query operators taken together.

use vstd::multiset::Multiset;
use vstd::prelude::*;

use super::aggregate::Aggregate;
use super::calls::rewinds;
use super::hash_join::{bucket, joined, Buckets, EquiJoin, HashEqJoin};
use super::nested_loop_join::{JoinPredicate, NestedLoopJoin};
use super::{OpIterator, Outcome};
use crate::bytecode_expr::ByteCodeExpr;
use crate::field::{BooleanOp, FieldView};
use crate::tuple::Row;

verus! {

/// An operator that has handed out everything, and was then rewound, hands out its whole result
/// once more.
pub proof fn lemma_replay<O: OpIterator>(exhausted: O, rewound: O)
    requires
        exhausted.inv(),
        exhausted.restarts(),
        rewound.remaining() == exhausted.rewound(),
    ensures
        rewound.remaining() == exhausted.rows(),
{
    exhausted.lemma_restarts();
}

/// A nested loop join that has not been asked for a tuple yet has its whole result to hand out, if
/// its inputs have theirs.
pub proof fn lemma_nested_loop_join_starts<L: OpIterator, R: OpIterator>(join: NestedLoopJoin<L, R>)
    requires
        join.current() is None,
        join.left().remaining() == join.left().rows(),
        join.right().remaining() == join.right().rows(),
    ensures
        join.remaining() == join.rows(),
{
}

/// What a call of `next` that reports no error does to the children of a nested loop join. `done` is
/// whether it finds the end.
pub open spec fn join_step<L: OpIterator, R: OpIterator>(
    before: NestedLoopJoin<L, R>,
    after: NestedLoopJoin<L, R>,
    done: bool,
) -> bool {
    &&& rewinds(after.left().calls()) == rewinds(before.left().calls())
    &&& rewinds(after.right().calls()) - rewinds(before.right().calls()) == before.scans_left()
        - after.scans_left()
    &&& if done {
        &&& after.scans_left() == 0
        &&& before.current() is Some || before.right_at_start() ==> after.right_at_start()
    } else {
        after.current() is Some
    }
}

/// A nested loop join that is asked for its tuples up to the end rewinds its right child once for
/// every left tuple, leaves it at its start, and never rewinds its left child. `states` are the
/// states between the calls.
pub proof fn lemma_one_rewind_per_left_tuple<L: OpIterator, R: OpIterator>(
    states: Seq<NestedLoopJoin<L, R>>,
)
    requires
        states.len() >= 2,
        states[0].current() is None,
        states[0].right_at_start(),
        forall|i: int|
            #![trigger states[i]]
            0 <= i < states.len() - 1 ==> join_step(
                states[i],
                states[i + 1],
                i + 2 == states.len(),
            ),
    ensures
        rewinds(states.last().right().calls()) == rewinds(states[0].right().calls())
            + states[0].left().remaining().len(),
        rewinds(states.last().left().calls()) == rewinds(states[0].left().calls()),
        states.last().right_at_start(),
{
    let end = states.len() - 2;
    lemma_rewinds_so_far(states, end);
    assert(join_step(states[end], states[end + 1], true));
    if end > 0 {
        assert(join_step(states[end - 1], states[end - 1 + 1], false));
    }
}

/// As many rewinds of the right child as left tuples are done with, after `n` calls.
proof fn lemma_rewinds_so_far<L: OpIterator, R: OpIterator>(
    states: Seq<NestedLoopJoin<L, R>>,
    n: int,
)
    requires
        0 <= n < states.len() - 1,
        forall|i: int|
            #![trigger states[i]]
            0 <= i < states.len() - 1 ==> join_step(
                states[i],
                states[i + 1],
                i + 2 == states.len(),
            ),
    ensures
        rewinds(states[n].right().calls()) + states[n].scans_left() == rewinds(
            states[0].right().calls(),
        ) + states[0].scans_left(),
        rewinds(states[n].left().calls()) == rewinds(states[0].left().calls()),
    decreases n,
{
    if n > 0 {
        lemma_rewinds_so_far(states, n - 1);
        assert(join_step(states[n - 1], states[n - 1 + 1], false));
    }
}

/// A hash join that is not in the middle of a bucket has its whole result to hand out, if its right
/// input has its own.
pub proof fn lemma_hash_join_starts<L: OpIterator, R: OpIterator>(join: HashEqJoin<L, R>)
    requires
        join.current() is None,
        join.right().remaining() == join.right().rows(),
    ensures
        join.remaining() == join.rows(),
{
}

/// An aggregation that has not been asked for a tuple yet has its whole result to hand out.
pub proof fn lemma_aggregate_starts<C: OpIterator>(aggregate: Aggregate<C>)
    requires
        aggregate.buffered() is None,
    ensures
        aggregate.remaining() == aggregate.rows(),
{
}

/// Whether every one of some outcomes is a row on which an expression has a value.
pub open spec fn all_have_keys(
    expr: ByteCodeExpr,
    outcomes: Seq<Outcome>,
) -> bool {
    forall|i: int|
        0 <= i < outcomes.len() ==> (#[trigger] outcomes[i]) is Some && expr.value(
            outcomes[i]->0,
        ) is Some
}

/// The rows with a given key among some outcomes, in their order.
pub open spec fn rows_with_key(
    expr: ByteCodeExpr,
    outcomes: Seq<Outcome>,
    key: FieldView,
) -> Seq<Row>
    decreases outcomes.len(),
{
    if outcomes.len() == 0 {
        Seq::empty()
    } else {
        let later = rows_with_key(expr, outcomes.drop_first(), key);
        match outcomes[0] {
            Some(row) => if expr.value(row) == Some(key) {
                seq![row] + later
            } else {
                later
            },
            None => later,
        }
    }
}

/// The bucket of a key holds the left rows with that key, all of them and in the order in which they
/// came, behind those that it held before.
pub proof fn lemma_bucket(join: EquiJoin, buckets: Buckets, lefts: Seq<Outcome>, key: FieldView)
    requires
        join.build(buckets, lefts) is Some,
    ensures
        bucket(join.build(buckets, lefts)->0, key) == bucket(buckets, key) + rows_with_key(
            join.left_expr,
            lefts,
            key,
        ),
    decreases lefts.len(),
{
    if lefts.len() > 0 {
        let left = lefts[0]->0;
        let left_key = join.left_expr.value(left)->0;
        let grown = buckets.insert(left_key, bucket(buckets, left_key).push(left));
        let later = rows_with_key(join.left_expr, lefts.drop_first(), key);
        lemma_bucket(join, grown, lefts.drop_first(), key);
        if left_key == key {
            assert(bucket(buckets, key).push(left) + later =~= bucket(buckets, key) + (seq![left]
                + later));
        }
    } else {
        assert(bucket(buckets, key) + Seq::<Row>::empty() =~= bucket(buckets, key));
    }
}

/// What one more left row adds to what is found by looking the right rows up: what it gives in a
/// scan of them.
proof fn lemma_probe_one_more(
    join: EquiJoin,
    buckets: Buckets,
    left: Row,
    key: FieldView,
    rights: Seq<Outcome>,
)
    requires
        join.left_expr.value(left) == Some(key),
        all_have_keys(join.right_expr, rights),
    ensures
        ({
            let predicate = JoinPredicate {
                op: BooleanOp::Eq,
                left_expr: join.left_expr,
                right_expr: join.right_expr,
            };
            let grown = buckets.insert(key, bucket(buckets, key).push(left));
            join.probe(grown, rights).to_multiset() =~= join.probe(buckets, rights).to_multiset().add(
                predicate.scan(left, rights).to_multiset(),
            )
        }),
    decreases rights.len(),
{
    broadcast use vstd::seq_lib::group_to_multiset_ensures;

    let predicate = JoinPredicate {
        op: BooleanOp::Eq,
        left_expr: join.left_expr,
        right_expr: join.right_expr,
    };
    let grown = buckets.insert(key, bucket(buckets, key).push(left));
    if rights.len() > 0 {
        assert(rights[0] is Some);
        let later = rights.drop_first();
        assert forall|i: int| 0 <= i < later.len() implies (#[trigger] later[i]) is Some
            && join.right_expr.value(later[i]->0) is Some by {
            assert(later[i] == rights[i + 1]);
        }
        lemma_probe_one_more(join, buckets, left, key, later);
        let right = rights[0]->0;
        let right_key = join.right_expr.value(right)->0;
        let before = joined(bucket(buckets, right_key), right);
        let after = joined(bucket(grown, right_key), right);
        let pair = predicate.pair(left, rights[0]);
        assert(after =~= before + pair) by {
            if right_key == key {
                assert(pair =~= seq![Some(left + right)]);
            } else {
                assert(pair =~= Seq::empty());
            }
        }
        vstd::seq_lib::lemma_multiset_commutative(before, pair);
        vstd::seq_lib::lemma_multiset_commutative(after, join.probe(grown, later));
        vstd::seq_lib::lemma_multiset_commutative(before, join.probe(buckets, later));
        vstd::seq_lib::lemma_multiset_commutative(pair, predicate.scan(left, later));
    } else {
        assert(join.probe(grown, rights).to_multiset() =~= Multiset::empty());
        assert(join.probe(buckets, rights).to_multiset() =~= Multiset::empty());
        assert(predicate.scan(left, rights).to_multiset() =~= Multiset::empty());
    }
}

/// What some more left rows add to what is found by looking the right rows up: their nested loop
/// join.
proof fn lemma_probe_many_more(
    join: EquiJoin,
    buckets: Buckets,
    lefts: Seq<Outcome>,
    rights: Seq<Outcome>,
)
    requires
        all_have_keys(join.left_expr, lefts),
        all_have_keys(join.right_expr, rights),
    ensures
        join.build(buckets, lefts) is Some,
        ({
            let predicate = JoinPredicate {
                op: BooleanOp::Eq,
                left_expr: join.left_expr,
                right_expr: join.right_expr,
            };
            join.probe(join.build(buckets, lefts)->0, rights).to_multiset() =~= join.probe(
                buckets,
                rights,
            ).to_multiset().add(predicate.nested(lefts, rights).to_multiset())
        }),
    decreases lefts.len(),
{
    broadcast use vstd::seq_lib::group_to_multiset_ensures;

    let predicate = JoinPredicate {
        op: BooleanOp::Eq,
        left_expr: join.left_expr,
        right_expr: join.right_expr,
    };
    if lefts.len() > 0 {
        assert(lefts[0] is Some);
        let left = lefts[0]->0;
        let key = join.left_expr.value(left)->0;
        let grown = buckets.insert(key, bucket(buckets, key).push(left));
        let later = lefts.drop_first();
        assert forall|i: int| 0 <= i < later.len() implies (#[trigger] later[i]) is Some
            && join.left_expr.value(later[i]->0) is Some by {
            assert(later[i] == lefts[i + 1]);
        }
        lemma_probe_one_more(join, buckets, left, key, rights);
        lemma_probe_many_more(join, grown, later, rights);
        vstd::seq_lib::lemma_multiset_commutative(
            predicate.scan(left, rights),
            predicate.nested(later, rights),
        );
    } else {
        assert(predicate.nested(lefts, rights).to_multiset() =~= Multiset::empty());
    }
}

/// The hash join of two inputs gives the same rows, each as often, as their nested loop join on
/// equal keys, if every row of the inputs can be had and has a key.
pub proof fn lemma_joins_agree(join: EquiJoin, lefts: Seq<Outcome>, rights: Seq<Outcome>)
    requires
        all_have_keys(join.left_expr, lefts),
        all_have_keys(join.right_expr, rights),
    ensures
        ({
            let predicate = JoinPredicate {
                op: BooleanOp::Eq,
                left_expr: join.left_expr,
                right_expr: join.right_expr,
            };
            join.join(Map::empty(), lefts, rights).to_multiset() == predicate.nested(
                lefts,
                rights,
            ).to_multiset()
        }),
{
    lemma_probe_many_more(join, Map::empty(), lefts, rights);
    lemma_probe_nothing(join, rights);
    let predicate = JoinPredicate {
        op: BooleanOp::Eq,
        left_expr: join.left_expr,
        right_expr: join.right_expr,
    };
    broadcast use vstd::seq_lib::group_to_multiset_ensures;

    assert(join.probe(Map::empty(), rights).to_multiset() =~= Multiset::empty());
    assert(join.join(Map::empty(), lefts, rights).to_multiset() =~= predicate.nested(
        lefts,
        rights,
    ).to_multiset());
}

/// Nothing is found in empty buckets.
proof fn lemma_probe_nothing(join: EquiJoin, rights: Seq<Outcome>)
    requires
        all_have_keys(join.right_expr, rights),
    ensures
        join.probe(Map::empty(), rights) == Seq::<Outcome>::empty(),
    decreases rights.len(),
{
    if rights.len() > 0 {
        assert(rights[0] is Some);
        let later = rights.drop_first();
        assert forall|i: int| 0 <= i < later.len() implies (#[trigger] later[i]) is Some
            && join.right_expr.value(later[i]->0) is Some by {
            assert(later[i] == rights[i + 1]);
        }
        lemma_probe_nothing(join, later);
        let key = join.right_expr.value(rights[0]->0)->0;
        assert(joined(bucket(Map::empty(), key), rights[0]->0) =~= Seq::empty());
    }
}

/// Whether a left and a right row belong together under a join predicate.
pub open spec fn matching(predicate: JoinPredicate, left: Row, right: Row) -> bool {
    predicate.left_expr.value(left)->0.satisfies(predicate.op, predicate.right_expr.value(right)->0)
}

/// What a left row gives in a scan: the rows that it gives with the right rows that match it.
proof fn lemma_scan_contains(
    predicate: JoinPredicate,
    left: Row,
    rights: Seq<Outcome>,
    outcome: Outcome,
)
    requires
        predicate.left_expr.value(left) is Some,
        all_have_keys(predicate.right_expr, rights),
    ensures
        predicate.scan(left, rights).contains(outcome) <==> exists|j: int|
            0 <= j < rights.len() && matching(predicate, left, (#[trigger] rights[j])->0) && outcome
                == Some(left + rights[j]->0),
    decreases rights.len(),
{
    if rights.len() > 0 {
        assert(rights[0] is Some);
        let later = rights.drop_first();
        assert forall|i: int| 0 <= i < later.len() implies (#[trigger] later[i]) is Some
            && predicate.right_expr.value(later[i]->0) is Some by {
            assert(later[i] == rights[i + 1]);
        }
        lemma_scan_contains(predicate, left, later, outcome);
        let first = predicate.pair(left, rights[0]);
        let rest = predicate.scan(left, later);
        let all = predicate.scan(left, rights);
        assert(all == first + rest);
        if all.contains(outcome) {
            let k = all.index_of(outcome);
            assert(all[k] == outcome);
            if k < first.len() {
                assert(first[k] == outcome);
                assert(matching(predicate, left, rights[0]->0));
            } else {
                assert(rest[k - first.len()] == outcome);
                let j = choose|j: int|
                    0 <= j < later.len() && matching(predicate, left, (#[trigger] later[j])->0)
                        && outcome == Some(left + later[j]->0);
                assert(rights[j + 1] == later[j]);
            }
        }
        if exists|j: int|
            0 <= j < rights.len() && matching(predicate, left, (#[trigger] rights[j])->0) && outcome
                == Some(left + rights[j]->0) {
            let j = choose|j: int|
                0 <= j < rights.len() && matching(predicate, left, (#[trigger] rights[j])->0)
                    && outcome == Some(left + rights[j]->0);
            if j == 0 {
                assert(first[0] == outcome);
                assert(all[0] == outcome);
            } else {
                assert(later[j - 1] == rights[j]);
                assert(rest.contains(outcome));
                let k = rest.index_of(outcome);
                assert(all[first.len() + k] == outcome);
            }
        }
    }
}

/// The nested loop join of two inputs consists of the rows that a left and a right row give that
/// belong together: of all of these, and of nothing else. Every row of the inputs must be one that
/// can be had and has a key.
pub proof fn lemma_nested_contains(
    predicate: JoinPredicate,
    lefts: Seq<Outcome>,
    rights: Seq<Outcome>,
    outcome: Outcome,
)
    requires
        all_have_keys(predicate.left_expr, lefts),
        all_have_keys(predicate.right_expr, rights),
    ensures
        predicate.nested(lefts, rights).contains(outcome) <==> exists|i: int, j: int|
            0 <= i < lefts.len() && 0 <= j < rights.len() && matching(
                predicate,
                (#[trigger] lefts[i])->0,
                (#[trigger] rights[j])->0,
            ) && outcome == Some(lefts[i]->0 + rights[j]->0),
    decreases lefts.len(),
{
    if lefts.len() > 0 {
        assert(lefts[0] is Some);
        let left = lefts[0]->0;
        let later = lefts.drop_first();
        assert forall|i: int| 0 <= i < later.len() implies (#[trigger] later[i]) is Some
            && predicate.left_expr.value(later[i]->0) is Some by {
            assert(later[i] == lefts[i + 1]);
        }
        lemma_nested_contains(predicate, later, rights, outcome);
        lemma_scan_contains(predicate, left, rights, outcome);
        let first = predicate.scan(left, rights);
        let rest = predicate.nested(later, rights);
        let all = predicate.nested(lefts, rights);
        assert(all == first + rest);
        if all.contains(outcome) {
            let k = all.index_of(outcome);
            assert(all[k] == outcome);
            if k < first.len() {
                assert(first[k] == outcome);
                assert(first.contains(outcome));
                let j = choose|j: int|
                    0 <= j < rights.len() && matching(predicate, left, (#[trigger] rights[j])->0)
                        && outcome == Some(left + rights[j]->0);
                assert(lefts[0]->0 == left);
                assert(matching(predicate, lefts[0]->0, rights[j]->0));
            } else {
                assert(rest[k - first.len()] == outcome);
                assert(rest.contains(outcome));
                let (i, j) = choose|i: int, j: int|
                    0 <= i < later.len() && 0 <= j < rights.len() && matching(
                        predicate,
                        (#[trigger] later[i])->0,
                        (#[trigger] rights[j])->0,
                    ) && outcome == Some(later[i]->0 + rights[j]->0);
                assert(lefts[i + 1] == later[i]);
                assert(matching(predicate, lefts[i + 1]->0, rights[j]->0));
            }
        }
        if exists|i: int, j: int|
            0 <= i < lefts.len() && 0 <= j < rights.len() && matching(
                predicate,
                (#[trigger] lefts[i])->0,
                (#[trigger] rights[j])->0,
            ) && outcome == Some(lefts[i]->0 + rights[j]->0) {
            let (i, j) = choose|i: int, j: int|
                0 <= i < lefts.len() && 0 <= j < rights.len() && matching(
                    predicate,
                    (#[trigger] lefts[i])->0,
                    (#[trigger] rights[j])->0,
                ) && outcome == Some(lefts[i]->0 + rights[j]->0);
            if i == 0 {
                assert(matching(predicate, left, rights[j]->0));
                assert(first.contains(outcome));
                let k = first.index_of(outcome);
                assert(all[k] == outcome);
            } else {
                assert(later[i - 1] == lefts[i]);
                assert(matching(predicate, later[i - 1]->0, rights[j]->0));
                assert(rest.contains(outcome));
                let k = rest.index_of(outcome);
                assert(all[first.len() + k] == outcome);
            }
        }
    }
}

} // verus!
