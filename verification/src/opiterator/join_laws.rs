//! What the joins give: which pairs of rows, in which order.

use vstd::prelude::*;

use super::hash_join::{bucket, joined, Buckets, EquiJoin, HashEqJoin};
use super::laws::{all_have_keys, lemma_bucket, rows_with_key};
use super::nested_loop_join::{JoinPredicate, NestedLoopJoin};
use super::{OpIterator, Outcome};
use crate::field::FieldView;
use crate::tuple::Row;

verus! {

/// Whether some places in two inputs, each a place in the left one and a place in the right one, are
/// those of the pairs that belong together, and a result consists of the rows that these pairs give:
/// the fields of the left row, followed by those of the right row.
pub open spec fn consists_of_pairs(
    result: Seq<Outcome>,
    lefts: Seq<Outcome>,
    rights: Seq<Outcome>,
    belong: spec_fn(int, int) -> bool,
    places: Seq<(int, int)>,
) -> bool {
    &&& result.len() == places.len()
    &&& forall|k: int|
        0 <= k < places.len() ==> ({
            let (i, j) = #[trigger] places[k];
            &&& 0 <= i < lefts.len()
            &&& 0 <= j < rights.len()
            &&& belong(i, j)
            &&& result[k] == Some(lefts[i]->0 + rights[j]->0)
        })
    &&& forall|i: int, j: int|
        0 <= i < lefts.len() && 0 <= j < rights.len() && #[trigger] belong(i, j)
            ==> places.contains((i, j))
}

/// Whether places are in the order of the left input, and where they agree there, of the right one.
pub open spec fn left_before_right(places: Seq<(int, int)>) -> bool {
    forall|k: int, l: int|
        0 <= k < l < places.len() ==> (#[trigger] places[k]).0 < (#[trigger] places[l]).0 || (
        places[k].0 == places[l].0 && places[k].1 < places[l].1)
}

/// Whether places are in the order of the right input, and where they agree there, of the left one.
pub open spec fn right_before_left(places: Seq<(int, int)>) -> bool {
    forall|k: int, l: int|
        0 <= k < l < places.len() ==> (#[trigger] places[k]).1 < (#[trigger] places[l]).1 || (
        places[k].1 == places[l].1 && places[k].0 < places[l].0)
}

/// The numbers from `from` up to `n` that belong to `o`, in their order.
spec fn hits(b: spec_fn(int, int) -> bool, o: int, from: int, n: int) -> Seq<int>
    decreases n - from,
{
    if from >= n {
        Seq::empty()
    } else if b(o, from) {
        seq![from] + hits(b, o, from + 1, n)
    } else {
        hits(b, o, from + 1, n)
    }
}

proof fn lemma_hits(b: spec_fn(int, int) -> bool, o: int, from: int, n: int)
    ensures
        forall|k: int|
            0 <= k < hits(b, o, from, n).len() ==> from <= (#[trigger] hits(b, o, from, n)[k]) < n
                && b(o, hits(b, o, from, n)[k]),
        forall|k: int, l: int|
            0 <= k < l < hits(b, o, from, n).len() ==> (#[trigger] hits(b, o, from, n)[k]) < (
            #[trigger] hits(b, o, from, n)[l]),
        forall|j: int|
            from <= j < n && #[trigger] b(o, j) ==> hits(b, o, from, n).contains(j),
    decreases n - from,
{
    if from < n {
        lemma_hits(b, o, from + 1, n);
        let later = hits(b, o, from + 1, n);
        let all = hits(b, o, from, n);
        if b(o, from) {
            assert(all == seq![from] + later);
            assert forall|k: int| 0 <= k < all.len() implies from <= (#[trigger] all[k]) < n && b(
                o,
                all[k],
            ) by {
                if k > 0 {
                    assert(all[k] == later[k - 1]);
                }
            }
            assert forall|k: int, l: int| 0 <= k < l < all.len() implies (#[trigger] all[k]) < (
            #[trigger] all[l]) by {
                assert(all[l] == later[l - 1]);
                if k > 0 {
                    assert(all[k] == later[k - 1]);
                }
            }
            assert forall|j: int| from <= j < n && #[trigger] b(o, j) implies all.contains(j) by {
                if j == from {
                    assert(all[0] == from);
                } else {
                    let k = later.index_of(j);
                    assert(all[k + 1] == j);
                }
            }
        }
    }
}

/// The places `(o, i)` that belong, for `o` from `from` up to `n` and `i` up to `m`, in their order.
spec fn grid(b: spec_fn(int, int) -> bool, from: int, n: int, m: int) -> Seq<(int, int)>
    decreases n - from,
{
    if from >= n {
        Seq::empty()
    } else {
        hits(b, from, 0, m).map_values(|i: int| (from, i)) + grid(b, from + 1, n, m)
    }
}

proof fn lemma_grid(b: spec_fn(int, int) -> bool, from: int, n: int, m: int)
    ensures
        forall|k: int|
            0 <= k < grid(b, from, n, m).len() ==> ({
                let p = #[trigger] grid(b, from, n, m)[k];
                from <= p.0 < n && 0 <= p.1 < m && b(p.0, p.1)
            }),
        left_before_right(grid(b, from, n, m)),
        forall|o: int, i: int|
            from <= o < n && 0 <= i < m && #[trigger] b(o, i) ==> grid(b, from, n, m).contains(
                (o, i),
            ),
    decreases n - from,
{
    if from < n {
        lemma_grid(b, from + 1, n, m);
        lemma_hits(b, from, 0, m);
        let first_hits = hits(b, from, 0, m);
        let first = first_hits.map_values(|i: int| (from, i));
        let later = grid(b, from + 1, n, m);
        let all = grid(b, from, n, m);
        assert(all == first + later);
        assert forall|k: int| 0 <= k < all.len() implies ({
            let p = #[trigger] all[k];
            from <= p.0 < n && 0 <= p.1 < m && b(p.0, p.1)
        }) by {
            if k < first.len() {
                assert(all[k] == (from, first_hits[k]));
            } else {
                assert(all[k] == later[k - first.len()]);
            }
        }
        assert forall|k: int, l: int| 0 <= k < l < all.len() implies (#[trigger] all[k]).0 < (
        #[trigger] all[l]).0 || (all[k].0 == all[l].0 && all[k].1 < all[l].1) by {
            if k < first.len() {
                assert(all[k] == (from, first_hits[k]));
            } else {
                assert(all[k] == later[k - first.len()]);
            }
            if l < first.len() {
                assert(all[l] == (from, first_hits[l]));
            } else {
                assert(all[l] == later[l - first.len()]);
            }
        }
        assert forall|o: int, i: int|
            from <= o < n && 0 <= i < m && #[trigger] b(o, i) implies all.contains((o, i)) by {
            if o == from {
                let k = first_hits.index_of(i);
                assert(first_hits[k] == i);
                assert(all[k] == (o, i));
            } else {
                let k = later.index_of((o, i));
                assert(all[first.len() + k] == (o, i));
            }
        }
    }
}

/// What follows the first of some outcomes.
proof fn lemma_later(expr: crate::bytecode_expr::ByteCodeExpr, outcomes: Seq<Outcome>, from: int)
    requires
        all_have_keys(expr, outcomes),
        0 <= from < outcomes.len(),
    ensures
        outcomes.skip(from)[0] == outcomes[from],
        outcomes[from] is Some,
        expr.value(outcomes[from]->0) is Some,
        outcomes.skip(from).drop_first() == outcomes.skip(from + 1),
{
    assert(outcomes.skip(from).drop_first() =~= outcomes.skip(from + 1));
}

/// A scan gives the rows of the places that belong to the left row.
proof fn lemma_scan_hits(
    predicate: JoinPredicate,
    lefts: Seq<Outcome>,
    rights: Seq<Outcome>,
    b: spec_fn(int, int) -> bool,
    o: int,
    from: int,
)
    requires
        all_have_keys(predicate.left_expr, lefts),
        all_have_keys(predicate.right_expr, rights),
        0 <= o < lefts.len(),
        0 <= from <= rights.len(),
        forall|j: int|
            0 <= j < rights.len() ==> #[trigger] b(o, j) == predicate.left_expr.value(
                lefts[o]->0,
            )->0.satisfies(predicate.op, predicate.right_expr.value(rights[j]->0)->0),
    ensures
        predicate.scan(lefts[o]->0, rights.skip(from)) == hits(
            b,
            o,
            from,
            rights.len() as int,
        ).map_values(|j: int| Some(lefts[o]->0 + rights[j]->0)),
    decreases rights.len() - from,
{
    let n = rights.len() as int;
    let left = lefts[o]->0;
    assert(lefts[o] is Some);
    let row = |j: int| Some(left + rights[j]->0);
    if from < n {
        lemma_later(predicate.right_expr, rights, from);
        lemma_scan_hits(predicate, lefts, rights, b, o, from + 1);
        let later = hits(b, o, from + 1, n);
        if b(o, from) {
            assert((seq![from] + later).map_values(row) =~= seq![row(from)] + later.map_values(
                row,
            ));
        } else {
            assert(Seq::empty() + later.map_values(row) =~= later.map_values(row));
        }
        assert(predicate.scan(left, rights.skip(from)) =~= hits(b, o, from, n).map_values(row));
    } else {
        assert(rights.skip(from) =~= Seq::empty());
        assert(hits(b, o, from, n).map_values(row) =~= Seq::empty());
    }
}

proof fn lemma_nested_grid(
    predicate: JoinPredicate,
    lefts: Seq<Outcome>,
    rights: Seq<Outcome>,
    b: spec_fn(int, int) -> bool,
    from: int,
)
    requires
        all_have_keys(predicate.left_expr, lefts),
        all_have_keys(predicate.right_expr, rights),
        0 <= from <= lefts.len(),
        forall|i: int, j: int|
            0 <= i < lefts.len() && 0 <= j < rights.len() ==> #[trigger] b(i, j)
                == predicate.left_expr.value(lefts[i]->0)->0.satisfies(
                predicate.op,
                predicate.right_expr.value(rights[j]->0)->0,
            ),
    ensures
        predicate.nested(lefts.skip(from), rights) == grid(
            b,
            from,
            lefts.len() as int,
            rights.len() as int,
        ).map_values(|p: (int, int)| Some(lefts[p.0]->0 + rights[p.1]->0)),
    decreases lefts.len() - from,
{
    let n = lefts.len() as int;
    let m = rights.len() as int;
    let row = |p: (int, int)| Some(lefts[p.0]->0 + rights[p.1]->0);
    if from < n {
        lemma_later(predicate.left_expr, lefts, from);
        lemma_nested_grid(predicate, lefts, rights, b, from + 1);
        lemma_scan_hits(predicate, lefts, rights, b, from, 0);
        assert(rights.skip(0) =~= rights);
        let found = hits(b, from, 0, m);
        let first = found.map_values(|i: int| (from, i));
        let later = grid(b, from + 1, n, m);
        assert(first.map_values(row) =~= found.map_values(
            |j: int| Some(lefts[from]->0 + rights[j]->0),
        ));
        assert((first + later).map_values(row) =~= first.map_values(row) + later.map_values(row));
    } else {
        assert(lefts.skip(from) =~= Seq::empty());
        assert(grid(b, from, n, m).map_values(row) =~= Seq::empty());
    }
}

/// The nested loop join of two inputs whose rows all can be had and have keys: the rows of exactly
/// those pairs whose keys satisfy the comparison, each pair once, in the order of the left input and
/// then of the right one.
pub proof fn lemma_nested_pairs(
    predicate: JoinPredicate,
    lefts: Seq<Outcome>,
    rights: Seq<Outcome>,
) -> (places: Seq<(int, int)>)
    requires
        all_have_keys(predicate.left_expr, lefts),
        all_have_keys(predicate.right_expr, rights),
    ensures
        left_before_right(places),
        consists_of_pairs(
            predicate.nested(lefts, rights),
            lefts,
            rights,
            |i: int, j: int|
                predicate.left_expr.value(lefts[i]->0)->0.satisfies(
                    predicate.op,
                    predicate.right_expr.value(rights[j]->0)->0,
                ),
            places,
        ),
{
    let b = |i: int, j: int|
        predicate.left_expr.value(lefts[i]->0)->0.satisfies(
            predicate.op,
            predicate.right_expr.value(rights[j]->0)->0,
        );
    let n = lefts.len() as int;
    let m = rights.len() as int;
    lemma_nested_grid(predicate, lefts, rights, b, 0);
    assert(lefts.skip(0) =~= lefts);
    lemma_grid(b, 0, n, m);
    grid(b, 0, n, m)
}

/// What a nested loop join gives as a whole: the rows of exactly those pairs of a left and a right row
/// whose keys satisfy the comparison, each pair once, in the order of the left input and then of the
/// right one.
pub proof fn lemma_nested_loop_join_result<L: OpIterator, R: OpIterator>(
    join: NestedLoopJoin<L, R>,
) -> (places: Seq<(int, int)>)
    requires
        all_have_keys(join.predicate().left_expr, join.left().rows()),
        all_have_keys(join.predicate().right_expr, join.right().rows()),
    ensures
        left_before_right(places),
        consists_of_pairs(
            join.rows(),
            join.left().rows(),
            join.right().rows(),
            |i: int, j: int|
                join.predicate().left_expr.value(join.left().rows()[i]->0)->0.satisfies(
                    join.predicate().op,
                    join.predicate().right_expr.value(join.right().rows()[j]->0)->0,
                ),
            places,
        ),
{
    lemma_nested_pairs(join.predicate(), join.left().rows(), join.right().rows())
}

/// What a nested loop join has left in the middle of a scan, and what it has left once it is rewound
/// or closed there: what the current left row gives with what its right input has left then, and
/// after that what the other left rows give with the whole right input.
pub proof fn lemma_nested_loop_join_midway<L: OpIterator, R: OpIterator>(
    join: NestedLoopJoin<L, R>,
    current: Row,
)
    requires
        join.current() == Some(current),
    ensures
        join.remaining() == join.predicate().nested(seq![Some(current)], join.right().remaining())
            + join.predicate().nested(join.left().remaining(), join.right().rows()),
        join.rewound() == join.predicate().nested(seq![Some(current)], join.right().rewound())
            + join.predicate().nested(join.left().rewound(), join.right().rows()),
        join.closed_remaining() == join.predicate().nested(
            seq![Some(current)],
            join.right().closed_remaining(),
        ) + join.predicate().nested(join.left().closed_remaining(), join.right().closed_rows()),
        join.closed_rows() == join.predicate().nested(
            join.left().closed_rows(),
            join.right().closed_rows(),
        ),
{
    lemma_single_nested(join.predicate(), current, join.right().remaining());
    lemma_single_nested(join.predicate(), current, join.right().rewound());
    lemma_single_nested(join.predicate(), current, join.right().closed_remaining());
}

proof fn lemma_single_nested(predicate: JoinPredicate, left: Row, rights: Seq<Outcome>)
    ensures
        predicate.nested(seq![Some(left)], rights) == predicate.scan(left, rights),
{
    let lefts = seq![Some(left)];
    assert(lefts.drop_first() =~= Seq::empty());
    assert(predicate.nested(lefts.drop_first(), rights) =~= Seq::empty());
    assert(predicate.scan(left, rights) + Seq::<Outcome>::empty() =~= predicate.scan(left, rights));
}

/// The rows with a key are those of the places that belong to it.
proof fn lemma_rows_with_key_hits(
    expr: crate::bytecode_expr::ByteCodeExpr,
    lefts: Seq<Outcome>,
    key: FieldView,
    b: spec_fn(int, int) -> bool,
    o: int,
    from: int,
)
    requires
        all_have_keys(expr, lefts),
        0 <= from <= lefts.len(),
        forall|i: int|
            0 <= i < lefts.len() ==> #[trigger] b(o, i) == (expr.value(lefts[i]->0) == Some(key)),
    ensures
        rows_with_key(expr, lefts.skip(from), key) == hits(
            b,
            o,
            from,
            lefts.len() as int,
        ).map_values(|i: int| lefts[i]->0),
    decreases lefts.len() - from,
{
    let n = lefts.len() as int;
    let row = |i: int| lefts[i]->0;
    if from < n {
        lemma_later(expr, lefts, from);
        lemma_rows_with_key_hits(expr, lefts, key, b, o, from + 1);
        let later = hits(b, o, from + 1, n);
        if b(o, from) {
            assert((seq![from] + later).map_values(row) =~= seq![row(from)] + later.map_values(
                row,
            ));
        }
    } else {
        assert(lefts.skip(from) =~= Seq::empty());
        assert(hits(b, o, from, n).map_values(row) =~= Seq::empty());
    }
}

proof fn lemma_probe_grid(
    join: EquiJoin,
    built: Buckets,
    lefts: Seq<Outcome>,
    rights: Seq<Outcome>,
    b: spec_fn(int, int) -> bool,
    from: int,
)
    requires
        all_have_keys(join.left_expr, lefts),
        all_have_keys(join.right_expr, rights),
        0 <= from <= rights.len(),
        forall|key: FieldView| #[trigger]
            bucket(built, key) == rows_with_key(join.left_expr, lefts, key),
        forall|j: int, i: int|
            0 <= i < lefts.len() && 0 <= j < rights.len() ==> #[trigger] b(j, i) == (
            join.left_expr.value(lefts[i]->0) == join.right_expr.value(rights[j]->0)),
    ensures
        join.probe(built, rights.skip(from)) == grid(
            b,
            from,
            rights.len() as int,
            lefts.len() as int,
        ).map_values(|p: (int, int)| Some(lefts[p.1]->0 + rights[p.0]->0)),
    decreases rights.len() - from,
{
    let n = rights.len() as int;
    let m = lefts.len() as int;
    let row = |p: (int, int)| Some(lefts[p.1]->0 + rights[p.0]->0);
    if from < n {
        lemma_later(join.right_expr, rights, from);
        let right = rights[from]->0;
        let key = join.right_expr.value(right)->0;
        lemma_probe_grid(join, built, lefts, rights, b, from + 1);
        assert forall|i: int| 0 <= i < lefts.len() implies #[trigger] b(from, i) == (
        join.left_expr.value(lefts[i]->0) == Some(key)) by {}
        lemma_rows_with_key_hits(join.left_expr, lefts, key, b, from, 0);
        assert(lefts.skip(0) =~= lefts);
        let found = hits(b, from, 0, m);
        let first = found.map_values(|i: int| (from, i));
        let later = grid(b, from + 1, n, m);
        assert(bucket(built, key) == found.map_values(|i: int| lefts[i]->0));
        assert(joined(bucket(built, key), right) =~= first.map_values(row));
        assert((first + later).map_values(row) =~= first.map_values(row) + later.map_values(row));
    } else {
        assert(rights.skip(from) =~= Seq::empty());
        assert(grid(b, from, n, m).map_values(row) =~= Seq::empty());
    }
}

/// The hash join of two inputs whose rows all can be had and have keys: the rows of exactly those
/// pairs that have the same key, each pair once, in the order of the right input and then of the left
/// one.
pub proof fn lemma_hash_pairs(join: EquiJoin, lefts: Seq<Outcome>, rights: Seq<Outcome>) -> (places:
    Seq<(int, int)>)
    requires
        all_have_keys(join.left_expr, lefts),
        all_have_keys(join.right_expr, rights),
    ensures
        right_before_left(places),
        consists_of_pairs(
            join.join(Map::empty(), lefts, rights),
            lefts,
            rights,
            |i: int, j: int|
                join.left_expr.value(lefts[i]->0) == join.right_expr.value(rights[j]->0),
            places,
        ),
{
    let b = |j: int, i: int|
        join.left_expr.value(lefts[i]->0) == join.right_expr.value(rights[j]->0);
    let n = rights.len() as int;
    let m = lefts.len() as int;
    lemma_build_exists(join, Map::empty(), lefts);
    let built = join.build(Map::empty(), lefts)->0;
    assert forall|key: FieldView| #[trigger]
        bucket(built, key) == rows_with_key(join.left_expr, lefts, key) by {
        lemma_bucket(join, Map::empty(), lefts, key);
        assert(bucket(Map::empty(), key) + rows_with_key(join.left_expr, lefts, key)
            =~= rows_with_key(join.left_expr, lefts, key));
    }
    lemma_probe_grid(join, built, lefts, rights, b, 0);
    assert(rights.skip(0) =~= rights);
    lemma_grid(b, 0, n, m);
    let swapped = grid(b, 0, n, m);
    let places = swapped.map_values(|p: (int, int)| (p.1, p.0));
    let belong = |i: int, j: int|
        join.left_expr.value(lefts[i]->0) == join.right_expr.value(rights[j]->0);
    assert forall|i: int, j: int|
        0 <= i < lefts.len() && 0 <= j < rights.len() && #[trigger] belong(
            i,
            j,
        ) implies places.contains((i, j)) by {
        assert(b(j, i));
        let k = swapped.index_of((j, i));
        assert(swapped[k] == (j, i));
        assert(places[k] == (i, j));
    }
    assert forall|k: int| 0 <= k < places.len() implies ({
        let (i, j) = #[trigger] places[k];
        &&& 0 <= i < lefts.len()
        &&& 0 <= j < rights.len()
        &&& belong(i, j)
        &&& join.join(Map::empty(), lefts, rights)[k] == Some(lefts[i]->0 + rights[j]->0)
    }) by {
        let p = swapped[k];
        assert(b(p.0, p.1));
    }
    assert forall|k: int, l: int| 0 <= k < l < places.len() implies (#[trigger] places[k]).1 < (
    #[trigger] places[l]).1 || (places[k].1 == places[l].1 && places[k].0 < places[l].0) by {
        assert(swapped[k].0 < swapped[l].0 || (swapped[k].0 == swapped[l].0 && swapped[k].1
            < swapped[l].1));
    }
    places
}

proof fn lemma_build_exists(join: EquiJoin, buckets: Buckets, lefts: Seq<Outcome>)
    requires
        all_have_keys(join.left_expr, lefts),
    ensures
        join.build(buckets, lefts) is Some,
    decreases lefts.len(),
{
    if lefts.len() > 0 {
        assert(lefts[0] is Some);
        let left = lefts[0]->0;
        let key = join.left_expr.value(left)->0;
        let later = lefts.drop_first();
        assert forall|i: int| 0 <= i < later.len() implies (#[trigger] later[i]) is Some
            && join.left_expr.value(later[i]->0) is Some by {
            assert(later[i] == lefts[i + 1]);
        }
        lemma_build_exists(join, buckets.insert(key, bucket(buckets, key).push(left)), later);
    }
}

/// What a hash join that has not read its left input yet gives as a whole: the rows of exactly those
/// pairs of a left and a right row that have the same key, each pair once, in the order of the right
/// input and then of the left one.
pub proof fn lemma_hash_join_result<L: OpIterator, R: OpIterator>(join: HashEqJoin<L, R>) -> (places:
    Seq<(int, int)>)
    requires
        !join.complete(),
        join.buckets() == Map::<FieldView, Seq<Row>>::empty(),
        all_have_keys(join.keys().left_expr, join.left().remaining()),
        all_have_keys(join.keys().right_expr, join.right().rows()),
    ensures
        right_before_left(places),
        consists_of_pairs(
            join.rows(),
            join.left().remaining(),
            join.right().rows(),
            |i: int, j: int|
                join.keys().left_expr.value(join.left().remaining()[i]->0)
                    == join.keys().right_expr.value(join.right().rows()[j]->0),
            places,
        ),
{
    lemma_hash_pairs(join.keys(), join.left().remaining(), join.right().rows())
}

/// What a hash join whose table is complete has left in the middle of a bucket, and what it has left
/// once it is rewound or closed there: the rest of the bucket with the current right row, and after
/// that what it would have left without a current right row.
pub proof fn lemma_hash_join_midway<L: OpIterator, R: OpIterator>(
    join: HashEqJoin<L, R>,
    between: HashEqJoin<L, R>,
    lefts: Seq<Row>,
    right: Row,
)
    requires
        join.current() == Some((lefts, right)),
        join.complete(),
        between.current() is None,
        between.complete(),
        between.keys() == join.keys(),
        between.buckets() == join.buckets(),
        between.left() == join.left(),
        between.right() == join.right(),
    ensures
        ({
            let rest = Seq::new(lefts.len(), |k: int| Some(lefts[k] + right));
            &&& join.remaining() == rest + between.remaining()
            &&& join.rewound() == rest + between.rewound()
            &&& join.closed_remaining() == rest + between.closed_remaining()
            &&& join.rows() == between.rows()
            &&& join.closed_rows() == between.closed_rows()
        }),
{
    assert(joined(lefts, right) =~= Seq::new(lefts.len(), |k: int| Some(lefts[k] + right)));
}

/// A hash join whose table is complete gives what its right input gives: a join made of the same table
/// gives as much with the same right rows, whether they come from its whole right input, from what
/// that has left, or from what it has once it is rewound or closed.
pub proof fn lemma_hash_join_between<L: OpIterator, R: OpIterator>(join: HashEqJoin<L, R>)
    requires
        join.current() is None,
    ensures
        join.right().remaining() == join.right().rows() ==> join.remaining() == join.rows(),
        join.right().rewound() == join.right().rows() ==> join.rewound() == join.rows(),
        join.complete() && join.right().closed_rows() == join.right().rows() ==> join.closed_rows()
            == join.rows(),
        join.complete() && join.right().closed_remaining() == join.right().remaining()
            ==> join.closed_remaining() == join.remaining(),
{
}

/// A nested loop join between two scans goes on with the next left row: it has left what one has left
/// that is about to hold this row against the right input. Without a further left row it has nothing
/// left.
pub proof fn lemma_nested_loop_join_next_left<L: OpIterator, R: OpIterator>(
    join: NestedLoopJoin<L, R>,
    scanning: NestedLoopJoin<L, R>,
    left: Row,
)
    requires
        join.current() is None,
        join.left().remaining().len() > 0 ==> {
            &&& join.left().remaining()[0] == Some(left)
            &&& scanning.current() == Some(left)
            &&& scanning.left().remaining() == join.left().remaining().drop_first()
            &&& scanning.right() == join.right()
            &&& scanning.predicate() == join.predicate()
        },
    ensures
        join.left().remaining().len() > 0 ==> join.remaining() == scanning.remaining(),
        join.left().remaining().len() == 0 ==> join.remaining().len() == 0,
{
}

/// What a nested loop join has left once it is rewound or closed is what one has left whose inputs
/// stand as they do once they are rewound or closed.
pub proof fn lemma_nested_loop_join_as_inputs<L: OpIterator, R: OpIterator>(
    join: NestedLoopJoin<L, R>,
    other: NestedLoopJoin<L, R>,
)
    requires
        other.predicate() == join.predicate(),
        other.current() == join.current(),
    ensures
        other.left().remaining() == join.left().rewound() && other.right().remaining()
            == join.right().rewound() && other.right().rows() == join.right().rows()
            ==> other.remaining() == join.rewound(),
        other.left().remaining() == join.left().closed_remaining() && other.right().remaining()
            == join.right().closed_remaining() && other.right().rows()
            == join.right().closed_rows() ==> other.remaining() == join.closed_remaining(),
        other.left().rows() == join.left().closed_rows() && other.right().rows()
            == join.right().closed_rows() ==> other.rows() == join.closed_rows(),
{
}

/// When a nested loop join is open, can report errors, and starts anew, in terms of its inputs.
pub proof fn lemma_nested_loop_join_flags<L: OpIterator, R: OpIterator>(join: NestedLoopJoin<L, R>)
    ensures
        join.is_open() <==> join.opened() && join.left().is_open() && join.right().is_open(),
        !join.left().may_fail() && !join.right().may_fail() ==> !join.may_fail(),
        !join.left().rewind_may_fail() && !join.right().rewind_may_fail()
            ==> !join.rewind_may_fail(),
        join.left().keeps_place() && join.right().keeps_place() && !join.right().rewind_may_fail()
            ==> join.keeps_place(),
        join.current() is None && join.left().restarts() && join.right().restarts()
            ==> join.restarts(),
        join.left().regular() && join.right().restarts() ==> join.regular(),
        join.left().regular() && join.current() is Some ==> join.regular(),
        join.will_rewind() == join.left().will_rewind(),
        join.schema() == join.columns(),
        join.right_at_start() <==> join.right().remaining() == join.right().rows(),
        join.current() is None ==> join.scans_left() == join.left().remaining().len(),
        join.current() is Some ==> join.scans_left() == join.left().remaining().len() + 1,
{
}

/// What a hash join has left once it is rewound or closed is what one has left whose inputs stand as
/// they do once they are rewound or closed.
pub proof fn lemma_hash_join_as_inputs<L: OpIterator, R: OpIterator>(
    join: HashEqJoin<L, R>,
    other: HashEqJoin<L, R>,
)
    requires
        other.keys() == join.keys(),
        other.current() == join.current(),
        other.buckets() == join.buckets(),
        other.complete() == join.complete(),
    ensures
        other.left().remaining() == join.left().remaining() && other.right().remaining()
            == join.right().rewound() ==> other.remaining() == join.rewound(),
        other.left().remaining() == join.left().closed_remaining() && other.right().remaining()
            == join.right().closed_remaining() ==> other.remaining() == join.closed_remaining(),
        other.left().remaining() == join.left().closed_remaining() && other.right().rows()
            == join.right().closed_rows() ==> other.rows() == join.closed_rows(),
{
}

/// When a hash join is open, can report errors, and starts anew, in terms of its inputs.
pub proof fn lemma_hash_join_flags<L: OpIterator, R: OpIterator>(join: HashEqJoin<L, R>)
    ensures
        join.is_open() <==> join.opened() && join.left().is_open() && join.right().is_open(),
        !join.left().may_fail() && !join.right().may_fail() ==> !join.may_fail(),
        !join.right().rewind_may_fail() ==> !join.rewind_may_fail(),
        join.left().keeps_place() && join.right().keeps_place() ==> join.keeps_place(),
        join.current() is None && join.right().restarts() ==> join.restarts(),
        join.right().regular() ==> join.regular(),
        join.will_rewind() == join.right().will_rewind(),
        join.schema() == join.columns(),
{
}

} // verus!
