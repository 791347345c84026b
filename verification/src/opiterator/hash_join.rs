//! The join on equal keys that looks the tuples of its right input up in a hash table of its left
//! input.

use vstd::prelude::*;

use super::calls::{
    added, called_in_turn, failure, grew, lemma_added, lemma_one_more_row, read_to_end,
    read_until_failure, rows_read, Answer, Call,
};
use super::{OpIterator, Outcome};
use crate::bytecode_expr::ByteCodeExpr;
use crate::error::CrustyError;
use crate::field::{Field, FieldView};
use crate::key_table::KeyTable;
use crate::tuple::{clone_tuples, field_views, tuple_views, Row, TableSchema, Tuple};

verus! {

/// The left rows with each key, in the order in which they came.
pub type Buckets = Map<FieldView, Seq<Row>>;

/// The left rows with a given key.
pub open spec fn bucket(buckets: Buckets, key: FieldView) -> Seq<Row> {
    if buckets.contains_key(key) {
        buckets[key]
    } else {
        Seq::empty()
    }
}

/// The rows that some left rows with the key of a right row give with it.
pub open spec fn joined(lefts: Seq<Row>, right: Row) -> Seq<Outcome> {
    lefts.map_values(|left: Row| Some(left + right))
}

/// What gives the keys of a join on equal keys.
pub struct EquiJoin {
    pub left_expr: ByteCodeExpr,
    pub right_expr: ByteCodeExpr,
}

impl EquiJoin {
    /// The buckets after some more left rows; `None` if there is a row that cannot be had, or that
    /// has no key.
    pub open spec fn build(self, buckets: Buckets, lefts: Seq<Outcome>) -> Option<Buckets>
        decreases lefts.len(),
    {
        if lefts.len() == 0 {
            Some(buckets)
        } else {
            match lefts[0] {
                None => None,
                Some(left) => match self.left_expr.value(left) {
                    None => None,
                    Some(key) => self.build(
                        buckets.insert(key, bucket(buckets, key).push(left)),
                        lefts.drop_first(),
                    ),
                },
            }
        }
    }

    /// Putting a left row into its bucket after others is putting it into what these have come to.
    pub proof fn lemma_build_one_more(self, buckets: Buckets, lefts: Seq<Outcome>, left: Row)
        requires
            self.build(buckets, lefts) is Some,
            self.left_expr.value(left) is Some,
        ensures
            ({
                let before = self.build(buckets, lefts)->0;
                let key = self.left_expr.value(left)->0;
                self.build(buckets, lefts.push(Some(left))) == Some(
                    before.insert(key, bucket(before, key).push(left)),
                )
            }),
        decreases lefts.len(),
    {
        let all = lefts.push(Some(left));
        if lefts.len() == 0 {
            let key = self.left_expr.value(left)->0;
            let grown = buckets.insert(key, bucket(buckets, key).push(left));
            assert(all.drop_first() =~= Seq::empty());
            assert(self.build(grown, all.drop_first()) == Some(grown));
        } else {
            assert(all[0] == lefts[0]);
            assert(all.drop_first() =~= lefts.drop_first().push(Some(left)));
            let first = lefts[0]->0;
            let key = self.left_expr.value(first)->0;
            let grown = buckets.insert(key, bucket(buckets, key).push(first));
            self.lemma_build_one_more(grown, lefts.drop_first(), left);
        }
    }

    /// What the right rows come to, one after the other: each gives a row with every left row that
    /// has its key.
    pub open spec fn probe(self, buckets: Buckets, rights: Seq<Outcome>) -> Seq<Outcome>
        decreases rights.len(),
    {
        if rights.len() == 0 {
            Seq::empty()
        } else {
            match rights[0] {
                None => seq![None],
                Some(right) => match self.right_expr.value(right) {
                    None => seq![None],
                    Some(key) => joined(bucket(buckets, key), right) + self.probe(
                        buckets,
                        rights.drop_first(),
                    ),
                },
            }
        }
    }

    /// The join of the left rows in `buckets` and those in `lefts` with the right rows. No row of
    /// it can be had if one of the left rows cannot, or has no key.
    pub open spec fn join(
        self,
        buckets: Buckets,
        lefts: Seq<Outcome>,
        rights: Seq<Outcome>,
    ) -> Seq<Outcome> {
        match self.build(buckets, lefts) {
            None => seq![None],
            Some(built) => self.probe(built, rights),
        }
    }

    /// What is left of a join that has got as far as `current`: the left rows that the current
    /// right row still has to be joined with, and that row.
    pub open spec fn rest(
        self,
        current: Option<(Seq<Row>, Row)>,
        buckets: Buckets,
        lefts: Seq<Outcome>,
        rights: Seq<Outcome>,
    ) -> Seq<Outcome> {
        match current {
            Some((matching, right)) => joined(matching, right) + self.probe(buckets, rights),
            None => self.join(buckets, lefts, rights),
        }
    }
}

/// What a hash table of left tuples holds.
spec fn table_buckets(keys: Seq<Row>, values: Seq<Vec<Tuple>>) -> Buckets {
    Map::new(
        |key: FieldView| keys.contains(seq![key]),
        |key: FieldView| tuple_views(values[keys.index_of(seq![key])]@),
    )
}

/// A join on equal keys: it puts all tuples of the left child into a hash table, and looks those of
/// the right child up in it.
pub struct HashEqJoin<L: OpIterator, R: OpIterator> {
    schema: TableSchema,
    /// Gives the join key of a left tuple.
    left_expr: ByteCodeExpr,
    /// Gives the join key of a right tuple.
    right_expr: ByteCodeExpr,
    left_child: L,
    right_child: R,
    /// The left tuples with each join key.
    hash_map: KeyTable<Vec<Tuple>>,
    /// The left tuples that match the current right tuple.
    current_bucket: Option<Vec<Tuple>>,
    /// How many tuples of the current bucket have been handed out.
    bucket_pos: usize,
    /// The right tuple that is being joined.
    current_right_tuple: Option<Tuple>,
    /// Whether all left tuples are in the hash table.
    hash_map_complete: bool,
    /// Whether the operator has been opened.
    open: bool,
    /// The calls so far.
    log: Ghost<Seq<Call>>,
}

impl<L: OpIterator, R: OpIterator> HashEqJoin<L, R> {
    /// What gives the join keys.
    pub closed spec fn keys(&self) -> EquiJoin {
        EquiJoin { left_expr: self.left_expr, right_expr: self.right_expr }
    }

    /// The left child.
    pub closed spec fn left(&self) -> L {
        self.left_child
    }

    /// The right child.
    pub closed spec fn right(&self) -> R {
        self.right_child
    }

    /// What the hash table holds.
    pub closed spec fn buckets(&self) -> Buckets {
        table_buckets(self.hash_map.key_rows(), self.hash_map.values())
    }

    /// Whether all left rows are in the hash table.
    pub closed spec fn complete(&self) -> bool {
        self.hash_map_complete
    }

    /// The left rows that the current right row still has to be joined with, and that row.
    pub closed spec fn current(&self) -> Option<(Seq<Row>, Row)> {
        match (self.current_bucket, self.current_right_tuple) {
            (Some(tuples), Some(right)) => Some(
                (tuple_views(tuples@).skip(self.bucket_pos as int), right@),
            ),
            _ => None,
        }
    }

    /// Whether the hash table and the place in the current bucket are sound.
    pub closed spec fn sound(&self) -> bool {
        &&& self.hash_map.wf()
        &&& self.current_bucket is Some <==> self.current_right_tuple is Some
        &&& self.current_bucket matches Some(tuples) ==> self.bucket_pos <= tuples@.len()
    }

    /// Whether the operator itself has been opened.
    pub closed spec fn opened(&self) -> bool {
        self.open
    }

    /// The calls that the operator has got so far.
    pub closed spec fn history(&self) -> Seq<Call> {
        self.log@
    }

    /// The columns that the operator was made with.
    pub closed spec fn columns(&self) -> TableSchema {
        self.schema
    }

    /// The left rows that are not in the hash table yet, out of those that the left child still
    /// has to hand out.
    pub open spec fn pending(&self, lefts: Seq<Outcome>) -> Seq<Outcome> {
        if self.complete() {
            Seq::empty()
        } else {
            lefts
        }
    }

    /// Makes a join that is not open yet.
    pub fn new(
        schema: TableSchema,
        left_expr: ByteCodeExpr,
        right_expr: ByteCodeExpr,
        left_child: L,
        right_child: R,
    ) -> (res: Self)
        requires
            left_child.inv(),
            right_child.inv(),
        ensures
            res.inv(),
            !res.opened(),
            res.keys() == (EquiJoin { left_expr, right_expr }),
            res.left() == left_child,
            res.right() == right_child,
            res.buckets() == Map::<FieldView, Seq<Row>>::empty(),
            !res.complete(),
            res.current() is None,
            res.columns() == schema,
            res.history() == Seq::<Call>::empty(),
    {
        let res = HashEqJoin {
            left_expr,
            right_expr,
            left_child,
            right_child,
            schema,
            hash_map: KeyTable::new(),
            hash_map_complete: false,
            current_bucket: None,
            bucket_pos: 0,
            current_right_tuple: None,
            open: false,
            log: Ghost(Seq::empty()),
        };
        assert(res.buckets() =~= Map::<FieldView, Seq<Row>>::empty());
        res
    }

    /// Puts a left tuple into the bucket of its key.
    fn add_left(&mut self, left_tuple: Tuple)
        requires
            old(self).sound(),
            old(self).keys().left_expr.value(left_tuple@) is Some,
        ensures
            final(self).sound(),
            ({
                let key = old(self).keys().left_expr.value(left_tuple@)->0;
                final(self).buckets() == old(self).buckets().insert(
                    key,
                    bucket(old(self).buckets(), key).push(left_tuple@),
                )
            }),
            final(self).left() == old(self).left(),
            final(self).right() == old(self).right(),
            final(self).keys() == old(self).keys(),
            final(self).columns() == old(self).columns(),
            final(self).history() == old(self).history(),
            final(self).current() == old(self).current(),
            final(self).complete() == old(self).complete(),
            final(self).opened() == old(self).opened(),
    {
        let join_key: Vec<Field> = vec![self.left_expr.eval(&left_tuple)];
        let ghost key = join_key@[0]@;
        let ghost row = left_tuple@;
        assert(field_views(join_key@) == seq![key]);
        let ghost keys = self.hash_map.key_rows();
        let ghost values = self.hash_map.values();
        proof {
            self.hash_map.lemma_shape();
        }
        match self.hash_map.find(&join_key) {
            Some(place) => {
                let tuples = self.hash_map.value_mut(place);
                tuples.push(left_tuple);
                proof {
                    self.hash_map.lemma_shape();
                    let grown = self.hash_map.values()[place as int];
                    assert(tuple_views(grown@) == tuple_views(values[place as int]@).push(row));
                    lemma_update_bucket(keys, values, key, place as int, grown);
                }
            },
            None => {
                let tuples = vec![left_tuple];
                let ghost fresh = tuples;
                self.hash_map.insert(join_key, tuples);
                proof {
                    self.hash_map.lemma_shape();
                    assert(tuple_views(fresh@) == Seq::<Row>::empty().push(row));
                    lemma_insert_bucket(keys, values, key, fresh);
                }
            },
        }
    }
}

/// Changing the value of a key changes its bucket alone.
proof fn lemma_update_bucket(
    keys: Seq<Row>,
    values: Seq<Vec<Tuple>>,
    key: FieldView,
    place: int,
    value: Vec<Tuple>,
)
    requires
        keys.len() == values.len(),
        keys.no_duplicates(),
        0 <= place < keys.len(),
        keys[place] == seq![key],
    ensures
        table_buckets(keys, values).contains_key(key),
        table_buckets(keys, values)[key] == tuple_views(values[place]@),
        table_buckets(keys, values.update(place, value)) == table_buckets(keys, values).insert(
            key,
            tuple_views(value@),
        ),
{
    assert(keys.contains(keys[place]));
    let updated = table_buckets(keys, values.update(place, value));
    let expected = table_buckets(keys, values).insert(key, tuple_views(value@));
    assert forall|k: FieldView| updated.contains_key(k) implies updated[k] == expected[k] by {
        let i = keys.index_of(seq![k]);
        assert(0 <= i < keys.len() && keys[i] == seq![k]);
        if k != key {
            assert(seq![k][0] != seq![key][0]);
            assert(i != place);
        }
    }
    assert(updated =~= expected);
}

/// A new key adds a bucket and leaves the others as they are.
proof fn lemma_insert_bucket(
    keys: Seq<Row>,
    values: Seq<Vec<Tuple>>,
    key: FieldView,
    value: Vec<Tuple>,
)
    requires
        keys.len() == values.len(),
        keys.no_duplicates(),
        !keys.contains(seq![key]),
    ensures
        !table_buckets(keys, values).contains_key(key),
        table_buckets(keys.push(seq![key]), values.push(value)) == table_buckets(
            keys,
            values,
        ).insert(key, tuple_views(value@)),
{
    let grown_keys = keys.push(seq![key]);
    let grown = table_buckets(grown_keys, values.push(value));
    let expected = table_buckets(keys, values).insert(key, tuple_views(value@));
    assert forall|k: FieldView| grown.contains_key(k) == expected.contains_key(k) by {
        if k == key {
            assert(grown_keys[keys.len() as int] == seq![key]);
        } else {
            assert(seq![k][0] != seq![key][0]);
            if keys.contains(seq![k]) {
                let i = keys.index_of(seq![k]);
                assert(grown_keys[i] == seq![k]);
            }
            if grown_keys.contains(seq![k]) {
                let i = grown_keys.index_of(seq![k]);
                assert(keys[i] == seq![k]);
            }
        }
    }
    assert forall|k: FieldView| grown.contains_key(k) implies grown[k] == expected[k] by {
        let i = grown_keys.index_of(seq![k]);
        assert(0 <= i < grown_keys.len() && grown_keys[i] == seq![k]);
        if k != key {
            assert(seq![k][0] != seq![key][0]);
            assert(keys[i] == seq![k]);
            let j = keys.index_of(seq![k]);
            assert(keys[j] == seq![k]);
        } else {
            assert(i == keys.len());
        }
    }
    assert(grown =~= expected);
}

impl<L: OpIterator, R: OpIterator> OpIterator for HashEqJoin<L, R> {
    open spec fn inv(&self) -> bool {
        &&& self.left().inv()
        &&& self.right().inv()
        &&& self.sound()
        &&& self.current() is Some ==> self.complete()
    }

    open spec fn is_open(&self) -> bool {
        self.opened() && self.left().is_open() && self.right().is_open()
    }

    open spec fn may_fail(&self) -> bool {
        self.left().may_fail() || self.right().may_fail()
    }

    open spec fn rewind_may_fail(&self) -> bool {
        self.right().rewind_may_fail()
    }

    open spec fn keeps_place(&self) -> bool {
        self.left().keeps_place() && self.right().keeps_place()
    }

    open spec fn calls(&self) -> Seq<Call> {
        self.history()
    }

    open spec fn will_rewind(&self) -> bool {
        self.right().will_rewind()
    }

    open spec fn schema(&self) -> TableSchema {
        self.columns()
    }

    open spec fn rows(&self) -> Seq<Outcome> {
        self.keys().join(
            self.buckets(),
            self.pending(self.left().remaining()),
            self.right().rows(),
        )
    }

    open spec fn remaining(&self) -> Seq<Outcome> {
        self.keys().rest(
            self.current(),
            self.buckets(),
            self.pending(self.left().remaining()),
            self.right().remaining(),
        )
    }

    open spec fn rewound(&self) -> Seq<Outcome> {
        self.keys().rest(
            self.current(),
            self.buckets(),
            self.pending(self.left().remaining()),
            self.right().rewound(),
        )
    }

    open spec fn restarts(&self) -> bool {
        self.current() is None && self.right().restarts()
    }

    open spec fn regular(&self) -> bool {
        self.right().regular()
    }

    open spec fn closed_rows(&self) -> Seq<Outcome> {
        self.keys().join(
            self.buckets(),
            self.pending(self.left().closed_remaining()),
            self.right().closed_rows(),
        )
    }

    open spec fn closed_remaining(&self) -> Seq<Outcome> {
        self.keys().rest(
            self.current(),
            self.buckets(),
            self.pending(self.left().closed_remaining()),
            self.right().closed_remaining(),
        )
    }

    proof fn lemma_restarts(&self) {
        self.right().lemma_restarts();
    }

    /// The left child is read once and never rewound.
    fn configure(&mut self, will_rewind: bool)
        ensures
            !final(self).left().will_rewind(),
            final(self).left().calls() == old(self).left().calls().push(Call::Configure(false)),
            final(self).left().remaining() == old(self).left().remaining(),
            final(self).right().calls() == old(self).right().calls().push(
                Call::Configure(will_rewind),
            ),
            final(self).right().remaining() == old(self).right().remaining(),
            final(self).keys() == old(self).keys(),
            final(self).current() == old(self).current(),
            final(self).buckets() == old(self).buckets(),
            final(self).complete() == old(self).complete(),
            final(self).opened() == old(self).opened(),
    {
        self.left_child.configure(false);
        self.right_child.configure(will_rewind);
        self.log = Ghost(self.log@.push(Call::Configure(will_rewind)));
    }

    fn open(&mut self) -> (res: Result<(), CrustyError>)
        ensures
            final(self).keys() == old(self).keys(),
            final(self).current() == old(self).current(),
            final(self).buckets() == old(self).buckets(),
            final(self).complete() == old(self).complete(),
            final(self).left().remaining() == old(self).left().remaining(),
            final(self).right().remaining() == old(self).right().remaining(),
            called_in_turn(
                old(self).left().calls(),
                final(self).left().calls(),
                old(self).right().calls(),
                final(self).right().calls(),
                |error: Option<CrustyError>| Call::Open(error),
                failure(res),
            ),
            res is Err ==> final(self).opened() == old(self).opened(),
    {
        if let Err(e) = self.left_child.open() {
            self.log = Ghost(self.log@.push(Call::Open(Some(e))));
            return Err(e);
        }
        if let Err(e) = self.right_child.open() {
            self.log = Ghost(self.log@.push(Call::Open(Some(e))));
            return Err(e);
        }
        self.open = true;
        self.log = Ghost(self.log@.push(Call::Open(None)));
        Ok(())
    }

    fn next(&mut self) -> (res: Result<Option<Tuple>, CrustyError>)
        ensures
            final(self).keys() == old(self).keys(),
            res matches Ok(None) ==> final(self).current() is None,
            res is Ok ==> final(self).complete(),
            old(self).complete() ==> final(self).complete() && final(self).buckets() == old(
                self,
            ).buckets() && final(self).left() == old(self).left(),
            !old(self).complete() && final(self).complete() ==> final(self).left().remaining().len()
                == 0 && old(self).keys().build(
                old(self).buckets(),
                old(self).left().remaining(),
            ) == Some(final(self).buckets()),
            grew(old(self).left().calls(), final(self).left().calls()),
            grew(old(self).right().calls(), final(self).right().calls()),
            ({
                let left_calls = added(old(self).left().calls(), final(self).left().calls());
                let right_calls = added(old(self).right().calls(), final(self).right().calls());
                &&& !old(self).complete() && final(self).complete() ==> left_calls == read_to_end(
                    old(self).left().remaining().len() as int,
                )
                &&& match res {
                    Ok(Some(_)) => right_calls == rows_read(
                        old(self).right().remaining().len() - final(self).right().remaining().len(),
                    ),
                    Ok(None) => right_calls == read_to_end(
                        old(self).right().remaining().len() as int,
                    ),
                    Err(e) => if final(self).complete() {
                        right_calls == read_until_failure(right_calls.len() - 1, e)
                    } else {
                        &&& left_calls == read_until_failure(left_calls.len() - 1, e)
                        &&& left_calls.len() - 1 <= old(self).left().remaining().len()
                        &&& old(self).keys().build(
                            old(self).buckets(),
                            old(self).left().remaining().take(left_calls.len() - 1),
                        ) == Some(final(self).buckets())
                        &&& final(self).right() == old(self).right()
                    },
                }
            }),
            final(self).opened() == old(self).opened(),
            old(self).current() matches Some((rows, _)) && rows.len() > 0 ==> res is Ok,
    {
        let ghost keys = self.keys();
        let ghost start = self.buckets();
        let ghost lefts = self.left().remaining();
        let ghost left_before = self.left().calls();
        let ghost right_before = self.right().calls();
        let ghost mut built: int = 0;
        assert(left_before + rows_read(0) =~= left_before);
        assert(lefts.take(0) =~= Seq::empty());
        assert(lefts.skip(0) =~= lefts);
        while !self.hash_map_complete
            invariant
                self.inv(),
                self.is_open(),
                self.may_fail() == old(self).may_fail(),
                self.rewind_may_fail() == old(self).rewind_may_fail(),
                self.keeps_place() == old(self).keeps_place(),
                self.schema() == old(self).schema(),
                self.calls() == old(self).calls(),
                self.opened() == old(self).opened(),
                left_before == old(self).left().calls(),
                right_before == old(self).right().calls(),
                old(self).regular() ==> self.regular(),
                self.keys() == old(self).keys(),
                self.remaining() == old(self).remaining(),
                self.rows() == old(self).rows(),
                self.will_rewind() == old(self).will_rewind(),
                old(self).remaining().len() > 0 ==> old(self).remaining()[0] is Some,
                old(self).inv(),
                old(self).complete() ==> *self == *old(self),
                keys == old(self).keys(),
                start == old(self).buckets(),
                lefts == old(self).left().remaining(),
                !old(self).complete() ==> {
                    &&& 0 <= built <= lefts.len()
                    &&& self.left().remaining() == lefts.skip(built)
                    &&& keys.build(start, lefts.take(built)) == Some(self.buckets())
                    &&& self.right() == old(self).right()
                    &&& if self.complete() {
                        built == lefts.len() && self.left().calls() == left_before + read_to_end(built)
                    } else {
                        self.left().calls() == left_before + rows_read(built)
                    }
                },
            decreases
                    self.left().remaining().len(),
                    (if self.complete() {
                        0int
                    } else {
                        1int
                    }),
        {
            let ghost known = left_before + rows_read(built);
            match self.left_child.next() {
                Ok(Some(left_tuple)) => {
                    let ghost row = left_tuple@;
                    self.add_left(left_tuple);
                    proof {
                        assert(lefts.skip(built)[0] == lefts[built]);
                        assert(lefts.take(built + 1) =~= lefts.take(built).push(lefts[built]));
                        keys.lemma_build_one_more(start, lefts.take(built), row);
                        assert(lefts.skip(built).drop_first() =~= lefts.skip(built + 1));
                        lemma_one_more_row(left_before, built);
                        built = built + 1;
                    }
                },
                Ok(None) => {
                    self.hash_map_complete = true;
                    assert(known.push(Call::Next(Answer::End)) =~= left_before + read_to_end(
                        built,
                    ));
                },
                Err(e) => {
                    self.log = Ghost(self.log@.push(Call::Next(Answer::Failed(e))));
                    proof {
                        assert(known.push(Call::Next(Answer::Failed(e))) =~= left_before
                            + read_until_failure(built, e));
                        lemma_added(left_before, read_until_failure(built, e));
                        assert(added(right_before, right_before) =~= Seq::empty());
                    }
                    return Err(e);
                },
            }
        }
        proof {
            if !old(self).complete() {
                assert(lefts.take(lefts.len() as int) =~= lefts);
                lemma_added(left_before, read_to_end(lefts.len() as int));
            }
        }
        let ghost mut asked: int = 0;
        assert(right_before + rows_read(0) =~= right_before);
        loop
            invariant
                asked == old(self).right().remaining().len() - self.right().remaining().len(),
                asked >= 0,
                self.right().calls() == right_before + rows_read(asked),
                keys == old(self).keys(),
                start == old(self).buckets(),
                lefts == old(self).left().remaining(),
                old(self).complete() ==> self.left() == old(self).left(),
                !old(self).complete() ==> {
                    &&& self.left().remaining().len() == 0
                    &&& keys.build(start, lefts) == Some(self.buckets())
                    &&& grew(left_before, self.left().calls())
                    &&& added(left_before, self.left().calls()) == read_to_end(lefts.len() as int)
                },
                old(self).current() matches Some((rows, _)) && rows.len() > 0 ==> self.current()
                    == old(self).current(),
                self.inv(),
                self.is_open(),
                self.may_fail() == old(self).may_fail(),
                self.rewind_may_fail() == old(self).rewind_may_fail(),
                self.keeps_place() == old(self).keeps_place(),
                self.schema() == old(self).schema(),
                self.calls() == old(self).calls(),
                self.opened() == old(self).opened(),
                left_before == old(self).left().calls(),
                right_before == old(self).right().calls(),
                old(self).regular() ==> self.regular(),
                self.keys() == old(self).keys(),
                self.remaining() == old(self).remaining(),
                self.rows() == old(self).rows(),
                self.will_rewind() == old(self).will_rewind(),
                old(self).remaining().len() > 0 ==> old(self).remaining()[0] is Some,
                self.complete(),
                old(self).complete() ==> self.buckets() == old(self).buckets(),
            decreases self.right().remaining().len(),
        {
            if let Some(tuples) = &self.current_bucket {
                let ghost matching = tuple_views(tuples@).skip(self.bucket_pos as int);
                if self.bucket_pos < tuples.len() {
                    let right_tuple = self.current_right_tuple.as_ref().unwrap();
                    let joined_tuple = tuples[self.bucket_pos].merge(right_tuple);
                    proof {
                        let right = right_tuple@;
                        assert(joined(matching, right).drop_first() == joined(
                            matching.drop_first(),
                            right,
                        ));
                        let later = self.keys().probe(self.buckets(), self.right().remaining());
                        assert((joined(matching, right) + later).drop_first() == joined(
                            matching,
                            right,
                        ).drop_first() + later);
                        assert(matching.drop_first() == tuple_views(tuples@).skip(
                            self.bucket_pos + 1,
                        ));
                    }
                    self.bucket_pos = self.bucket_pos + 1;
                    self.log = Ghost(self.log@.push(Call::Next(Answer::Row)));
                    proof {
                        lemma_added(right_before, rows_read(asked));
                    }
                    return Ok(Some(joined_tuple));
                } else {
                    proof {
                        let right = self.current_right_tuple->0@;
                        let later = self.keys().probe(self.buckets(), self.right().remaining());
                        assert(joined(matching, right) + later == later);
                    }
                    self.current_bucket = None;
                    self.current_right_tuple = None;
                }
            }
            let ghost known = right_before + rows_read(asked);
            match self.right_child.next() {
                Ok(Some(right_tuple)) => {
                    proof {
                        lemma_one_more_row(right_before, asked);
                        asked = asked + 1;
                    }
                    let probe_key: Vec<Field> = vec![self.right_expr.eval(&right_tuple)];
                    let ghost key = probe_key@[0]@;
                    assert(field_views(probe_key@) == seq![key]);
                    proof {
                        self.hash_map.lemma_shape();
                    }
                    match self.hash_map.find(&probe_key) {
                        Some(place) => {
                            let tuples = clone_tuples(self.hash_map.value(place));
                            proof {
                                lemma_update_bucket(
                                    self.hash_map.key_rows(),
                                    self.hash_map.values(),
                                    key,
                                    place as int,
                                    self.hash_map.values()[place as int],
                                );
                                assert(tuple_views(tuples@).skip(0) == tuple_views(tuples@));
                            }
                            self.current_bucket = Some(tuples);
                            self.bucket_pos = 0;
                            self.current_right_tuple = Some(right_tuple);
                        },
                        None => {
                            proof {
                                let later = self.keys().probe(
                                    self.buckets(),
                                    self.right().remaining(),
                                );
                                assert(joined(Seq::empty(), right_tuple@) + later == later);
                            }
                        },
                    }
                },
                Ok(None) => {
                    self.log = Ghost(self.log@.push(Call::Next(Answer::End)));
                    proof {
                        assert(known.push(Call::Next(Answer::End)) =~= right_before + read_to_end(
                            asked,
                        ));
                        lemma_added(right_before, read_to_end(asked));
                    }
                    return Ok(None);
                },
                Err(e) => {
                    self.log = Ghost(self.log@.push(Call::Next(Answer::Failed(e))));
                    proof {
                        assert(known.push(Call::Next(Answer::Failed(e))) =~= right_before
                            + read_until_failure(asked, e));
                        lemma_added(right_before, read_until_failure(asked, e));
                    }
                    return Err(e);
                },
            }
        }
    }

    /// The hash table stays as it is: only the right child is rewound.
    fn rewind(&mut self) -> (res: Result<(), CrustyError>)
        ensures
            final(self).keys() == old(self).keys(),
            final(self).left() == old(self).left(),
            final(self).right().calls() == old(self).right().calls().push(
                Call::Rewind(failure(res)),
            ),
            res is Ok ==> final(self).right().remaining() == old(self).right().rewound(),
            final(self).current() == old(self).current(),
            final(self).buckets() == old(self).buckets(),
            final(self).complete() == old(self).complete(),
            final(self).opened() == old(self).opened(),
    {
        let res = self.right_child.rewind();
        self.log = Ghost(self.log@.push(Call::Rewind(failure(res))));
        res
    }

    fn close(&mut self) -> (res: Result<(), CrustyError>)
        ensures
            final(self).keys() == old(self).keys(),
            final(self).current() == old(self).current(),
            final(self).buckets() == old(self).buckets(),
            final(self).complete() == old(self).complete(),
            res is Ok ==> !final(self).opened() && !final(self).left().is_open()
                && !final(self).right().is_open(),
            res is Err ==> final(self).opened() == old(self).opened(),
            called_in_turn(
                old(self).left().calls(),
                final(self).left().calls(),
                old(self).right().calls(),
                final(self).right().calls(),
                |error: Option<CrustyError>| Call::Close(error),
                failure(res),
            ),
    {
        if let Err(e) = self.left_child.close() {
            self.log = Ghost(self.log@.push(Call::Close(Some(e))));
            return Err(e);
        }
        if let Err(e) = self.right_child.close() {
            self.log = Ghost(self.log@.push(Call::Close(Some(e))));
            return Err(e);
        }
        self.open = false;
        self.log = Ghost(self.log@.push(Call::Close(None)));
        Ok(())
    }

    fn get_schema(&self) -> (res: &TableSchema) {
        &self.schema
    }
}

} // verus!
