//! A table that is looked up by a key made of fields, and that keeps its entries in the order in
//! which they were inserted.

use std::collections::HashMap;

use vstd::prelude::*;

use crate::field::{Field, FieldView};
use crate::tuple::{field_views, Row};

verus! {

broadcast use vstd::std_specs::hash::group_hash_axioms;

/// The factor between two steps of the hash.
const HASH_FACTOR: u64 = 1099511628211;

/// One step of the hash.
spec fn hash_step(hash: u64, value: u64) -> u64 {
    (hash ^ value).wrapping_mul(HASH_FACTOR)
}

/// The hash of a text, character by character.
spec fn hash_text(hash: u64, text: Seq<char>) -> u64
    decreases text.len(),
{
    if text.len() == 0 {
        hash
    } else {
        hash_text(hash_step(hash, text[0] as u64), text.drop_first())
    }
}

/// The hash of a field.
spec fn hash_field(hash: u64, field: FieldView) -> u64 {
    match field {
        FieldView::Int(n) => hash_step(hash_step(hash, 1), n as u64),
        FieldView::Decimal(n, scale) => hash_step(
            hash_step(hash_step(hash, 2), n as u64),
            scale as u64,
        ),
        FieldView::Text(text) => hash_text(hash_step(hash, 3), text),
        FieldView::Null => hash_step(hash, 4),
    }
}

/// The hash of a key, field by field.
spec fn hash_key(hash: u64, key: Row) -> u64
    decreases key.len(),
{
    if key.len() == 0 {
        hash
    } else {
        hash_key(hash_field(hash, key[0]), key.drop_first())
    }
}

fn step(hash: u64, value: u64) -> (res: u64)
    ensures
        res == hash_step(hash, value),
{
    (hash ^ value).wrapping_mul(HASH_FACTOR)
}

fn text_hash(hash: u64, text: &String) -> (res: u64)
    ensures
        res == hash_text(hash, text@),
{
    let mut left = text.as_str().chars();
    let mut res: u64 = hash;
    loop
        invariant
            hash_text(hash, text@) == hash_text(
                res,
                vstd::std_specs::iter::IteratorSpec::remaining(&left),
            ),
            vstd::std_specs::iter::IteratorSpec::decrease(&left) is Some,
        decreases vstd::std_specs::iter::IteratorSpec::decrease(&left)->0,
    {
        match left.next() {
            None => {
                return res;
            },
            Some(c) => {
                res = step(res, c as u64);
            },
        }
    }
}

fn field_hash(hash: u64, field: &Field) -> (res: u64)
    ensures
        res == hash_field(hash, field@),
{
    match field {
        Field::Int(n) => step(step(hash, 1), *n as u64),
        Field::Decimal(n, scale) => step(step(step(hash, 2), *n as u64), *scale as u64),
        Field::String(text) => text_hash(step(hash, 3), text),
        Field::Null => step(hash, 4),
    }
}

fn key_hash(key: &Vec<Field>) -> (res: u64)
    ensures
        res == hash_key(0, field_views(key@)),
{
    let mut res: u64 = 0;
    let ghost row = field_views(key@);
    assert(row.skip(0) == row);
    for i in 0..key.len()
        invariant
            row == field_views(key@),
            hash_key(0, row) == hash_key(res, row.skip(i as int)),
    {
        res = field_hash(res, &key[i]);
        assert(row.skip(i as int).drop_first() == row.skip(i + 1));
    }
    res
}

fn same_fields(a: &Vec<Field>, b: &Vec<Field>) -> (res: bool)
    ensures
        res == (field_views(a@) == field_views(b@)),
{
    let ghost left = field_views(a@);
    let ghost right = field_views(b@);
    if a.len() != b.len() {
        assert(left.len() != right.len());
        return false;
    }
    for i in 0..a.len()
        invariant
            a@.len() == b@.len(),
            left == field_views(a@),
            right == field_views(b@),
            forall|k: int| 0 <= k < i ==> left[k] == right[k],
    {
        if !(a[i] == b[i]) {
            assert(left[i as int] != right[i as int]);
            return false;
        }
    }
    assert(left =~= right);
    true
}

/// Whether the position of the key at `i` is listed under its hash.
spec fn listed(keys: Seq<Row>, index: Map<u64, Vec<usize>>, i: int) -> bool {
    let hash = hash_key(0, keys[i]);
    index.contains_key(hash) && exists|k: int|
        0 <= k < index[hash]@.len() && #[trigger] index[hash]@[k] == i
}

/// A table from keys to values.
pub struct KeyTable<V> {
    keys: Vec<Vec<Field>>,
    vals: Vec<V>,
    /// For each hash, the positions of the keys that have it.
    index: HashMap<u64, Vec<usize>>,
}

impl<V> KeyTable<V> {
    /// The keys, in the order in which they were inserted.
    pub closed spec fn key_rows(&self) -> Seq<Row> {
        self.keys@.map_values(|key: Vec<Field>| field_views(key@))
    }

    /// The values, in the order in which they were inserted.
    pub closed spec fn values(&self) -> Seq<V> {
        self.vals@
    }

    /// Every key has one value, no key occurs twice, and every key can be found by its hash.
    pub closed spec fn wf(&self) -> bool {
        &&& self.keys@.len() == self.vals@.len()
        &&& self.key_rows().no_duplicates()
        &&& forall|i: int| 0 <= i < self.keys@.len() ==> #[trigger] listed(self.key_rows(), self.index@, i)
        &&& forall|hash: u64, k: int|
            self.index@.contains_key(hash) && 0 <= k < self.index@[hash]@.len()
                ==> #[trigger] self.index@[hash]@[k] < self.keys@.len()
    }

    /// There are as many keys as values, and the keys are distinct.
    pub proof fn lemma_shape(&self)
        requires
            self.wf(),
        ensures
            self.key_rows().len() == self.values().len(),
            self.key_rows().no_duplicates(),
    {
    }

    /// The table without any entry.
    pub fn new() -> (res: Self)
        ensures
            res.wf(),
            res.key_rows() == Seq::<Row>::empty(),
            res.values() == Seq::<V>::empty(),
    {
        let res = KeyTable { keys: Vec::new(), vals: Vec::new(), index: HashMap::new() };
        assert(res.key_rows() =~= Seq::<Row>::empty());
        res
    }

    /// How many entries the table has.
    pub fn len(&self) -> (res: usize)
        requires
            self.wf(),
        ensures
            res == self.values().len(),
    {
        self.vals.len()
    }

    /// The position of a key.
    pub fn find(&self, key: &Vec<Field>) -> (res: Option<usize>)
        requires
            self.wf(),
        ensures
            match res {
                Some(i) => i < self.key_rows().len() && self.key_rows()[i as int] == field_views(
                    key@,
                ),
                None => !self.key_rows().contains(field_views(key@)),
            },
    {
        let hash: u64 = key_hash(key);
        let ghost row = field_views(key@);
        match self.index.get(&hash) {
            None => {
                proof {
                    if self.key_rows().contains(row) {
                        let i = choose|i: int|
                            0 <= i < self.key_rows().len() && self.key_rows()[i] == row;
                        assert(listed(self.key_rows(), self.index@, i));
                    }
                }
                None
            },
            Some(places) => {
                for k in 0..places.len()
                    invariant
                        self.wf(),
                        row == field_views(key@),
                        hash == hash_key(0, row),
                        self.index@.contains_key(hash),
                        *places == self.index@[hash],
                        forall|n: int|
                            0 <= n < k ==> self.key_rows()[(#[trigger] places@[n]) as int] != row,
                {
                    let i: usize = places[k];
                    assert(self.index@[hash]@[k as int] < self.keys@.len());
                    if same_fields(&self.keys[i], key) {
                        return Some(i);
                    }
                }
                proof {
                    if self.key_rows().contains(row) {
                        let i = choose|i: int|
                            0 <= i < self.key_rows().len() && self.key_rows()[i] == row;
                        assert(listed(self.key_rows(), self.index@, i));
                    }
                }
                None
            },
        }
    }

    /// Appends an entry under a key that the table does not have.
    pub fn insert(&mut self, key: Vec<Field>, value: V)
        requires
            old(self).wf(),
            !old(self).key_rows().contains(field_views(key@)),
        ensures
            final(self).wf(),
            final(self).key_rows() == old(self).key_rows().push(field_views(key@)),
            final(self).values() == old(self).values().push(value),
    {
        let hash: u64 = key_hash(&key);
        let place: usize = self.keys.len();
        let ghost row = field_views(key@);
        let mut places: Vec<usize> = match self.index.remove(&hash) {
            Some(places) => places,
            None => Vec::new(),
        };
        let ghost before = places@;
        places.push(place);
        self.index.insert(hash, places);
        self.keys.push(key);
        self.vals.push(value);
        proof {
            assert(self.key_rows() =~= old(self).key_rows().push(row));
            assert forall|i: int| 0 <= i < self.keys@.len() implies #[trigger] listed(self.key_rows(), self.index@, i) by {
                let h = hash_key(0, self.key_rows()[i]);
                if i < old(self).keys@.len() {
                    assert(listed(old(self).key_rows(), old(self).index@, i));
                    let k = choose|k: int|
                        0 <= k < old(self).index@[h]@.len() && #[trigger] old(
                            self,
                        ).index@[h]@[k] == i;
                    assert(self.index@[h]@[k] == i);
                } else {
                    assert(self.index@[hash]@[before.len() as int] == i);
                }
            }
            assert forall|h: u64, k: int|
                self.index@.contains_key(h) && 0 <= k
                    < self.index@[h]@.len() implies #[trigger] self.index@[h]@[k]
                < self.keys@.len() by {
                if h == hash {
                    if k < before.len() {
                        assert(old(self).index@[h]@[k] < old(self).keys@.len());
                    }
                } else {
                    assert(old(self).index@[h]@[k] < old(self).keys@.len());
                }
            }
        }
    }

    /// The value at a position.
    pub fn value(&self, place: usize) -> (res: &V)
        requires
            self.wf(),
            place < self.values().len(),
        ensures
            *res == self.values()[place as int],
    {
        &self.vals[place]
    }

    /// The value at a position, to be changed.
    pub fn value_mut(&mut self, place: usize) -> (res: &mut V)
        requires
            old(self).wf(),
            place < old(self).values().len(),
        ensures
            *res == old(self).values()[place as int],
            final(self).wf(),
            final(self).key_rows() == old(self).key_rows(),
            final(self).values() == old(self).values().update(place as int, *final(res)),
    {
        &mut self.vals[place]
    }

    /// Takes the table apart.
    pub fn into_parts(self) -> (res: (Vec<Vec<Field>>, Vec<V>))
        requires
            self.wf(),
        ensures
            res.0@.map_values(|key: Vec<Field>| field_views(key@)) == self.key_rows(),
            res.1@ == self.values(),
    {
        (self.keys, self.vals)
    }
}

} // verus!
