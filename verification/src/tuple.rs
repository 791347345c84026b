//! Tuples and their schema.

use vstd::prelude::*;

use crate::field::{Field, FieldView};

verus! {

/// What a `Tuple` holds.
pub type Row = Seq<FieldView>;

/// A row of a table or of a query result.
#[derive(Debug, PartialEq, Eq)]
pub struct Tuple {
    pub field_vals: Vec<Field>,
}

/// What each of some fields holds.
pub open spec fn field_views(fields: Seq<Field>) -> Row {
    fields.map_values(|field: Field| field@)
}

impl View for Tuple {
    type V = Row;

    open spec fn view(&self) -> Row {
        field_views(self.field_vals@)
    }
}

/// A copy of some fields.
pub fn clone_fields(fields: &Vec<Field>) -> (res: Vec<Field>)
    ensures
        res@ == fields@,
{
    let mut res: Vec<Field> = Vec::new();
    for i in 0..fields.len()
        invariant
            res@ == fields@.take(i as int),
    {
        res.push(fields[i].clone());
        assert(fields@.take(i + 1) == fields@.take(i as int).push(fields@[i as int]));
    }
    assert(fields@.take(fields@.len() as int) == fields@);
    res
}

impl Clone for Tuple {
    fn clone(&self) -> (res: Self)
        ensures
            res@ == self@,
    {
        Tuple { field_vals: clone_fields(&self.field_vals) }
    }
}

impl Tuple {
    /// The tuple that consists of the given fields.
    pub fn new(field_vals: Vec<Field>) -> (res: Self)
        ensures
            res@ == field_views(field_vals@),
            res.field_vals@ == field_vals@,
    {
        Tuple { field_vals }
    }

    /// The fields of this tuple, followed by those of another.
    pub fn merge(&self, other: &Tuple) -> (res: Tuple)
        ensures
            res@ == self@ + other@,
    {
        let mut field_vals = clone_fields(&self.field_vals);
        let mut rest = clone_fields(&other.field_vals);
        field_vals.append(&mut rest);
        assert(field_views(self.field_vals@ + other.field_vals@) == self@ + other@);
        Tuple { field_vals }
    }
}

/// What each of some tuples holds.
pub open spec fn tuple_views(tuples: Seq<Tuple>) -> Seq<Row> {
    tuples.map_values(|tuple: Tuple| tuple@)
}

/// A copy of some tuples.
pub fn clone_tuples(tuples: &Vec<Tuple>) -> (res: Vec<Tuple>)
    ensures
        tuple_views(res@) == tuple_views(tuples@),
{
    let mut res: Vec<Tuple> = Vec::new();
    for i in 0..tuples.len()
        invariant
            tuple_views(res@) == tuple_views(tuples@).take(i as int),
    {
        let ghost before = res@;
        res.push(tuples[i].clone());
        assert(tuple_views(res@) == tuple_views(before).push(tuples@[i as int]@));
        assert(tuple_views(tuples@).take(i + 1) == tuple_views(tuples@).take(i as int).push(
            tuples@[i as int]@,
        ));
    }
    assert(tuple_views(tuples@).take(tuples@.len() as int) == tuple_views(tuples@));
    res
}

/// The type of a column.
#[derive(Clone, Copy, Debug, PartialEq, Eq, Structural)]
pub enum DataType {
    Int,
    Decimal,
    String,
}

/// A column of a table or of a query result.
#[derive(Clone, Debug, PartialEq, Eq)]
pub struct Attribute {
    pub name: String,
    pub dtype: DataType,
}

/// The columns of a table or of a query result.
#[derive(Clone, Debug, PartialEq, Eq)]
pub struct TableSchema {
    pub attributes: Vec<Attribute>,
}

impl TableSchema {
    /// The schema with the given columns.
    pub fn new(attributes: Vec<Attribute>) -> (res: Self)
        ensures
            res.attributes == attributes,
    {
        TableSchema { attributes }
    }
}

/// What a tuple holds is what its fields hold, field by field and in their order.
pub proof fn lemma_tuple_view(tuple: Tuple)
    ensures
        tuple@.len() == tuple.field_vals@.len(),
        forall|i: int|
            0 <= i < tuple.field_vals@.len() ==> #[trigger] tuple@[i] == tuple.field_vals@[i]@,
{
}

/// What fields and tuples hold, one by one and in their order.
pub proof fn lemma_views(fields: Seq<Field>, tuples: Seq<Tuple>)
    ensures
        field_views(fields).len() == fields.len(),
        forall|i: int|
            0 <= i < fields.len() ==> #[trigger] field_views(fields)[i] == fields[i]@,
        tuple_views(tuples).len() == tuples.len(),
        forall|i: int|
            0 <= i < tuples.len() ==> #[trigger] tuple_views(tuples)[i] == tuples[i]@,
{
}

} // verus!
