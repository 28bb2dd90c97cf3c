//! Values of any shape, and what they are to the contracts.

use vstd::prelude::*;
use crate::schema::Int;
use crate::time::{Duration, Instant};

verus! {

/// One field of an object: its index, and what it holds.
#[derive(Debug, PartialEq, Eq)]
pub struct Field {
    pub index: i32,
    pub value: Value,
}

/// A value of any shape.
#[derive(Debug, PartialEq, Eq)]
pub enum Value {
    Bool(bool),
    Int(Int),
    Str(String),
    Instant(Instant),
    Duration(Duration),
    /// A value that may be absent, written behind a one-byte flag.
    HasValue(Option<Box<Value>>),
    /// An object, a union or a sequence that may be absent.
    Nullable(Option<Box<Value>>),
    Tuple(Box<Value>, Box<Value>),
    /// The fields of a struct, in their order.
    Struct(Vec<Value>),
    /// The fields of an object, in the order of its schema.
    Object(Vec<Field>),
    /// The key of a case of a union, and the payload of that case.
    Union(Int, Box<Value>),
    Sequence(Vec<Value>),
}

/// What a value is: text as its characters, a run of values as a sequence,
/// the fields of an object as their indices and what they hold.
pub enum Datum {
    Bool(bool),
    Int(Int),
    Str(Seq<char>),
    Instant(Instant),
    Duration(Duration),
    HasValue(Option<Box<Datum>>),
    Nullable(Option<Box<Datum>>),
    Tuple(Box<Datum>, Box<Datum>),
    Struct(Seq<Datum>),
    Object(Seq<int>, Seq<Datum>),
    Union(Int, Box<Datum>),
    Sequence(Seq<Datum>),
}

/// What `v` is.
pub open spec fn datum(v: Value) -> Datum
    decreases v,
{
    match v {
        Value::Bool(b) => Datum::Bool(b),
        Value::Int(i) => Datum::Int(i),
        Value::Str(s) => Datum::Str(s@),
        Value::Instant(t) => Datum::Instant(t),
        Value::Duration(t) => Datum::Duration(t),
        Value::HasValue(None) => Datum::HasValue(None),
        Value::HasValue(Some(x)) => Datum::HasValue(Some(Box::new(datum(*x)))),
        Value::Nullable(None) => Datum::Nullable(None),
        Value::Nullable(Some(x)) => Datum::Nullable(Some(Box::new(datum(*x)))),
        Value::Tuple(a, b) => Datum::Tuple(Box::new(datum(*a)), Box::new(datum(*b))),
        Value::Struct(fields) => Datum::Struct(data(fields@)),
        Value::Object(fields) => Datum::Object(field_indices(fields@), field_data(fields@)),
        Value::Union(key, x) => Datum::Union(key, Box::new(datum(*x))),
        Value::Sequence(items) => Datum::Sequence(data(items@)),
    }
}

/// What each of `values` is.
pub open spec fn data(values: Seq<Value>) -> Seq<Datum>
    decreases values,
{
    if values.len() == 0 {
        Seq::empty()
    } else {
        data(values.drop_last()).push(datum(values.last()))
    }
}

/// What each of `fields` holds.
pub open spec fn field_data(fields: Seq<Field>) -> Seq<Datum>
    decreases fields,
{
    if fields.len() == 0 {
        Seq::empty()
    } else {
        field_data(fields.drop_last()).push(datum(fields.last().value))
    }
}

/// The index of each of `fields`.
pub open spec fn field_indices(fields: Seq<Field>) -> Seq<int> {
    Seq::new(fields.len(), |k: int| fields[k].index as int)
}

pub proof fn lemma_data(values: Seq<Value>)
    ensures
        data(values).len() == values.len(),
        forall|k: int| 0 <= k < values.len() ==> #[trigger] data(values)[k] == datum(values[k]),
    decreases values.len(),
{
    if values.len() > 0 {
        lemma_data(values.drop_last());
    }
}

pub proof fn lemma_field_data(fields: Seq<Field>)
    ensures
        field_data(fields).len() == fields.len(),
        forall|k: int|
            0 <= k < fields.len() ==> #[trigger] field_data(fields)[k] == datum(fields[k].value),
    decreases fields.len(),
{
    if fields.len() > 0 {
        lemma_field_data(fields.drop_last());
    }
}

pub proof fn lemma_data_push(values: Seq<Value>, x: Value)
    ensures
        data(values.push(x)) == data(values).push(datum(x)),
{
    assert(values.push(x).drop_last() =~= values);
}

pub proof fn lemma_field_data_push(fields: Seq<Field>, x: Field)
    ensures
        field_data(fields.push(x)) == field_data(fields).push(datum(x.value)),
        field_indices(fields.push(x)) == field_indices(fields).push(x.index as int),
{
    assert(fields.push(x).drop_last() =~= fields);
    assert(field_indices(fields.push(x)) =~= field_indices(fields).push(x.index as int));
}

impl View for Value {
    type V = Datum;

    open spec fn view(&self) -> Datum {
        datum(*self)
    }
}

impl DeepView for Value {
    type V = Datum;

    open spec fn deep_view(&self) -> Datum {
        datum(*self)
    }
}

} // verus!
