//! What holds of the format as a whole: what is written is what is read, an
//! object can be read through another schema than the one that wrote it, a
//! size of -1 is an absent value, and what is read can be written again.

use vstd::prelude::*;
use crate::buffer::{lemma_overwrite_holds, overwrite, Buffer};
use crate::codec::encoding_of;
use crate::conform::{
    agrees, conforms, lemma_position, lemma_position_of_own, position, seen_through,
};
use crate::error::Failure;
use crate::formatter::{holds, Formatter};
use crate::parse::{default_of, i32_in, parse, shape_indices};
use crate::round_trip::{
    lemma_head, lemma_object_fields, lemma_round_trip, lemma_table_entry_head,
};
use crate::schema::Shape;
use crate::sound::{lemma_parse_sound, sound};
use crate::value::Datum;
use crate::wire::{encodable, lemma_wire_len, size, valid, wire};

verus! {

/// An object can be read through any schema that gives each index that was
/// written the shape of what was written under it. The reader finds, for
/// each of its fields, the value that was written under the index of the
/// field, and the default of the field where nothing was; what was written
/// under other indices is passed over. It ends behind the whole object.
pub proof fn object_seen_through(
    schema: Shape,
    indices: Seq<int>,
    values: Seq<Datum>,
    bytes: Seq<u8>,
    at: int,
)
    requires
        schema is Object,
        encodable(Datum::Object(indices, values), at),
        holds(bytes, at, wire(Datum::Object(indices, values), at)),
        agrees(indices, values, schema->Object_0@),
    ensures
        parse(schema, bytes, at) == Ok::<(Datum, int), Failure>(
            (
                Datum::Object(
                    shape_indices(schema->Object_0@),
                    seen_through(indices, values, schema->Object_0@),
                ),
                at + size(Datum::Object(indices, values)),
            ),
        ),
{
    let fields = schema->Object_0@;
    lemma_table_entry_head(indices, values, bytes, at);
    lemma_object_fields(fields, indices, values, bytes, at, fields.len());
    assert(seen_through(indices, values, fields).take(fields.len() as int) =~= seen_through(
        indices,
        values,
        fields,
    ));
}

/// A reader whose schema has one field more than the writer's, under an
/// index that the writer did not use, finds what the writer wrote and the
/// default value for the field that is new to it.
pub proof fn default_on_missing(
    written: Shape,
    extended: Shape,
    j: int,
    d: Datum,
    bytes: Seq<u8>,
    at: int,
)
    requires
        written is Object,
        extended is Object,
        0 <= j < extended->Object_0@.len(),
        written->Object_0@ == extended->Object_0@.remove(j),
        forall|k: int|
            0 <= k < written->Object_0@.len() ==> (#[trigger] written->Object_0@[k]).index
                != extended->Object_0@[j].index,
        conforms(d, written),
        encodable(d, at),
        holds(bytes, at, wire(d, at)),
    ensures
        parse(extended, bytes, at) == Ok::<(Datum, int), Failure>(
            (
                Datum::Object(
                    shape_indices(extended->Object_0@),
                    d->Object_1.insert(j, default_of(extended->Object_0@[j].shape)),
                ),
                at + size(d),
            ),
        ),
{
    let fields = written->Object_0@;
    let more = extended->Object_0@;
    let indices = d->Object_0;
    let values = d->Object_1;
    let seen = seen_through(indices, values, more);
    let expected = values.insert(j, default_of(more[j].shape));
    assert forall|m: int| 0 <= m < more.len() implies (match position(
        indices,
        (#[trigger] more[m]).index as int,
        indices.len(),
    ) {
        Some(k) => conforms(values[k], more[m].shape),
        None => true,
    }) && seen[m] == expected[m] by {
        if m == j {
            lemma_position(indices, more[j].index as int, indices.len());
            match position(indices, more[j].index as int, indices.len()) {
                Some(k) => {
                    assert(fields[k].index != more[j].index);
                },
                None => {},
            }
        } else {
            let k = if m < j {
                m
            } else {
                m - 1
            };
            assert(fields[k] == more[m]);
            lemma_position_of_own(indices, k);
        }
    }
    assert(seen =~= expected);
    object_seen_through(extended, indices, values, bytes, at);
}

/// A reader whose schema lacks one field of the writer's finds the fields
/// that it knows, passes over the one that it does not know, and holds a
/// value of its own schema.
pub proof fn tolerate_extra(
    known: Shape,
    extended: Shape,
    j: int,
    d: Datum,
    bytes: Seq<u8>,
    at: int,
)
    requires
        known is Object,
        extended is Object,
        0 <= j < extended->Object_0@.len(),
        known->Object_0@ == extended->Object_0@.remove(j),
        conforms(d, extended),
        encodable(d, at),
        holds(bytes, at, wire(d, at)),
    ensures
        parse(known, bytes, at) == Ok::<(Datum, int), Failure>(
            (Datum::Object(shape_indices(known->Object_0@), d->Object_1.remove(j)), at + size(d)),
        ),
        conforms(
            Datum::Object(shape_indices(known->Object_0@), d->Object_1.remove(j)),
            known,
        ),
{
    let fields = known->Object_0@;
    let more = extended->Object_0@;
    let indices = d->Object_0;
    let values = d->Object_1;
    let seen = seen_through(indices, values, fields);
    let expected = values.remove(j);
    assert forall|m: int| 0 <= m < fields.len() implies (match position(
        indices,
        (#[trigger] fields[m]).index as int,
        indices.len(),
    ) {
        Some(k) => conforms(values[k], fields[m].shape),
        None => true,
    }) && seen[m] == expected[m] && conforms(expected[m], fields[m].shape) by {
        let k = if m < j {
            m
        } else {
            m + 1
        };
        assert(fields[m] == more[k]);
        lemma_position_of_own(indices, k);
    }
    assert(seen =~= expected);
    object_seen_through(known, indices, values, bytes, at);
}

/// A size or a count of -1 is an absent value: a reader that expects an
/// object, a union or a sequence that may be absent finds none, and ends
/// four bytes further.
pub proof fn absent_is_minus_one(inner: Shape, bytes: Seq<u8>, at: int)
    requires
        i32_in(bytes, at) == Some(-1int),
    ensures
        parse(Shape::Nullable(Box::new(inner)), bytes, at) == Ok::<(Datum, int), Failure>(
            (Datum::Nullable(None), at + 4),
        ),
{
}

/// The bytes of an object and of a union begin with their own number: the
/// size that an encoder returns is the size that a reader finds in front.
pub proof fn size_is_in_front(d: Datum, bytes: Seq<u8>, at: int)
    requires
        d is Object || d is Union,
        encodable(d, at),
        holds(bytes, at, wire(d, at)),
    ensures
        wire(d, at).len() == size(d),
        i32_in(bytes, at) == Some(size(d) as int),
{
    lemma_wire_len(d, at);
    lemma_head(d, bytes, at);
}

/// Writing and then reading: after a value of `shape` has been written at
/// `offset`, over whatever the buffer held, a reader that expects `shape`
/// at `offset` finds the value and ends behind its last byte.
pub proof fn write_then_read(shape: Shape, d: Datum, before: Seq<u8>, offset: u64)
    requires
        conforms(d, shape),
        encoding_of(d, offset) is Ok,
    ensures
        parse(
            shape,
            overwrite(before, offset as int, encoding_of(d, offset)->Ok_0),
            offset as int,
        ) == Ok::<(Datum, int), Failure>((d, offset + size(d))),
{
    let bytes = wire(d, offset as int);
    lemma_overwrite_holds(before, offset as int, bytes);
    lemma_round_trip(shape, d, overwrite(before, offset as int, bytes), offset as int);
}

/// What an encoder writes is determined by the value, the offset and what
/// the buffer held: two buffers that held the same bytes hold the same
/// bytes afterwards, whatever else differs between the two runs.
pub proof fn encoding_is_determined(
    d: Datum,
    offset: u64,
    first: Seq<u8>,
    second: Seq<u8>,
    first_after: Seq<u8>,
    second_after: Seq<u8>,
)
    requires
        first == second,
        encoding_of(d, offset) matches Ok(bytes) ==> first_after == overwrite(
            first,
            offset as int,
            bytes,
        ) && second_after == overwrite(second, offset as int, bytes),
        encoding_of(d, offset) is Err ==> first_after == first && second_after
            == second,
    ensures
        first_after == second_after,
{
}

/// Writing and then reading, for the values whose type tells their shape:
/// after a value has been written at `offset`, over whatever the buffer
/// held, a reader of the same type finds it there and ends behind its last
/// byte.
pub proof fn typed_write_then_read<T: DeepView>(value: T::V, before: Seq<u8>, offset: u64) where
    Buffer: Formatter<T>,

    requires
        <Buffer as Formatter<T>>::encoding(value, offset) is Ok,
    ensures
        <Buffer as Formatter<T>>::decoding(
            overwrite(before, offset as int, <Buffer as Formatter<T>>::encoding(value, offset)->Ok_0),
            offset,
        ) == Ok::<(T::V, u64), Failure>(
            (value, (offset + <Buffer as Formatter<T>>::encoding(value, offset)->Ok_0.len()) as u64),
        ),
{
    let bytes = <Buffer as Formatter<T>>::encoding(value, offset)->Ok_0;
    lemma_overwrite_holds(before, offset as int, bytes);
    <Buffer as Formatter<T>>::round_trip(value, offset, overwrite(before, offset as int, bytes));
}

/// A count of -1 is an absent sequence, whatever the elements would be.
pub proof fn absent_sequence_is_minus_one<A: DeepView>(bytes: Seq<u8>, offset: u64) where
    Buffer: Formatter<A>,

    requires
        i32_in(bytes, offset as int) == Some(-1int),
    ensures
        <Buffer as Formatter<Option<Vec<A>>>>::decoding(bytes, offset) == Ok::<
            (Option<Seq<A::V>>, u64),
            Failure,
        >((None, (offset + 4) as u64)),
{
}

/// What is read can be written again: the value that a reader returns for a
/// sound shape is a value of that shape and has an encoding.
pub proof fn what_is_read_can_be_written(shape: Shape, bytes: Seq<u8>, at: int)
    requires
        sound(shape),
        parse(shape, bytes, at) is Ok,
    ensures
        conforms(parse(shape, bytes, at)->Ok_0.0, shape),
        valid(parse(shape, bytes, at)->Ok_0.0),
{
    lemma_parse_sound(shape, bytes, at);
}

} // verus!
