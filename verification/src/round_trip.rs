//! The proof that what was written is what is read.

use vstd::prelude::*;
use vstd::utf8::{encode_utf8, encode_utf8_decode_utf8, encode_utf8_valid_utf8};
use crate::buffer::LIMIT;
use crate::conform::{
    agrees, conforms, lemma_position, lemma_position_of_own, position, seen_through,
};
use crate::endian::{
    le_bytes, le_value, lemma_le_bytes_len, lemma_le_value_of_bytes, lemma_radix_values, unsigned,
};
use crate::error::Failure;
use crate::formatter::holds;
use crate::object::lemma_i32_wire_len;
use crate::parse::{
    case_of, i32_in, int_in, parse, parse_case, parse_each, parse_field, parse_fields, parse_run,
    time_in, unsigned_in,
};
use crate::schema::{FieldShape, Int, Shape};
use crate::time::time_wire;
use crate::value::Datum;
use crate::wire::{
    all_valid, encodable, header_size, i32_wire, int_wire, last_index, lemma_int_wire_len,
    lemma_last_index, lemma_sizes_grow, lemma_wire_len, lemma_wires_len, size, sizes, slot_of,
    slots, starts_with_size, table_bytes, valid, wire, wires,
};

verus! {

/// Where bytes hold two runs one behind the other, they hold each.
pub proof fn lemma_holds_split(bytes: Seq<u8>, at: int, first: Seq<u8>, second: Seq<u8>)
    requires
        holds(bytes, at, first + second),
    ensures
        holds(bytes, at, first),
        holds(bytes, at + first.len(), second),
{
    let both = first + second;
    assert(bytes.subrange(at, at + first.len()) =~= both.subrange(0, first.len() as int));
    assert(both.subrange(0, first.len() as int) =~= first);
    assert(bytes.subrange(at + first.len(), at + both.len()) =~= both.subrange(
        first.len() as int,
        both.len() as int,
    ));
    assert(both.subrange(first.len() as int, both.len() as int) =~= second);
}

/// Where bytes hold a run of items, they hold each item at its place.
pub proof fn lemma_holds_item(bytes: Seq<u8>, items: Seq<Datum>, at: int, n: nat, k: int)
    requires
        n <= items.len(),
        0 <= k < n,
        holds(bytes, at, wires(items, at, n)),
    ensures
        holds(bytes, at + sizes(items, k as nat), wire(items[k], at + sizes(items, k as nat))),
        holds(bytes, at, wires(items, at, k as nat)),
    decreases n,
{
    let before = wires(items, at, (n - 1) as nat);
    let item = wire(items[n - 1], at + sizes(items, (n - 1) as nat));
    lemma_wires_len(items, at, (n - 1) as nat);
    lemma_holds_split(bytes, at, before, item);
    if k < n - 1 {
        lemma_holds_item(bytes, items, at, (n - 1) as nat, k);
    }
}

/// A signed 32-bit number that was written is read back.
pub proof fn lemma_i32_round_trip(v: int, bytes: Seq<u8>, at: int)
    requires
        i32::MIN <= v <= i32::MAX,
        at + 4 <= LIMIT,
        holds(bytes, at, i32_wire(v)),
    ensures
        i32_in(bytes, at) == Some(v),
{
    lemma_radix_values();
    lemma_le_bytes_len(unsigned(v, 4), 4);
    lemma_le_value_of_bytes(unsigned(v, 4), 4);
}

/// An integer that was written is read back.
pub proof fn lemma_int_round_trip(i: Int, bytes: Seq<u8>, at: int)
    requires
        at + i.kind().width() <= LIMIT,
        holds(bytes, at, int_wire(i)),
    ensures
        int_in(bytes, at, i.kind()) == Some(i),
{
    lemma_radix_values();
    let width = i.kind().width();
    lemma_le_bytes_len(unsigned(i.value(), width), width);
    lemma_le_value_of_bytes(unsigned(i.value(), width), width);
}

/// Seconds and nanoseconds that were written are read back.
pub proof fn lemma_time_in_round_trip(seconds: int, nanos: int, bytes: Seq<u8>, at: int)
    requires
        i64::MIN <= seconds <= i64::MAX,
        i32::MIN <= nanos <= i32::MAX,
        at + 12 <= LIMIT,
        holds(bytes, at, time_wire(seconds, nanos)),
    ensures
        time_in(bytes, at) == Some((seconds, nanos)),
{
    lemma_radix_values();
    let head = le_bytes(unsigned(seconds, 8), 8);
    let tail = le_bytes(unsigned(nanos, 4), 4);
    lemma_le_bytes_len(unsigned(seconds, 8), 8);
    lemma_le_bytes_len(unsigned(nanos, 4), 4);
    lemma_le_value_of_bytes(unsigned(seconds, 8), 8);
    lemma_holds_split(bytes, at, head, tail);
    lemma_i32_round_trip(nanos, bytes, at + 8);
}

/// The table entry of an index is the offset of the field that `position`
/// finds, and 0 where it finds none.
pub proof fn lemma_slot_of(indices: Seq<int>, values: Seq<Datum>, base: int, i: int, k: nat)
    requires
        k <= indices.len(),
    ensures
        slot_of(indices, values, base, i, k) == (match position(indices, i, k) {
            Some(p) => base + sizes(values, p as nat),
            None => 0,
        }),
    decreases k,
{
    if k > 0 && indices[k - 1] != i {
        lemma_slot_of(indices, values, base, i, (k - 1) as nat);
    }
}

/// The table of an object has four bytes for each index up to the last.
pub proof fn lemma_table_len_of(indices: Seq<int>, values: Seq<Datum>, base: int)
    ensures
        table_bytes(slots(indices, values, base, values.len())).len() == 4 * (last_index(indices)
            + 1),
{
    lemma_last_index(indices);
}

/// The table of an object holds, at the place of each index up to the last,
/// the four bytes of its entry.
pub proof fn lemma_table_entry(indices: Seq<int>, values: Seq<Datum>, bytes: Seq<u8>, at: int, i: int)
    requires
        indices.len() == values.len(),
        0 <= i <= last_index(indices),
        holds(bytes, at, wire(Datum::Object(indices, values), at)),
    ensures
        holds(
            bytes,
            at + 8 + 4 * i,
            i32_wire(
                slot_of(indices, values, at + header_size(indices), i, indices.len()),
            ),
        ),
        holds(bytes, at, i32_wire(size(Datum::Object(indices, values)) as int)),
        holds(bytes, at + 4, i32_wire(last_index(indices))),
        holds(
            bytes,
            at + header_size(indices),
            wires(values, at + header_size(indices), values.len()),
        ),
{
    let d = Datum::Object(indices, values);
    let base = at + header_size(indices);
    let word = i32_wire(size(d) as int);
    let lastw = i32_wire(last_index(indices));
    let table = table_bytes(slots(indices, values, base, values.len()));
    let payload = wires(values, base, values.len());
    lemma_i32_wire_len(size(d) as int);
    lemma_i32_wire_len(last_index(indices));
    lemma_holds_split(bytes, at, word + lastw + table, payload);
    lemma_holds_split(bytes, at, word + lastw, table);
    lemma_holds_split(bytes, at, word, lastw);
    let entry = i32_wire(slot_of(indices, values, base, i, indices.len()));
    lemma_i32_wire_len(slot_of(indices, values, base, i, indices.len()));
    assert(table.subrange(4 * i, 4 * i + 4) =~= entry) by {
        assert forall|j: int| 0 <= j < 4 implies table.subrange(4 * i, 4 * i + 4)[j]
            == entry[j] by {
            assert(table[4 * i + j] == i32_wire(
                slots(indices, values, base, values.len())[(4 * i + j) / 4],
            )[(4 * i + j) % 4]);
        }
    }
    lemma_table_len_of(indices, values, base);
    assert(bytes.subrange(at + 8 + 4 * i, at + 8 + 4 * i + 4) =~= bytes.subrange(
        at + 8,
        at + 8 + table.len(),
    ).subrange(4 * i, 4 * i + 4));
}

/// The number in the first four bytes of a value that starts with a size or a count.
pub open spec fn head_of(d: Datum) -> int {
    match d {
        Datum::Sequence(items) => items.len() as int,
        _ => size(d) as int,
    }
}

/// A value that starts with a size or a count starts with a number that is
/// not negative.
pub proof fn lemma_head(d: Datum, bytes: Seq<u8>, at: int)
    requires
        starts_with_size(d),
        encodable(d, at),
        holds(bytes, at, wire(d, at)),
    ensures
        0 <= head_of(d) <= i32::MAX,
        i32_in(bytes, at) == Some(head_of(d)),
{
    lemma_wire_len(d, at);
    lemma_i32_wire_len(head_of(d));
    match d {
        Datum::Object(indices, values) => {
            let base = at + header_size(indices);
            lemma_last_index(indices);
            lemma_holds_split(
                bytes,
                at,
                i32_wire(size(d) as int) + i32_wire(last_index(indices)) + table_bytes(
                    slots(indices, values, base, values.len()),
                ),
                wires(values, base, values.len()),
            );
            lemma_holds_split(
                bytes,
                at,
                i32_wire(size(d) as int) + i32_wire(last_index(indices)),
                table_bytes(slots(indices, values, base, values.len())),
            );
            lemma_holds_split(bytes, at, i32_wire(size(d) as int), i32_wire(last_index(indices)));
        },
        Datum::Union(key, x) => {
            lemma_holds_split(
                bytes,
                at,
                i32_wire(size(d) as int) + int_wire(key),
                wire(*x, at + 4 + key.kind().width()),
            );
            lemma_holds_split(bytes, at, i32_wire(size(d) as int), int_wire(key));
        },
        Datum::Sequence(items) => {
            lemma_holds_split(
                bytes,
                at,
                i32_wire(items.len() as int),
                wires(items, at + 4, items.len()),
            );
        },
        _ => {},
    }
    lemma_i32_round_trip(head_of(d), bytes, at);
}

/// A byte that was written is read back.
pub proof fn lemma_flag(flag: u8, bytes: Seq<u8>, at: int)
    requires
        at + 1 <= LIMIT,
        holds(bytes, at, seq![flag]),
    ensures
        unsigned_in(bytes, at, 1) == Some(flag as nat),
{
    reveal_with_fuel(le_value, 2);
}

/// What was written is what is read, for the shapes that hold no other shape.
pub proof fn lemma_round_trip_flat(shape: Shape, d: Datum, bytes: Seq<u8>, at: int)
    requires
        shape is Bool || shape is Int || shape is Str || shape is Instant || shape is Duration,
        conforms(d, shape),
        encodable(d, at),
        holds(bytes, at, wire(d, at)),
    ensures
        parse(shape, bytes, at) == Ok::<(Datum, int), Failure>((d, at + size(d))),
{
    lemma_wire_len(d, at);
    match shape {
        Shape::Bool => {
            lemma_flag(if d->Bool_0 { 1u8 } else { 0u8 }, bytes, at);
        },
        Shape::Int(kind) => {
            lemma_int_round_trip(d->Int_0, bytes, at);
        },
        Shape::Str => {
            let chars = d->Str_0;
            let payload = encode_utf8(chars);
            lemma_le_bytes_len(payload.len(), 4);
            lemma_holds_split(bytes, at, le_bytes(payload.len(), 4), payload);
            lemma_i32_round_trip(payload.len() as int, bytes, at);
            encode_utf8_valid_utf8(chars);
            encode_utf8_decode_utf8(chars);
        },
        Shape::Instant => {
            let t = d->Instant_0;
            lemma_time_in_round_trip(t.seconds as int, t.nanos as int, bytes, at);
        },
        Shape::Duration => {
            let t = d->Duration_0;
            lemma_time_in_round_trip(t.seconds as int, t.nanos as int, bytes, at);
        },
        _ => {},
    }
}

/// What was written is what is read: wherever bytes hold the encoding of a
/// value of `shape`, a reader that expects `shape` finds the value there and
/// ends behind the last byte of the encoding.
pub proof fn lemma_round_trip(shape: Shape, d: Datum, bytes: Seq<u8>, at: int)
    requires
        conforms(d, shape),
        encodable(d, at),
        holds(bytes, at, wire(d, at)),
    ensures
        parse(shape, bytes, at) == Ok::<(Datum, int), Failure>((d, at + size(d))),
    decreases shape, 1nat,
{
    match shape {
        Shape::Bool | Shape::Int(_) | Shape::Str | Shape::Instant | Shape::Duration => {
            lemma_round_trip_flat(shape, d, bytes, at);
        },
        Shape::HasValue(_) => {
            lemma_round_trip_has_value(shape, d, bytes, at);
        },
        Shape::Nullable(_) => {
            lemma_round_trip_nullable(shape, d, bytes, at);
        },
        Shape::Tuple(_, _) => {
            lemma_round_trip_tuple(shape, d, bytes, at);
        },
        Shape::Struct(_) => {
            lemma_round_trip_struct(shape, d, bytes, at);
        },
        Shape::Object(_) => {
            lemma_round_trip_object(shape, d, bytes, at);
        },
        Shape::Union(_, _) => {
            lemma_round_trip_union(shape, d, bytes, at);
        },
        Shape::Sequence(_) => {
            lemma_round_trip_sequence(shape, d, bytes, at);
        },
    }
}

/// What was written is what is read, for a value behind a flag.
pub proof fn lemma_round_trip_has_value(shape: Shape, d: Datum, bytes: Seq<u8>, at: int)
    requires
        shape is HasValue,
        conforms(d, shape),
        encodable(d, at),
        holds(bytes, at, wire(d, at)),
    ensures
        parse(shape, bytes, at) == Ok::<(Datum, int), Failure>((d, at + size(d))),
    decreases shape, 0nat,
{
    lemma_wire_len(d, at);
    let inner = *shape->HasValue_0;
    match d->HasValue_0 {
        None => {
            lemma_flag(0u8, bytes, at);
        },
        Some(x) => {
            lemma_holds_split(bytes, at, seq![1u8], wire(*x, at + 1));
            lemma_flag(1u8, bytes, at);
            lemma_round_trip(inner, *x, bytes, at + 1);
        },
    }
}

/// What was written is what is read, for a composite that may be absent.
pub proof fn lemma_round_trip_nullable(shape: Shape, d: Datum, bytes: Seq<u8>, at: int)
    requires
        shape is Nullable,
        conforms(d, shape),
        encodable(d, at),
        holds(bytes, at, wire(d, at)),
    ensures
        parse(shape, bytes, at) == Ok::<(Datum, int), Failure>((d, at + size(d))),
    decreases shape, 0nat,
{
    lemma_wire_len(d, at);
    let inner = *shape->Nullable_0;
    match d->Nullable_0 {
        None => {
            lemma_i32_round_trip(-1, bytes, at);
        },
        Some(x) => {
            lemma_head(*x, bytes, at);
            lemma_round_trip(inner, *x, bytes, at);
        },
    }
}

/// What was written is what is read, for a pair.
pub proof fn lemma_round_trip_tuple(shape: Shape, d: Datum, bytes: Seq<u8>, at: int)
    requires
        shape is Tuple,
        conforms(d, shape),
        encodable(d, at),
        holds(bytes, at, wire(d, at)),
    ensures
        parse(shape, bytes, at) == Ok::<(Datum, int), Failure>((d, at + size(d))),
    decreases shape, 0nat,
{
    let x = *d->Tuple_0;
    let y = *d->Tuple_1;
    lemma_wire_len(x, at);
    lemma_holds_split(bytes, at, wire(x, at), wire(y, at + size(x)));
    lemma_round_trip(*shape->Tuple_0, x, bytes, at);
    lemma_round_trip(*shape->Tuple_1, y, bytes, at + size(x));
}

/// What was written is what is read, for a struct.
pub proof fn lemma_round_trip_struct(shape: Shape, d: Datum, bytes: Seq<u8>, at: int)
    requires
        shape is Struct,
        conforms(d, shape),
        encodable(d, at),
        holds(bytes, at, wire(d, at)),
    ensures
        parse(shape, bytes, at) == Ok::<(Datum, int), Failure>((d, at + size(d))),
    decreases shape, 0nat,
{
    let fields = shape->Struct_0;
    let values = d->Struct_0;
    assert(decreases_to!(shape => shape->Struct_0));
    lemma_round_trip_each(fields@, values, bytes, at, values.len());
    assert(values.take(values.len() as int) =~= values);
}

/// What was written is what is read, for an object that is read through
/// the schema that wrote it.
pub proof fn lemma_round_trip_object(shape: Shape, d: Datum, bytes: Seq<u8>, at: int)
    requires
        shape is Object,
        conforms(d, shape),
        encodable(d, at),
        holds(bytes, at, wire(d, at)),
    ensures
        parse(shape, bytes, at) == Ok::<(Datum, int), Failure>((d, at + size(d))),
    decreases shape, 0nat,
{
    let fields = shape->Object_0;
    let indices = d->Object_0;
    let values = d->Object_1;
    let seen = seen_through(indices, values, fields@);
    assert(decreases_to!(shape => shape->Object_0));
    assert forall|j: int| 0 <= j < fields@.len() implies (match position(
        indices,
        (#[trigger] fields@[j]).index as int,
        indices.len(),
    ) {
        Some(k) => conforms(values[k], fields@[j].shape),
        None => true,
    }) && seen[j] == values[j] by {
        lemma_position_of_own(indices, j);
    }
    assert(seen =~= values);
    lemma_object_fields(fields@, indices, values, bytes, at, fields@.len());
    lemma_table_entry_head(indices, values, bytes, at);
    assert(seen.take(fields@.len() as int) =~= seen);
}

/// What was written is what is read, for a union.
pub proof fn lemma_round_trip_union(shape: Shape, d: Datum, bytes: Seq<u8>, at: int)
    requires
        shape is Union,
        conforms(d, shape),
        encodable(d, at),
        holds(bytes, at, wire(d, at)),
    ensures
        parse(shape, bytes, at) == Ok::<(Datum, int), Failure>((d, at + size(d))),
    decreases shape, 0nat,
{
    let kind = shape->Union_0;
    let cases = shape->Union_1;
    let key = d->Union_0;
    let x = *d->Union_1;
    let k = case_of(cases@, key, 0)->Some_0;
    let from = at + 4 + kind.width();
    assert(decreases_to!(shape => shape->Union_1));
    lemma_head(d, bytes, at);
    lemma_int_wire_len(key);
    lemma_i32_wire_len(size(d) as int);
    lemma_holds_split(bytes, at, i32_wire(size(d) as int) + int_wire(key), wire(x, from));
    lemma_holds_split(bytes, at, i32_wire(size(d) as int), int_wire(key));
    lemma_int_round_trip(key, bytes, at + 4);
    lemma_round_trip(cases@[k].shape, x, bytes, from);
    assert(parse_case(cases@, k, bytes, from) == parse(cases@[k].shape, bytes, from));
}

/// What was written is what is read, for a sequence.
pub proof fn lemma_round_trip_sequence(shape: Shape, d: Datum, bytes: Seq<u8>, at: int)
    requires
        shape is Sequence,
        conforms(d, shape),
        encodable(d, at),
        holds(bytes, at, wire(d, at)),
    ensures
        parse(shape, bytes, at) == Ok::<(Datum, int), Failure>((d, at + size(d))),
    decreases shape, 0nat,
{
    let items = d->Sequence_0;
    lemma_head(d, bytes, at);
    lemma_i32_wire_len(items.len() as int);
    lemma_holds_split(bytes, at, i32_wire(items.len() as int), wires(items, at + 4, items.len()));
    lemma_round_trip_run(*shape->Sequence_0, items, bytes, at + 4, items.len());
    assert(items.take(items.len() as int) =~= items);
}

/// The fields of a struct that were written one behind the other are read back.
pub proof fn lemma_round_trip_each(
    shapes: Seq<Shape>,
    values: Seq<Datum>,
    bytes: Seq<u8>,
    at: int,
    k: nat,
)
    requires
        values.len() == shapes.len(),
        k <= values.len(),
        forall|j: int| 0 <= j < shapes.len() ==> conforms(#[trigger] values[j], shapes[j]),
        all_valid(values),
        0 <= at,
        at + sizes(values, values.len()) <= LIMIT,
        holds(bytes, at, wires(values, at, values.len())),
    ensures
        parse_each(shapes, bytes, at, k) == Ok::<(Seq<Datum>, int), Failure>(
            (values.take(k as int), at + sizes(values, k)),
        ),
    decreases shapes, k,
{
    if k == 0 {
        assert(values.take(0) =~= Seq::<Datum>::empty());
    } else {
        lemma_round_trip_each(shapes, values, bytes, at, (k - 1) as nat);
        lemma_holds_item(bytes, values, at, values.len(), k - 1);
        lemma_sizes_grow(values, k, values.len());
        assert(valid(values[k - 1]));
        lemma_round_trip(shapes[k - 1], values[k - 1], bytes, at + sizes(values, (k - 1) as nat));
        assert(values.take(k as int) =~= values.take(k - 1).push(values[k - 1]));
    }
}

/// The elements of a sequence that were written one behind the other are read back.
pub proof fn lemma_round_trip_run(shape: Shape, items: Seq<Datum>, bytes: Seq<u8>, at: int, k: nat)
    requires
        k <= items.len(),
        forall|j: int| 0 <= j < items.len() ==> conforms(#[trigger] items[j], shape),
        all_valid(items),
        0 <= at,
        at + sizes(items, items.len()) <= LIMIT,
        holds(bytes, at, wires(items, at, items.len())),
    ensures
        parse_run(shape, bytes, at, k) == Ok::<(Seq<Datum>, int), Failure>(
            (items.take(k as int), at + sizes(items, k)),
        ),
    decreases shape, 2 + k,
{
    if k == 0 {
        assert(items.take(0) =~= Seq::<Datum>::empty());
    } else {
        lemma_round_trip_run(shape, items, bytes, at, (k - 1) as nat);
        lemma_holds_item(bytes, items, at, items.len(), k - 1);
        lemma_sizes_grow(items, k, items.len());
        assert(valid(items[k - 1]));
        lemma_round_trip(shape, items[k - 1], bytes, at + sizes(items, (k - 1) as nat));
        assert(items.take(k as int) =~= items.take(k - 1).push(items[k - 1]));
    }
}

/// The head of an object that was written: its size and its last index are read back.
pub proof fn lemma_table_entry_head(indices: Seq<int>, values: Seq<Datum>, bytes: Seq<u8>, at: int)
    requires
        encodable(Datum::Object(indices, values), at),
        holds(bytes, at, wire(Datum::Object(indices, values), at)),
    ensures
        i32_in(bytes, at) == Some(size(Datum::Object(indices, values)) as int),
        i32_in(bytes, at + 4) == Some(last_index(indices)),
        -1 <= last_index(indices) <= i32::MAX,
{
    let d = Datum::Object(indices, values);
    lemma_head(d, bytes, at);
    lemma_last_index(indices);
    let base = at + header_size(indices);
    lemma_i32_wire_len(size(d) as int);
    lemma_holds_split(
        bytes,
        at,
        i32_wire(size(d) as int) + i32_wire(last_index(indices)) + table_bytes(
            slots(indices, values, base, values.len()),
        ),
        wires(values, base, values.len()),
    );
    lemma_holds_split(
        bytes,
        at,
        i32_wire(size(d) as int) + i32_wire(last_index(indices)),
        table_bytes(slots(indices, values, base, values.len())),
    );
    lemma_holds_split(bytes, at, i32_wire(size(d) as int), i32_wire(last_index(indices)));
    lemma_i32_round_trip(last_index(indices), bytes, at + 4);
}

/// The fields that a reader with `schema` finds in an object that was
/// written with `indices` and `values`.
pub proof fn lemma_object_fields(
    schema: Seq<FieldShape>,
    indices: Seq<int>,
    values: Seq<Datum>,
    bytes: Seq<u8>,
    at: int,
    k: nat,
)
    requires
        k <= schema.len(),
        encodable(Datum::Object(indices, values), at),
        holds(bytes, at, wire(Datum::Object(indices, values), at)),
        agrees(indices, values, schema),
    ensures
        parse_fields(schema, bytes, at, last_index(indices), k) == Ok::<Seq<Datum>, Failure>(
            seen_through(indices, values, schema).take(k as int),
        ),
    decreases schema, k,
{
    let seen = seen_through(indices, values, schema);
    if k == 0 {
        assert(seen.take(0) =~= Seq::<Datum>::empty());
    } else {
        lemma_object_fields(schema, indices, values, bytes, at, (k - 1) as nat);
        let field = schema[k - 1];
        let i = field.index as int;
        let last = last_index(indices);
        let d = Datum::Object(indices, values);
        let base = at + header_size(indices);
        lemma_last_index(indices);
        lemma_position(indices, i, indices.len());
        lemma_slot_of(indices, values, base, i, indices.len());
        lemma_wire_len(d, at);
        if 0 <= i <= last {
            let slot = slot_of(indices, values, base, i, indices.len());
            lemma_table_entry(indices, values, bytes, at, i);
            match position(indices, i, indices.len()) {
                None => {
                    lemma_i32_round_trip(0, bytes, at + 8 + 4 * i);
                },
                Some(p) => {
                    lemma_sizes_grow(values, (p + 1) as nat, values.len());
                    lemma_sizes_grow(values, p as nat, (p + 1) as nat);
                    lemma_i32_round_trip(slot, bytes, at + 8 + 4 * i);
                    lemma_holds_item(bytes, values, base, values.len(), p);
                    assert(all_valid(values));
                    assert(valid(values[p]));
                    lemma_round_trip(field.shape, values[p], bytes, slot);
                },
            }
        }
        assert(parse_field(field, bytes, at, last) == Ok::<Datum, Failure>(seen[k - 1]));
        assert(seen.take(k as int) =~= seen.take(k - 1).push(seen[k - 1]));
    }
}

} // verus!
