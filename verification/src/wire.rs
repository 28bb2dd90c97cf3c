//! The bytes of every value: how many they are, and which.

use vstd::prelude::*;
use vstd::utf8::encode_utf8;
use crate::buffer::LIMIT;
use crate::endian::{le_bytes, lemma_le_bytes_len, unsigned};
use crate::primitive::string_wire;
use crate::schema::Int;
use crate::sequence::absent_wire;
use crate::time::time_wire;
use crate::value::Datum;

verus! {

/// The bytes of an integer: its two's complement in the width of its kind.
pub open spec fn int_wire(i: Int) -> Seq<u8> {
    le_bytes(unsigned(i.value(), i.kind().width()), i.kind().width())
}

/// The bytes of a signed 32-bit number.
pub open spec fn i32_wire(v: int) -> Seq<u8> {
    le_bytes(unsigned(v, 4), 4)
}

/// The largest of `indices`, and -1 where there is none.
pub open spec fn last_index(indices: Seq<int>) -> int
    decreases indices.len(),
{
    if indices.len() == 0 {
        -1
    } else {
        let rest = last_index(indices.drop_last());
        if indices.last() > rest {
            indices.last()
        } else {
            rest
        }
    }
}

/// The number of bytes that an object with these indices has in front of
/// its fields: its size, its last index, and one table entry for each index
/// up to the last.
pub open spec fn header_size(indices: Seq<int>) -> int {
    8 + 4 * (last_index(indices) + 1)
}

/// Whether the first four bytes of `d` are a size or a count. Such a value
/// is never negative there, so -1 in its place can stand for its absence:
/// where it may be absent, it goes behind `Nullable`. Every other value that
/// may be absent goes behind the flag of `HasValue`.
pub open spec fn starts_with_size(d: Datum) -> bool {
    d is Object || d is Union || d is Sequence
}

/// Whether no index is negative and none occurs twice.
pub open spec fn distinct_indices(indices: Seq<int>) -> bool {
    &&& forall|k: int| 0 <= k < indices.len() ==> 0 <= #[trigger] indices[k] <= i32::MAX
    &&& forall|a: int, b: int|
        0 <= a < b < indices.len() ==> #[trigger] indices[a] != #[trigger] indices[b]
}

/// Whether `d` has an encoding, wherever there is room for it: its times
/// are in range, what may be absent stands behind the mark that its form
/// asks for, the indices of an object are not negative and all different,
/// and a sequence has no more elements than a signed 32-bit count can tell.
pub open spec fn valid(d: Datum) -> bool
    decreases d,
{
    match d {
        Datum::Bool(_) | Datum::Int(_) | Datum::Str(_) => true,
        Datum::Instant(t) => t.valid(),
        Datum::Duration(t) => t.valid(),
        Datum::HasValue(None) | Datum::Nullable(None) => true,
        Datum::HasValue(Some(x)) => !starts_with_size(*x) && valid(*x),
        Datum::Nullable(Some(x)) => starts_with_size(*x) && valid(*x),
        Datum::Tuple(a, b) => valid(*a) && valid(*b),
        Datum::Struct(fields) => all_valid(fields),
        Datum::Object(indices, fields) => {
            &&& indices.len() == fields.len()
            &&& distinct_indices(indices)
            &&& all_valid(fields)
        },
        Datum::Union(_, x) => valid(*x),
        Datum::Sequence(items) => items.len() <= i32::MAX && all_valid(items),
    }
}

/// Whether each of `items` has an encoding.
pub open spec fn all_valid(items: Seq<Datum>) -> bool
    decreases items,
{
    forall|k: int| 0 <= k < items.len() ==> valid(#[trigger] items[k])
}

/// The number of bytes of `d`.
pub open spec fn size(d: Datum) -> nat
    decreases d, 0nat,
{
    match d {
        Datum::Bool(_) => 1,
        Datum::Int(i) => i.kind().width(),
        Datum::Str(s) => 4 + encode_utf8(s).len(),
        Datum::Instant(_) | Datum::Duration(_) => 12,
        Datum::HasValue(None) => 1,
        Datum::HasValue(Some(x)) => 1 + size(*x),
        Datum::Nullable(None) => 4,
        Datum::Nullable(Some(x)) => size(*x),
        Datum::Tuple(a, b) => size(*a) + size(*b),
        Datum::Struct(fields) => sizes(fields, fields.len()),
        Datum::Object(indices, fields) => (header_size(indices) + sizes(
            fields,
            fields.len(),
        )) as nat,
        Datum::Union(key, x) => 4 + key.kind().width() + size(*x),
        Datum::Sequence(items) => 4 + sizes(items, items.len()),
    }
}

/// The number of bytes of the first `k` of `items`.
pub open spec fn sizes(items: Seq<Datum>, k: nat) -> nat
    decreases items, k,
{
    if k == 0 || k > items.len() {
        0
    } else {
        sizes(items, (k - 1) as nat) + size(items[k - 1])
    }
}

/// The table entry for index `i` after the first `k` fields have been
/// written from `base` on: the offset of the field with that index, and 0
/// where no field has it.
pub open spec fn slot_of(indices: Seq<int>, fields: Seq<Datum>, base: int, i: int, k: nat) -> int
    decreases k,
{
    if k == 0 || k > indices.len() {
        0
    } else if indices[k - 1] == i {
        base + sizes(fields, (k - 1) as nat)
    } else {
        slot_of(indices, fields, base, i, (k - 1) as nat)
    }
}

/// The bytes of a table with these entries.
pub open spec fn table_bytes(slots: Seq<int>) -> Seq<u8> {
    Seq::new(4 * slots.len(), |j: int| i32_wire(slots[j / 4])[j % 4])
}

/// The table entries of an object whose first `k` fields have been written from `base` on.
pub open spec fn slots(indices: Seq<int>, fields: Seq<Datum>, base: int, k: nat) -> Seq<int> {
    Seq::new(
        (last_index(indices) + 1) as nat,
        |i: int| slot_of(indices, fields, base, i, k),
    )
}

/// The bytes of `d` when it is written at offset `at`. Only the offset
/// tables of objects depend on `at`: their entries are absolute.
pub open spec fn wire(d: Datum, at: int) -> Seq<u8>
    decreases d, 0nat,
{
    match d {
        Datum::Bool(b) => seq![if b { 1u8 } else { 0u8 }],
        Datum::Int(i) => int_wire(i),
        Datum::Str(s) => string_wire(s),
        Datum::Instant(t) => time_wire(t.seconds as int, t.nanos as int),
        Datum::Duration(t) => time_wire(t.seconds as int, t.nanos as int),
        Datum::HasValue(None) => seq![0u8],
        Datum::HasValue(Some(x)) => seq![1u8] + wire(*x, at + 1),
        Datum::Nullable(None) => absent_wire(),
        Datum::Nullable(Some(x)) => wire(*x, at),
        Datum::Tuple(a, b) => wire(*a, at) + wire(*b, at + size(*a)),
        Datum::Struct(fields) => wires(fields, at, fields.len()),
        Datum::Object(indices, fields) => {
            let base = at + header_size(indices);
            i32_wire(size(d) as int) + i32_wire(last_index(indices)) + table_bytes(
                slots(indices, fields, base, fields.len()),
            ) + wires(fields, base, fields.len())
        },
        Datum::Union(key, x) => i32_wire(size(d) as int) + int_wire(key) + wire(
            *x,
            at + 4 + key.kind().width(),
        ),
        Datum::Sequence(items) => i32_wire(items.len() as int) + wires(
            items,
            at + 4,
            items.len(),
        ),
    }
}

/// The bytes of the first `k` of `items`, written one behind the other from `at`.
pub open spec fn wires(items: Seq<Datum>, at: int, k: nat) -> Seq<u8>
    decreases items, k,
{
    if k == 0 || k > items.len() {
        Seq::empty()
    } else {
        wires(items, at, (k - 1) as nat) + wire(items[k - 1], at + sizes(items, (k - 1) as nat))
    }
}

/// Whether `d` can be written at `at`: it has an encoding, and the encoding
/// ends within what the format can address.
pub open spec fn encodable(d: Datum, at: int) -> bool {
    valid(d) && 0 <= at && at + size(d) <= LIMIT
}

/// The last index is at least -1 and no index is beyond it.
pub proof fn lemma_last_index(indices: Seq<int>)
    ensures
        last_index(indices) >= -1,
        forall|k: int| 0 <= k < indices.len() ==> #[trigger] indices[k] <= last_index(indices),
    decreases indices.len(),
{
    if indices.len() > 0 {
        let rest = indices.drop_last();
        lemma_last_index(rest);
        assert forall|k: int| 0 <= k < indices.len() implies #[trigger] indices[k] <= last_index(
            indices,
        ) by {
            if k < rest.len() {
                assert(rest[k] == indices[k]);
            }
        }
    }
}

/// The last index of one more index.
pub proof fn lemma_last_index_push(indices: Seq<int>, i: int)
    ensures
        last_index(indices.push(i)) == (if i > last_index(indices) {
            i
        } else {
            last_index(indices)
        }),
{
    assert(indices.push(i).drop_last() =~= indices);
}

/// Sizes of longer runs are larger.
pub proof fn lemma_sizes_grow(items: Seq<Datum>, k: nat, n: nat)
    requires
        k <= n <= items.len(),
    ensures
        sizes(items, k) <= sizes(items, n),
    decreases n,
{
    if k < n {
        lemma_sizes_grow(items, k, (n - 1) as nat);
    }
}

/// An integer has as many bytes as its kind says.
pub proof fn lemma_int_wire_len(i: Int)
    ensures
        int_wire(i).len() == i.kind().width(),
{
    lemma_le_bytes_len(unsigned(i.value(), i.kind().width()), i.kind().width());
}

/// The bytes of a value are as many as its size says, wherever it is written.
pub proof fn lemma_wire_len(d: Datum, at: int)
    ensures
        wire(d, at).len() == size(d),
    decreases d, 0nat,
{
    lemma_le_bytes_len(unsigned(-1, 4), 4);
    match d {
        Datum::Bool(_) => {},
        Datum::Int(i) => {
            lemma_int_wire_len(i);
        },
        Datum::Str(s) => {
            lemma_le_bytes_len(encode_utf8(s).len(), 4);
        },
        Datum::Instant(t) => {
            lemma_le_bytes_len(unsigned(t.seconds as int, 8), 8);
            lemma_le_bytes_len(unsigned(t.nanos as int, 4), 4);
        },
        Datum::Duration(t) => {
            lemma_le_bytes_len(unsigned(t.seconds as int, 8), 8);
            lemma_le_bytes_len(unsigned(t.nanos as int, 4), 4);
        },
        Datum::HasValue(None) => {},
        Datum::HasValue(Some(x)) => {
            lemma_wire_len(*x, at + 1);
        },
        Datum::Nullable(None) => {},
        Datum::Nullable(Some(x)) => {
            lemma_wire_len(*x, at);
        },
        Datum::Tuple(a, b) => {
            lemma_wire_len(*a, at);
            lemma_wire_len(*b, at + size(*a));
        },
        Datum::Struct(fields) => {
            lemma_wires_len(fields, at, fields.len());
        },
        Datum::Object(indices, fields) => {
            lemma_last_index(indices);
            lemma_le_bytes_len(unsigned(size(d) as int, 4), 4);
            lemma_le_bytes_len(unsigned(last_index(indices), 4), 4);
            lemma_wires_len(fields, at + header_size(indices), fields.len());
        },
        Datum::Union(key, x) => {
            lemma_le_bytes_len(unsigned(size(d) as int, 4), 4);
            lemma_int_wire_len(key);
            lemma_wire_len(*x, at + 4 + key.kind().width());
        },
        Datum::Sequence(items) => {
            lemma_le_bytes_len(unsigned(items.len() as int, 4), 4);
            lemma_wires_len(items, at + 4, items.len());
        },
    }
}

/// The bytes of a run are as many as its sizes say.
pub proof fn lemma_wires_len(items: Seq<Datum>, at: int, k: nat)
    ensures
        wires(items, at, k).len() == sizes(items, k),
    decreases items, k,
{
    if k == 0 || k > items.len() {
    } else {
        lemma_wires_len(items, at, (k - 1) as nat);
        lemma_wire_len(items[k - 1], at + sizes(items, (k - 1) as nat));
    }
}

} // verus!
