//! The codecs of the types that tell their shape are the codec of values:
//! they write the same bytes and read the same values.

use vstd::prelude::*;
use crate::buffer::{Buffer, LIMIT};
use crate::codec::encoding_of;
use crate::conform::conforms;
use crate::endian::{lemma_le_value_bound, lemma_radix_values};
use crate::error::Failure;
use crate::formatter::Formatter;
use crate::has_value::HasValue;
use crate::parse::{i32_in, parse, parse_run, unsigned_in};
use crate::sequence::{run_decoding, run_encoding, sequence_encoding};
use crate::schema::{Int, IntKind, Shape};
use crate::time::{Duration, Instant};
use crate::value::Datum;
use crate::wire::{
    all_valid, lemma_wire_len, lemma_wires_len, size, sizes, starts_with_size, valid, wires,
};

verus! {

/// Whether a typed encoding and the encoding of a value come to the same:
/// both fail, or both give the same bytes.
pub open spec fn same_encoding(
    typed: Result<Seq<u8>, Failure>,
    untyped: Result<Seq<u8>, Failure>,
) -> bool {
    match (typed, untyped) {
        (Ok(a), Ok(b)) => a == b,
        (Err(_), Err(_)) => true,
        _ => false,
    }
}

/// A type whose values are values of one shape, written and read as such.
pub trait AsValue: DeepView + Sized where Buffer: Formatter<Self> {
    /// The shape of the values of the type.
    spec fn shape_of() -> Shape;

    /// What a value of the type is to the codec of values.
    spec fn datum_of(v: Self::V) -> Datum;

    /// A value of the type is a value of its shape. It can be written
    /// exactly where the value that it is can be written, and with the same
    /// bytes.
    proof fn same_bytes(v: Self::V, offset: u64)
        ensures
            conforms(Self::datum_of(v), Self::shape_of()),
            same_encoding(
                <Buffer as Formatter<Self>>::encoding(v, offset),
                encoding_of(Self::datum_of(v), offset),
            ),
    ;

    /// A reader of the type finds what a reader of its shape finds, and
    /// fails where that one fails, for the same reason.
    proof fn same_reading(bytes: Seq<u8>, offset: u64)
        ensures
            match <Buffer as Formatter<Self>>::decoding(bytes, offset) {
                Ok((v, next)) => parse(Self::shape_of(), bytes, offset as int) == Ok::<
                    (Datum, int),
                    Failure,
                >((Self::datum_of(v), next as int)),
                Err(f) => parse(Self::shape_of(), bytes, offset as int) == Err::<
                    (Datum, int),
                    Failure,
                >(f),
            },
    ;
}

impl AsValue for bool {
    open spec fn shape_of() -> Shape {
        Shape::Bool
    }

    open spec fn datum_of(v: bool) -> Datum {
        Datum::Bool(v)
    }

    proof fn same_bytes(v: bool, offset: u64) {
    }

    proof fn same_reading(bytes: Seq<u8>, offset: u64) {
    }
}

impl AsValue for u8 {
    open spec fn shape_of() -> Shape {
        Shape::Int(IntKind::U8)
    }

    open spec fn datum_of(v: u8) -> Datum {
        Datum::Int(Int::U8(v))
    }

    proof fn same_bytes(v: u8, offset: u64) {
        lemma_radix_values();
        lemma_wire_len(Datum::Int(Int::U8(v)), offset as int);
    }

    proof fn same_reading(bytes: Seq<u8>, offset: u64) {
        lemma_radix_values();
        if unsigned_in(bytes, offset as int, 1) is Some {
            lemma_le_value_bound(bytes.subrange(offset as int, offset + 1));
        }
    }
}

impl AsValue for u16 {
    open spec fn shape_of() -> Shape {
        Shape::Int(IntKind::U16)
    }

    open spec fn datum_of(v: u16) -> Datum {
        Datum::Int(Int::U16(v))
    }

    proof fn same_bytes(v: u16, offset: u64) {
        lemma_radix_values();
        lemma_wire_len(Datum::Int(Int::U16(v)), offset as int);
    }

    proof fn same_reading(bytes: Seq<u8>, offset: u64) {
        lemma_radix_values();
        if unsigned_in(bytes, offset as int, 2) is Some {
            lemma_le_value_bound(bytes.subrange(offset as int, offset + 2));
        }
    }
}

impl AsValue for u32 {
    open spec fn shape_of() -> Shape {
        Shape::Int(IntKind::U32)
    }

    open spec fn datum_of(v: u32) -> Datum {
        Datum::Int(Int::U32(v))
    }

    proof fn same_bytes(v: u32, offset: u64) {
        lemma_radix_values();
        lemma_wire_len(Datum::Int(Int::U32(v)), offset as int);
    }

    proof fn same_reading(bytes: Seq<u8>, offset: u64) {
        lemma_radix_values();
        if unsigned_in(bytes, offset as int, 4) is Some {
            lemma_le_value_bound(bytes.subrange(offset as int, offset + 4));
        }
    }
}

impl AsValue for u64 {
    open spec fn shape_of() -> Shape {
        Shape::Int(IntKind::U64)
    }

    open spec fn datum_of(v: u64) -> Datum {
        Datum::Int(Int::U64(v))
    }

    proof fn same_bytes(v: u64, offset: u64) {
        lemma_radix_values();
        lemma_wire_len(Datum::Int(Int::U64(v)), offset as int);
    }

    proof fn same_reading(bytes: Seq<u8>, offset: u64) {
        lemma_radix_values();
        if unsigned_in(bytes, offset as int, 8) is Some {
            lemma_le_value_bound(bytes.subrange(offset as int, offset + 8));
        }
    }
}

impl AsValue for i8 {
    open spec fn shape_of() -> Shape {
        Shape::Int(IntKind::I8)
    }

    open spec fn datum_of(v: i8) -> Datum {
        Datum::Int(Int::I8(v))
    }

    proof fn same_bytes(v: i8, offset: u64) {
        lemma_radix_values();
        lemma_wire_len(Datum::Int(Int::I8(v)), offset as int);
    }

    proof fn same_reading(bytes: Seq<u8>, offset: u64) {
        lemma_radix_values();
        if unsigned_in(bytes, offset as int, 1) is Some {
            lemma_le_value_bound(bytes.subrange(offset as int, offset + 1));
        }
    }
}

impl AsValue for i16 {
    open spec fn shape_of() -> Shape {
        Shape::Int(IntKind::I16)
    }

    open spec fn datum_of(v: i16) -> Datum {
        Datum::Int(Int::I16(v))
    }

    proof fn same_bytes(v: i16, offset: u64) {
        lemma_radix_values();
        lemma_wire_len(Datum::Int(Int::I16(v)), offset as int);
    }

    proof fn same_reading(bytes: Seq<u8>, offset: u64) {
        lemma_radix_values();
        if unsigned_in(bytes, offset as int, 2) is Some {
            lemma_le_value_bound(bytes.subrange(offset as int, offset + 2));
        }
    }
}

impl AsValue for i32 {
    open spec fn shape_of() -> Shape {
        Shape::Int(IntKind::I32)
    }

    open spec fn datum_of(v: i32) -> Datum {
        Datum::Int(Int::I32(v))
    }

    proof fn same_bytes(v: i32, offset: u64) {
        lemma_radix_values();
        lemma_wire_len(Datum::Int(Int::I32(v)), offset as int);
    }

    proof fn same_reading(bytes: Seq<u8>, offset: u64) {
        lemma_radix_values();
        if unsigned_in(bytes, offset as int, 4) is Some {
            lemma_le_value_bound(bytes.subrange(offset as int, offset + 4));
        }
    }
}

impl AsValue for i64 {
    open spec fn shape_of() -> Shape {
        Shape::Int(IntKind::I64)
    }

    open spec fn datum_of(v: i64) -> Datum {
        Datum::Int(Int::I64(v))
    }

    proof fn same_bytes(v: i64, offset: u64) {
        lemma_radix_values();
        lemma_wire_len(Datum::Int(Int::I64(v)), offset as int);
    }

    proof fn same_reading(bytes: Seq<u8>, offset: u64) {
        lemma_radix_values();
        if unsigned_in(bytes, offset as int, 8) is Some {
            lemma_le_value_bound(bytes.subrange(offset as int, offset + 8));
        }
    }
}

impl AsValue for String {
    open spec fn shape_of() -> Shape {
        Shape::Str
    }

    open spec fn datum_of(v: Seq<char>) -> Datum {
        Datum::Str(v)
    }

    proof fn same_bytes(v: Seq<char>, offset: u64) {
        lemma_wire_len(Datum::Str(v), offset as int);
    }

    proof fn same_reading(bytes: Seq<u8>, offset: u64) {
        lemma_radix_values();
        if unsigned_in(bytes, offset as int, 4) is Some {
            lemma_le_value_bound(bytes.subrange(offset as int, offset + 4));
        }
    }
}

impl AsValue for Instant {
    open spec fn shape_of() -> Shape {
        Shape::Instant
    }

    open spec fn datum_of(v: Instant) -> Datum {
        Datum::Instant(v)
    }

    proof fn same_bytes(v: Instant, offset: u64) {
        lemma_wire_len(Datum::Instant(v), offset as int);
    }

    proof fn same_reading(bytes: Seq<u8>, offset: u64) {
        lemma_radix_values();
        if unsigned_in(bytes, offset as int, 8) is Some {
            lemma_le_value_bound(bytes.subrange(offset as int, offset + 8));
        }
        if unsigned_in(bytes, offset + 8, 4) is Some {
            lemma_le_value_bound(bytes.subrange(offset + 8, offset + 12));
        }
    }
}

impl AsValue for Duration {
    open spec fn shape_of() -> Shape {
        Shape::Duration
    }

    open spec fn datum_of(v: Duration) -> Datum {
        Datum::Duration(v)
    }

    proof fn same_bytes(v: Duration, offset: u64) {
        lemma_wire_len(Datum::Duration(v), offset as int);
    }

    proof fn same_reading(bytes: Seq<u8>, offset: u64) {
        lemma_radix_values();
        if unsigned_in(bytes, offset as int, 8) is Some {
            lemma_le_value_bound(bytes.subrange(offset as int, offset + 8));
        }
        if unsigned_in(bytes, offset + 8, 4) is Some {
            lemma_le_value_bound(bytes.subrange(offset + 8, offset + 12));
        }
    }
}

/// A value of a shape begins with a size or a count where the shape says so.
pub proof fn lemma_conforms_kind(d: Datum, shape: Shape)
    requires
        conforms(d, shape),
    ensures
        starts_with_size(d) == shape.starts_with_size(),
{
}

impl<A1: AsValue, A2: AsValue> AsValue for (A1, A2) where Buffer: Formatter<A1> + Formatter<A2> {
    open spec fn shape_of() -> Shape {
        Shape::Tuple(Box::new(A1::shape_of()), Box::new(A2::shape_of()))
    }

    open spec fn datum_of(v: (A1::V, A2::V)) -> Datum {
        Datum::Tuple(Box::new(A1::datum_of(v.0)), Box::new(A2::datum_of(v.1)))
    }

    proof fn same_bytes(v: (A1::V, A2::V), offset: u64) {
        let a = A1::datum_of(v.0);
        let b = A2::datum_of(v.1);
        A1::same_bytes(v.0, offset);
        lemma_wire_len(a, offset as int);
        lemma_wire_len(b, offset + size(a));
        if offset + size(a) <= LIMIT {
            A2::same_bytes(v.1, (offset + size(a)) as u64);
        } else {
            A2::same_bytes(v.1, offset);
        }
    }

    proof fn same_reading(bytes: Seq<u8>, offset: u64) {
        A1::same_reading(bytes, offset);
        match <Buffer as Formatter<A1>>::decoding(bytes, offset) {
            Ok((_, mid)) => {
                A2::same_reading(bytes, mid);
            },
            Err(_) => {},
        }
    }
}

/// The types whose optional form carries the one-byte flag have shapes
/// that do not begin with a size or a count.
pub trait Flagged: AsValue + HasValue where Buffer: Formatter<Self> {
    proof fn not_sized()
        ensures
            !Self::shape_of().starts_with_size(),
    ;
}

impl Flagged for bool {
    proof fn not_sized() {
    }
}

impl Flagged for u8 {
    proof fn not_sized() {
    }
}

impl Flagged for u16 {
    proof fn not_sized() {
    }
}

impl Flagged for u32 {
    proof fn not_sized() {
    }
}

impl Flagged for u64 {
    proof fn not_sized() {
    }
}

impl Flagged for i8 {
    proof fn not_sized() {
    }
}

impl Flagged for i16 {
    proof fn not_sized() {
    }
}

impl Flagged for i32 {
    proof fn not_sized() {
    }
}

impl Flagged for i64 {
    proof fn not_sized() {
    }
}

impl Flagged for Instant {
    proof fn not_sized() {
    }
}

impl Flagged for Duration {
    proof fn not_sized() {
    }
}

impl<A1: AsValue, A2: AsValue> Flagged for (A1, A2) where Buffer: Formatter<A1> + Formatter<A2> {
    proof fn not_sized() {
    }
}

impl<T: Flagged> AsValue for Option<T> where Buffer: Formatter<T> {
    open spec fn shape_of() -> Shape {
        Shape::HasValue(Box::new(T::shape_of()))
    }

    open spec fn datum_of(v: Option<T::V>) -> Datum {
        match v {
            None => Datum::HasValue(None),
            Some(x) => Datum::HasValue(Some(Box::new(T::datum_of(x)))),
        }
    }

    proof fn same_bytes(v: Option<T::V>, offset: u64) {
        T::not_sized();
        match v {
            None => {},
            Some(x) => {
                lemma_wire_len(T::datum_of(x), offset + 1);
                if offset < LIMIT {
                    T::same_bytes(x, (offset + 1) as u64);
                } else {
                    T::same_bytes(x, offset);
                }
                lemma_conforms_kind(T::datum_of(x), T::shape_of());
            },
        }
    }

    proof fn same_reading(bytes: Seq<u8>, offset: u64) {
        match <Buffer as Formatter<bool>>::decoding(bytes, offset) {
            Ok((_, next)) => {
                T::same_reading(bytes, next);
            },
            Err(_) => {},
        }
    }
}

/// What each of `items` is to the codec of values.
pub open spec fn data_of<A: AsValue>(items: Seq<A::V>) -> Seq<Datum> where Buffer: Formatter<A> {
    Seq::new(items.len(), |k: int| A::datum_of(items[k]))
}

/// A run of typed items can be written exactly where the values that they
/// are can be written, and with the same bytes.
pub proof fn lemma_same_run_bytes<A: AsValue>(items: Seq<A::V>, offset: u64, k: nat) where
    Buffer: Formatter<A>,

    requires
        k <= items.len(),
        offset <= LIMIT,
    ensures
        match run_encoding::<A>(items, offset, k) {
            Ok(bytes) => {
                &&& bytes == wires(data_of::<A>(items), offset as int, k)
                &&& offset + sizes(data_of::<A>(items), k) <= LIMIT
                &&& forall|j: int| 0 <= j < k ==> valid(#[trigger] data_of::<A>(items)[j])
            },
            Err(_) => !(forall|j: int| 0 <= j < k ==> valid(#[trigger] data_of::<A>(items)[j]))
                || offset + sizes(data_of::<A>(items), k) > LIMIT,
        },
    decreases k,
{
    let data = data_of::<A>(items);
    if k > 0 {
        lemma_same_run_bytes::<A>(items, offset, (k - 1) as nat);
        lemma_wires_len(data, offset as int, (k - 1) as nat);
        lemma_wire_len(data[k - 1], offset + sizes(data, (k - 1) as nat));
        match run_encoding::<A>(items, offset, (k - 1) as nat) {
            Ok(before) => {
                A::same_bytes(items[k - 1], (offset + before.len()) as u64);
                match <Buffer as Formatter<A>>::encoding(
                    items[k - 1],
                    (offset + before.len()) as u64,
                ) {
                    Ok(_) => {},
                    Err(_) => {
                        if valid(data[k - 1]) {
                        } else {
                            assert(!(forall|j: int| 0 <= j < k ==> valid(#[trigger] data[j])));
                        }
                    },
                }
            },
            Err(_) => {
                if !(forall|j: int| 0 <= j < k - 1 ==> valid(#[trigger] data[j])) {
                    assert(!(forall|j: int| 0 <= j < k ==> valid(#[trigger] data[j])));
                }
            },
        }
    }
}

/// A reader of a run of typed items finds what a reader of their shape finds.
pub proof fn lemma_same_run_reading<A: AsValue>(bytes: Seq<u8>, offset: u64, k: nat) where
    Buffer: Formatter<A>,

    ensures
        match run_decoding::<A>(bytes, offset, k) {
            Ok((items, next)) => parse_run(A::shape_of(), bytes, offset as int, k) == Ok::<
                (Seq<Datum>, int),
                Failure,
            >((data_of::<A>(items), next as int)) && items.len() == k,
            Err(f) => parse_run(A::shape_of(), bytes, offset as int, k) == Err::<
                (Seq<Datum>, int),
                Failure,
            >(f),
        },
    decreases k,
{
    if k == 0 {
        assert(data_of::<A>(Seq::<A::V>::empty()) =~= Seq::<Datum>::empty());
    } else {
        lemma_same_run_reading::<A>(bytes, offset, (k - 1) as nat);
        match run_decoding::<A>(bytes, offset, (k - 1) as nat) {
            Ok((items, mid)) => {
                A::same_reading(bytes, mid);
                match <Buffer as Formatter<A>>::decoding(bytes, mid) {
                    Ok((item, _)) => {
                        assert(data_of::<A>(items.push(item)) =~= data_of::<A>(items).push(
                            A::datum_of(item),
                        ));
                    },
                    Err(_) => {},
                }
            },
            Err(_) => {},
        }
    }
}

/// A typed sequence can be written exactly where the sequence of values
/// that it is can be written, and with the same bytes.
pub proof fn lemma_same_sequence_bytes<A: AsValue>(items: Seq<A::V>, offset: u64) where
    Buffer: Formatter<A>,

    ensures
        conforms(Datum::Sequence(data_of::<A>(items)), Shape::Sequence(Box::new(A::shape_of()))),
        same_encoding(
            sequence_encoding::<A>(items, offset),
            encoding_of(Datum::Sequence(data_of::<A>(items)), offset),
        ),
{
    let data = data_of::<A>(items);
    let d = Datum::Sequence(data);
    assert forall|k: int| 0 <= k < data.len() implies conforms(
        #[trigger] data[k],
        A::shape_of(),
    ) by {
        A::same_bytes(items[k], 0);
    }
    lemma_wire_len(d, offset as int);
    if items.len() <= i32::MAX && offset <= LIMIT - 4 {
        lemma_same_run_bytes::<A>(items, (offset + 4) as u64, items.len());
        assert(all_valid(data) == (forall|j: int|
            0 <= j < items.len() ==> valid(#[trigger] data[j])));
    }
}

impl<A: AsValue> AsValue for Vec<A> where Buffer: Formatter<A> {
    open spec fn shape_of() -> Shape {
        Shape::Sequence(Box::new(A::shape_of()))
    }

    open spec fn datum_of(v: Seq<A::V>) -> Datum {
        Datum::Sequence(data_of::<A>(v))
    }

    proof fn same_bytes(v: Seq<A::V>, offset: u64) {
        lemma_same_sequence_bytes::<A>(v, offset);
    }

    proof fn same_reading(bytes: Seq<u8>, offset: u64) {
        lemma_radix_values();
        if unsigned_in(bytes, offset as int, 4) is Some {
            lemma_le_value_bound(bytes.subrange(offset as int, offset + 4));
            let count = i32_in(bytes, offset as int)->Some_0;
            if count >= 0 {
                lemma_same_run_reading::<A>(bytes, (offset + 4) as u64, count as nat);
            }
        }
    }
}

impl<A: AsValue> AsValue for Option<Vec<A>> where Buffer: Formatter<A> {
    open spec fn shape_of() -> Shape {
        Shape::Nullable(Box::new(Shape::Sequence(Box::new(A::shape_of()))))
    }

    open spec fn datum_of(v: Option<Seq<A::V>>) -> Datum {
        match v {
            None => Datum::Nullable(None),
            Some(items) => Datum::Nullable(Some(Box::new(Datum::Sequence(data_of::<A>(items))))),
        }
    }

    proof fn same_bytes(v: Option<Seq<A::V>>, offset: u64) {
        match v {
            None => {
                lemma_wire_len(Datum::Nullable(None), offset as int);
            },
            Some(items) => {
                lemma_same_sequence_bytes::<A>(items, offset);
            },
        }
    }

    proof fn same_reading(bytes: Seq<u8>, offset: u64) {
        lemma_radix_values();
        if unsigned_in(bytes, offset as int, 4) is Some {
            lemma_le_value_bound(bytes.subrange(offset as int, offset + 4));
        }
        <Vec<A> as AsValue>::same_reading(bytes, offset);
        assert(parse(Shape::Sequence(Box::new(A::shape_of())), bytes, offset as int) == parse(
            <Vec<A> as AsValue>::shape_of(),
            bytes,
            offset as int,
        ));
    }
}

} // verus!
