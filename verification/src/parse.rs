//! What a reader finds in bytes when it knows the shape to look for.

use vstd::prelude::*;
use vstd::utf8::{decode_utf8, valid_utf8};
use crate::buffer::readable;
use crate::endian::{le_value, signed};
use crate::error::{Failure, IoErrorKind};
use crate::schema::{CaseShape, FieldShape, Int, IntKind, Shape};
use crate::time::{Duration, Instant, NANOS_PER_SECOND};
use crate::value::Datum;

verus! {

/// The unsigned number of `width` bytes at `at`, where those bytes can be read.
pub open spec fn unsigned_in(bytes: Seq<u8>, at: int, width: nat) -> Option<nat> {
    if readable(bytes, at, width as int) {
        Some(le_value(bytes.subrange(at, at + width)))
    } else {
        None
    }
}

/// The signed 32-bit number at `at`, where four bytes can be read there.
pub open spec fn i32_in(bytes: Seq<u8>, at: int) -> Option<int> {
    match unsigned_in(bytes, at, 4) {
        Some(u) => Some(signed(u, 4)),
        None => None,
    }
}

/// The integer of `kind` at `at`, where its bytes can be read.
pub open spec fn int_in(bytes: Seq<u8>, at: int, kind: IntKind) -> Option<Int> {
    match unsigned_in(bytes, at, kind.width()) {
        Some(u) => Some(
            Int::of(
                kind,
                if kind.is_signed() {
                    signed(u, kind.width())
                } else {
                    u as int
                },
            ),
        ),
        None => None,
    }
}

/// The failure of a read past the end.
pub open spec fn eof<T>() -> Result<T, Failure> {
    Err(Failure::Io(IoErrorKind::UnexpectedEof))
}

/// The index of each of `fields`.
pub open spec fn shape_indices(fields: Seq<FieldShape>) -> Seq<int> {
    Seq::new(fields.len(), |k: int| fields[k].index as int)
}

/// The first case with the key `key`, if there is one.
pub open spec fn case_of(cases: Seq<CaseShape>, key: Int, k: nat) -> Option<int>
    decreases cases.len() - k,
{
    if k >= cases.len() {
        None
    } else if cases[k as int].key == key {
        Some(k as int)
    } else {
        case_of(cases, key, k + 1)
    }
}

/// The value that stands in for a field that the writer did not know: zero,
/// `false`, the empty text, the start of the epoch, the absent value, the
/// empty sequence, and composites of these. A union stands in with its first case.
pub open spec fn default_of(shape: Shape) -> Datum
    decreases shape,
{
    match shape {
        Shape::Bool => Datum::Bool(false),
        Shape::Int(kind) => Datum::Int(Int::of(kind, 0)),
        Shape::Str => Datum::Str(Seq::empty()),
        Shape::Instant => Datum::Instant(Instant { seconds: 0, nanos: 0 }),
        Shape::Duration => Datum::Duration(Duration { seconds: 0, nanos: 0 }),
        Shape::HasValue(_) => Datum::HasValue(None),
        Shape::Nullable(_) => Datum::Nullable(None),
        Shape::Tuple(a, b) => Datum::Tuple(Box::new(default_of(*a)), Box::new(default_of(*b))),
        Shape::Struct(fields) => Datum::Struct(
            Seq::new(fields@.len(), |k: int| default_of_item(fields@, k)),
        ),
        Shape::Object(fields) => Datum::Object(
            shape_indices(fields@),
            Seq::new(fields@.len(), |k: int| default_of_field(fields@, k)),
        ),
        Shape::Union(kind, cases) => {
            if cases@.len() == 0 {
                Datum::Union(Int::of(kind, 0), Box::new(Datum::Struct(Seq::empty())))
            } else {
                Datum::Union(cases@[0].key, Box::new(default_of(cases@[0].shape)))
            }
        },
        Shape::Sequence(_) => Datum::Sequence(Seq::empty()),
    }
}

/// The default of the `k`-th of `shapes`.
pub open spec fn default_of_item(shapes: Seq<Shape>, k: int) -> Datum
    decreases shapes,
{
    if 0 <= k < shapes.len() {
        default_of(shapes[k])
    } else {
        Datum::Bool(false)
    }
}

/// The default of the `k`-th of `fields`.
pub open spec fn default_of_field(fields: Seq<FieldShape>, k: int) -> Datum
    decreases fields,
{
    if 0 <= k < fields.len() {
        default_of(fields[k].shape)
    } else {
        Datum::Bool(false)
    }
}

/// What a reader that expects `shape` finds at `at`: the value and the
/// offset behind it, or the first failure on its way.
pub open spec fn parse(shape: Shape, bytes: Seq<u8>, at: int) -> Result<(Datum, int), Failure>
    decreases shape, 0nat,
{
    match shape {
        Shape::Bool => match unsigned_in(bytes, at, 1) {
            None => eof(),
            Some(u) => Ok((Datum::Bool(u == 1), at + 1)),
        },
        Shape::Int(kind) => match int_in(bytes, at, kind) {
            None => eof(),
            Some(i) => Ok((Datum::Int(i), at + kind.width())),
        },
        Shape::Str => match i32_in(bytes, at) {
            None => eof(),
            Some(len) => {
                if len < 0 {
                    Err(Failure::Binary(at as u64))
                } else if !readable(bytes, at + 4, len) {
                    eof()
                } else if !valid_utf8(bytes.subrange(at + 4, at + 4 + len)) {
                    Err(Failure::Utf8)
                } else {
                    Ok((Datum::Str(decode_utf8(bytes.subrange(at + 4, at + 4 + len))), at + 4 + len))
                }
            },
        },
        Shape::Instant => match time_in(bytes, at) {
            None => eof(),
            Some((seconds, nanos)) => {
                if nanos < 0 || nanos >= NANOS_PER_SECOND {
                    Err(Failure::Binary((at + 8) as u64))
                } else {
                    Ok(
                        (
                            Datum::Instant(
                                Instant { seconds: seconds as i64, nanos: nanos as u32 },
                            ),
                            at + 12,
                        ),
                    )
                }
            },
        },
        Shape::Duration => match time_in(bytes, at) {
            None => eof(),
            Some((seconds, nanos)) => {
                if seconds < 0 {
                    Err(Failure::Binary(at as u64))
                } else if nanos < 0 || nanos >= NANOS_PER_SECOND {
                    Err(Failure::Binary((at + 8) as u64))
                } else {
                    Ok(
                        (
                            Datum::Duration(
                                Duration { seconds: seconds as u64, nanos: nanos as u32 },
                            ),
                            at + 12,
                        ),
                    )
                }
            },
        },
        Shape::HasValue(inner) => match unsigned_in(bytes, at, 1) {
            None => eof(),
            Some(flag) => {
                if flag != 1 {
                    Ok((Datum::HasValue(None), at + 1))
                } else {
                    match parse(*inner, bytes, at + 1) {
                        Err(f) => Err(f),
                        Ok((x, next)) => Ok((Datum::HasValue(Some(Box::new(x))), next)),
                    }
                }
            },
        },
        Shape::Nullable(inner) => match i32_in(bytes, at) {
            None => eof(),
            Some(head) => {
                if head == -1 {
                    Ok((Datum::Nullable(None), at + 4))
                } else if head < -1 {
                    Err(Failure::Binary(at as u64))
                } else {
                    match parse(*inner, bytes, at) {
                        Err(f) => Err(f),
                        Ok((x, next)) => Ok((Datum::Nullable(Some(Box::new(x))), next)),
                    }
                }
            },
        },
        Shape::Tuple(a, b) => match parse(*a, bytes, at) {
            Err(f) => Err(f),
            Ok((first, mid)) => match parse(*b, bytes, mid) {
                Err(f) => Err(f),
                Ok((second, next)) => Ok((Datum::Tuple(Box::new(first), Box::new(second)), next)),
            },
        },
        Shape::Struct(fields) => match parse_each(fields@, bytes, at, fields@.len()) {
            Err(f) => Err(f),
            Ok((values, next)) => Ok((Datum::Struct(values), next)),
        },
        Shape::Object(fields) => match i32_in(bytes, at) {
            None => eof(),
            Some(byte_size) => {
                if byte_size < 0 {
                    Err(Failure::Binary(at as u64))
                } else {
                    match i32_in(bytes, at + 4) {
                        None => eof(),
                        Some(last) => match parse_fields(fields@, bytes, at, last, fields@.len()) {
                            Err(f) => Err(f),
                            Ok(values) => Ok(
                                (Datum::Object(shape_indices(fields@), values), at + byte_size),
                            ),
                        },
                    }
                }
            },
        },
        Shape::Union(kind, cases) => match i32_in(bytes, at) {
            None => eof(),
            Some(byte_size) => {
                if byte_size < 0 {
                    Err(Failure::Binary(at as u64))
                } else {
                    match int_in(bytes, at + 4, kind) {
                        None => eof(),
                        Some(key) => match case_of(cases@, key, 0) {
                            None => Err(Failure::Binary((at + 4) as u64)),
                            Some(k) => match parse_case(
                                cases@,
                                k,
                                bytes,
                                at + 4 + kind.width(),
                            ) {
                                Err(f) => Err(f),
                                Ok((x, next)) => Ok((Datum::Union(key, Box::new(x)), next)),
                            },
                        },
                    }
                }
            },
        },
        Shape::Sequence(inner) => match i32_in(bytes, at) {
            None => eof(),
            Some(count) => {
                if count < 0 {
                    Err(Failure::Binary(at as u64))
                } else {
                    match parse_run(*inner, bytes, at + 4, count as nat) {
                        Err(f) => Err(f),
                        Ok((items, next)) => Ok((Datum::Sequence(items), next)),
                    }
                }
            },
        },
    }
}

/// The seconds and nanoseconds at `at`, where twelve bytes can be read there.
pub open spec fn time_in(bytes: Seq<u8>, at: int) -> Option<(int, int)> {
    match unsigned_in(bytes, at, 8) {
        None => None,
        Some(seconds) => match i32_in(bytes, at + 8) {
            None => None,
            Some(nanos) => Some((signed(seconds, 8), nanos)),
        },
    }
}

/// The first `k` of `shapes`, read one behind the other from `at`.
pub open spec fn parse_each(shapes: Seq<Shape>, bytes: Seq<u8>, at: int, k: nat) -> Result<
    (Seq<Datum>, int),
    Failure,
>
    decreases shapes, k,
{
    if k == 0 || k > shapes.len() {
        Ok((Seq::empty(), at))
    } else {
        match parse_each(shapes, bytes, at, (k - 1) as nat) {
            Err(f) => Err(f),
            Ok((values, mid)) => match parse(shapes[k - 1], bytes, mid) {
                Err(f) => Err(f),
                Ok((x, next)) => Ok((values.push(x), next)),
            },
        }
    }
}

/// `k` values of `shape`, read one behind the other from `at`.
pub open spec fn parse_run(shape: Shape, bytes: Seq<u8>, at: int, k: nat) -> Result<
    (Seq<Datum>, int),
    Failure,
>
    decreases shape, 1 + k,
{
    if k == 0 {
        Ok((Seq::empty(), at))
    } else {
        match parse_run(shape, bytes, at, (k - 1) as nat) {
            Err(f) => Err(f),
            Ok((values, mid)) => match parse(shape, bytes, mid) {
                Err(f) => Err(f),
                Ok((x, next)) => Ok((values.push(x), next)),
            },
        }
    }
}

/// The payload of the `k`-th of `cases`, read at `at`.
pub open spec fn parse_case(cases: Seq<CaseShape>, k: int, bytes: Seq<u8>, at: int) -> Result<
    (Datum, int),
    Failure,
>
    decreases cases, 0nat,
{
    if 0 <= k < cases.len() {
        parse(cases[k].shape, bytes, at)
    } else {
        eof()
    }
}

/// One field of an object that starts at `start` and whose table reaches up
/// to the index `last`. A field beyond the table, or one whose entry is 0,
/// takes its default. Any other entry is the offset at which the field is read.
pub open spec fn parse_field(field: FieldShape, bytes: Seq<u8>, start: int, last: int) -> Result<
    Datum,
    Failure,
>
    decreases field, 0nat,
{
    if field.index < 0 || field.index > last {
        Ok(default_of(field.shape))
    } else {
        match i32_in(bytes, start + 8 + 4 * field.index) {
            None => eof(),
            Some(slot) => {
                if slot == 0 {
                    Ok(default_of(field.shape))
                } else if slot < 0 {
                    Err(Failure::Binary((start + 8 + 4 * field.index) as u64))
                } else {
                    match parse(field.shape, bytes, slot) {
                        Err(f) => Err(f),
                        Ok((x, _)) => Ok(x),
                    }
                }
            },
        }
    }
}

/// The first `k` of `fields`, each read through the table of the object at `start`.
pub open spec fn parse_fields(
    fields: Seq<FieldShape>,
    bytes: Seq<u8>,
    start: int,
    last: int,
    k: nat,
) -> Result<Seq<Datum>, Failure>
    decreases fields, k,
{
    if k == 0 || k > fields.len() {
        Ok(Seq::empty())
    } else {
        match parse_fields(fields, bytes, start, last, (k - 1) as nat) {
            Err(f) => Err(f),
            Ok(values) => match parse_field(fields[k - 1], bytes, start, last) {
                Err(f) => Err(f),
                Ok(x) => Ok(values.push(x)),
            },
        }
    }
}

} // verus!
