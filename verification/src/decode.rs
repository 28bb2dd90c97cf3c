//! Reading values of any shape.

use vstd::prelude::*;
use vstd::slice::slice_to_vec;
use vstd::utf8::encode_utf8_decode_utf8;
use crate::buffer::{Buffer, LIMIT};
use crate::endian::{
    i16_from_le, i32_from_le, i64_from_le, le_value, lemma_le_value_bound, lemma_radix_values,
    u16_from_le, u32_from_le, u64_from_le,
};
use crate::error::{Failure, IoErrorKind, ZeroFormatterError};
use crate::parse::{
    case_of, default_of, default_of_field, default_of_item, i32_in, int_in, parse, parse_case,
    parse_each, parse_field, parse_fields, parse_run, shape_indices, time_in, unsigned_in,
};
use crate::primitive::string_from_utf8;
use crate::schema::{CaseShape, FieldShape, Int, IntKind, Shape};
use crate::time::{Duration, Instant, NANOS_PER_SECOND};
use crate::value::{
    data, datum, Datum, field_data, field_indices, lemma_data, lemma_data_push, lemma_field_data,
    lemma_field_data_push, Field, Value,
};

verus! {

broadcast use vstd::std_specs::vec::axiom_vec_index_decreases;

/// The failure of a read past the end.
fn unexpected_eof<T>() -> (r: Result<T, ZeroFormatterError>)
    ensures
        r matches Err(e) && e@ == Failure::Io(IoErrorKind::UnexpectedEof),
{
    Err(ZeroFormatterError::IoError(IoErrorKind::UnexpectedEof))
}

impl Buffer {
    /// The byte at `at`.
    pub(crate) fn byte_at(&self, at: u64) -> (r: Option<u8>)
        ensures
            match unsigned_in(self@.bytes, at as int, 1) {
                Some(u) => r == Some(u as u8) && u < 256,
                None => r is None,
            },
    {
        match self.peek(at, 1) {
            None => None,
            Some(s) => {
                proof {
                    reveal_with_fuel(le_value, 2);
                }
                Some(s[0])
            },
        }
    }

    /// The signed 32-bit number at `at`.
    pub(crate) fn i32_at(&self, at: u64) -> (r: Option<i32>)
        ensures
            match i32_in(self@.bytes, at as int) {
                Some(v) => r == Some(v as i32) && v == v as i32,
                None => r is None,
            },
    {
        match self.peek(at, 4) {
            None => None,
            Some(s) => {
                proof {
                    assert(s@.subrange(0, 4) =~= s@);
                    lemma_le_value_bound(s@);
                    lemma_radix_values();
                }
                Some(i32_from_le(s))
            },
        }
    }

    /// The integer of `kind` at `at`.
    pub(crate) fn int_at(&self, at: u64, kind: IntKind) -> (r: Option<Int>)
        ensures
            r == int_in(self@.bytes, at as int, kind),
    {
        let width: u64 = kind.size();
        match self.peek(at, width) {
            None => None,
            Some(s) => {
                proof {
                    assert(s@.subrange(0, width as int) =~= s@);
                    lemma_le_value_bound(s@);
                    lemma_radix_values();
                    reveal_with_fuel(le_value, 2);
                }
                Some(
                    match kind {
                        IntKind::U8 => Int::U8(s[0]),
                        IntKind::U16 => Int::U16(u16_from_le(s)),
                        IntKind::U32 => Int::U32(u32_from_le(s)),
                        IntKind::U64 => Int::U64(u64_from_le(s)),
                        IntKind::I8 => {
                            let wide: i16 = s[0] as i16;
                            Int::I8(if wide >= 128 { (wide - 256) as i8 } else { wide as i8 })
                        },
                        IntKind::I16 => Int::I16(i16_from_le(s)),
                        IntKind::I32 => Int::I32(i32_from_le(s)),
                        IntKind::I64 => Int::I64(i64_from_le(s)),
                    },
                )
            },
        }
    }

    /// The seconds and nanoseconds at `at`.
    pub(crate) fn time_at(&self, at: u64) -> (r: Option<(i64, i32)>)
        ensures
            match time_in(self@.bytes, at as int) {
                Some((seconds, nanos)) => r == Some((seconds as i64, nanos as i32)) && seconds
                    == seconds as i64 && nanos == nanos as i32 && at + 12 <= LIMIT,
                None => r is None,
            },
    {
        let head = match self.peek(at, 8) {
            None => {
                return None;
            },
            Some(s) => s,
        };
        let seconds: i64 = i64_from_le(head);
        let nanos: i32 = match self.i32_at(at + 8) {
            None => {
                return None;
            },
            Some(n) => n,
        };
        proof {
            assert(head@.subrange(0, 8) =~= head@);
            lemma_le_value_bound(head@);
            lemma_radix_values();
        }
        Some((seconds, nanos))
    }
}

/// The value that stands in for a field of `shape` that was not written.
pub fn default_value(shape: &Shape) -> (r: Value)
    ensures
        datum(r) == default_of(*shape),
    decreases shape,
{
    match shape {
        Shape::Bool => Value::Bool(false),
        Shape::Int(kind) => Value::Int(Int::zero(*kind)),
        Shape::Str => Value::Str(String::new()),
        Shape::Instant => Value::Instant(Instant { seconds: 0, nanos: 0 }),
        Shape::Duration => Value::Duration(Duration { seconds: 0, nanos: 0 }),
        Shape::HasValue(_) => Value::HasValue(None),
        Shape::Nullable(_) => Value::Nullable(None),
        Shape::Tuple(a, b) => Value::Tuple(Box::new(default_value(a)), Box::new(default_value(b))),
        Shape::Struct(fields) => {
            let mut values: Vec<Value> = Vec::new();
            let mut k: usize = 0;
            while k < fields.len()
                invariant
                    k <= fields@.len(),
                    *shape == Shape::Struct(*fields),
                    values@.len() == k,
                    forall|j: int| 0 <= j < k ==> datum(values@[j]) == default_of(fields@[j]),
                decreases fields@.len() - k,
            {
                proof {
                    assert(shape->Struct_0 == *fields);
                    assert(decreases_to!(*shape => shape->Struct_0));
                    assert(decreases_to!(*fields => fields[k as int]));
                    assert(decreases_to!(*shape => fields[k as int]));
                }
                values.push(default_value(&fields[k]));
                k = k + 1;
            }
            proof {
                lemma_data(values@);
                let target = default_of(*shape)->Struct_0;
                assert forall|j: int| 0 <= j < fields@.len() implies data(values@)[j] == target[j] by {
                    assert(data(values@)[j] == datum(values@[j]));
                    assert(target[j] == default_of_item(fields@, j));
                }
                assert(data(values@) =~= target);
            }
            Value::Struct(values)
        },
        Shape::Object(fields) => {
            let mut values: Vec<Field> = Vec::new();
            let mut k: usize = 0;
            while k < fields.len()
                invariant
                    k <= fields@.len(),
                    *shape == Shape::Object(*fields),
                    values@.len() == k,
                    forall|j: int|
                        0 <= j < k ==> datum(values@[j].value) == default_of(fields@[j].shape)
                            && values@[j].index == fields@[j].index,
                decreases fields@.len() - k,
            {
                proof {
                    assert(shape->Object_0 == *fields);
                    assert(decreases_to!(*shape => shape->Object_0));
                    assert(decreases_to!(*fields => fields[k as int]));
                    assert(decreases_to!(*shape => fields[k as int].shape));
                }
                values.push(Field { index: fields[k].index, value: default_value(&fields[k].shape) });
                k = k + 1;
            }
            proof {
                lemma_field_data(values@);
                let target = default_of(*shape)->Object_1;
                assert forall|j: int| 0 <= j < fields@.len() implies field_data(values@)[j]
                    == target[j] by {
                    assert(field_data(values@)[j] == datum(values@[j].value));
                    assert(target[j] == default_of_field(fields@, j));
                }
                assert(field_data(values@) =~= target);
                assert(field_indices(values@) =~= shape_indices(fields@));
            }
            Value::Object(values)
        },
        Shape::Union(kind, cases) => {
            if cases.len() == 0 {
                let empty: Vec<Value> = Vec::new();
                proof {
                    reveal_with_fuel(datum, 2);
                    assert(data(empty@) =~= Seq::<Datum>::empty());
                }
                Value::Union(Int::zero(*kind), Box::new(Value::Struct(empty)))
            } else {
                Value::Union(cases[0].key, Box::new(default_value(&cases[0].shape)))
            }
        },
        Shape::Sequence(_) => {
            let empty: Vec<Value> = Vec::new();
            proof {
                assert(data(empty@) =~= Seq::<Datum>::empty());
            }
            Value::Sequence(empty)
        },
    }
}

impl Buffer {
    /// Reads a value of `shape` at `at`; returns it with the offset behind it.
    pub(crate) fn parse_at(&self, shape: &Shape, at: u64) -> (r: Result<
        (Value, u64),
        ZeroFormatterError,
    >)
        ensures
            match parse(*shape, self@.bytes, at as int) {
                Ok((d, next)) => r matches Ok((v, n)) && datum(v) == d && n == next,
                Err(f) => r matches Err(e) && e@ == f,
            },
        decreases shape, 0nat,
    {
        match shape {
            Shape::Bool => match self.byte_at(at) {
                None => unexpected_eof(),
                Some(b) => Ok((Value::Bool(b == 1), at + 1)),
            },
            Shape::Int(kind) => match self.int_at(at, *kind) {
                None => unexpected_eof(),
                Some(i) => Ok((Value::Int(i), at + kind.size())),
            },
            Shape::Str => {
                let len: i32 = match self.i32_at(at) {
                    None => {
                        return unexpected_eof();
                    },
                    Some(n) => n,
                };
                if len < 0 {
                    return Err(ZeroFormatterError::InvalidBinary(at));
                }
                let payload = match self.peek(at + 4, len as u64) {
                    None => {
                        return unexpected_eof();
                    },
                    Some(s) => s,
                };
                match string_from_utf8(slice_to_vec(payload)) {
                    Err(e) => Err(ZeroFormatterError::from(e)),
                    Ok(s) => {
                        proof {
                            encode_utf8_decode_utf8(s@);
                        }
                        Ok((Value::Str(s), at + 4 + len as u64))
                    },
                }
            },
            Shape::Instant => match self.time_at(at) {
                None => unexpected_eof(),
                Some((seconds, nanos)) => {
                    if nanos < 0 || nanos >= NANOS_PER_SECOND as i32 {
                        Err(ZeroFormatterError::InvalidBinary(at + 8))
                    } else {
                        Ok((Value::Instant(Instant { seconds, nanos: nanos as u32 }), at + 12))
                    }
                },
            },
            Shape::Duration => match self.time_at(at) {
                None => unexpected_eof(),
                Some((seconds, nanos)) => {
                    if seconds < 0 {
                        Err(ZeroFormatterError::InvalidBinary(at))
                    } else if nanos < 0 || nanos >= NANOS_PER_SECOND as i32 {
                        Err(ZeroFormatterError::InvalidBinary(at + 8))
                    } else {
                        Ok(
                            (
                                Value::Duration(
                                    Duration { seconds: seconds as u64, nanos: nanos as u32 },
                                ),
                                at + 12,
                            ),
                        )
                    }
                },
            },
            Shape::HasValue(inner) => match self.byte_at(at) {
                None => unexpected_eof(),
                Some(flag) => {
                    if flag != 1 {
                        Ok((Value::HasValue(None), at + 1))
                    } else {
                        let (x, next) = self.parse_at(inner, at + 1)?;
                        Ok((Value::HasValue(Some(Box::new(x))), next))
                    }
                },
            },
            Shape::Nullable(inner) => {
                let head: i32 = self.size_at(at)?;
                if head == -1 {
                    Ok((Value::Nullable(None), at + 4))
                } else {
                    let (x, next) = self.parse_at(inner, at)?;
                    Ok((Value::Nullable(Some(Box::new(x))), next))
                }
            },
            Shape::Tuple(a, b) => {
                let (first, mid) = self.parse_at(a, at)?;
                let (second, next) = self.parse_at(b, mid)?;
                Ok((Value::Tuple(Box::new(first), Box::new(second)), next))
            },
            Shape::Struct(fields) => {
                proof {
                    assert(decreases_to!(*shape => shape->Struct_0));
                }
                let (values, next) = self.parse_each_at(fields, at)?;
                Ok((Value::Struct(values), next))
            },
            Shape::Object(fields) => {
                proof {
                    assert(decreases_to!(*shape => shape->Object_0));
                }
                self.parse_object_at(fields, at)
            },
            Shape::Union(kind, cases) => {
                proof {
                    assert(decreases_to!(*shape => shape->Union_1));
                }
                self.parse_union_at(*kind, cases, at)
            },
            Shape::Sequence(inner) => {
                let count: i32 = self.size_at(at)?;
                if count < 0 {
                    return ZeroFormatterError::invalid_binary(at);
                }
                let (items, next) = self.parse_run_at(inner, at + 4, count as u32)?;
                Ok((Value::Sequence(items), next))
            },
        }
    }

    /// Reads the fields of a struct one behind the other from `at`.
    fn parse_each_at(&self, shapes: &Vec<Shape>, at: u64) -> (r: Result<
        (Vec<Value>, u64),
        ZeroFormatterError,
    >)
        ensures
            match parse_each(shapes@, self@.bytes, at as int, shapes@.len()) {
                Ok((d, next)) => r matches Ok((v, n)) && data(v@) == d && n == next,
                Err(f) => r matches Err(e) && e@ == f,
            },
        decreases shapes, 1nat,
    {
        let mut values: Vec<Value> = Vec::new();
        let mut cur: u64 = at;
        let mut k: usize = 0;
        proof {
            assert(data(values@) =~= Seq::<Datum>::empty());
        }
        while k < shapes.len()
            invariant
                k <= shapes@.len(),
                parse_each(shapes@, self@.bytes, at as int, k as nat) matches Ok((d, next))
                    && data(values@) == d && cur == next,
            decreases shapes@.len() - k,
        {
            proof {
                assert(decreases_to!(*shapes => shapes[k as int]));
            }
            match self.parse_at(&shapes[k], cur) {
                Err(e) => {
                    proof {
                        lemma_parse_each_failure_stays(
                            shapes@,
                            self@.bytes,
                            at as int,
                            (k + 1) as nat,
                            shapes@.len(),
                        );
                    }
                    return Err(e);
                },
                Ok((x, next)) => {
                    proof {
                        lemma_data_push(values@, x);
                    }
                    values.push(x);
                    cur = next;
                },
            }
            k = k + 1;
        }
        Ok((values, cur))
    }

    /// Reads `count` values of `shape` one behind the other from `at`.
    fn parse_run_at(&self, shape: &Shape, at: u64, count: u32) -> (r: Result<
        (Vec<Value>, u64),
        ZeroFormatterError,
    >)
        ensures
            match parse_run(*shape, self@.bytes, at as int, count as nat) {
                Ok((d, next)) => r matches Ok((v, n)) && data(v@) == d && n == next,
                Err(f) => r matches Err(e) && e@ == f,
            },
        decreases shape, 1nat,
    {
        let mut values: Vec<Value> = Vec::new();
        let mut cur: u64 = at;
        let mut k: u32 = 0;
        proof {
            assert(data(values@) =~= Seq::<Datum>::empty());
        }
        while k < count
            invariant
                k <= count,
                parse_run(*shape, self@.bytes, at as int, k as nat) matches Ok((d, next)) && data(
                    values@,
                ) == d && cur == next,
            decreases count - k,
        {
            match self.parse_at(shape, cur) {
                Err(e) => {
                    proof {
                        lemma_parse_run_failure_stays(
                            *shape,
                            self@.bytes,
                            at as int,
                            (k + 1) as nat,
                            count as nat,
                        );
                    }
                    return Err(e);
                },
                Ok((x, next)) => {
                    proof {
                        lemma_data_push(values@, x);
                    }
                    values.push(x);
                    cur = next;
                },
            }
            k = k + 1;
        }
        Ok((values, cur))
    }

    /// Reads one field of the object at `start` through its table entry.
    fn parse_field_at(&self, field: &FieldShape, start: u64, last: i32) -> (r: Result<
        Value,
        ZeroFormatterError,
    >)
        requires
            start + 8 <= LIMIT,
        ensures
            match parse_field(*field, self@.bytes, start as int, last as int) {
                Ok(d) => r matches Ok(v) && datum(v) == d,
                Err(f) => r matches Err(e) && e@ == f,
            },
        decreases field, 0nat,
    {
        if field.index < 0 || field.index > last {
            return Ok(default_value(&field.shape));
        }
        let entry: u64 = start + 8 + 4 * (field.index as u64);
        match self.i32_at(entry) {
            None => unexpected_eof(),
            Some(slot) => {
                if slot == 0 {
                    Ok(default_value(&field.shape))
                } else if slot < 0 {
                    Err(ZeroFormatterError::InvalidBinary(entry))
                } else {
                    let (x, _) = self.parse_at(&field.shape, slot as u64)?;
                    Ok(x)
                }
            },
        }
    }

    /// Reads an object at `at`: its size, its last index, then each field of
    /// the schema through the table. The offset behind it is the start plus the size.
    fn parse_object_at(&self, fields: &Vec<FieldShape>, at: u64) -> (r: Result<
        (Value, u64),
        ZeroFormatterError,
    >)
        ensures
            match parse(Shape::Object(*fields), self@.bytes, at as int) {
                Ok((d, next)) => r matches Ok((v, n)) && datum(v) == d && n == next,
                Err(f) => r matches Err(e) && e@ == f,
            },
        decreases fields, 1nat,
    {
        let byte_size: i32 = self.size_at(at)?;
        if byte_size < 0 {
            return ZeroFormatterError::invalid_binary(at);
        }
        let last: i32 = match self.i32_at(at + 4) {
            None => {
                return unexpected_eof();
            },
            Some(n) => n,
        };
        let mut values: Vec<Field> = Vec::new();
        let mut k: usize = 0;
        proof {
            assert(field_data(values@) =~= Seq::<Datum>::empty());
        }
        while k < fields.len()
            invariant
                k <= fields@.len(),
                at + 8 <= LIMIT,
                values@.len() == k,
                byte_size >= 0,
                i32_in(self@.bytes, at as int) == Some(byte_size as int),
                i32_in(self@.bytes, at + 4) == Some(last as int),
                forall|j: int| 0 <= j < k ==> values@[j].index == fields@[j].index,
                parse_fields(fields@, self@.bytes, at as int, last as int, k as nat) matches Ok(d)
                    && field_data(values@) == d,
            decreases fields@.len() - k,
        {
            proof {
                assert(decreases_to!(*fields => fields[k as int]));
            }
            match self.parse_field_at(&fields[k], at, last) {
                Err(e) => {
                    proof {
                        assert(parse_fields(
                            fields@,
                            self@.bytes,
                            at as int,
                            last as int,
                            (k + 1) as nat,
                        ) == Err::<Seq<Datum>, Failure>(e@));
                        lemma_parse_fields_failure_stays(
                            fields@,
                            self@.bytes,
                            at as int,
                            last as int,
                            (k + 1) as nat,
                            fields@.len(),
                        );
                    }
                    return Err(e);
                },
                Ok(x) => {
                    let field = Field { index: fields[k].index, value: x };
                    proof {
                        lemma_field_data_push(values@, field);
                    }
                    values.push(field);
                },
            }
            k = k + 1;
        }
        proof {
            assert(field_indices(values@) =~= shape_indices(fields@));
        }
        Ok((Value::Object(values), at + byte_size as u64))
    }

    /// Reads a union at `at`: its size, its key, then the payload of the
    /// first case that has the key.
    fn parse_union_at(&self, kind: IntKind, cases: &Vec<CaseShape>, at: u64) -> (r: Result<
        (Value, u64),
        ZeroFormatterError,
    >)
        ensures
            match parse(Shape::Union(kind, *cases), self@.bytes, at as int) {
                Ok((d, next)) => r matches Ok((v, n)) && datum(v) == d && n == next,
                Err(f) => r matches Err(e) && e@ == f,
            },
        decreases cases, 1nat,
    {
        let byte_size: i32 = self.size_at(at)?;
        if byte_size < 0 {
            return ZeroFormatterError::invalid_binary(at);
        }
        let key: Int = match self.int_at(at + 4, kind) {
            None => {
                return unexpected_eof();
            },
            Some(i) => i,
        };
        let mut k: usize = 0;
        while k < cases.len()
            invariant
                k <= cases@.len(),
                byte_size >= 0,
                i32_in(self@.bytes, at as int) == Some(byte_size as int),
                int_in(self@.bytes, at + 4, kind) == Some(key),
                case_of(cases@, key, 0) == case_of(cases@, key, k as nat),
            decreases cases@.len() - k,
        {
            if cases[k].key.same(&key) {
                let from: u64 = at + 4 + kind.size();
                proof {
                    assert(decreases_to!(*cases => cases[k as int]));
                    assert(case_of(cases@, key, 0) == Some(k as int));
                    assert(parse_case(cases@, k as int, self@.bytes, from as int) == parse(
                        cases@[k as int].shape,
                        self@.bytes,
                        from as int,
                    ));
                }
                return match self.parse_at(&cases[k].shape, from) {
                    Err(e) => Err(e),
                    Ok((x, next)) => Ok((Value::Union(key, Box::new(x)), next)),
                };
            }
            k = k + 1;
        }
        Err(ZeroFormatterError::InvalidBinary(at + 4))
    }
}

/// Once a field of a struct cannot be read, none behind it is.
pub proof fn lemma_parse_each_failure_stays(
    shapes: Seq<Shape>,
    bytes: Seq<u8>,
    at: int,
    k: nat,
    n: nat,
)
    requires
        k <= n <= shapes.len(),
        parse_each(shapes, bytes, at, k) is Err,
    ensures
        parse_each(shapes, bytes, at, n) == parse_each(shapes, bytes, at, k),
    decreases n,
{
    if k < n {
        lemma_parse_each_failure_stays(shapes, bytes, at, k, (n - 1) as nat);
    }
}

/// Once an element of a sequence cannot be read, none behind it is.
pub proof fn lemma_parse_run_failure_stays(shape: Shape, bytes: Seq<u8>, at: int, k: nat, n: nat)
    requires
        k <= n,
        parse_run(shape, bytes, at, k) is Err,
    ensures
        parse_run(shape, bytes, at, n) == parse_run(shape, bytes, at, k),
    decreases n,
{
    if k < n {
        lemma_parse_run_failure_stays(shape, bytes, at, k, (n - 1) as nat);
    }
}

/// Once a field of an object cannot be read, none behind it is.
pub proof fn lemma_parse_fields_failure_stays(
    fields: Seq<FieldShape>,
    bytes: Seq<u8>,
    start: int,
    last: int,
    k: nat,
    n: nat,
)
    requires
        k <= n <= fields.len(),
        parse_fields(fields, bytes, start, last, k) is Err,
    ensures
        parse_fields(fields, bytes, start, last, n) == parse_fields(fields, bytes, start, last, k),
    decreases n,
{
    if k < n {
        lemma_parse_fields_failure_stays(fields, bytes, start, last, k, (n - 1) as nat);
    }
}

} // verus!
