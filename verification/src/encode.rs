//! Writing values of any form: whether a value can be written, how many
//! bytes it takes, and the writing itself.

use vstd::prelude::*;
use vstd::array::array_as_slice;
use crate::buffer::{lemma_overwrite_append, lemma_overwrite_inside, overwrite, Buffer, LIMIT};
use crate::endian::{
    i16_to_le, i32_to_le, i64_to_le, le_bytes, lemma_le_bytes_len, lemma_radix_values, u16_to_le,
    u32_to_le, u64_to_le, unsigned,
};
use crate::object::{
    image, lemma_i32_wire_len, lemma_image_append, lemma_image_close, lemma_image_enter,
    lemma_image_len, lemma_image_start, lemma_zero_word,
};
use crate::schema::{Int, Shape};
use crate::time::{time_wire, NANOS_PER_SECOND};
use crate::value::{
    data, datum, field_data, field_indices, lemma_data, lemma_field_data, Datum, Field, Value,
};
use crate::wire::{
    all_valid, distinct_indices, encodable, header_size, i32_wire, int_wire, last_index,
    lemma_int_wire_len, lemma_last_index, lemma_last_index_push, lemma_sizes_grow, lemma_wire_len,
    lemma_wires_len, size, sizes, starts_with_size, valid, wire, wires,
};

verus! {

broadcast use vstd::std_specs::vec::axiom_vec_index_decreases;

/// Whether no index of `fields` is negative and none occurs twice.
fn check_indices(fields: &Vec<Field>) -> (r: bool)
    ensures
        r == distinct_indices(field_indices(fields@)),
{
    let ghost indices = field_indices(fields@);
    let mut k: usize = 0;
    while k < fields.len()
        invariant
            k <= fields@.len(),
            indices == field_indices(fields@),
            forall|j: int| 0 <= j < k ==> 0 <= #[trigger] indices[j] <= i32::MAX,
            forall|a: int, b: int|
                0 <= a < b < k ==> #[trigger] indices[a] != #[trigger] indices[b],
        decreases fields@.len() - k,
    {
        if fields[k].index < 0 {
            proof {
                assert(indices[k as int] < 0);
            }
            return false;
        }
        let mut j: usize = 0;
        while j < k
            invariant
                j <= k < fields@.len(),
                indices == field_indices(fields@),
                forall|a: int| 0 <= a < j ==> #[trigger] indices[a] != indices[k as int],
            decreases k - j,
        {
            if fields[j].index == fields[k].index {
                proof {
                    assert(indices[j as int] == indices[k as int]);
                }
                return false;
            }
            j = j + 1;
        }
        k = k + 1;
    }
    true
}

/// Whether the first four bytes of `value` are a size or a count.
pub fn is_sized(value: &Value) -> (r: bool)
    ensures
        r == starts_with_size(datum(*value)),
{
    match value {
        Value::Object(_) | Value::Union(_, _) | Value::Sequence(_) => true,
        _ => false,
    }
}

/// A value that is present where it may be absent: behind `Nullable` where
/// it begins with a size or a count, behind `HasValue` where it does not.
pub fn present(value: Value) -> (r: Value)
    ensures
        datum(r) == (if starts_with_size(datum(value)) {
            Datum::Nullable(Some(Box::new(datum(value))))
        } else {
            Datum::HasValue(Some(Box::new(datum(value))))
        }),
        valid(datum(value)) ==> valid(datum(r)),
{
    if is_sized(&value) {
        Value::Nullable(Some(Box::new(value)))
    } else {
        Value::HasValue(Some(Box::new(value)))
    }
}

/// The absent value of an optional `shape`.
pub fn absent(shape: &Shape) -> (r: Value)
    ensures
        datum(r) == (if shape.starts_with_size() {
            Datum::Nullable(None)
        } else {
            Datum::HasValue(None)
        }),
        valid(datum(r)),
{
    if shape.is_sized() {
        Value::Nullable(None)
    } else {
        Value::HasValue(None)
    }
}

/// Whether `value` has an encoding.
pub fn check(value: &Value) -> (r: bool)
    ensures
        r == valid(datum(*value)),
    decreases value,
{
    match value {
        Value::Bool(_) | Value::Int(_) | Value::Str(_) => true,
        Value::Instant(t) => t.nanos < NANOS_PER_SECOND,
        Value::Duration(t) => t.seconds <= i64::MAX as u64 && t.nanos < NANOS_PER_SECOND,
        Value::HasValue(None) | Value::Nullable(None) => true,
        Value::HasValue(Some(x)) => !is_sized(x) && check(x),
        Value::Nullable(Some(x)) => is_sized(x) && check(x),
        Value::Tuple(a, b) => check(a) && check(b),
        Value::Struct(fields) => {
            proof {
                lemma_data(fields@);
            }
            let mut k: usize = 0;
            while k < fields.len()
                invariant
                    k <= fields@.len(),
                    *value == Value::Struct(*fields),
                    forall|j: int| 0 <= j < k ==> valid(#[trigger] data(fields@)[j]),
                decreases fields@.len() - k,
            {
                proof {
                    lemma_data(fields@);
                    assert(value->Struct_0 == *fields);
                    assert(decreases_to!(*value => value->Struct_0));
                    assert(decreases_to!(*fields => fields[k as int]));
                }
                if !check(&fields[k]) {
                    proof {
                        assert(!valid(data(fields@)[k as int]));
                        assert(!all_valid(data(fields@)));
                    }
                    return false;
                }
                k = k + 1;
            }
            proof {
                lemma_data(fields@);
                assert(all_valid(data(fields@)));
            }
            true
        },
        Value::Object(fields) => {
            proof {
                lemma_field_data(fields@);
            }
            if !check_indices(fields) {
                return false;
            }
            let mut k: usize = 0;
            while k < fields.len()
                invariant
                    k <= fields@.len(),
                    *value == Value::Object(*fields),
                    forall|j: int| 0 <= j < k ==> valid(#[trigger] field_data(fields@)[j]),
                decreases fields@.len() - k,
            {
                proof {
                    lemma_field_data(fields@);
                    assert(value->Object_0 == *fields);
                    assert(decreases_to!(*value => value->Object_0));
                    assert(decreases_to!(*fields => fields[k as int]));
                    assert(decreases_to!(*value => fields[k as int].value));
                }
                if !check(&fields[k].value) {
                    proof {
                        assert(!valid(field_data(fields@)[k as int]));
                        assert(!all_valid(field_data(fields@)));
                    }
                    return false;
                }
                k = k + 1;
            }
            proof {
                lemma_field_data(fields@);
                assert(all_valid(field_data(fields@)));
            }
            true
        },
        Value::Union(_, x) => check(x),
        Value::Sequence(items) => {
            proof {
                lemma_data(items@);
            }
            if items.len() > i32::MAX as usize {
                return false;
            }
            let mut k: usize = 0;
            while k < items.len()
                invariant
                    k <= items@.len(),
                    *value == Value::Sequence(*items),
                    forall|j: int| 0 <= j < k ==> valid(#[trigger] data(items@)[j]),
                decreases items@.len() - k,
            {
                proof {
                    lemma_data(items@);
                    assert(value->Sequence_0 == *items);
                    assert(decreases_to!(*value => value->Sequence_0));
                    assert(decreases_to!(*items => items[k as int]));
                }
                if !check(&items[k]) {
                    proof {
                        assert(!valid(data(items@)[k as int]));
                        assert(!all_valid(data(items@)));
                    }
                    return false;
                }
                k = k + 1;
            }
            proof {
                lemma_data(items@);
                assert(all_valid(data(items@)));
            }
            true
        },
    }
}

/// The largest index of `fields`, and -1 where there is none.
fn find_last_index(fields: &Vec<Field>) -> (r: i32)
    ensures
        r == last_index(field_indices(fields@)),
{
    let ghost indices = field_indices(fields@);
    let mut last: i32 = -1;
    let mut k: usize = 0;
    proof {
        assert(indices.take(0) =~= Seq::<int>::empty());
    }
    while k < fields.len()
        invariant
            k <= fields@.len(),
            indices == field_indices(fields@),
            last == last_index(indices.take(k as int)),
        decreases fields@.len() - k,
    {
        proof {
            lemma_last_index_push(indices.take(k as int), indices[k as int]);
            assert(indices.take(k + 1) =~= indices.take(k as int).push(indices[k as int]));
        }
        if fields[k].index > last {
            last = fields[k].index;
        }
        k = k + 1;
    }
    proof {
        assert(indices.take(k as int) =~= indices);
    }
    last
}

/// The sum of what has been counted and `more`, where that is within `LIMIT`.
fn add_sizes(so_far: u64, more: Option<u64>) -> (r: Option<u64>)
    requires
        so_far <= LIMIT,
        more matches Some(m) ==> m <= LIMIT,
    ensures
        match r {
            Some(n) => more matches Some(m) && n == so_far + m && n <= LIMIT,
            None => more is None || so_far + more->Some_0 > LIMIT,
        },
{
    match more {
        None => None,
        Some(m) => {
            if m > LIMIT - so_far {
                None
            } else {
                Some(so_far + m)
            }
        },
    }
}

/// The number of bytes that `value` takes when it is written, where they
/// are no more than `LIMIT`.
pub fn measure(value: &Value) -> (r: Option<u64>)
    ensures
        match r {
            Some(n) => n == size(datum(*value)) && n <= LIMIT,
            None => size(datum(*value)) > LIMIT,
        },
    decreases value,
{
    match value {
        Value::Bool(_) => Some(1),
        Value::Int(i) => Some(i.get_kind().size()),
        Value::Str(s) => {
            let n: usize = s.as_str().as_bytes().len();
            if n > (LIMIT - 4) as usize {
                None
            } else {
                Some(n as u64 + 4)
            }
        },
        Value::Instant(_) | Value::Duration(_) => Some(12),
        Value::HasValue(None) => Some(1),
        Value::HasValue(Some(x)) => add_sizes(1, measure(x)),
        Value::Nullable(None) => Some(4),
        Value::Nullable(Some(x)) => measure(x),
        Value::Tuple(a, b) => match measure(a) {
            None => None,
            Some(n) => add_sizes(n, measure(b)),
        },
        Value::Struct(fields) => {
            let mut total: u64 = 0;
            let mut k: usize = 0;
            while k < fields.len()
                invariant
                    k <= fields@.len(),
                    *value == Value::Struct(*fields),
                    total == sizes(data(fields@), k as nat),
                    total <= LIMIT,
                decreases fields@.len() - k,
            {
                proof {
                    lemma_data(fields@);
                    assert(value->Struct_0 == *fields);
                    assert(decreases_to!(*value => value->Struct_0));
                    assert(decreases_to!(*fields => fields[k as int]));
                }
                match add_sizes(total, measure(&fields[k])) {
                    None => {
                        proof {
                            lemma_sizes_grow(data(fields@), (k + 1) as nat, fields@.len());
                        }
                        return None;
                    },
                    Some(n) => {
                        total = n;
                    },
                }
                k = k + 1;
            }
            proof {
                lemma_data(fields@);
            }
            Some(total)
        },
        Value::Object(fields) => {
            let last: i32 = find_last_index(fields);
            proof {
                lemma_last_index(field_indices(fields@));
            }
            let header: u64 = 8 + 4 * ((last as i64 + 1) as u64);
            if header > LIMIT {
                return None;
            }
            let mut total: u64 = 0;
            let mut k: usize = 0;
            while k < fields.len()
                invariant
                    k <= fields@.len(),
                    *value == Value::Object(*fields),
                    header == header_size(field_indices(fields@)),
                    header <= LIMIT,
                    total == sizes(field_data(fields@), k as nat),
                    header + total <= LIMIT,
                decreases fields@.len() - k,
            {
                proof {
                    lemma_field_data(fields@);
                    assert(value->Object_0 == *fields);
                    assert(decreases_to!(*value => value->Object_0));
                    assert(decreases_to!(*fields => fields[k as int]));
                    assert(decreases_to!(*value => fields[k as int].value));
                }
                match add_sizes(header + total, measure(&fields[k].value)) {
                    None => {
                        proof {
                            lemma_sizes_grow(field_data(fields@), (k + 1) as nat, fields@.len());
                        }
                        return None;
                    },
                    Some(n) => {
                        total = n - header;
                    },
                }
                k = k + 1;
            }
            proof {
                lemma_field_data(fields@);
            }
            Some(header + total)
        },
        Value::Union(key, x) => add_sizes(4 + key.get_kind().size(), measure(x)),
        Value::Sequence(items) => {
            let mut total: u64 = 4;
            let mut k: usize = 0;
            while k < items.len()
                invariant
                    k <= items@.len(),
                    *value == Value::Sequence(*items),
                    total == 4 + sizes(data(items@), k as nat),
                    total <= LIMIT,
                decreases items@.len() - k,
            {
                proof {
                    lemma_data(items@);
                    assert(value->Sequence_0 == *items);
                    assert(decreases_to!(*value => value->Sequence_0));
                    assert(decreases_to!(*items => items[k as int]));
                }
                match add_sizes(total, measure(&items[k])) {
                    None => {
                        proof {
                            lemma_sizes_grow(data(items@), (k + 1) as nat, items@.len());
                        }
                        return None;
                    },
                    Some(n) => {
                        total = n;
                    },
                }
                k = k + 1;
            }
            proof {
                lemma_data(items@);
            }
            Some(total)
        },
    }
}

impl Buffer {
    /// Writes a signed 32-bit number at `at`.
    fn put_i32(&mut self, at: u64, v: i32)
        requires
            at + 4 <= LIMIT,
        ensures
            final(self)@.bytes == overwrite(old(self)@.bytes, at as int, i32_wire(v as int)),
            final(self)@.position == old(self)@.position,
    {
        let b: [u8; 4] = i32_to_le(v);
        self.poke(at, array_as_slice(&b));
    }

    /// Writes an integer at `at`.
    fn put_int(&mut self, at: u64, i: Int)
        requires
            at + i.kind().width() <= LIMIT,
        ensures
            final(self)@.bytes == overwrite(old(self)@.bytes, at as int, int_wire(i)),
            final(self)@.position == old(self)@.position,
    {
        proof {
            lemma_radix_values();
            reveal_with_fuel(le_bytes, 2);
        }
        match i {
            Int::U8(v) => {
                let b: [u8; 1] = [v];
                assert(b@ =~= int_wire(i));
                self.poke(at, array_as_slice(&b));
            },
            Int::U16(v) => {
                let b: [u8; 2] = u16_to_le(v);
                self.poke(at, array_as_slice(&b));
            },
            Int::U32(v) => {
                let b: [u8; 4] = u32_to_le(v);
                self.poke(at, array_as_slice(&b));
            },
            Int::U64(v) => {
                let b: [u8; 8] = u64_to_le(v);
                self.poke(at, array_as_slice(&b));
            },
            Int::I8(v) => {
                let wide: i16 = v as i16;
                let b: [u8; 1] = [if wide < 0 { (wide + 256) as u8 } else { wide as u8 }];
                assert(b@ =~= int_wire(i));
                self.poke(at, array_as_slice(&b));
            },
            Int::I16(v) => {
                let b: [u8; 2] = i16_to_le(v);
                self.poke(at, array_as_slice(&b));
            },
            Int::I32(v) => {
                let b: [u8; 4] = i32_to_le(v);
                self.poke(at, array_as_slice(&b));
            },
            Int::I64(v) => {
                let b: [u8; 8] = i64_to_le(v);
                self.poke(at, array_as_slice(&b));
            },
        }
    }

    /// Writes seconds and nanoseconds at `at`.
    fn put_time(&mut self, at: u64, seconds: i64, nanos: i32)
        requires
            at + 12 <= LIMIT,
        ensures
            final(self)@.bytes == overwrite(
                old(self)@.bytes,
                at as int,
                time_wire(seconds as int, nanos as int),
            ),
            final(self)@.position == old(self)@.position,
    {
        let head: [u8; 8] = i64_to_le(seconds);
        let tail: [u8; 4] = i32_to_le(nanos);
        proof {
            lemma_le_bytes_len(unsigned(seconds as int, 8), 8);
        }
        self.poke(at, array_as_slice(&head));
        self.poke(at + 8, array_as_slice(&tail));
        proof {
            lemma_overwrite_append(old(self)@.bytes, at as int, head@, tail@);
        }
    }

    /// Writes `value` at `at` and returns the number of bytes written. The
    /// cursor stays where it was.
    pub(crate) fn write_at(&mut self, value: &Value, at: u64) -> (n: u64)
        requires
            encodable(datum(*value), at as int),
        ensures
            n == size(datum(*value)),
            final(self)@.bytes == overwrite(
                old(self)@.bytes,
                at as int,
                wire(datum(*value), at as int),
            ),
            final(self)@.position == old(self)@.position,
        decreases value, 0nat,
    {
        let ghost d = datum(*value);
        proof {
            lemma_wire_len(d, at as int);
        }
        match value {
            Value::Bool(b) => {
                let byte: [u8; 1] = [if *b { 1u8 } else { 0u8 }];
                assert(byte@ =~= wire(d, at as int));
                self.poke(at, array_as_slice(&byte));
                1
            },
            Value::Int(i) => {
                self.put_int(at, *i);
                i.get_kind().size()
            },
            Value::Str(s) => {
                let payload: &[u8] = s.as_str().as_bytes();
                let n: usize = payload.len();
                proof {
                    lemma_le_bytes_len(n as nat, 4);
                }
                self.put_i32(at, n as i32);
                self.poke(at + 4, payload);
                proof {
                    lemma_overwrite_append(
                        old(self)@.bytes,
                        at as int,
                        i32_wire(n as int),
                        payload@,
                    );
                }
                n as u64 + 4
            },
            Value::Instant(t) => {
                self.put_time(at, t.seconds, t.nanos as i32);
                12
            },
            Value::Duration(t) => {
                self.put_time(at, t.seconds as i64, t.nanos as i32);
                12
            },
            Value::HasValue(None) => {
                let byte: [u8; 1] = [0u8];
                assert(byte@ =~= wire(d, at as int));
                self.poke(at, array_as_slice(&byte));
                1
            },
            Value::HasValue(Some(x)) => {
                let byte: [u8; 1] = [1u8];
                assert(byte@ =~= seq![1u8]);
                self.poke(at, array_as_slice(&byte));
                let n: u64 = self.write_at(x, at + 1);
                proof {
                    lemma_overwrite_append(
                        old(self)@.bytes,
                        at as int,
                        seq![1u8],
                        wire(datum(**x), at + 1),
                    );
                }
                n + 1
            },
            Value::Nullable(None) => {
                self.put_i32(at, -1);
                4
            },
            Value::Nullable(Some(x)) => self.write_at(x, at),
            Value::Tuple(a, b) => {
                proof {
                    lemma_wire_len(datum(**a), at as int);
                }
                let first: u64 = self.write_at(a, at);
                let second: u64 = self.write_at(b, at + first);
                proof {
                    lemma_overwrite_append(
                        old(self)@.bytes,
                        at as int,
                        wire(datum(**a), at as int),
                        wire(datum(**b), at + first),
                    );
                }
                first + second
            },
            Value::Struct(fields) => {
                proof {
                    assert(decreases_to!(*value => value->Struct_0));
                    lemma_data(fields@);
                }
                self.write_each_at(fields, at)
            },
            Value::Object(fields) => {
                proof {
                    assert(decreases_to!(*value => value->Object_0));
                }
                self.write_object_at(fields, at)
            },
            Value::Union(key, x) => {
                let width: u64 = key.get_kind().size();
                let ghost head = i32_wire(size(d) as int) + int_wire(*key);
                proof {
                    lemma_i32_wire_len(size(d) as int);
                    lemma_int_wire_len(*key);
                }
                self.fill(at, 4);
                self.put_int(at + 4, *key);
                let n: u64 = self.write_at(x, at + 4 + width);
                self.put_i32(at, (4 + width + n) as i32);
                proof {
                    lemma_zero_word();
                    let zeros = Seq::new(4, |i: int| 0u8);
                    let body = wire(datum(**x), at + 4 + width);
                    lemma_wire_len(datum(**x), at + 4 + width);
                    lemma_overwrite_append(old(self)@.bytes, at as int, zeros, int_wire(*key));
                    lemma_overwrite_append(
                        old(self)@.bytes,
                        at as int,
                        zeros + int_wire(*key),
                        body,
                    );
                    lemma_overwrite_inside(
                        old(self)@.bytes,
                        at as int,
                        zeros + int_wire(*key) + body,
                        0,
                        i32_wire(size(d) as int),
                    );
                    assert(overwrite(zeros + int_wire(*key) + body, 0, i32_wire(size(d) as int))
                        =~= wire(d, at as int));
                }
                4 + width + n
            },
            Value::Sequence(items) => {
                proof {
                    assert(decreases_to!(*value => value->Sequence_0));
                    lemma_i32_wire_len(items@.len() as int);
                    lemma_data(items@);
                }
                self.put_i32(at, items.len() as i32);
                let n: u64 = self.write_each_at(items, at + 4);
                proof {
                    lemma_overwrite_append(
                        old(self)@.bytes,
                        at as int,
                        i32_wire(items@.len() as int),
                        wires(data(items@), at + 4, items@.len()),
                    );
                }
                n + 4
            },
        }
    }

    /// Writes `items` one behind the other from `at`.
    fn write_each_at(&mut self, items: &Vec<Value>, at: u64) -> (n: u64)
        requires
            all_valid(data(items@)),
            at + sizes(data(items@), items@.len()) <= LIMIT,
        ensures
            n == sizes(data(items@), items@.len()),
            final(self)@.bytes == overwrite(
                old(self)@.bytes,
                at as int,
                wires(data(items@), at as int, items@.len()),
            ),
            final(self)@.position == old(self)@.position,
        decreases items, 1nat,
    {
        let ghost all = data(items@);
        let empty: [u8; 0] = [];
        self.poke(at, array_as_slice(&empty));
        let mut total: u64 = 0;
        let mut k: usize = 0;
        proof {
            assert(empty@ =~= wires(all, at as int, 0));
        }
        while k < items.len()
            invariant
                k <= items@.len(),
                all == data(items@),
                all_valid(all),
                at + sizes(all, items@.len()) <= LIMIT,
                total == sizes(all, k as nat),
                self@.bytes == overwrite(old(self)@.bytes, at as int, wires(all, at as int, k as nat)),
                self@.position == old(self)@.position,
            decreases items@.len() - k,
        {
            proof {
                lemma_data(items@);
                lemma_sizes_grow(all, (k + 1) as nat, items@.len());
                lemma_wires_len(all, at as int, k as nat);
                assert(decreases_to!(*items => items[k as int]));
                assert(valid(all[k as int]));
            }
            let n: u64 = self.write_at(&items[k], at + total);
            proof {
                lemma_overwrite_append(
                    old(self)@.bytes,
                    at as int,
                    wires(all, at as int, k as nat),
                    wire(all[k as int], at + total),
                );
            }
            total = total + n;
            k = k + 1;
        }
        total
    }

    /// Writes an object at `at`: the table is entered field by field while
    /// the fields are written behind it, and the size goes in last.
    fn write_object_at(&mut self, fields: &Vec<Field>, at: u64) -> (n: u64)
        requires
            encodable(Datum::Object(field_indices(fields@), field_data(fields@)), at as int),
        ensures
            n == size(Datum::Object(field_indices(fields@), field_data(fields@))),
            final(self)@.bytes == overwrite(
                old(self)@.bytes,
                at as int,
                wire(Datum::Object(field_indices(fields@), field_data(fields@)), at as int),
            ),
            final(self)@.position == old(self)@.position,
        decreases fields, 1nat,
    {
        let ghost indices = field_indices(fields@);
        let ghost values = field_data(fields@);
        let ghost d = Datum::Object(indices, values);
        let ghost start = at as int;
        let last: i32 = find_last_index(fields);
        proof {
            lemma_last_index(indices);
            lemma_field_data(fields@);
            lemma_image_start(indices, values, start);
            lemma_image_len(indices, values, start, 0, 0, 0);
            lemma_i32_wire_len(last as int);
        }
        let header: u64 = 8 + 4 * ((last as i64 + 1) as u64);
        self.fill(at, header);
        self.put_i32(at + 4, last);
        proof {
            lemma_overwrite_inside(
                old(self)@.bytes,
                start,
                Seq::new(header as nat, |i: int| 0u8),
                4,
                i32_wire(last as int),
            );
        }
        let mut total: u64 = 0;
        let mut k: usize = 0;
        while k < fields.len()
            invariant
                k <= fields@.len(),
                start == at,
                indices == field_indices(fields@),
                values == field_data(fields@),
                d == Datum::Object(indices, values),
                encodable(d, start),
                header == header_size(indices),
                total == sizes(values, k as nat),
                self@.bytes == overwrite(
                    old(self)@.bytes,
                    start,
                    image(indices, values, start, 0, k as nat, k as nat),
                ),
                self@.position == old(self)@.position,
            decreases fields@.len() - k,
        {
            proof {
                lemma_field_data(fields@);
                lemma_sizes_grow(values, (k + 1) as nat, fields@.len());
                lemma_image_len(indices, values, start, 0, k as nat, k as nat);
                lemma_image_len(indices, values, start, 0, (k + 1) as nat, k as nat);
                lemma_image_enter(indices, values, start, k as nat);
                lemma_image_append(indices, values, start, k as nat);
                lemma_i32_wire_len(start + header + total);
                assert(all_valid(values));
                assert(valid(values[k as int]));
                assert(indices[k as int] == fields@[k as int].index);
                assert(decreases_to!(*fields => fields[k as int]));
            }
            let index: i32 = fields[k].index;
            self.put_i32(at + 8 + 4 * (index as u64), (at + header + total) as i32);
            proof {
                lemma_overwrite_inside(
                    old(self)@.bytes,
                    start,
                    image(indices, values, start, 0, k as nat, k as nat),
                    8 + 4 * index,
                    i32_wire(start + header + total),
                );
            }
            let n: u64 = self.write_at(&fields[k].value, at + header + total);
            proof {
                lemma_overwrite_append(
                    old(self)@.bytes,
                    start,
                    image(indices, values, start, 0, (k + 1) as nat, k as nat),
                    wire(values[k as int], start + header + total),
                );
            }
            total = total + n;
            k = k + 1;
        }
        proof {
            lemma_field_data(fields@);
            lemma_image_len(indices, values, start, 0, k as nat, k as nat);
            lemma_image_close(indices, values, start);
            lemma_i32_wire_len(size(d) as int);
            lemma_overwrite_inside(
                old(self)@.bytes,
                start,
                image(indices, values, start, 0, k as nat, k as nat),
                0,
                i32_wire(size(d) as int),
            );
        }
        self.put_i32(at, (header + total) as i32);
        header + total
    }
}

} // verus!
