use zero_formatter::buffer::Buffer;
use zero_formatter::conform::conforms_to;
use zero_formatter::encode::{absent, check, is_sized, measure, present};
use zero_formatter::decode::default_value;
use zero_formatter::formatter::Formatter;
use zero_formatter::schema::{CaseShape, FieldShape, Int, IntKind, Shape};
use zero_formatter::sound::is_sound;
use zero_formatter::time::{Duration, Instant};
use zero_formatter::value::{Field, Value};

fn round_trip(value: Value, shape: Shape, at: u64) -> Vec<u8> {
    let mut buffer = Buffer::new(Vec::new());
    let n = buffer.encode(at, &value).unwrap();
    assert_eq!(Some(n as u64), measure(&value));
    assert_eq!(buffer.position(), at + n as u64);
    let mut offset = at;
    assert_eq!(value, buffer.decode(&mut offset, &shape).unwrap());
    assert_eq!(offset, at + n as u64);
    assert_eq!(buffer.position(), offset);
    buffer.into_inner()
}

#[test]
fn primitive_u32_at_offset_zero() {
    let mut buffer = Buffer::new(Vec::new());
    assert_eq!(buffer.serialize(0, 1u32).unwrap(), 4);
    assert_eq!(buffer.get_ref(), &vec![1, 0, 0, 0]);
    assert_eq!(buffer.position(), 4);
    let mut offset = 0;
    let v: u32 = buffer.deserialize(&mut offset).unwrap();
    assert_eq!(v, 1);
    assert_eq!(offset, 4);
}

#[test]
fn integers_are_little_endian() {
    let mut buffer = Buffer::new(Vec::new());
    assert_eq!(buffer.serialize(0, 0x0102u16).unwrap(), 2);
    assert_eq!(buffer.serialize(2, 0x01020304u32).unwrap(), 4);
    assert_eq!(buffer.serialize(6, 0x0102030405060708u64).unwrap(), 8);
    assert_eq!(buffer.serialize(14, -2i16).unwrap(), 2);
    assert_eq!(buffer.serialize(16, -3i32).unwrap(), 4);
    assert_eq!(buffer.serialize(20, -4i64).unwrap(), 8);
    assert_eq!(buffer.serialize(28, -5i8).unwrap(), 1);
    assert_eq!(
        buffer.get_ref(),
        &vec![
            2, 1, 4, 3, 2, 1, 8, 7, 6, 5, 4, 3, 2, 1, 0xfe, 0xff, 0xfd, 0xff, 0xff, 0xff, 0xfc,
            0xff, 0xff, 0xff, 0xff, 0xff, 0xff, 0xff, 0xfb
        ]
    );
    let mut offset = 0;
    let a: u16 = buffer.deserialize(&mut offset).unwrap();
    let b: u32 = buffer.deserialize(&mut offset).unwrap();
    let c: u64 = buffer.deserialize(&mut offset).unwrap();
    let d: i16 = buffer.deserialize(&mut offset).unwrap();
    let e: i32 = buffer.deserialize(&mut offset).unwrap();
    let f: i64 = buffer.deserialize(&mut offset).unwrap();
    let g: i8 = buffer.deserialize(&mut offset).unwrap();
    assert_eq!((a, b, c, d, e, f, g), (0x0102, 0x01020304, 0x0102030405060708, -2, -3, -4, -5));
    assert_eq!(offset, 29);
}

#[test]
fn integers_at_their_bounds() {
    let values = vec![
        Int::U8(0), Int::U8(u8::MAX), Int::U16(0), Int::U16(u16::MAX), Int::U32(0),
        Int::U32(u32::MAX), Int::U64(0), Int::U64(u64::MAX), Int::I8(i8::MIN), Int::I8(0),
        Int::I8(i8::MAX), Int::I16(i16::MIN), Int::I16(0), Int::I16(i16::MAX), Int::I32(i32::MIN),
        Int::I32(0), Int::I32(i32::MAX), Int::I64(i64::MIN), Int::I64(0), Int::I64(i64::MAX),
    ];
    for i in values {
        round_trip(Value::Int(i), Shape::Int(i.get_kind()), 3);
    }
    let mut buffer = Buffer::new(Vec::new());
    buffer.serialize(0, i64::MIN).unwrap();
    buffer.serialize(8, u64::MAX).unwrap();
    buffer.serialize(16, i32::MIN).unwrap();
    buffer.serialize(20, i16::MAX).unwrap();
    buffer.serialize(22, i8::MIN).unwrap();
    let mut offset = 0;
    assert_eq!(i64::MIN, buffer.deserialize(&mut offset).unwrap());
    assert_eq!(u64::MAX, buffer.deserialize(&mut offset).unwrap());
    assert_eq!(i32::MIN, buffer.deserialize(&mut offset).unwrap());
    assert_eq!(i16::MAX, buffer.deserialize(&mut offset).unwrap());
    assert_eq!(i8::MIN, buffer.deserialize(&mut offset).unwrap());
}

#[test]
fn only_the_byte_one_is_true() {
    let mut buffer = Buffer::new(vec![2, 0xff, 1, 0]);
    let mut offset = 0;
    let a: bool = buffer.deserialize(&mut offset).unwrap();
    let b: bool = buffer.deserialize(&mut offset).unwrap();
    let c: bool = buffer.deserialize(&mut offset).unwrap();
    let d: bool = buffer.deserialize(&mut offset).unwrap();
    assert_eq!((a, b, c, d), (false, false, true, false));
    let mut offset = 0;
    assert_eq!(Value::Bool(false), buffer.decode(&mut offset, &Shape::Bool).unwrap());
    // a flag other than 1 announces no value
    let mut offset = 0;
    let none: Option<u8> = buffer.deserialize(&mut offset).unwrap();
    assert_eq!(none, None);
    assert_eq!(offset, 1);
}

#[test]
fn a_write_behind_the_end_fills_the_gap_with_zeros() {
    let mut buffer = Buffer::new(vec![7]);
    assert_eq!(buffer.serialize(3, 0x0102u16).unwrap(), 2);
    assert_eq!(buffer.get_ref(), &vec![7, 0, 0, 2, 1]);
    assert_eq!(buffer.serialize(1, 9u8).unwrap(), 1);
    assert_eq!(buffer.into_inner(), vec![7, 9, 0, 2, 1]);
}

#[test]
fn raw_runs_are_written_and_read_at_the_cursor() {
    let mut buffer = Buffer::new(Vec::new());
    buffer.seek(2);
    buffer.write_all(&[1, 2, 3]).unwrap();
    assert_eq!(buffer.position(), 5);
    buffer.seek(1);
    assert_eq!(buffer.read_exact(3).unwrap(), vec![0, 1, 2]);
    assert_eq!(buffer.position(), 4);
    assert!(buffer.read_exact(2).is_err());
    assert_eq!(buffer.position(), 4);
    assert_eq!(buffer.into_inner(), vec![0, 0, 1, 2, 3]);
}

#[test]
fn string_round_trip_and_empty_string() {
    let bytes = round_trip(Value::Str(String::from("あいうえお")), Shape::Str, 0);
    assert_eq!(bytes.len(), 19);
    assert_eq!(&bytes[..4], &[0x0f, 0, 0, 0]);
    assert_eq!(round_trip(Value::Str(String::new()), Shape::Str, 0), vec![0, 0, 0, 0]);
    let mut buffer = Buffer::new(Vec::new());
    assert_eq!(buffer.serialize(0, String::new()).unwrap(), 4);
    let mut offset = 0;
    let s: String = buffer.deserialize(&mut offset).unwrap();
    assert_eq!(s, "");
}

#[test]
fn duration_of_one_second_and_two_nanoseconds() {
    let bytes = round_trip(Value::Duration(Duration::new(1, 2)), Shape::Duration, 0);
    assert_eq!(bytes, vec![1, 0, 0, 0, 0, 0, 0, 0, 2, 0, 0, 0]);
    let d = Duration::new(1, 2);
    assert_eq!((d.as_secs(), d.subsec_nanos()), (1, 2));
    round_trip(Value::Duration(Duration::new(i64::MAX as u64, 999_999_999)), Shape::Duration, 0);
    round_trip(Value::Duration(Duration::new(0, 0)), Shape::Duration, 5);
}

#[test]
fn instant_before_and_after_the_epoch() {
    let bytes = round_trip(Value::Instant(Instant::new(-1, 999_999_999)), Shape::Instant, 0);
    assert_eq!(bytes, vec![0xff, 0xff, 0xff, 0xff, 0xff, 0xff, 0xff, 0xff, 0xff, 0xc9, 0x9a, 0x3b]);
    round_trip(Value::Instant(Instant::new(i64::MIN, 0)), Shape::Instant, 0);
    round_trip(Value::Instant(Instant::new(i64::MAX, 1)), Shape::Instant, 1);
}

#[test]
fn optional_time_behind_a_flag() {
    let mut buffer = Buffer::new(Vec::new());
    assert_eq!(buffer.serialize(0, Some(Duration::new(1, 2))).unwrap(), 13);
    let none: Option<Instant> = None;
    assert_eq!(buffer.serialize(13, none).unwrap(), 1);
    assert_eq!(buffer.get_ref(), &vec![1, 1, 0, 0, 0, 0, 0, 0, 0, 2, 0, 0, 0, 0]);
    let mut offset = 0;
    let a: Option<Duration> = buffer.deserialize(&mut offset).unwrap();
    let b: Option<Instant> = buffer.deserialize(&mut offset).unwrap();
    assert_eq!((a, b), (Some(Duration::new(1, 2)), None));
    assert_eq!(offset, 14);
}

#[test]
fn pairs_of_different_shapes() {
    let mut buffer = Buffer::new(Vec::new());
    assert_eq!(buffer.serialize(0, (String::from("ab"), (true, -1i16))).unwrap(), 9);
    assert_eq!(buffer.get_ref(), &vec![2, 0, 0, 0, 0x61, 0x62, 1, 0xff, 0xff]);
    let mut offset = 0;
    let back: (String, (bool, i16)) = buffer.deserialize(&mut offset).unwrap();
    assert_eq!(back, (String::from("ab"), (true, -1)));
    let value = Value::Tuple(
        Box::new(Value::Str(String::from("ab"))),
        Box::new(Value::Tuple(Box::new(Value::Bool(true)), Box::new(Value::Int(Int::I16(-1))))),
    );
    let shape = Shape::Tuple(
        Box::new(Shape::Str),
        Box::new(Shape::Tuple(Box::new(Shape::Bool), Box::new(Shape::Int(IntKind::I16)))),
    );
    assert_eq!(round_trip(value, shape, 0), buffer.into_inner());
}

#[test]
fn a_failed_pair_moves_nothing() {
    let mut buffer = Buffer::new(vec![1, 0]);
    buffer.seek(1);
    let mut offset = 0;
    let r: Result<(u8, u32), _> = buffer.deserialize(&mut offset);
    assert!(r.is_err());
    assert_eq!(offset, 0);
    assert_eq!(buffer.position(), 1);
}

#[test]
fn sequences_of_sequences_and_the_empty_sequence() {
    let mut buffer = Buffer::new(Vec::new());
    assert_eq!(buffer.serialize(0, vec![vec![1u8, 2], vec![], vec![3]]).unwrap(), 19);
    assert_eq!(
        buffer.get_ref(),
        &vec![3, 0, 0, 0, 2, 0, 0, 0, 1, 2, 0, 0, 0, 0, 1, 0, 0, 0, 3]
    );
    let mut offset = 0;
    let back: Vec<Vec<u8>> = buffer.deserialize(&mut offset).unwrap();
    assert_eq!(back, vec![vec![1u8, 2], vec![], vec![3]]);
    assert_eq!(offset, 19);
    let empty: Vec<i64> = Vec::new();
    let mut buffer = Buffer::new(Vec::new());
    assert_eq!(buffer.serialize(0, empty).unwrap(), 4);
    assert_eq!(buffer.into_inner(), vec![0, 0, 0, 0]);
    assert_eq!(
        round_trip(Value::Sequence(Vec::new()), Shape::Sequence(Box::new(Shape::Str)), 0),
        vec![0, 0, 0, 0]
    );
}

#[test]
fn absent_sequence_is_the_count_minus_one() {
    let mut buffer = Buffer::new(Vec::new());
    let none: Option<Vec<i32>> = None;
    assert_eq!(buffer.serialize(0, none).unwrap(), 4);
    assert_eq!(buffer.serialize(4, Some(vec![5i32])).unwrap(), 8);
    assert_eq!(buffer.get_ref(), &vec![0xff, 0xff, 0xff, 0xff, 1, 0, 0, 0, 5, 0, 0, 0]);
    let mut offset = 0;
    let a: Option<Vec<i32>> = buffer.deserialize(&mut offset).unwrap();
    assert_eq!(offset, 4);
    let b: Option<Vec<i32>> = buffer.deserialize(&mut offset).unwrap();
    assert_eq!((a, b), (None, Some(vec![5])));
    let shape = Shape::Nullable(Box::new(Shape::Sequence(Box::new(Shape::Int(IntKind::I32)))));
    let mut offset = 0;
    assert_eq!(Value::Nullable(None), buffer.decode(&mut offset, &shape).unwrap());
    assert_eq!(offset, 4);
    assert_eq!(
        Value::Nullable(Some(Box::new(Value::Sequence(vec![Value::Int(Int::I32(5))])))),
        buffer.decode(&mut offset, &shape).unwrap()
    );
    assert_eq!(offset, 12);
}

#[test]
fn absent_union_is_the_size_minus_one() {
    let shape = Shape::Nullable(Box::new(Shape::Union(
        IntKind::U8,
        vec![CaseShape { key: Int::U8(7), shape: Shape::Bool }],
    )));
    assert_eq!(round_trip(Value::Nullable(None), Shape::Nullable(Box::new(Shape::Bool)), 0), vec![0xff; 4]);
    let mut buffer = Buffer::new(vec![0xff, 0xff, 0xff, 0xff]);
    let mut offset = 0;
    assert_eq!(Value::Nullable(None), buffer.decode(&mut offset, &shape).unwrap());
    assert_eq!(offset, 4);
    let present = Value::Nullable(Some(Box::new(Value::Union(Int::U8(7), Box::new(Value::Bool(true))))));
    assert_eq!(round_trip(present, shape, 0), vec![6, 0, 0, 0, 7, 1]);
}

#[test]
fn union_of_an_object_and_a_struct() {
    let object = Shape::Object(vec![FieldShape { index: 0, shape: Shape::Int(IntKind::I32) }]);
    let shape = Shape::Union(
        IntKind::I32,
        vec![
            CaseShape { key: Int::I32(1), shape: object },
            CaseShape { key: Int::I32(2), shape: Shape::Struct(vec![Shape::Int(IntKind::I64)]) },
        ],
    );
    let a = Value::Union(
        Int::I32(1),
        Box::new(Value::Object(vec![Field { index: 0, value: Value::Int(Int::I32(1)) }])),
    );
    let bytes = round_trip(a, shape, 0);
    assert_eq!(
        bytes,
        vec![24, 0, 0, 0, 1, 0, 0, 0, 16, 0, 0, 0, 0, 0, 0, 0, 20, 0, 0, 0, 1, 0, 0, 0]
    );
}

#[test]
fn object_tables_hold_absolute_offsets() {
    let shape = Shape::Object(vec![
        FieldShape { index: 0, shape: Shape::Int(IntKind::I32) },
        FieldShape { index: 1, shape: Shape::Int(IntKind::I64) },
    ]);
    let value = Value::Object(vec![
        Field { index: 0, value: Value::Int(Int::I32(1)) },
        Field { index: 1, value: Value::Int(Int::I64(2)) },
    ]);
    let bytes = round_trip(value, shape, 5);
    assert_eq!(
        bytes,
        vec![
            0, 0, 0, 0, 0, 28, 0, 0, 0, 1, 0, 0, 0, 21, 0, 0, 0, 25, 0, 0, 0, 1, 0, 0, 0, 2, 0, 0,
            0, 0, 0, 0, 0
        ]
    );
}

#[test]
fn object_fields_in_any_order_and_with_gaps() {
    let shape = Shape::Object(vec![
        FieldShape { index: 3, shape: Shape::Int(IntKind::U8) },
        FieldShape { index: 1, shape: Shape::Bool },
    ]);
    let value = Value::Object(vec![
        Field { index: 3, value: Value::Int(Int::U8(9)) },
        Field { index: 1, value: Value::Bool(true) },
    ]);
    // the slots of the indices 0 and 2 are written as zeros over what was there
    let mut buffer = Buffer::new(vec![0xaa; 40]);
    assert_eq!(buffer.encode(0, &value).unwrap(), 26);
    assert_eq!(
        &buffer.get_ref()[..26],
        &[26, 0, 0, 0, 3, 0, 0, 0, 0, 0, 0, 0, 25, 0, 0, 0, 0, 0, 0, 0, 24, 0, 0, 0, 9, 1]
    );
    assert_eq!(buffer.get_ref()[26], 0xaa);
    let mut offset = 0;
    assert_eq!(value, buffer.decode(&mut offset, &shape).unwrap());
    assert_eq!(offset, 26);
    // a reader that asks for the gaps finds defaults
    let wider = Shape::Object(vec![
        FieldShape { index: 0, shape: Shape::Str },
        FieldShape { index: 1, shape: Shape::Bool },
        FieldShape { index: 2, shape: Shape::HasValue(Box::new(Shape::Bool)) },
        FieldShape { index: 3, shape: Shape::Int(IntKind::U8) },
    ]);
    let mut offset = 0;
    assert_eq!(
        Value::Object(vec![
            Field { index: 0, value: Value::Str(String::new()) },
            Field { index: 1, value: Value::Bool(true) },
            Field { index: 2, value: Value::HasValue(None) },
            Field { index: 3, value: Value::Int(Int::U8(9)) },
        ]),
        buffer.decode(&mut offset, &wider).unwrap()
    );
    assert_eq!(offset, 26);
}

#[test]
fn object_without_fields() {
    let bytes = round_trip(Value::Object(Vec::new()), Shape::Object(Vec::new()), 0);
    assert_eq!(bytes, vec![8, 0, 0, 0, 0xff, 0xff, 0xff, 0xff]);
}

#[test]
fn struct_without_fields_takes_no_bytes() {
    let mut buffer = Buffer::new(vec![1]);
    assert_eq!(buffer.encode(3, &Value::Struct(Vec::new())).unwrap(), 0);
    assert_eq!(buffer.position(), 3);
    assert_eq!(buffer.get_ref(), &vec![1, 0, 0]);
    let mut offset = 9;
    assert_eq!(Value::Struct(Vec::new()), buffer.decode(&mut offset, &Shape::Struct(Vec::new())).unwrap());
    assert_eq!(offset, 9);
}

#[test]
fn objects_within_objects() {
    let inner_shape = Shape::Object(vec![FieldShape { index: 1, shape: Shape::Str }]);
    let shape = Shape::Object(vec![
        FieldShape { index: 0, shape: Shape::Nullable(Box::new(Shape::Object(vec![FieldShape { index: 1, shape: Shape::Str }]))) },
        FieldShape { index: 1, shape: Shape::Sequence(Box::new(inner_shape)) },
    ]);
    let inner = |s: &str| Value::Object(vec![Field { index: 1, value: Value::Str(String::from(s)) }]);
    let value = Value::Object(vec![
        Field { index: 0, value: Value::Nullable(Some(Box::new(inner("x")))) },
        Field { index: 1, value: Value::Sequence(vec![inner("yz"), inner("")]) },
    ]);
    let bytes = round_trip(value, shape, 2);
    // size, last index, two entries, then the first field at 2 + 16
    assert_eq!(&bytes[2..18], &[83, 0, 0, 0, 1, 0, 0, 0, 18, 0, 0, 0, 39, 0, 0, 0]);
    // the inner object at 18: size 21, last index 1, entries 0 and 34
    assert_eq!(&bytes[18..34], &[21, 0, 0, 0, 1, 0, 0, 0, 0, 0, 0, 0, 34, 0, 0, 0]);
}

#[test]
fn check_tells_what_has_an_encoding() {
    assert!(check(&Value::Instant(Instant::new(0, 999_999_999))));
    assert!(!check(&Value::Instant(Instant::new(0, 1_000_000_000))));
    assert!(!check(&Value::Tuple(
        Box::new(Value::Bool(true)),
        Box::new(Value::Duration(Duration::new(u64::MAX, 0)))
    )));
    assert!(check(&Value::Nullable(Some(Box::new(Value::Sequence(Vec::new()))))));
    assert!(!check(&Value::Nullable(Some(Box::new(Value::Struct(Vec::new()))))));
    assert!(!check(&Value::Struct(vec![Value::Object(vec![
        Field { index: 2, value: Value::Bool(true) },
        Field { index: 0, value: Value::Bool(true) },
        Field { index: 2, value: Value::Bool(true) },
    ])])));
}

#[test]
fn measure_counts_headers_and_payloads() {
    assert_eq!(measure(&Value::Bool(true)), Some(1));
    assert_eq!(measure(&Value::Str(String::from("abc"))), Some(7));
    assert_eq!(measure(&Value::HasValue(Some(Box::new(Value::Int(Int::U64(1)))))), Some(9));
    assert_eq!(measure(&Value::Nullable(None)), Some(4));
    assert_eq!(
        measure(&Value::Object(vec![Field { index: 4, value: Value::Int(Int::I16(1)) }])),
        Some(8 + 4 * 5 + 2)
    );
    assert_eq!(measure(&Value::Union(Int::U16(1), Box::new(Value::Bool(true)))), Some(7));
    assert_eq!(
        measure(&Value::Object(vec![Field { index: i32::MAX, value: Value::Bool(true) }])),
        None
    );
}

#[test]
fn defaults_of_every_shape() {
    assert_eq!(default_value(&Shape::Bool), Value::Bool(false));
    assert_eq!(default_value(&Shape::Int(IntKind::I16)), Value::Int(Int::I16(0)));
    assert_eq!(default_value(&Shape::Str), Value::Str(String::new()));
    assert_eq!(default_value(&Shape::Instant), Value::Instant(Instant::new(0, 0)));
    assert_eq!(default_value(&Shape::Duration), Value::Duration(Duration::new(0, 0)));
    assert_eq!(default_value(&Shape::HasValue(Box::new(Shape::Bool))), Value::HasValue(None));
    assert_eq!(default_value(&Shape::Nullable(Box::new(Shape::Sequence(Box::new(Shape::Bool))))), Value::Nullable(None));
    assert_eq!(default_value(&Shape::Sequence(Box::new(Shape::Bool))), Value::Sequence(Vec::new()));
    assert_eq!(
        default_value(&Shape::Tuple(Box::new(Shape::Bool), Box::new(Shape::Int(IntKind::U8)))),
        Value::Tuple(Box::new(Value::Bool(false)), Box::new(Value::Int(Int::U8(0))))
    );
    assert_eq!(
        default_value(&Shape::Struct(vec![Shape::Bool, Shape::Str])),
        Value::Struct(vec![Value::Bool(false), Value::Str(String::new())])
    );
    assert_eq!(
        default_value(&Shape::Object(vec![FieldShape { index: 3, shape: Shape::Int(IntKind::U64) }])),
        Value::Object(vec![Field { index: 3, value: Value::Int(Int::U64(0)) }])
    );
    assert_eq!(
        default_value(&Shape::Union(
            IntKind::I32,
            vec![
                CaseShape { key: Int::I32(5), shape: Shape::Bool },
                CaseShape { key: Int::I32(6), shape: Shape::Str },
            ],
        )),
        Value::Union(Int::I32(5), Box::new(Value::Bool(false)))
    );
    assert_eq!(
        default_value(&Shape::Union(IntKind::U8, Vec::new())),
        Value::Union(Int::U8(0), Box::new(Value::Struct(Vec::new())))
    );
}

#[test]
fn integers_know_their_kind() {
    assert_eq!(Int::I64(-1).get_kind(), IntKind::I64);
    assert_eq!(IntKind::I64.size(), 8);
    assert_eq!(IntKind::U8.size(), 1);
    assert_eq!(Int::zero(IntKind::U16), Int::U16(0));
    assert!(Int::I8(1).same(&Int::I8(1)));
    assert!(!Int::I8(1).same(&Int::U8(1)));
    assert!(!Int::I8(1).same(&Int::I8(2)));
}

#[test]
fn what_may_be_absent_stands_behind_the_mark_of_its_shape() {
    let object = Shape::Object(vec![FieldShape { index: 0, shape: Shape::Bool }]);
    let value = Value::Object(vec![Field { index: 0, value: Value::Bool(true) }]);
    assert!(object.is_sized());
    assert!(is_sized(&value));
    assert!(!Shape::Struct(Vec::new()).is_sized());
    assert!(!is_sized(&Value::Int(Int::I32(0))));
    assert_eq!(absent(&object), Value::Nullable(None));
    assert_eq!(absent(&Shape::Int(IntKind::U8)), Value::HasValue(None));
    assert_eq!(present(Value::Bool(true)), Value::HasValue(Some(Box::new(Value::Bool(true)))));
    assert_eq!(
        present(Value::Sequence(Vec::new())),
        Value::Nullable(Some(Box::new(Value::Sequence(Vec::new()))))
    );
    assert_eq!(
        Shape::optional(Shape::Str),
        Shape::HasValue(Box::new(Shape::Str))
    );
    assert_eq!(
        Shape::optional(Shape::Sequence(Box::new(Shape::Str))),
        Shape::Nullable(Box::new(Shape::Sequence(Box::new(Shape::Str))))
    );
    // an object behind a flag is not of the format
    let wrong = Value::HasValue(Some(Box::new(value)));
    assert!(!check(&wrong));
    let mut buffer = Buffer::new(Vec::new());
    assert!(buffer.encode(0, &wrong).is_err());
    // a nested optional keeps both marks
    let nested = present(present(Value::Sequence(vec![Value::Bool(true)])));
    let shape = Shape::optional(Shape::optional(Shape::Sequence(Box::new(Shape::Bool))));
    assert_eq!(round_trip(nested, shape, 0), vec![1, 1, 0, 0, 0, 1]);
}

#[test]
fn pair_of_optional_object_and_optional_integer() {
    let object = Shape::Object(vec![FieldShape { index: 0, shape: Shape::Int(IntKind::U8) }]);
    let shape = Shape::Tuple(
        Box::new(Shape::optional(object)),
        Box::new(Shape::optional(Shape::Int(IntKind::U8))),
    );
    let both = Value::Tuple(
        Box::new(present(Value::Object(vec![Field { index: 0, value: Value::Int(Int::U8(7)) }]))),
        Box::new(present(Value::Int(Int::U8(9)))),
    );
    assert_eq!(
        round_trip(both, Shape::Tuple(
            Box::new(Shape::optional(Shape::Object(vec![FieldShape { index: 0, shape: Shape::Int(IntKind::U8) }]))),
            Box::new(Shape::optional(Shape::Int(IntKind::U8))),
        ), 0),
        vec![13, 0, 0, 0, 0, 0, 0, 0, 12, 0, 0, 0, 7, 1, 9]
    );
    let neither = Value::Tuple(
        Box::new(Value::Nullable(None)),
        Box::new(Value::HasValue(None)),
    );
    assert_eq!(round_trip(neither, shape, 0), vec![0xff, 0xff, 0xff, 0xff, 0]);
}

#[test]
fn values_and_typed_values_have_the_same_bytes() {
    let mut typed = Buffer::new(Vec::new());
    let n = typed
        .serialize(2, ((7u8, Some(-2i16)), vec![String::from("a"), String::from("")]))
        .unwrap();
    let none: Option<Vec<u64>> = None;
    let m = typed.serialize(2 + n as u64, (none, Some(Duration::new(3, 4)))).unwrap();
    let value = Value::Tuple(
        Box::new(Value::Tuple(
            Box::new(Value::Int(Int::U8(7))),
            Box::new(present(Value::Int(Int::I16(-2)))),
        )),
        Box::new(Value::Sequence(vec![Value::Str(String::from("a")), Value::Str(String::new())])),
    );
    let second = Value::Tuple(
        Box::new(absent(&Shape::Sequence(Box::new(Shape::Int(IntKind::U64))))),
        Box::new(present(Value::Duration(Duration::new(3, 4)))),
    );
    let mut untyped = Buffer::new(Vec::new());
    assert_eq!(untyped.encode(2, &value).unwrap(), n);
    assert_eq!(untyped.encode(2 + n as u64, &second).unwrap(), m);
    assert_eq!(typed.get_ref(), untyped.get_ref());
    assert_eq!(typed.position(), untyped.position());
    // and each reads what the other wrote
    let mut offset = 2;
    let back: ((u8, Option<i16>), Vec<String>) = untyped.deserialize(&mut offset).unwrap();
    assert_eq!(back, ((7, Some(-2)), vec![String::from("a"), String::new()]));
    let rest: (Option<Vec<u64>>, Option<Duration>) = untyped.deserialize(&mut offset).unwrap();
    assert_eq!(rest, (None, Some(Duration::new(3, 4))));
    let shape = Shape::Tuple(
        Box::new(Shape::Tuple(
            Box::new(Shape::Int(IntKind::U8)),
            Box::new(Shape::optional(Shape::Int(IntKind::I16))),
        )),
        Box::new(Shape::Sequence(Box::new(Shape::Str))),
    );
    let mut offset = 2;
    assert_eq!(value, typed.decode(&mut offset, &shape).unwrap());
    assert_eq!(offset, 2 + n as u64);
}

#[test]
fn values_are_told_from_values_of_other_shapes() {
    let object = Shape::Object(vec![
        FieldShape { index: 0, shape: Shape::Int(IntKind::I32) },
        FieldShape { index: 2, shape: Shape::Str },
    ]);
    let value = Value::Object(vec![
        Field { index: 0, value: Value::Int(Int::I32(1)) },
        Field { index: 2, value: Value::Str(String::from("a")) },
    ]);
    assert!(conforms_to(&value, &object));
    assert!(!conforms_to(&value, &Shape::Struct(vec![Shape::Int(IntKind::I32), Shape::Str])));
    let other_index = Value::Object(vec![
        Field { index: 0, value: Value::Int(Int::I32(1)) },
        Field { index: 1, value: Value::Str(String::from("a")) },
    ]);
    assert!(!conforms_to(&other_index, &object));
    let other_kind = Value::Object(vec![
        Field { index: 0, value: Value::Int(Int::U32(1)) },
        Field { index: 2, value: Value::Str(String::from("a")) },
    ]);
    assert!(!conforms_to(&other_kind, &object));
    let shorter = Value::Object(vec![Field { index: 0, value: Value::Int(Int::I32(1)) }]);
    assert!(!conforms_to(&shorter, &object));
    let union = Shape::Union(
        IntKind::U8,
        vec![
            CaseShape { key: Int::U8(1), shape: Shape::Bool },
            CaseShape { key: Int::U8(2), shape: Shape::Sequence(Box::new(Shape::Bool)) },
        ],
    );
    assert!(conforms_to(&Value::Union(Int::U8(1), Box::new(Value::Bool(true))), &union));
    assert!(conforms_to(
        &Value::Union(Int::U8(2), Box::new(Value::Sequence(vec![Value::Bool(true)]))),
        &union
    ));
    assert!(!conforms_to(&Value::Union(Int::U8(2), Box::new(Value::Bool(true))), &union));
    assert!(!conforms_to(&Value::Union(Int::U8(3), Box::new(Value::Bool(true))), &union));
    assert!(!conforms_to(&Value::Union(Int::I8(1), Box::new(Value::Bool(true))), &union));
    assert!(conforms_to(&Value::HasValue(None), &Shape::HasValue(Box::new(Shape::Str))));
    assert!(!conforms_to(&Value::Nullable(None), &Shape::HasValue(Box::new(Shape::Str))));
    assert!(conforms_to(
        &Value::Tuple(Box::new(Value::Bool(true)), Box::new(Value::Instant(Instant::new(1, 2)))),
        &Shape::Tuple(Box::new(Shape::Bool), Box::new(Shape::Instant))
    ));
    assert!(!conforms_to(
        &Value::Sequence(vec![Value::Bool(true), Value::Int(Int::U8(1))]),
        &Shape::Sequence(Box::new(Shape::Bool))
    ));
}

#[test]
fn shapes_whose_values_can_all_be_written() {
    assert!(is_sound(&Shape::HasValue(Box::new(Shape::Struct(vec![Shape::Bool])))));
    assert!(!is_sound(&Shape::HasValue(Box::new(Shape::Sequence(Box::new(Shape::Bool))))));
    assert!(is_sound(&Shape::Nullable(Box::new(Shape::Sequence(Box::new(Shape::Bool))))));
    assert!(!is_sound(&Shape::Nullable(Box::new(Shape::Bool))));
    assert!(is_sound(&Shape::Object(vec![
        FieldShape { index: 4, shape: Shape::Bool },
        FieldShape { index: 1, shape: Shape::Str },
    ])));
    assert!(!is_sound(&Shape::Object(vec![
        FieldShape { index: 4, shape: Shape::Bool },
        FieldShape { index: 4, shape: Shape::Str },
    ])));
    assert!(!is_sound(&Shape::Object(vec![FieldShape { index: -1, shape: Shape::Bool }])));
    assert!(!is_sound(&Shape::Union(IntKind::U8, Vec::new())));
    assert!(!is_sound(&Shape::Union(
        IntKind::U8,
        vec![CaseShape { key: Int::I8(1), shape: Shape::Bool }]
    )));
    assert!(is_sound(&Shape::Tuple(
        Box::new(Shape::Union(IntKind::U8, vec![CaseShape { key: Int::U8(1), shape: Shape::Bool }])),
        Box::new(Shape::Struct(Vec::new()))
    )));
    // what is read for a sound shape can be written again
    let shape = Shape::Object(vec![
        FieldShape { index: 0, shape: Shape::optional(Shape::Sequence(Box::new(Shape::Str))) },
        FieldShape { index: 3, shape: Shape::Duration },
    ]);
    assert!(is_sound(&shape));
    let mut buffer = Buffer::new(vec![8, 0, 0, 0, 0xff, 0xff, 0xff, 0xff]);
    let mut offset = 0;
    let read = buffer.decode(&mut offset, &shape).unwrap();
    assert!(check(&read));
    assert!(conforms_to(&read, &shape));
    assert_eq!(buffer.encode(8, &read).unwrap(), 8 + 16 + 4 + 12);
}
