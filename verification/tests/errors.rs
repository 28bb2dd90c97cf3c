use zero_formatter::buffer::{Buffer, LIMIT};
use zero_formatter::error::{IoErrorKind, ZeroFormatterError};
use zero_formatter::formatter::Formatter;
use zero_formatter::schema::{CaseShape, FieldShape, Int, IntKind, Shape};
use zero_formatter::time::{Duration, Instant};
use zero_formatter::util::check_non_null;
use zero_formatter::value::{Field, Value};

fn is_eof<T>(r: Result<T, ZeroFormatterError>) -> bool {
    matches!(r, Err(ZeroFormatterError::IoError(IoErrorKind::UnexpectedEof)))
}

fn is_full<T>(r: Result<T, ZeroFormatterError>) -> bool {
    matches!(r, Err(ZeroFormatterError::IoError(IoErrorKind::StorageFull)))
}

fn is_invalid_input<T>(r: Result<T, ZeroFormatterError>) -> bool {
    matches!(r, Err(ZeroFormatterError::IoError(IoErrorKind::InvalidInput)))
}

fn is_invalid_binary<T>(r: Result<T, ZeroFormatterError>, at: u64) -> bool {
    match r {
        Err(ZeroFormatterError::InvalidBinary(o)) => o == at,
        _ => false,
    }
}

#[test]
fn invalid_binary_is_an_error_with_the_offset() {
    let r: Result<u8, ZeroFormatterError> = ZeroFormatterError::invalid_binary(7);
    assert!(is_invalid_binary(r, 7));
}

#[test]
fn read_past_the_end_is_unexpected_eof() {
    let mut rdr = Buffer::new(vec![1, 0, 0]);
    let mut offset = 0;
    let r: Result<u32, ZeroFormatterError> = rdr.deserialize(&mut offset);
    assert!(is_eof(r));
    assert_eq!(offset, 0);
    assert_eq!(rdr.position(), 0);
}

#[test]
fn read_at_an_offset_behind_the_end_is_unexpected_eof() {
    let mut rdr = Buffer::new(vec![1]);
    let mut offset = 5;
    let r: Result<u8, ZeroFormatterError> = rdr.deserialize(&mut offset);
    assert!(is_eof(r));
    assert_eq!(offset, 5);
}

#[test]
fn write_beyond_the_limit_is_refused_and_changes_nothing() {
    let mut wtr = Buffer::new(vec![9, 9]);
    assert!(is_full(wtr.serialize(LIMIT, 1u8)));
    assert!(is_full(wtr.serialize(LIMIT - 3, 1u32)));
    assert!(is_full(wtr.serialize(u64::MAX, 1u64)));
    assert!(is_full(wtr.encode(LIMIT - 1, &Value::Int(Int::U16(1)))));
    assert_eq!(wtr.position(), 0);
    assert_eq!(wtr.into_inner(), vec![9, 9]);
}

#[test]
fn string_with_negative_length_is_invalid_binary() {
    let mut rdr = Buffer::new(vec![0, 0xfe, 0xff, 0xff, 0xff, 0x41]);
    let mut offset = 1;
    let r: Result<String, ZeroFormatterError> = rdr.deserialize(&mut offset);
    assert!(is_invalid_binary(r, 1));
    assert_eq!(offset, 1);
    let mut again = 1;
    assert!(is_invalid_binary(rdr.decode(&mut again, &Shape::Str), 1));
}

#[test]
fn string_longer_than_the_buffer_is_unexpected_eof() {
    let mut rdr = Buffer::new(vec![3, 0, 0, 0, 0x41, 0x42]);
    let mut offset = 0;
    let r: Result<String, ZeroFormatterError> = rdr.deserialize(&mut offset);
    assert!(is_eof(r));
    assert_eq!(offset, 0);
}

#[test]
fn string_that_is_not_utf8_is_refused() {
    let mut rdr = Buffer::new(vec![2, 0, 0, 0, 0xc3, 0x28]);
    let mut offset = 0;
    let r: Result<String, ZeroFormatterError> = rdr.deserialize(&mut offset);
    assert!(matches!(r, Err(ZeroFormatterError::FromUtf8Error(_))));
    assert_eq!(offset, 0);
    let mut again = 0;
    assert!(matches!(
        rdr.decode(&mut again, &Shape::Str),
        Err(ZeroFormatterError::FromUtf8Error(_))
    ));
}

#[test]
fn time_without_an_encoding_is_invalid_input() {
    let mut wtr = Buffer::new(Vec::new());
    assert!(is_invalid_input(wtr.serialize(0, Instant::new(0, 1_000_000_000))));
    assert!(is_invalid_input(wtr.serialize(0, Duration::new(0, 1_000_000_000))));
    assert!(is_invalid_input(wtr.serialize(0, Duration::new(i64::MAX as u64 + 1, 0))));
    assert!(is_invalid_input(wtr.encode(0, &Value::Duration(Duration::new(u64::MAX, 0)))));
    assert_eq!(wtr.into_inner(), Vec::<u8>::new());
}

#[test]
fn time_with_malformed_numbers_is_invalid_binary() {
    // seconds -1, nanoseconds 0
    let mut rdr = Buffer::new(vec![0xff, 0xff, 0xff, 0xff, 0xff, 0xff, 0xff, 0xff, 0, 0, 0, 0]);
    let mut offset = 0;
    let span: Result<Duration, ZeroFormatterError> = rdr.deserialize(&mut offset);
    assert!(is_invalid_binary(span, 0));
    let point: Instant = rdr.deserialize(&mut offset).unwrap();
    assert_eq!(point, Instant::new(-1, 0));
    // seconds 0, nanoseconds 1_000_000_000
    let mut rdr = Buffer::new(vec![0, 0, 0, 0, 0, 0, 0, 0, 0x00, 0xca, 0x9a, 0x3b]);
    let mut offset = 0;
    let span: Result<Duration, ZeroFormatterError> = rdr.deserialize(&mut offset);
    assert!(is_invalid_binary(span, 8));
    let point: Result<Instant, ZeroFormatterError> = rdr.deserialize(&mut offset);
    assert!(is_invalid_binary(point, 8));
    // seconds 0, nanoseconds -1
    let mut rdr = Buffer::new(vec![0, 0, 0, 0, 0, 0, 0, 0, 0xff, 0xff, 0xff, 0xff]);
    assert!(is_invalid_binary(rdr.decode(&mut offset, &Shape::Instant), 8));
}

#[test]
fn object_with_an_index_twice_is_invalid_input() {
    let mut wtr = Buffer::new(Vec::new());
    let twice = Value::Object(vec![
        Field { index: 1, value: Value::Bool(true) },
        Field { index: 1, value: Value::Bool(false) },
    ]);
    assert!(is_invalid_input(wtr.encode(0, &twice)));
    let negative = Value::Object(vec![Field { index: -1, value: Value::Bool(true) }]);
    assert!(is_invalid_input(wtr.encode(0, &negative)));
    assert_eq!(wtr.into_inner(), Vec::<u8>::new());
}

#[test]
fn nullable_of_a_value_without_a_size_is_invalid_input() {
    let mut wtr = Buffer::new(Vec::new());
    let v = Value::Nullable(Some(Box::new(Value::Int(Int::I32(5)))));
    assert!(is_invalid_input(wtr.encode(0, &v)));
    let nested = Value::Sequence(vec![Value::Instant(Instant::new(0, 2_000_000_000))]);
    assert!(is_invalid_input(wtr.encode(0, &nested)));
}

#[test]
fn object_with_a_size_below_zero_is_invalid_binary() {
    let shape = Shape::Object(vec![FieldShape { index: 0, shape: Shape::Bool }]);
    let mut rdr = Buffer::new(vec![7, 0xfe, 0xff, 0xff, 0xff, 0, 0, 0, 0]);
    let mut offset = 1;
    assert!(is_invalid_binary(rdr.decode(&mut offset, &shape), 1));
    assert_eq!(offset, 1);
    // where an object has to be there, the absent one is malformed too
    let mut rdr = Buffer::new(vec![0xff, 0xff, 0xff, 0xff, 0, 0, 0, 0]);
    let mut offset = 0;
    assert!(is_invalid_binary(rdr.decode(&mut offset, &shape), 0));
    // a nullable one below -1
    let mut rdr = Buffer::new(vec![0xfe, 0xff, 0xff, 0xff, 0, 0, 0, 0]);
    assert!(is_invalid_binary(rdr.decode(&mut offset, &Shape::Nullable(Box::new(shape))), 0));
}

#[test]
fn object_with_a_negative_table_entry_is_invalid_binary() {
    let shape = Shape::Object(vec![FieldShape { index: 0, shape: Shape::Bool }]);
    let mut rdr = Buffer::new(vec![12, 0, 0, 0, 0, 0, 0, 0, 0xff, 0xff, 0xff, 0xff]);
    let mut offset = 0;
    assert!(is_invalid_binary(rdr.decode(&mut offset, &shape), 8));
}

#[test]
fn object_with_a_table_beyond_the_end_is_unexpected_eof() {
    let shape = Shape::Object(vec![FieldShape { index: 5, shape: Shape::Bool }]);
    let mut rdr = Buffer::new(vec![12, 0, 0, 0, 9, 0, 0, 0, 0, 0, 0, 0]);
    let mut offset = 0;
    assert!(is_eof(rdr.decode(&mut offset, &shape)));
}

#[test]
fn union_with_an_unknown_key_is_invalid_binary_at_the_key() {
    let shape = Shape::Union(
        IntKind::I32,
        vec![
            CaseShape { key: Int::I32(1), shape: Shape::Int(IntKind::I64) },
            CaseShape { key: Int::I32(2), shape: Shape::Bool },
        ],
    );
    let mut rdr = Buffer::new(vec![0, 0, 9, 0, 0, 0, 3, 0, 0, 0, 1]);
    let mut offset = 2;
    assert!(is_invalid_binary(rdr.decode(&mut offset, &shape), 6));
    assert_eq!(offset, 2);
    let mut rdr = Buffer::new(vec![0xfd, 0xff, 0xff, 0xff, 2, 0, 0, 0, 1]);
    let mut offset = 0;
    assert!(is_invalid_binary(rdr.decode(&mut offset, &shape), 0));
}

#[test]
fn sequence_with_a_negative_count_is_invalid_binary() {
    let mut rdr = Buffer::new(vec![0xff, 0xff, 0xff, 0xff]);
    let mut offset = 0;
    let r: Result<Vec<u8>, ZeroFormatterError> = rdr.deserialize(&mut offset);
    assert!(is_invalid_binary(r, 0));
    assert!(is_invalid_binary(rdr.decode(&mut offset, &Shape::Sequence(Box::new(Shape::Bool))), 0));
    let mut rdr = Buffer::new(vec![0xfe, 0xff, 0xff, 0xff]);
    let r: Result<Option<Vec<u8>>, ZeroFormatterError> = rdr.deserialize(&mut offset);
    assert!(is_invalid_binary(r, 0));
}

#[test]
fn sequence_with_a_count_beyond_the_end_is_unexpected_eof() {
    let mut rdr = Buffer::new(vec![0xff, 0xff, 0xff, 0x7f, 1, 2, 3]);
    let mut offset = 0;
    let r: Result<Vec<u8>, ZeroFormatterError> = rdr.deserialize(&mut offset);
    assert!(is_eof(r));
    assert_eq!(offset, 0);
    assert!(is_eof(rdr.decode(&mut offset, &Shape::Sequence(Box::new(Shape::Int(IntKind::U16))))));
}

#[test]
fn check_non_null_tells_sizes_from_the_absent_and_the_malformed() {
    let mut rdr = Buffer::new(vec![0, 28, 0, 0, 0]);
    let mut offset = 1;
    assert_eq!(check_non_null(&mut rdr, &mut offset).unwrap(), 28);
    assert_eq!(offset, 5);
    assert_eq!(rdr.position(), 5);

    let mut rdr = Buffer::new(vec![0xff, 0xff, 0xff, 0xff]);
    let mut offset = 0;
    assert_eq!(check_non_null(&mut rdr, &mut offset).unwrap(), -1);
    assert_eq!(offset, 4);

    let mut rdr = Buffer::new(vec![0, 0, 0xfe, 0xff, 0xff, 0xff]);
    let mut offset = 2;
    assert!(is_invalid_binary(check_non_null(&mut rdr, &mut offset), 2));
    assert_eq!(offset, 2);

    let mut rdr = Buffer::new(vec![0, 0, 0]);
    let mut offset = 0;
    assert!(is_eof(check_non_null(&mut rdr, &mut offset)));
}

#[test]
fn errors_describe_themselves() {
    let e = ZeroFormatterError::InvalidBinary(0);
    assert_eq!(e.description(), "Binary does not valid.");
    assert_eq!(e.message(), "[offset 0] Binary does not valid.");
    assert_eq!(
        ZeroFormatterError::InvalidBinary(1234567890).message(),
        "[offset 1234567890] Binary does not valid."
    );
    assert_eq!(
        ZeroFormatterError::InvalidBinary(u64::MAX).message(),
        "[offset 18446744073709551615] Binary does not valid."
    );
    let e = ZeroFormatterError::IoError(IoErrorKind::UnexpectedEof);
    assert_eq!(e.description(), "unexpected end of file");
    assert_eq!(e.message(), "unexpected end of file");
    assert_eq!(
        ZeroFormatterError::IoError(IoErrorKind::InvalidInput).message(),
        "invalid input parameter"
    );
    assert_eq!(ZeroFormatterError::IoError(IoErrorKind::StorageFull).message(), "no storage space");
    let not_utf8 = String::from_utf8(vec![0xff]).unwrap_err();
    let e = ZeroFormatterError::from(not_utf8);
    assert!(matches!(e, ZeroFormatterError::FromUtf8Error(_)));
    assert_eq!(e.message(), "invalid utf-8");
}

#[test]
fn decimal_digits_of_numbers() {
    assert_eq!(zero_formatter::error::decimal(0), "0");
    assert_eq!(zero_formatter::error::decimal(9), "9");
    assert_eq!(zero_formatter::error::decimal(10), "10");
    assert_eq!(zero_formatter::error::decimal(907), "907");
}
