use zero_formatter::buffer::Buffer;
use zero_formatter::schema::{FieldShape, Int, IntKind, Shape};
use zero_formatter::value::{Field, Value};

fn field(index: i32, shape: Shape) -> FieldShape {
    FieldShape { index, shape }
}

fn holds(index: i32, value: Value) -> Field {
    Field { index, value }
}

fn v1() -> Shape {
    Shape::Object(vec![field(0, Shape::Int(IntKind::I32)), field(1, Shape::Int(IntKind::I64))])
}

fn v2() -> Shape {
    Shape::Object(vec![
        field(0, Shape::Int(IntKind::I32)),
        field(1, Shape::Int(IntKind::I64)),
        field(2, Shape::Int(IntKind::I8)),
    ])
}

fn written_by_v1() -> Vec<u8> {
    vec![28, 0, 0, 0, 1, 0, 0, 0, 16, 0, 0, 0, 20, 0, 0, 0, 1, 0, 0, 0, 2, 0, 0, 0, 0, 0, 0, 0]
}

#[test]
fn same_bytes_against_the_equal_schema() {
    let mut buffer = Buffer::new(written_by_v1());
    let mut offset = 0;
    let expected = Value::Object(vec![
        holds(0, Value::Int(Int::I32(1))),
        holds(1, Value::Int(Int::I64(2))),
    ]);
    assert_eq!(expected, buffer.decode(&mut offset, &v1()).unwrap());
    assert_eq!(offset, 28);
}

#[test]
fn same_bytes_against_the_extended_schema() {
    let mut buffer = Buffer::new(written_by_v1());
    let mut offset = 0;
    let expected = Value::Object(vec![
        holds(0, Value::Int(Int::I32(1))),
        holds(1, Value::Int(Int::I64(2))),
        holds(2, Value::Int(Int::I8(0))),
    ]);
    assert_eq!(expected, buffer.decode(&mut offset, &v2()).unwrap());
    assert_eq!(offset, 28);
}

#[test]
fn same_bytes_against_the_truncated_schema() {
    let mut buffer = Buffer::new(written_by_v1());
    let mut offset = 0;
    let truncated = Shape::Object(vec![field(1, Shape::Int(IntKind::I64))]);
    let expected = Value::Object(vec![holds(1, Value::Int(Int::I64(2)))]);
    assert_eq!(expected, buffer.decode(&mut offset, &truncated).unwrap());
    assert_eq!(offset, 28);
}

#[test]
fn a_new_field_in_the_middle_takes_its_default() {
    let written = Value::Object(vec![
        holds(0, Value::Bool(true)),
        holds(5, Value::Str(String::from("z"))),
    ]);
    let mut buffer = Buffer::new(Vec::new());
    assert_eq!(buffer.encode(0, &written).unwrap(), 8 + 4 * 6 + 1 + 5);
    let extended = Shape::Object(vec![
        field(0, Shape::Bool),
        field(3, Shape::Sequence(Box::new(Shape::Bool))),
        field(5, Shape::Str),
        field(9, Shape::Nullable(Box::new(v1()))),
    ]);
    let mut offset = 0;
    let expected = Value::Object(vec![
        holds(0, Value::Bool(true)),
        holds(3, Value::Sequence(Vec::new())),
        holds(5, Value::Str(String::from("z"))),
        holds(9, Value::Nullable(None)),
    ]);
    assert_eq!(expected, buffer.decode(&mut offset, &extended).unwrap());
    assert_eq!(offset, 38);
}

#[test]
fn a_reader_passes_over_what_it_does_not_know() {
    let written = Value::Object(vec![
        holds(0, Value::Int(Int::I32(1))),
        holds(1, Value::Int(Int::I64(2))),
        holds(2, Value::Int(Int::I8(3))),
    ]);
    let mut buffer = Buffer::new(Vec::new());
    assert_eq!(buffer.encode(0, &written).unwrap(), 33);
    assert_eq!(buffer.encode(33, &Value::Bool(true)).unwrap(), 1);
    let mut offset = 0;
    let expected = Value::Object(vec![
        holds(0, Value::Int(Int::I32(1))),
        holds(1, Value::Int(Int::I64(2))),
    ]);
    assert_eq!(expected, buffer.decode(&mut offset, &v1()).unwrap());
    // the reader ends behind the whole object, the field that it passed over included
    assert_eq!(offset, 33);
    assert_eq!(Value::Bool(true), buffer.decode(&mut offset, &Shape::Bool).unwrap());
}

#[test]
fn encoding_twice_gives_the_same_bytes() {
    let value = Value::Sequence(vec![
        Value::Object(vec![holds(2, Value::Str(String::from("a"))), holds(0, Value::Bool(true))]),
        Value::Object(vec![holds(2, Value::Str(String::from("b"))), holds(0, Value::Bool(false))]),
    ]);
    let mut first = Buffer::new(vec![0; 64]);
    let mut second = Buffer::new(vec![0; 64]);
    assert_eq!(first.encode(3, &value).unwrap(), second.encode(3, &value).unwrap());
    assert_eq!(first.get_ref(), second.get_ref());
    // what the buffer held where the value goes does not matter
    let mut third = Buffer::new(vec![0xff; 3 + 54]);
    third.encode(3, &value).unwrap();
    assert_eq!(&first.get_ref()[3..57], &third.get_ref()[3..57]);
}
