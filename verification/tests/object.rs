use zero_formatter::buffer::Buffer;
use zero_formatter::formatter::Formatter;
use zero_formatter::schema::{FieldShape, Int, IntKind, Shape};
use zero_formatter::value::{Field, Value};

fn o_shape() -> Shape {
    Shape::Object(vec![
        FieldShape { index: 0, shape: Shape::Int(IntKind::I32) },
        FieldShape { index: 1, shape: Shape::Int(IntKind::I64) },
    ])
}

fn o(a: i32, b: i64) -> Value {
    Value::Object(vec![
        Field { index: 0, value: Value::Int(Int::I32(a)) },
        Field { index: 1, value: Value::Int(Int::I64(b)) },
    ])
}

fn o2_shape() -> Shape {
    Shape::Object(vec![
        FieldShape { index: 0, shape: Shape::Int(IntKind::I32) },
        FieldShape { index: 1, shape: Shape::Int(IntKind::I64) },
        FieldShape { index: 2, shape: Shape::Int(IntKind::I8) },
    ])
}

fn o2(a: i32, b: i64, c: i8) -> Value {
    Value::Object(vec![
        Field { index: 0, value: Value::Int(Int::I32(a)) },
        Field { index: 1, value: Value::Int(Int::I64(b)) },
        Field { index: 2, value: Value::Int(Int::I8(c)) },
    ])
}

fn s_shape() -> Shape {
    Shape::Struct(vec![Shape::Int(IntKind::I32), Shape::Int(IntKind::I64)])
}

fn s(a: i32, b: i64) -> Value {
    Value::Struct(vec![Value::Int(Int::I32(a)), Value::Int(Int::I64(b))])
}

fn some(v: Value) -> Option<Box<Value>> {
    Some(Box::new(v))
}

#[test]
fn serialize_object() {
    let mut wtr = Buffer::new(Vec::new());
    assert_eq!(wtr.encode(0, &o(1, 2)).unwrap(), 28);
    assert_eq!(wtr.into_inner(), vec![28, 0, 0, 0, 1, 0, 0, 0, 16, 0, 0, 0, 20, 0, 0, 0, 1, 0, 0, 0, 2, 0, 0, 0, 0, 0, 0, 0]);
}

#[test]
fn deserialize_object() {
    let mut rdr = Buffer::new(vec![28, 0, 0, 0, 1, 0, 0, 0, 16, 0, 0, 0, 20, 0, 0, 0, 1, 0, 0, 0, 2, 0, 0, 0, 0, 0, 0, 0]);
    let mut offset = 0;
    assert_eq!(o(1, 2), rdr.decode(&mut offset, &o_shape()).unwrap());
}

#[test]
fn serialize_object_some() {
    let mut wtr = Buffer::new(Vec::new());
    assert_eq!(wtr.encode(0, &Value::Nullable(some(o(1, 2)))).unwrap(), 28);
    assert_eq!(wtr.into_inner(), vec![28, 0, 0, 0, 1, 0, 0, 0, 16, 0, 0, 0, 20, 0, 0, 0, 1, 0, 0, 0, 2, 0, 0, 0, 0, 0, 0, 0]);
}

#[test]
fn deserialize_object_some() {
    let mut rdr = Buffer::new(vec![28, 0, 0, 0, 1, 0, 0, 0, 16, 0, 0, 0, 20, 0, 0, 0, 1, 0, 0, 0, 2, 0, 0, 0, 0, 0, 0, 0]);
    let mut offset = 0;
    assert_eq!(
        Value::Nullable(some(o(1, 2))),
        rdr.decode(&mut offset, &Shape::Nullable(Box::new(o_shape()))).unwrap()
    );
}

#[test]
fn serialize_object_none() {
    let mut wtr = Buffer::new(Vec::new());
    let input: Value = Value::Nullable(None);
    assert_eq!(wtr.encode(0, &input).unwrap(), 4);
    assert_eq!(wtr.into_inner(), vec![0xff, 0xff, 0xff, 0xff]);
}

#[test]
fn deserialize_object_none() {
    let mut rdr = Buffer::new(vec![0xff, 0xff, 0xff, 0xff]);
    let mut offset = 0;
    let expected: Value = Value::Nullable(None);
    assert_eq!(expected, rdr.decode(&mut offset, &Shape::Nullable(Box::new(o_shape()))).unwrap());
}

#[test]
fn deserialize_object_versioning() {
    let mut rdr = Buffer::new(vec![28, 0, 0, 0, 1, 0, 0, 0, 16, 0, 0, 0, 20, 0, 0, 0, 1, 0, 0, 0, 2, 0, 0, 0, 0, 0, 0, 0]);
    let mut offset = 0;
    assert_eq!(o2(1, 2, 0), rdr.decode(&mut offset, &o2_shape()).unwrap());
}

#[test]
fn serialize_struct() {
    let mut wtr = Buffer::new(Vec::new());
    assert_eq!(wtr.encode(0, &s(1, 2)).unwrap(), 12);
    assert_eq!(wtr.into_inner(), vec![1, 0, 0, 0, 2, 0, 0, 0, 0, 0, 0, 0]);
}

#[test]
fn deserialize_struct() {
    let mut rdr = Buffer::new(vec![1, 0, 0, 0, 2, 0, 0, 0, 0, 0, 0, 0]);
    let mut offset = 0;
    assert_eq!(s(1, 2), rdr.decode(&mut offset, &s_shape()).unwrap());
}

#[test]
fn serialize_struct_some() {
    let mut wtr = Buffer::new(Vec::new());
    assert_eq!(wtr.encode(0, &Value::HasValue(some(s(1, 2)))).unwrap(), 13);
    assert_eq!(wtr.into_inner(), vec![1, 1, 0, 0, 0, 2, 0, 0, 0, 0, 0, 0, 0]);
}

#[test]
fn deserialize_struct_some() {
    let mut rdr = Buffer::new(vec![1, 1, 0, 0, 0, 2, 0, 0, 0, 0, 0, 0, 0]);
    let mut offset = 0;
    assert_eq!(
        Value::HasValue(some(s(1, 2))),
        rdr.decode(&mut offset, &Shape::HasValue(Box::new(s_shape()))).unwrap()
    );
}

#[test]
fn serialize_struct_none() {
    let mut wtr = Buffer::new(Vec::new());
    let input: Value = Value::HasValue(None);
    assert_eq!(wtr.encode(0, &input).unwrap(), 1);
    assert_eq!(wtr.into_inner(), vec![0]);
}

#[test]
fn deserialize_struct_none() {
    let mut rdr = Buffer::new(vec![0]);
    let mut offset = 0;
    let expected: Value = Value::HasValue(None);
    assert_eq!(expected, rdr.decode(&mut offset, &Shape::HasValue(Box::new(s_shape()))).unwrap());
}

#[test]
fn serialize_2_tuple() {
    let mut wtr = Buffer::new(Vec::new());
    assert_eq!(wtr.serialize(0, (1u8, 2u8)).unwrap(), 2);
    assert_eq!(wtr.into_inner(), vec![1, 2]);
}

#[test]
fn deserialize_2_tuple() {
    let mut rdr = Buffer::new(vec![1, 2]);
    let mut offset = 0;
    assert_eq!((1u8, 2u8), rdr.deserialize(&mut offset).unwrap());
}

#[test]
fn serialize_some_2_tuple() {
    let mut wtr = Buffer::new(Vec::new());
    assert_eq!(wtr.serialize(0, Some((1u8, 2u8))).unwrap(), 3);
    assert_eq!(wtr.into_inner(), vec![1, 1, 2]);
}

#[test]
fn deserialize_some_2_tuple() {
    let mut rdr = Buffer::new(vec![1, 1, 2]);
    let mut offset = 0;
    assert_eq!(Some((1u8, 2u8)), rdr.deserialize(&mut offset).unwrap());
}
