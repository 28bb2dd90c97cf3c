use zero_formatter::buffer::Buffer;
use zero_formatter::formatter::Formatter;
use zero_formatter::schema::{FieldShape, Int, IntKind, Shape};
use zero_formatter::value::{Field, Value};

fn s_shape() -> Shape {
    Shape::Struct(vec![Shape::Int(IntKind::I32)])
}

fn s(a: i32) -> Value {
    Value::Struct(vec![Value::Int(Int::I32(a))])
}

fn o_shape() -> Shape {
    Shape::Object(vec![FieldShape { index: 0, shape: Shape::Int(IntKind::I32) }])
}

fn o(a: i32) -> Value {
    Value::Object(vec![Field { index: 0, value: Value::Int(Int::I32(a)) }])
}

#[test]
fn serialize_vec() {
    let mut wtr = Buffer::new(Vec::new());
    assert_eq!(wtr.serialize(0, vec![1i32, 2i32, 3i32]).unwrap(), 16);
    assert_eq!(wtr.into_inner(), vec![3, 0, 0, 0, 1, 0, 0, 0, 2, 0, 0, 0, 3, 0, 0, 0]);
}

#[test]
fn deserialize_vec() {
    let mut rdr = Buffer::new(vec![3, 0, 0, 0, 1, 0, 0, 0, 2, 0, 0, 0, 3, 0, 0, 0]);
    let mut offset = 0;
    let actual: Vec<i32> = rdr.deserialize(&mut offset).unwrap();
    assert_eq!(offset, 16);
    assert_eq!(vec![1, 2, 3], actual);
}

#[test]
fn serialize_vec_struct() {
    let mut wtr = Buffer::new(Vec::new());
    assert_eq!(wtr.encode(0, &Value::Sequence(vec![s(1), s(2), s(3)])).unwrap(), 16);
    assert_eq!(wtr.into_inner(), vec![3, 0, 0, 0, 1, 0, 0, 0, 2, 0, 0, 0, 3, 0, 0, 0]);
}

#[test]
fn deserialize_vec_struct() {
    let mut rdr = Buffer::new(vec![3, 0, 0, 0, 1, 0, 0, 0, 2, 0, 0, 0, 3, 0, 0, 0]);
    let mut offset = 0;
    let actual: Value = rdr.decode(&mut offset, &Shape::Sequence(Box::new(s_shape()))).unwrap();
    assert_eq!(offset, 16);
    assert_eq!(Value::Sequence(vec![s(1), s(2), s(3)]), actual);
}

#[test]
fn serialize_vec_object() {
    let mut wtr = Buffer::new(Vec::new());
    assert_eq!(wtr.encode(0, &Value::Sequence(vec![o(1), o(2), o(3)])).unwrap(), 52);
    let expected = vec![
        3, 0, 0, 0,

        16, 0, 0, 0,
        0, 0, 0, 0,
        16, 0, 0, 0,
        1, 0, 0, 0,

        16, 0, 0, 0,
        0, 0, 0, 0,
        32, 0, 0, 0,
        2, 0, 0, 0,

        16, 0, 0, 0,
        0, 0, 0, 0,
        48, 0, 0, 0,
        3, 0, 0, 0,
    ];
    assert_eq!(wtr.into_inner(), expected);
}

#[test]
fn deserialize_vec_object() {
    let mut rdr = Buffer::new(vec![
        3, 0, 0, 0,

        16, 0, 0, 0,
        0, 0, 0, 0,
        16, 0, 0, 0,
        1, 0, 0, 0,

        16, 0, 0, 0,
        0, 0, 0, 0,
        32, 0, 0, 0,
        2, 0, 0, 0,

        16, 0, 0, 0,
        0, 0, 0, 0,
        48, 0, 0, 0,
        3, 0, 0, 0,
    ]);
    let mut offset = 0;
    let actual: Value = rdr.decode(&mut offset, &Shape::Sequence(Box::new(o_shape()))).unwrap();
    assert_eq!(offset, 52);
    assert_eq!(Value::Sequence(vec![o(1), o(2), o(3)]), actual);
}
