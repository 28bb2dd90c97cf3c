use zero_formatter::buffer::Buffer;
use zero_formatter::schema::{CaseShape, FieldShape, Int, IntKind, Shape};
use zero_formatter::value::{Field, Value};

fn o_shape() -> Shape {
    Shape::Object(vec![FieldShape { index: 0, shape: Shape::Int(IntKind::I32) }])
}

fn s_shape() -> Shape {
    Shape::Struct(vec![Shape::Int(IntKind::I64)])
}

fn u_shape() -> Shape {
    Shape::Union(
        IntKind::I32,
        vec![
            CaseShape { key: Int::I32(1), shape: o_shape() },
            CaseShape { key: Int::I32(2), shape: s_shape() },
        ],
    )
}

fn u_a(a: i32) -> Value {
    Value::Union(
        Int::I32(1),
        Box::new(Value::Object(vec![Field { index: 0, value: Value::Int(Int::I32(a)) }])),
    )
}

fn u_b(b: i64) -> Value {
    Value::Union(Int::I32(2), Box::new(Value::Struct(vec![Value::Int(Int::I64(b))])))
}

#[test]
fn serialize_deserialize_union_a() {
    let mut c = Buffer::new(Vec::new());
    let input: Value = u_a(1);
    assert_eq!(c.encode(0, &input).unwrap(), 24);
    let mut offset = 0;
    assert_eq!(input, c.decode(&mut offset, &u_shape()).unwrap());
}

#[test]
fn serialize_deserialize_union_b() {
    let mut c = Buffer::new(Vec::new());
    let input: Value = u_b(2);
    assert_eq!(c.encode(0, &input).unwrap(), 16);
    let mut offset = 0;
    assert_eq!(input, c.decode(&mut offset, &u_shape()).unwrap());
}
