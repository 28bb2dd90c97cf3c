use zero_formatter::buffer::Buffer;
use zero_formatter::formatter::Formatter;

#[test]
fn serialize_u8_some() {
    let mut wtr = Buffer::new(Vec::new());
    assert_eq!(wtr.serialize(0, Some(1u8)).unwrap(), 2);
    assert_eq!(wtr.into_inner(), vec![1, 1]);
}

#[test]
fn deserialize_u8_some() {
    let mut rdr = Buffer::new(vec![1, 1]);
    let mut offset = 0;
    assert_eq!(Some(1u8), rdr.deserialize(&mut offset).unwrap());
}

#[test]
fn serialize_u8_none() {
    let mut wtr = Buffer::new(Vec::new());
    let input: Option<u8> = None;
    assert_eq!(wtr.serialize(0, input).unwrap(), 1);
    assert_eq!(wtr.into_inner(), vec![0]);
}

#[test]
fn deserialize_u8_none() {
    let mut rdr = Buffer::new(vec![0]);
    let mut offset = 0;
    let expected: Option<u8> = None;
    assert_eq!(expected, rdr.deserialize(&mut offset).unwrap());
}
