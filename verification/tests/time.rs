use chrono::{DateTime, Utc};
use zero_formatter::buffer::Buffer;
use zero_formatter::formatter::Formatter;
use zero_formatter::time::{Duration, Instant};

#[test]
fn serialize_deserialize_datetime_utc() {
    let dt = Utc::now();
    let mut wtr = Buffer::new(Vec::new());
    let instant = Instant::new(dt.timestamp(), dt.timestamp_subsec_nanos());
    assert_eq!(wtr.serialize(0, instant).unwrap(), 12);
    let mut offset = 0;
    let back: Instant = wtr.deserialize(&mut offset).unwrap();
    assert_eq!(dt, DateTime::from_timestamp(back.seconds, back.nanos).unwrap());
}

#[test]
fn serialize_duration() {
    let mut wtr = Buffer::new(Vec::new());
    assert_eq!(wtr.serialize(0, Duration::new(1, 2)).unwrap(), 12);
    assert_eq!(wtr.into_inner(), vec![1, 0, 0, 0, 0, 0, 0, 0, 2, 0, 0, 0]);
}

#[test]
fn deserialize_duration() {
    let mut rdr = Buffer::new(vec![1, 0, 0, 0, 0, 0, 0, 0, 2, 0, 0, 0]);
    let mut offset = 0;
    assert_eq!(Duration::new(1, 2), rdr.deserialize(&mut offset).unwrap());
}
