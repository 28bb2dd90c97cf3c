//! Points in time and spans of time: signed 64-bit seconds, then signed
//! 32-bit nanoseconds, twelve bytes in all.

use vstd::prelude::*;
use vstd::array::array_as_slice;
use crate::buffer::{lemma_overwrite_append, overwrite, Buffer, LIMIT};
use crate::endian::{
    i32_from_le, i32_to_le, i64_from_le, i64_to_le, le_bytes, lemma_le_bytes_len,
    lemma_le_value_of_bytes, lemma_radix_values, unsigned,
};
use crate::error::{Failure, IoErrorKind, ZeroFormatterError, ZeroFormatterResult};
use crate::formatter::{holds, Formatter};
use crate::primitive::{placed, signed_at};

verus! {

/// The nanoseconds of one second.
pub const NANOS_PER_SECOND: u32 = 1_000_000_000;

/// A point in time: seconds since 1970-01-01 00:00:00 UTC, and the
/// nanoseconds since the last whole second.
#[derive(Debug, Clone, Copy, PartialEq, Eq, Structural)]
pub struct Instant {
    pub seconds: i64,
    pub nanos: u32,
}

/// A span of time that is not negative: whole seconds, and the nanoseconds
/// beyond them.
#[derive(Debug, Clone, Copy, PartialEq, Eq, Structural)]
pub struct Duration {
    pub seconds: u64,
    pub nanos: u32,
}

impl View for Instant {
    type V = Instant;

    open spec fn view(&self) -> Instant {
        *self
    }
}

impl DeepView for Instant {
    type V = Instant;

    open spec fn deep_view(&self) -> Instant {
        *self
    }
}

impl View for Duration {
    type V = Duration;

    open spec fn view(&self) -> Duration {
        *self
    }
}

impl DeepView for Duration {
    type V = Duration;

    open spec fn deep_view(&self) -> Duration {
        *self
    }
}

/// The twelve bytes of a time value.
pub open spec fn time_wire(seconds: int, nanos: int) -> Seq<u8> {
    le_bytes(unsigned(seconds, 8), 8) + le_bytes(unsigned(nanos, 4), 4)
}

/// The seconds and nanoseconds at `offset`, with the offset behind them.
pub open spec fn time_at(bytes: Seq<u8>, offset: u64) -> Result<(int, int, u64), Failure> {
    match signed_at(bytes, offset, 8) {
        Err(f) => Err(f),
        Ok((seconds, mid)) => match signed_at(bytes, mid, 4) {
            Err(f) => Err(f),
            Ok((nanos, next)) => Ok((seconds, nanos, next)),
        },
    }
}

/// The twelve bytes of a time value are read back as its two numbers.
pub proof fn lemma_time_round_trip(seconds: int, nanos: int, offset: u64, bytes: Seq<u8>)
    requires
        i64::MIN <= seconds <= i64::MAX,
        i32::MIN <= nanos <= i32::MAX,
        offset + time_wire(seconds, nanos).len() <= LIMIT,
        holds(bytes, offset as int, time_wire(seconds, nanos)),
    ensures
        time_wire(seconds, nanos).len() == 12,
        time_at(bytes, offset) == Ok::<(int, int, u64), Failure>(
            (seconds, nanos, (offset + 12) as u64),
        ),
{
    lemma_radix_values();
    let head = le_bytes(unsigned(seconds, 8), 8);
    let tail = le_bytes(unsigned(nanos, 4), 4);
    lemma_le_bytes_len(unsigned(seconds, 8), 8);
    lemma_le_bytes_len(unsigned(nanos, 4), 4);
    lemma_le_value_of_bytes(unsigned(seconds, 8), 8);
    lemma_le_value_of_bytes(unsigned(nanos, 4), 4);
    let wire = time_wire(seconds, nanos);
    assert(bytes.subrange(offset as int, offset + 8) =~= head) by {
        assert(bytes.subrange(offset as int, offset + 8) =~= wire.subrange(0, 8));
    }
    assert(bytes.subrange(offset + 8, offset + 12) =~= tail) by {
        assert(bytes.subrange(offset + 8, offset + 12) =~= wire.subrange(8, 12));
    }
}

impl Instant {
    pub fn new(seconds: i64, nanos: u32) -> (r: Instant)
        ensures
            r == (Instant { seconds, nanos }),
    {
        Instant { seconds, nanos }
    }

    /// Whether the value has an encoding: the nanoseconds stay below one second.
    pub open spec fn valid(self) -> bool {
        self.nanos < NANOS_PER_SECOND
    }
}

impl Duration {
    pub fn new(seconds: u64, nanos: u32) -> (r: Duration)
        ensures
            r == (Duration { seconds, nanos }),
    {
        Duration { seconds, nanos }
    }

    pub fn as_secs(&self) -> (r: u64)
        ensures
            r == self.seconds,
    {
        self.seconds
    }

    pub fn subsec_nanos(&self) -> (r: u32)
        ensures
            r == self.nanos,
    {
        self.nanos
    }

    /// Whether the value has an encoding: the seconds fit a signed 64-bit
    /// number and the nanoseconds stay below one second.
    pub open spec fn valid(self) -> bool {
        self.seconds <= i64::MAX && self.nanos < NANOS_PER_SECOND
    }
}

impl Buffer {
    /// Writes seconds and nanoseconds at `offset`.
    pub(crate) fn store_time(&mut self, offset: u64, seconds: i64, nanos: i32) -> (r:
        ZeroFormatterResult<i32>)
        ensures
            match placed(time_wire(seconds as int, nanos as int), offset) {
                Ok(wire) => {
                    &&& r matches Ok(n)
                    &&& n == 12
                    &&& wire.len() == 12
                    &&& final(self)@.bytes == overwrite(
                        old(self)@.bytes,
                        offset as int,
                        wire,
                    )
                    &&& final(self)@.position == offset + 12
                },
                Err(f) => {
                    &&& r matches Err(e)
                    &&& e@ == f
                    &&& final(self)@ == old(self)@
                },
            },
    {
        proof {
            lemma_le_bytes_len(unsigned(seconds as int, 8), 8);
            lemma_le_bytes_len(unsigned(nanos as int, 4), 4);
        }
        if offset > LIMIT - 12 {
            return Err(ZeroFormatterError::IoError(IoErrorKind::StorageFull));
        }
        let head: [u8; 8] = i64_to_le(seconds);
        let tail: [u8; 4] = i32_to_le(nanos);
        self.poke(offset, array_as_slice(&head));
        self.poke(offset + 8, array_as_slice(&tail));
        self.seek(offset + 12);
        proof {
            lemma_overwrite_append(old(self)@.bytes, offset as int, head@, tail@);
        }
        Ok(12)
    }

    /// Reads seconds and nanoseconds at `offset`.
    pub(crate) fn fetch_time(&self, offset: u64) -> (r: Result<(i64, i32), ZeroFormatterError>)
        ensures
            match time_at(self@.bytes, offset) {
                Ok((seconds, nanos, next)) => r == Ok::<(i64, i32), ZeroFormatterError>(
                    (seconds as i64, nanos as i32),
                ) && seconds == seconds as i64 && nanos == nanos as i32 && next == offset + 12,
                Err(f) => r matches Err(e) && e@ == f,
            },
    {
        let head = self.fetch(offset, 8)?;
        let seconds: i64 = i64_from_le(head);
        let tail = self.fetch(offset + 8, 4)?;
        let nanos: i32 = i32_from_le(tail);
        proof {
            assert(head@.subrange(0, 8) =~= head@);
            assert(tail@.subrange(0, 4) =~= tail@);
        }
        Ok((seconds, nanos))
    }
}

impl Formatter<Instant> for Buffer {
    /// A value whose nanoseconds reach a full second has no encoding.
    open spec fn encoding(value: Instant, offset: u64) -> Result<Seq<u8>, Failure> {
        if !value.valid() {
            Err(Failure::Io(IoErrorKind::InvalidInput))
        } else {
            placed(time_wire(value.seconds as int, value.nanos as int), offset)
        }
    }

    /// Nanoseconds that are negative or reach a full second are malformed.
    open spec fn decoding(bytes: Seq<u8>, offset: u64) -> Result<(Instant, u64), Failure> {
        match time_at(bytes, offset) {
            Err(f) => Err(f),
            Ok((seconds, nanos, next)) => {
                if nanos < 0 || nanos >= NANOS_PER_SECOND {
                    Err(Failure::Binary((offset + 8) as u64))
                } else {
                    Ok((Instant { seconds: seconds as i64, nanos: nanos as u32 }, next))
                }
            },
        }
    }

    proof fn round_trip(value: Instant, offset: u64, bytes: Seq<u8>) {
        lemma_time_round_trip(value.seconds as int, value.nanos as int, offset, bytes);
    }

    fn serialize(&mut self, offset: u64, value: Instant) -> (r: ZeroFormatterResult<i32>)
        ensures
            r is Err ==> final(self)@ == old(self)@,
    {
        if value.nanos >= NANOS_PER_SECOND {
            return Err(ZeroFormatterError::IoError(IoErrorKind::InvalidInput));
        }
        self.store_time(offset, value.seconds, value.nanos as i32)
    }

    fn deserialize(&mut self, offset: &mut u64) -> (r: ZeroFormatterResult<Instant>) {
        let at: u64 = *offset;
        let (seconds, nanos) = self.fetch_time(at)?;
        if nanos < 0 || nanos >= NANOS_PER_SECOND as i32 {
            return Err(ZeroFormatterError::InvalidBinary(at + 8));
        }
        *offset = at + 12;
        self.seek(*offset);
        Ok(Instant { seconds, nanos: nanos as u32 })
    }
}

impl Formatter<Duration> for Buffer {
    /// A value whose seconds do not fit a signed 64-bit number, or whose
    /// nanoseconds reach a full second, has no encoding.
    open spec fn encoding(value: Duration, offset: u64) -> Result<Seq<u8>, Failure> {
        if !value.valid() {
            Err(Failure::Io(IoErrorKind::InvalidInput))
        } else {
            placed(time_wire(value.seconds as int, value.nanos as int), offset)
        }
    }

    /// Negative seconds are malformed, and so are nanoseconds that are
    /// negative or reach a full second.
    open spec fn decoding(bytes: Seq<u8>, offset: u64) -> Result<(Duration, u64), Failure> {
        match time_at(bytes, offset) {
            Err(f) => Err(f),
            Ok((seconds, nanos, next)) => {
                if seconds < 0 {
                    Err(Failure::Binary(offset))
                } else if nanos < 0 || nanos >= NANOS_PER_SECOND {
                    Err(Failure::Binary((offset + 8) as u64))
                } else {
                    Ok((Duration { seconds: seconds as u64, nanos: nanos as u32 }, next))
                }
            },
        }
    }

    proof fn round_trip(value: Duration, offset: u64, bytes: Seq<u8>) {
        lemma_time_round_trip(value.seconds as int, value.nanos as int, offset, bytes);
    }

    fn serialize(&mut self, offset: u64, value: Duration) -> (r: ZeroFormatterResult<i32>)
        ensures
            r is Err ==> final(self)@ == old(self)@,
    {
        if value.seconds > i64::MAX as u64 || value.nanos >= NANOS_PER_SECOND {
            return Err(ZeroFormatterError::IoError(IoErrorKind::InvalidInput));
        }
        self.store_time(offset, value.seconds as i64, value.nanos as i32)
    }

    fn deserialize(&mut self, offset: &mut u64) -> (r: ZeroFormatterResult<Duration>) {
        let at: u64 = *offset;
        let (seconds, nanos) = self.fetch_time(at)?;
        if seconds < 0 {
            return Err(ZeroFormatterError::InvalidBinary(at));
        }
        if nanos < 0 || nanos >= NANOS_PER_SECOND as i32 {
            return Err(ZeroFormatterError::InvalidBinary(at + 8));
        }
        *offset = at + 12;
        self.seek(*offset);
        Ok(Duration { seconds: seconds as u64, nanos: nanos as u32 })
    }
}

} // verus!
