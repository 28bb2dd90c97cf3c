//! Optional values behind a one-byte flag: 0 for an absent value, 1 and then
//! the value for a present one.

use vstd::prelude::*;
use crate::buffer::{lemma_overwrite_append, Buffer, LIMIT};
use crate::error::{Failure, IoErrorKind, ZeroFormatterError, ZeroFormatterResult};
use crate::formatter::Formatter;
use crate::primitive::placed;
use crate::time::{Duration, Instant};

verus! {

/// The types whose optional form carries the one-byte flag. The composites
/// that begin with a size or a count mark an absent value there instead.
pub trait HasValue {

}

impl HasValue for bool {

}

impl HasValue for u8 {

}

impl HasValue for u16 {

}

impl HasValue for u32 {

}

impl HasValue for u64 {

}

impl HasValue for i8 {

}

impl HasValue for i16 {

}

impl HasValue for i32 {

}

impl HasValue for i64 {

}

impl HasValue for Instant {

}

impl HasValue for Duration {

}

impl<A1, A2> HasValue for (A1, A2) {

}

/// The bytes of a present value: the flag, then the bytes of the value
/// written behind it.
pub open spec fn flagged(inner: Result<Seq<u8>, Failure>) -> Result<Seq<u8>, Failure> {
    match inner {
        Ok(wire) => Ok(seq![1u8] + wire),
        Err(f) => Err(f),
    }
}

impl<T: DeepView + HasValue> Formatter<Option<T>> for Buffer where Buffer: Formatter<T> {
    open spec fn encoding(value: Option<T::V>, offset: u64) -> Result<Seq<u8>, Failure> {
        match value {
            None => placed(seq![0u8], offset),
            Some(v) => {
                if offset >= LIMIT {
                    Err(Failure::Io(IoErrorKind::StorageFull))
                } else {
                    flagged(<Buffer as Formatter<T>>::encoding(v, (offset + 1) as u64))
                }
            },
        }
    }

    /// Only the flag 1 announces a value.
    open spec fn decoding(bytes: Seq<u8>, offset: u64) -> Result<(Option<T::V>, u64), Failure> {
        match <Buffer as Formatter<bool>>::decoding(bytes, offset) {
            Err(f) => Err(f),
            Ok((present, next)) => {
                if !present {
                    Ok((None, next))
                } else {
                    match <Buffer as Formatter<T>>::decoding(bytes, next) {
                        Ok((v, last)) => Ok((Some(v), last)),
                        Err(f) => Err(f),
                    }
                }
            },
        }
    }

    proof fn round_trip(value: Option<T::V>, offset: u64, bytes: Seq<u8>) {
        let wire = <Buffer as Formatter<Option<T>>>::encoding(value, offset)->Ok_0;
        match value {
            None => {
                assert(wire =~= seq![0u8]);
                <Buffer as Formatter<bool>>::round_trip(false, offset, bytes);
            },
            Some(v) => {
                let inner = <Buffer as Formatter<T>>::encoding(v, (offset + 1) as u64)->Ok_0;
                assert(wire == seq![1u8] + inner);
                assert(bytes.subrange(offset as int, offset + 1) =~= seq![1u8]) by {
                    assert(bytes.subrange(offset as int, offset + 1) =~= wire.subrange(0, 1));
                }
                <Buffer as Formatter<bool>>::round_trip(true, offset, bytes);
                assert(bytes.subrange(offset + 1, offset + 1 + inner.len()) =~= inner) by {
                    assert(bytes.subrange(offset + 1, offset + 1 + inner.len()) =~= wire.subrange(
                        1,
                        1 + inner.len() as int,
                    ));
                }
                <Buffer as Formatter<T>>::round_trip(v, (offset + 1) as u64, bytes);
            },
        }
    }

    fn serialize(&mut self, offset: u64, value: Option<T>) -> (r: ZeroFormatterResult<i32>) {
        match value {
            None => <Buffer as Formatter<bool>>::serialize(self, offset, false),
            Some(v) => {
                if offset >= LIMIT {
                    return Err(ZeroFormatterError::IoError(IoErrorKind::StorageFull));
                }
                let back: u64 = self.position();
                let flag: i32 = <Buffer as Formatter<bool>>::serialize(self, offset, true)?;
                let ghost marked = self@.bytes;
                match <Buffer as Formatter<T>>::serialize(self, offset + 1, v) {
                    Ok(n) => {
                        proof {
                            let inner = <Buffer as Formatter<T>>::encoding(
                                v.deep_view(),
                                (offset + 1) as u64,
                            )->Ok_0;
                            lemma_overwrite_append(
                                old(self)@.bytes,
                                offset as int,
                                seq![1u8],
                                inner,
                            );
                        }
                        Ok(flag + n)
                    },
                    Err(e) => {
                        self.seek(back);
                        Err(e)
                    },
                }
            },
        }
    }

    fn deserialize(&mut self, offset: &mut u64) -> (r: ZeroFormatterResult<Option<T>>) {
        let start: u64 = *offset;
        let back: u64 = self.position();
        let present: bool = <Buffer as Formatter<bool>>::deserialize(self, offset)?;
        if !present {
            return Ok(None);
        }
        match <Buffer as Formatter<T>>::deserialize(self, offset) {
            Ok(v) => Ok(Some(v)),
            Err(e) => {
                *offset = start;
                self.seek(back);
                Err(e)
            },
        }
    }
}

} // verus!
