//! Values of any shape, written to a buffer and read from it.

use vstd::prelude::*;
use crate::buffer::{overwrite, Buffer, LIMIT};
use crate::encode::{check, measure};
use crate::error::{Failure, IoErrorKind, ZeroFormatterError, ZeroFormatterResult};
use crate::parse::parse;
use crate::schema::Shape;
use crate::value::{Datum, Value};
use crate::wire::{lemma_wire_len, size, valid, wire};

verus! {

/// What writing `d` at `offset` comes to: its bytes, or the reason why it
/// cannot be written there. A value without an encoding is refused first,
/// then one that would end beyond `LIMIT`.
pub open spec fn encoding_of(d: Datum, offset: u64) -> Result<Seq<u8>, Failure> {
    if !valid(d) {
        Err(Failure::Io(IoErrorKind::InvalidInput))
    } else if offset + size(d) > LIMIT {
        Err(Failure::Io(IoErrorKind::StorageFull))
    } else {
        Ok(wire(d, offset as int))
    }
}

impl Buffer {
    /// Writes `value` at `offset` and returns the number of bytes written.
    /// The cursor then stands behind them. A value that cannot be written
    /// leaves the buffer as it was.
    pub fn encode(&mut self, offset: u64, value: &Value) -> (r: ZeroFormatterResult<i32>)
        ensures
            match encoding_of(value@, offset) {
                Ok(bytes) => {
                    &&& r matches Ok(n)
                    &&& n == bytes.len()
                    &&& n == size(value@)
                    &&& final(self)@.bytes == overwrite(old(self)@.bytes, offset as int, bytes)
                    &&& final(self)@.position == offset + bytes.len()
                },
                Err(f) => {
                    &&& r matches Err(e)
                    &&& e@ == f
                    &&& final(self)@ == old(self)@
                },
            },
    {
        if !check(value) {
            return Err(ZeroFormatterError::IoError(IoErrorKind::InvalidInput));
        }
        let n: u64 = match measure(value) {
            None => {
                return Err(ZeroFormatterError::IoError(IoErrorKind::StorageFull));
            },
            Some(n) => n,
        };
        if offset > LIMIT - n {
            return Err(ZeroFormatterError::IoError(IoErrorKind::StorageFull));
        }
        proof {
            lemma_wire_len(value@, offset as int);
        }
        let written: u64 = self.write_at(value, offset);
        self.seek(offset + written);
        Ok(written as i32)
    }

    /// Reads a value of `shape` at `*offset` and moves `*offset` and the
    /// cursor behind it. A failed read moves neither. The bytes are never
    /// changed.
    pub fn decode(&mut self, offset: &mut u64, shape: &Shape) -> (r: ZeroFormatterResult<Value>)
        ensures
            final(self)@.bytes == old(self)@.bytes,
            match parse(*shape, old(self)@.bytes, *old(offset) as int) {
                Ok((d, next)) => {
                    &&& r matches Ok(v)
                    &&& v@ == d
                    &&& *final(offset) == next
                    &&& final(self)@.position == next
                },
                Err(f) => {
                    &&& r matches Err(e)
                    &&& e@ == f
                    &&& *final(offset) == *old(offset)
                    &&& final(self)@.position == old(self)@.position
                },
            },
    {
        let (v, next) = self.parse_at(shape, *offset)?;
        *offset = next;
        self.seek(next);
        Ok(v)
    }
}

} // verus!
