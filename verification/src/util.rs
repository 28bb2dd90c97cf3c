//! The check that stands in front of every composite that begins with a size.

use vstd::prelude::*;
use crate::buffer::Buffer;
use crate::error::{Failure, IoErrorKind, ZeroFormatterError, ZeroFormatterResult};
use crate::parse::i32_in;

verus! {

/// What the size at `at` says: a size that is not negative, -1 for a
/// composite that is absent, and a failure for anything below.
pub open spec fn size_in(bytes: Seq<u8>, at: int) -> Result<int, Failure> {
    match i32_in(bytes, at) {
        None => Err(Failure::Io(IoErrorKind::UnexpectedEof)),
        Some(v) => if v < -1 {
            Err(Failure::Binary(at as u64))
        } else {
            Ok(v)
        },
    }
}

impl Buffer {
    /// Reads the size at `at`.
    pub(crate) fn size_at(&self, at: u64) -> (r: ZeroFormatterResult<i32>)
        ensures
            match size_in(self@.bytes, at as int) {
                Ok(v) => r == Ok::<i32, ZeroFormatterError>(v as i32) && v == v as i32,
                Err(f) => r matches Err(e) && e@ == f,
            },
    {
        match self.i32_at(at) {
            None => Err(ZeroFormatterError::IoError(IoErrorKind::UnexpectedEof)),
            Some(v) => {
                if v < -1 {
                    ZeroFormatterError::invalid_binary(at)
                } else {
                    Ok(v)
                }
            },
        }
    }
}

/// Reads the size of a composite at `*offset` and moves `*offset` and the
/// cursor behind it. A size of -1 tells the caller that the composite is
/// absent. A size below -1 is malformed: the failure names the offset at
/// which it was read, and nothing moves.
pub fn check_non_null(r: &mut Buffer, offset: &mut u64) -> (size: ZeroFormatterResult<i32>)
    ensures
        final(r)@.bytes == old(r)@.bytes,
        match size_in(old(r)@.bytes, *old(offset) as int) {
            Ok(v) => {
                &&& size == Ok::<i32, ZeroFormatterError>(v as i32)
                &&& -1 <= v <= i32::MAX
                &&& *final(offset) == *old(offset) + 4
                &&& final(r)@.position == *old(offset) + 4
            },
            Err(f) => {
                &&& size matches Err(e)
                &&& e@ == f
                &&& *final(offset) == *old(offset)
                &&& final(r)@.position == old(r)@.position
            },
        },
{
    let v: i32 = r.size_at(*offset)?;
    *offset = *offset + 4;
    r.seek(*offset);
    Ok(v)
}

} // verus!
