//! The capability that each shape of value gives to a buffer: to write the
//! value at an offset, and to read one back.

use vstd::prelude::*;
use crate::buffer::{overwrite, BufferView, LIMIT};
use crate::error::{Failure, ZeroFormatterResult};

verus! {

/// Whether `bytes` holds `wire` at `offset`.
pub open spec fn holds(bytes: Seq<u8>, offset: int, wire: Seq<u8>) -> bool {
    &&& 0 <= offset
    &&& offset + wire.len() <= bytes.len()
    &&& bytes.subrange(offset, offset + wire.len()) == wire
}

/// Whether `after` still has every byte that `before` had in front of `offset`.
pub open spec fn kept_before(before: Seq<u8>, after: Seq<u8>, offset: int) -> bool {
    &&& before.len() <= after.len()
    &&& forall|i: int| 0 <= i < offset && i < before.len() ==> after[i] == before[i]
}

/// A buffer that can hold values of type `T`.
///
/// The two spec functions say what the wire format of `T` is. The two methods
/// are bound to them: a writer produces exactly the bytes of `encoding`, a
/// reader returns exactly what `decoding` finds.
pub trait Formatter<T: DeepView>: View<V = BufferView> + Sized {
    /// The bytes that stand for `value` when it is written at `offset`, or the
    /// reason why it cannot be written there.
    spec fn encoding(value: T::V, offset: u64) -> Result<Seq<u8>, Failure>;

    /// What a reader finds at `offset` in `bytes`: a value and the offset of
    /// the byte behind it, or the reason why there is none.
    spec fn decoding(bytes: Seq<u8>, offset: u64) -> Result<(T::V, u64), Failure>;

    /// What was written is what is read: wherever `bytes` holds the encoding
    /// of `value` at `offset`, a reader finds `value` there and ends behind
    /// the last byte of the encoding, which lies within the format's reach.
    proof fn round_trip(value: T::V, offset: u64, bytes: Seq<u8>)
        requires
            Self::encoding(value, offset) is Ok,
            holds(bytes, offset as int, Self::encoding(value, offset)->Ok_0),
        ensures
            offset + Self::encoding(value, offset)->Ok_0.len() <= LIMIT,
            Self::decoding(bytes, offset) == Ok::<(T::V, u64), Failure>(
                (value, (offset + Self::encoding(value, offset)->Ok_0.len()) as u64),
            ),
    ;

    /// Writes `value` at `offset` and returns the number of bytes written. The
    /// cursor then stands behind them. On failure the cursor stays and no
    /// byte in front of `offset` has changed.
    fn serialize(&mut self, offset: u64, value: T) -> (r: ZeroFormatterResult<i32>)
        ensures
            match Self::encoding(value.deep_view(), offset) {
                Ok(wire) => {
                    &&& r matches Ok(n)
                    &&& n == wire.len()
                    &&& offset + wire.len() <= LIMIT
                    &&& final(self)@.bytes == overwrite(old(self)@.bytes, offset as int, wire)
                    &&& final(self)@.position == offset + wire.len()
                },
                Err(f) => {
                    &&& r matches Err(e)
                    &&& e@ == f
                    &&& final(self)@.position == old(self)@.position
                    &&& kept_before(old(self)@.bytes, final(self)@.bytes, offset as int)
                },
            },
    ;

    /// Reads a value at `*offset` and moves `*offset` and the cursor behind
    /// it. A failed read moves neither. The bytes are never changed.
    fn deserialize(&mut self, offset: &mut u64) -> (r: ZeroFormatterResult<T>)
        ensures
            final(self)@.bytes == old(self)@.bytes,
            match Self::decoding(old(self)@.bytes, *old(offset)) {
                Ok((v, next)) => {
                    &&& r matches Ok(x)
                    &&& x.deep_view() == v
                    &&& *final(offset) == next
                    &&& final(self)@.position == next
                },
                Err(f) => {
                    &&& r matches Err(e)
                    &&& e@ == f
                    &&& *final(offset) == *old(offset)
                    &&& final(self)@.position == old(self)@.position
                },
            },
    ;
}

} // verus!
