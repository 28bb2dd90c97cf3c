//! Pairs: the first value, then the second where the first ended.

use vstd::prelude::*;
use crate::buffer::{lemma_overwrite_append, Buffer};
use crate::error::{Failure, ZeroFormatterResult};
use crate::formatter::Formatter;

verus! {

impl<A1: DeepView, A2: DeepView> Formatter<(A1, A2)> for Buffer where
    Buffer: Formatter<A1> + Formatter<A2>,
 {
    open spec fn encoding(value: (A1::V, A2::V), offset: u64) -> Result<Seq<u8>, Failure> {
        match <Buffer as Formatter<A1>>::encoding(value.0, offset) {
            Err(f) => Err(f),
            Ok(first) => match <Buffer as Formatter<A2>>::encoding(
                value.1,
                (offset + first.len()) as u64,
            ) {
                Err(f) => Err(f),
                Ok(second) => Ok(first + second),
            },
        }
    }

    open spec fn decoding(bytes: Seq<u8>, offset: u64) -> Result<((A1::V, A2::V), u64), Failure> {
        match <Buffer as Formatter<A1>>::decoding(bytes, offset) {
            Err(f) => Err(f),
            Ok((first, mid)) => match <Buffer as Formatter<A2>>::decoding(bytes, mid) {
                Err(f) => Err(f),
                Ok((second, next)) => Ok(((first, second), next)),
            },
        }
    }

    proof fn round_trip(value: (A1::V, A2::V), offset: u64, bytes: Seq<u8>) {
        let first = <Buffer as Formatter<A1>>::encoding(value.0, offset)->Ok_0;
        let mid = (offset + first.len()) as u64;
        let second = <Buffer as Formatter<A2>>::encoding(value.1, mid)->Ok_0;
        let wire = first + second;
        assert(bytes.subrange(offset as int, offset + first.len()) =~= first) by {
            assert(bytes.subrange(offset as int, offset + first.len()) =~= wire.subrange(
                0,
                first.len() as int,
            ));
        }
        <Buffer as Formatter<A1>>::round_trip(value.0, offset, bytes);
        assert(bytes.subrange(mid as int, mid + second.len()) =~= second) by {
            assert(bytes.subrange(mid as int, mid + second.len()) =~= wire.subrange(
                first.len() as int,
                wire.len() as int,
            ));
        }
        <Buffer as Formatter<A2>>::round_trip(value.1, mid, bytes);
    }

    fn serialize(&mut self, offset: u64, value: (A1, A2)) -> (r: ZeroFormatterResult<i32>) {
        let back: u64 = self.position();
        let r1: i32 = <Buffer as Formatter<A1>>::serialize(self, offset, value.0)?;
        match <Buffer as Formatter<A2>>::serialize(self, offset + r1 as u64, value.1) {
            Ok(r2) => {
                proof {
                    let first = <Buffer as Formatter<A1>>::encoding(
                        value.0.deep_view(),
                        offset,
                    )->Ok_0;
                    let second = <Buffer as Formatter<A2>>::encoding(
                        value.1.deep_view(),
                        (offset + first.len()) as u64,
                    )->Ok_0;
                    lemma_overwrite_append(old(self)@.bytes, offset as int, first, second);
                }
                Ok(r1 + r2)
            },
            Err(e) => {
                self.seek(back);
                Err(e)
            },
        }
    }

    fn deserialize(&mut self, offset: &mut u64) -> (r: ZeroFormatterResult<(A1, A2)>) {
        let start: u64 = *offset;
        let back: u64 = self.position();
        let a1: A1 = <Buffer as Formatter<A1>>::deserialize(self, offset)?;
        match <Buffer as Formatter<A2>>::deserialize(self, offset) {
            Ok(a2) => Ok((a1, a2)),
            Err(e) => {
                *offset = start;
                self.seek(back);
                Err(e)
            },
        }
    }
}

} // verus!
