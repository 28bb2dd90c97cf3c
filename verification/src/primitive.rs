//! Fixed-width integers, booleans and strings.

use vstd::prelude::*;
use vstd::array::array_as_slice;
use vstd::slice::slice_to_vec;
use vstd::utf8::{
    decode_utf8, encode_utf8, encode_utf8_decode_utf8, encode_utf8_valid_utf8, valid_utf8,
};
use crate::buffer::{lemma_overwrite_append, readable, Buffer, LIMIT};
use crate::endian::{
    i16_from_le, i16_to_le, i32_from_le, i32_to_le, i64_from_le, i64_to_le, le_bytes, le_value,
    lemma_le_bytes_len, lemma_le_value_bound, lemma_le_value_of_bytes, lemma_radix_values, radix,
    signed, u16_from_le, u16_to_le, u32_from_le, u32_to_le, u64_from_le, u64_to_le, unsigned,
};
use crate::error::{Failure, IoErrorKind, ZeroFormatterError, ZeroFormatterResult};
use crate::formatter::Formatter;
use crate::parse::unsigned_in;

verus! {

/// The encoding of a value whose bytes are `wire` wherever it is written.
pub open spec fn placed(wire: Seq<u8>, offset: u64) -> Result<Seq<u8>, Failure> {
    if offset + wire.len() <= LIMIT {
        Ok(wire)
    } else {
        Err(Failure::Io(IoErrorKind::StorageFull))
    }
}

/// The unsigned number of `width` bytes at `offset`, with the offset behind it.
pub open spec fn unsigned_at(bytes: Seq<u8>, offset: u64, width: nat) -> Result<(nat, u64), Failure> {
    match unsigned_in(bytes, offset as int, width) {
        Some(u) => Ok((u, (offset + width) as u64)),
        None => Err(Failure::Io(IoErrorKind::UnexpectedEof)),
    }
}

/// The two's complement number of `width` bytes at `offset`, with the offset behind it.
pub open spec fn signed_at(bytes: Seq<u8>, offset: u64, width: nat) -> Result<(int, u64), Failure> {
    match unsigned_at(bytes, offset, width) {
        Ok((u, next)) => Ok((signed(u, width), next)),
        Err(f) => Err(f),
    }
}

/// A number read from `width` bytes lies in the range of `width` bytes.
pub proof fn lemma_signed_at_fits(bytes: Seq<u8>, offset: u64, width: nat)
    requires
        width > 0,
    ensures
        match signed_at(bytes, offset, width) {
            Ok((v, next)) => -(radix(width) as int) <= 2 * v < radix(width) && next == offset
                + width,
            Err(_) => true,
        },
{
    if readable(bytes, offset as int, width as int) {
        lemma_le_value_bound(bytes.subrange(offset as int, offset + width));
    }
}

impl Formatter<u8> for Buffer {
    open spec fn encoding(value: u8, offset: u64) -> Result<Seq<u8>, Failure> {
        placed(le_bytes(value as nat, 1), offset)
    }

    open spec fn decoding(bytes: Seq<u8>, offset: u64) -> Result<(u8, u64), Failure> {
        match unsigned_at(bytes, offset, 1) {
            Ok((u, next)) => Ok((u as u8, next)),
            Err(f) => Err(f),
        }
    }

    proof fn round_trip(value: u8, offset: u64, bytes: Seq<u8>) {
        lemma_radix_values();
        lemma_le_bytes_len(value as nat, 1);
        lemma_le_value_of_bytes(value as nat, 1);
    }

    fn serialize(&mut self, offset: u64, value: u8) -> (r: ZeroFormatterResult<i32>)
        ensures
            r is Err ==> final(self)@ == old(self)@,
    {
        let b: [u8; 1] = [value];
        proof {
            reveal_with_fuel(le_bytes, 2);
            assert(b@ =~= le_bytes(value as nat, 1));
        }
        self.store(offset, array_as_slice(&b))
    }

    fn deserialize(&mut self, offset: &mut u64) -> (r: ZeroFormatterResult<u8>) {
        let s = self.fetch(*offset, 1)?;
        let v: u8 = s[0];
        proof {
            reveal_with_fuel(le_value, 2);
        }
        *offset = *offset + 1;
        self.seek(*offset);
        Ok(v)
    }
}

impl Formatter<bool> for Buffer {
    open spec fn encoding(value: bool, offset: u64) -> Result<Seq<u8>, Failure> {
        placed(seq![if value { 1u8 } else { 0u8 }], offset)
    }

    /// Only the byte 1 is read as `true`.
    open spec fn decoding(bytes: Seq<u8>, offset: u64) -> Result<(bool, u64), Failure> {
        match unsigned_at(bytes, offset, 1) {
            Ok((u, next)) => Ok((u == 1, next)),
            Err(f) => Err(f),
        }
    }

    proof fn round_trip(value: bool, offset: u64, bytes: Seq<u8>) {
        reveal_with_fuel(le_value, 2);
    }

    fn serialize(&mut self, offset: u64, value: bool) -> (r: ZeroFormatterResult<i32>)
        ensures
            r is Err ==> final(self)@ == old(self)@,
    {
        let b: [u8; 1] = [if value { 1u8 } else { 0u8 }];
        proof {
            assert(b@ =~= seq![if value { 1u8 } else { 0u8 }]);
        }
        self.store(offset, array_as_slice(&b))
    }

    fn deserialize(&mut self, offset: &mut u64) -> (r: ZeroFormatterResult<bool>) {
        let s = self.fetch(*offset, 1)?;
        let v: u8 = s[0];
        proof {
            reveal_with_fuel(le_value, 2);
        }
        *offset = *offset + 1;
        self.seek(*offset);
        Ok(v == 1)
    }
}

impl Formatter<i8> for Buffer {
    open spec fn encoding(value: i8, offset: u64) -> Result<Seq<u8>, Failure> {
        placed(le_bytes(unsigned(value as int, 1), 1), offset)
    }

    open spec fn decoding(bytes: Seq<u8>, offset: u64) -> Result<(i8, u64), Failure> {
        match signed_at(bytes, offset, 1) {
            Ok((v, next)) => Ok((v as i8, next)),
            Err(f) => Err(f),
        }
    }

    proof fn round_trip(value: i8, offset: u64, bytes: Seq<u8>) {
        lemma_radix_values();
        lemma_le_bytes_len(unsigned(value as int, 1), 1);
        lemma_le_value_of_bytes(unsigned(value as int, 1), 1);
    }

    fn serialize(&mut self, offset: u64, value: i8) -> (r: ZeroFormatterResult<i32>)
        ensures
            r is Err ==> final(self)@ == old(self)@,
    {
        let wide: i16 = value as i16;
        let byte: u8 = if wide < 0 { (wide + 256) as u8 } else { wide as u8 };
        let b: [u8; 1] = [byte];
        proof {
            lemma_radix_values();
            reveal_with_fuel(le_bytes, 2);
            assert(b@ =~= le_bytes(unsigned(value as int, 1), 1));
        }
        self.store(offset, array_as_slice(&b))
    }

    fn deserialize(&mut self, offset: &mut u64) -> (r: ZeroFormatterResult<i8>) {
        let s = self.fetch(*offset, 1)?;
        let wide: i16 = s[0] as i16;
        let v: i8 = if wide >= 128 { (wide - 256) as i8 } else { wide as i8 };
        proof {
            lemma_radix_values();
            reveal_with_fuel(le_value, 2);
        }
        *offset = *offset + 1;
        self.seek(*offset);
        Ok(v)
    }
}

impl Formatter<u16> for Buffer {
    open spec fn encoding(value: u16, offset: u64) -> Result<Seq<u8>, Failure> {
        placed(le_bytes(value as nat, 2), offset)
    }

    open spec fn decoding(bytes: Seq<u8>, offset: u64) -> Result<(u16, u64), Failure> {
        match unsigned_at(bytes, offset, 2) {
            Ok((u, next)) => Ok((u as u16, next)),
            Err(f) => Err(f),
        }
    }

    proof fn round_trip(value: u16, offset: u64, bytes: Seq<u8>) {
        lemma_radix_values();
        lemma_le_bytes_len(value as nat, 2);
        lemma_le_value_of_bytes(value as nat, 2);
    }

    fn serialize(&mut self, offset: u64, value: u16) -> (r: ZeroFormatterResult<i32>)
        ensures
            r is Err ==> final(self)@ == old(self)@,
    {
        let b: [u8; 2] = u16_to_le(value);
        proof {
            lemma_le_bytes_len(value as nat, 2);
        }
        self.store(offset, array_as_slice(&b))
    }

    fn deserialize(&mut self, offset: &mut u64) -> (r: ZeroFormatterResult<u16>) {
        let s = self.fetch(*offset, 2)?;
        let v: u16 = u16_from_le(s);
        proof {
            lemma_radix_values();
            assert(s@.subrange(0, 2) =~= s@);
            lemma_le_value_bound(s@);
        }
        *offset = *offset + 2;
        self.seek(*offset);
        Ok(v)
    }
}

impl Formatter<u32> for Buffer {
    open spec fn encoding(value: u32, offset: u64) -> Result<Seq<u8>, Failure> {
        placed(le_bytes(value as nat, 4), offset)
    }

    open spec fn decoding(bytes: Seq<u8>, offset: u64) -> Result<(u32, u64), Failure> {
        match unsigned_at(bytes, offset, 4) {
            Ok((u, next)) => Ok((u as u32, next)),
            Err(f) => Err(f),
        }
    }

    proof fn round_trip(value: u32, offset: u64, bytes: Seq<u8>) {
        lemma_radix_values();
        lemma_le_bytes_len(value as nat, 4);
        lemma_le_value_of_bytes(value as nat, 4);
    }

    fn serialize(&mut self, offset: u64, value: u32) -> (r: ZeroFormatterResult<i32>)
        ensures
            r is Err ==> final(self)@ == old(self)@,
    {
        let b: [u8; 4] = u32_to_le(value);
        proof {
            lemma_le_bytes_len(value as nat, 4);
        }
        self.store(offset, array_as_slice(&b))
    }

    fn deserialize(&mut self, offset: &mut u64) -> (r: ZeroFormatterResult<u32>) {
        let s = self.fetch(*offset, 4)?;
        let v: u32 = u32_from_le(s);
        proof {
            lemma_radix_values();
            assert(s@.subrange(0, 4) =~= s@);
            lemma_le_value_bound(s@);
        }
        *offset = *offset + 4;
        self.seek(*offset);
        Ok(v)
    }
}

impl Formatter<u64> for Buffer {
    open spec fn encoding(value: u64, offset: u64) -> Result<Seq<u8>, Failure> {
        placed(le_bytes(value as nat, 8), offset)
    }

    open spec fn decoding(bytes: Seq<u8>, offset: u64) -> Result<(u64, u64), Failure> {
        match unsigned_at(bytes, offset, 8) {
            Ok((u, next)) => Ok((u as u64, next)),
            Err(f) => Err(f),
        }
    }

    proof fn round_trip(value: u64, offset: u64, bytes: Seq<u8>) {
        lemma_radix_values();
        lemma_le_bytes_len(value as nat, 8);
        lemma_le_value_of_bytes(value as nat, 8);
    }

    fn serialize(&mut self, offset: u64, value: u64) -> (r: ZeroFormatterResult<i32>)
        ensures
            r is Err ==> final(self)@ == old(self)@,
    {
        let b: [u8; 8] = u64_to_le(value);
        proof {
            lemma_le_bytes_len(value as nat, 8);
        }
        self.store(offset, array_as_slice(&b))
    }

    fn deserialize(&mut self, offset: &mut u64) -> (r: ZeroFormatterResult<u64>) {
        let s = self.fetch(*offset, 8)?;
        let v: u64 = u64_from_le(s);
        proof {
            lemma_radix_values();
            assert(s@.subrange(0, 8) =~= s@);
            lemma_le_value_bound(s@);
        }
        *offset = *offset + 8;
        self.seek(*offset);
        Ok(v)
    }
}

impl Formatter<i16> for Buffer {
    open spec fn encoding(value: i16, offset: u64) -> Result<Seq<u8>, Failure> {
        placed(le_bytes(unsigned(value as int, 2), 2), offset)
    }

    open spec fn decoding(bytes: Seq<u8>, offset: u64) -> Result<(i16, u64), Failure> {
        match signed_at(bytes, offset, 2) {
            Ok((v, next)) => Ok((v as i16, next)),
            Err(f) => Err(f),
        }
    }

    proof fn round_trip(value: i16, offset: u64, bytes: Seq<u8>) {
        lemma_radix_values();
        lemma_le_bytes_len(unsigned(value as int, 2), 2);
        lemma_le_value_of_bytes(unsigned(value as int, 2), 2);
    }

    fn serialize(&mut self, offset: u64, value: i16) -> (r: ZeroFormatterResult<i32>)
        ensures
            r is Err ==> final(self)@ == old(self)@,
    {
        let b: [u8; 2] = i16_to_le(value);
        proof {
            lemma_le_bytes_len(unsigned(value as int, 2), 2);
        }
        self.store(offset, array_as_slice(&b))
    }

    fn deserialize(&mut self, offset: &mut u64) -> (r: ZeroFormatterResult<i16>) {
        let s = self.fetch(*offset, 2)?;
        let v: i16 = i16_from_le(s);
        proof {
            lemma_radix_values();
            assert(s@.subrange(0, 2) =~= s@);
            lemma_le_value_bound(s@);
        }
        *offset = *offset + 2;
        self.seek(*offset);
        Ok(v)
    }
}

impl Formatter<i32> for Buffer {
    open spec fn encoding(value: i32, offset: u64) -> Result<Seq<u8>, Failure> {
        placed(le_bytes(unsigned(value as int, 4), 4), offset)
    }

    open spec fn decoding(bytes: Seq<u8>, offset: u64) -> Result<(i32, u64), Failure> {
        match signed_at(bytes, offset, 4) {
            Ok((v, next)) => Ok((v as i32, next)),
            Err(f) => Err(f),
        }
    }

    proof fn round_trip(value: i32, offset: u64, bytes: Seq<u8>) {
        lemma_radix_values();
        lemma_le_bytes_len(unsigned(value as int, 4), 4);
        lemma_le_value_of_bytes(unsigned(value as int, 4), 4);
    }

    fn serialize(&mut self, offset: u64, value: i32) -> (r: ZeroFormatterResult<i32>)
        ensures
            r is Err ==> final(self)@ == old(self)@,
    {
        let b: [u8; 4] = i32_to_le(value);
        proof {
            lemma_le_bytes_len(unsigned(value as int, 4), 4);
        }
        self.store(offset, array_as_slice(&b))
    }

    fn deserialize(&mut self, offset: &mut u64) -> (r: ZeroFormatterResult<i32>) {
        let s = self.fetch(*offset, 4)?;
        let v: i32 = i32_from_le(s);
        proof {
            lemma_radix_values();
            assert(s@.subrange(0, 4) =~= s@);
            lemma_le_value_bound(s@);
        }
        *offset = *offset + 4;
        self.seek(*offset);
        Ok(v)
    }
}

impl Formatter<i64> for Buffer {
    open spec fn encoding(value: i64, offset: u64) -> Result<Seq<u8>, Failure> {
        placed(le_bytes(unsigned(value as int, 8), 8), offset)
    }

    open spec fn decoding(bytes: Seq<u8>, offset: u64) -> Result<(i64, u64), Failure> {
        match signed_at(bytes, offset, 8) {
            Ok((v, next)) => Ok((v as i64, next)),
            Err(f) => Err(f),
        }
    }

    proof fn round_trip(value: i64, offset: u64, bytes: Seq<u8>) {
        lemma_radix_values();
        lemma_le_bytes_len(unsigned(value as int, 8), 8);
        lemma_le_value_of_bytes(unsigned(value as int, 8), 8);
    }

    fn serialize(&mut self, offset: u64, value: i64) -> (r: ZeroFormatterResult<i32>)
        ensures
            r is Err ==> final(self)@ == old(self)@,
    {
        let b: [u8; 8] = i64_to_le(value);
        proof {
            lemma_le_bytes_len(unsigned(value as int, 8), 8);
        }
        self.store(offset, array_as_slice(&b))
    }

    fn deserialize(&mut self, offset: &mut u64) -> (r: ZeroFormatterResult<i64>) {
        let s = self.fetch(*offset, 8)?;
        let v: i64 = i64_from_le(s);
        proof {
            lemma_radix_values();
            assert(s@.subrange(0, 8) =~= s@);
            lemma_le_value_bound(s@);
        }
        *offset = *offset + 8;
        self.seek(*offset);
        Ok(v)
    }
}

/// `String::from_utf8`: the string made of `bytes` where they are UTF-8, and
/// an error where they are not.
#[verifier::external_body]
pub(crate) fn string_from_utf8(bytes: Vec<u8>) -> (r: Result<String, std::string::FromUtf8Error>)
    ensures
        match r {
            Ok(s) => valid_utf8(bytes@) && encode_utf8(s@) == bytes@,
            Err(_) => !valid_utf8(bytes@),
        },
{
    String::from_utf8(bytes)
}

/// The bytes of a string: the length of its UTF-8 form as a signed 32-bit
/// number, then that form.
pub open spec fn string_wire(chars: Seq<char>) -> Seq<u8> {
    le_bytes(encode_utf8(chars).len(), 4) + encode_utf8(chars)
}

impl Formatter<String> for Buffer {
    open spec fn encoding(value: Seq<char>, offset: u64) -> Result<Seq<u8>, Failure> {
        placed(string_wire(value), offset)
    }

    /// A negative length is malformed; a payload that is not UTF-8 is no string.
    open spec fn decoding(bytes: Seq<u8>, offset: u64) -> Result<(Seq<char>, u64), Failure> {
        match signed_at(bytes, offset, 4) {
            Err(f) => Err(f),
            Ok((len, start)) => {
                if len < 0 {
                    Err(Failure::Binary(offset))
                } else if !readable(bytes, start as int, len) {
                    Err(Failure::Io(IoErrorKind::UnexpectedEof))
                } else if !valid_utf8(bytes.subrange(start as int, start + len)) {
                    Err(Failure::Utf8)
                } else {
                    Ok((decode_utf8(bytes.subrange(start as int, start + len)), (start + len) as u64))
                }
            },
        }
    }

    proof fn round_trip(value: Seq<char>, offset: u64, bytes: Seq<u8>) {
        let payload = encode_utf8(value);
        lemma_radix_values();
        lemma_le_bytes_len(payload.len(), 4);
        lemma_le_value_of_bytes(payload.len(), 4);
        let start = offset + 4;
        assert(bytes.subrange(offset as int, offset + 4) =~= le_bytes(payload.len(), 4)) by {
            assert(bytes.subrange(offset as int, offset + 4) =~= string_wire(value).subrange(0, 4));
        }
        assert(bytes.subrange(start, start + payload.len()) =~= payload) by {
            assert(bytes.subrange(start, start + payload.len()) =~= string_wire(value).subrange(
                4,
                4 + payload.len() as int,
            ));
        }
        encode_utf8_valid_utf8(value);
        encode_utf8_decode_utf8(value);
    }

    fn serialize(&mut self, offset: u64, value: String) -> (r: ZeroFormatterResult<i32>)
        ensures
            r is Err ==> final(self)@ == old(self)@,
    {
        let payload: &[u8] = value.as_str().as_bytes();
        let n: usize = payload.len();
        proof {
            lemma_le_bytes_len(n as nat, 4);
        }
        if offset > LIMIT - 4 || n as u64 > LIMIT - 4 - offset {
            return Err(ZeroFormatterError::IoError(IoErrorKind::StorageFull));
        }
        let head: [u8; 4] = i32_to_le(n as i32);
        self.poke(offset, array_as_slice(&head));
        self.poke(offset + 4, payload);
        self.seek(offset + 4 + n as u64);
        proof {
            lemma_overwrite_append(old(self)@.bytes, offset as int, head@, payload@);
        }
        Ok((n + 4) as i32)
    }

    fn deserialize(&mut self, offset: &mut u64) -> (r: ZeroFormatterResult<String>) {
        let at: u64 = *offset;
        let head = self.fetch(at, 4)?;
        let len: i32 = i32_from_le(head);
        proof {
            assert(head@.subrange(0, 4) =~= head@);
        }
        if len < 0 {
            return Err(ZeroFormatterError::InvalidBinary(at));
        }
        let payload = self.fetch(at + 4, len as u64)?;
        let s: String = match string_from_utf8(slice_to_vec(payload)) {
            Ok(s) => s,
            Err(e) => {
                return Err(ZeroFormatterError::from(e));
            },
        };
        proof {
            encode_utf8_decode_utf8(s@);
        }
        *offset = at + 4 + len as u64;
        self.seek(*offset);
        Ok(s)
    }
}

} // verus!
