//! Little-endian integers: what their bytes are, and the calls that produce and read them.

use vstd::prelude::*;
use byteorder::{ByteOrder, LittleEndian};

verus! {

/// 256 to the power `width`: the number of values that `width` bytes can hold.
pub open spec fn radix(width: nat) -> nat
    decreases width,
{
    if width == 0 {
        1
    } else {
        256 * radix((width - 1) as nat)
    }
}

/// The `width` low bytes of `v`, least significant first.
pub open spec fn le_bytes(v: nat, width: nat) -> Seq<u8>
    decreases width,
{
    if width == 0 {
        Seq::empty()
    } else {
        seq![(v % 256) as u8] + le_bytes(v / 256, (width - 1) as nat)
    }
}

/// The number whose little-endian bytes are `bytes`.
pub open spec fn le_value(bytes: Seq<u8>) -> nat
    decreases bytes.len(),
{
    if bytes.len() == 0 {
        0
    } else {
        bytes[0] as nat + 256 * le_value(bytes.drop_first())
    }
}

/// The two's complement of `v` in `width` bytes, as the unsigned number with the same bytes.
pub open spec fn unsigned(v: int, width: nat) -> nat {
    if v < 0 {
        (v + radix(width)) as nat
    } else {
        v as nat
    }
}

/// The signed number whose two's complement in `width` bytes is `u`.
pub open spec fn signed(u: nat, width: nat) -> int {
    if 2 * u >= radix(width) {
        u - radix(width)
    } else {
        u as int
    }
}

pub proof fn lemma_radix_values()
    ensures
        radix(0) == 1,
        radix(1) == 0x100,
        radix(2) == 0x1_0000,
        radix(4) == 0x1_0000_0000,
        radix(8) == 0x1_0000_0000_0000_0000,
{
    reveal_with_fuel(radix, 9);
}

pub proof fn lemma_le_bytes_len(v: nat, width: nat)
    ensures
        le_bytes(v, width).len() == width,
    decreases width,
{
    if width > 0 {
        lemma_le_bytes_len(v / 256, (width - 1) as nat);
    }
}

pub proof fn lemma_le_value_bound(bytes: Seq<u8>)
    ensures
        le_value(bytes) < radix(bytes.len()),
    decreases bytes.len(),
{
    if bytes.len() > 0 {
        lemma_le_value_bound(bytes.drop_first());
    }
}

/// Reading the bytes of a number that fits gives the number back.
pub proof fn lemma_le_value_of_bytes(v: nat, width: nat)
    requires
        v < radix(width),
    ensures
        le_value(le_bytes(v, width)) == v,
    decreases width,
{
    if width > 0 {
        let rest = le_bytes(v / 256, (width - 1) as nat);
        lemma_le_value_of_bytes(v / 256, (width - 1) as nat);
        assert(le_bytes(v, width).drop_first() =~= rest);
    }
}

/// `byteorder::LittleEndian::write_u16` on a two-byte array: the array then
/// holds the two bytes of `n`, low byte first.
#[verifier::external_body]
pub(crate) fn u16_to_le(n: u16) -> (r: [u8; 2])
    ensures
        r@ == le_bytes(n as nat, 2),
{
    let mut b: [u8; 2] = [0u8; 2];
    LittleEndian::write_u16(&mut b, n);
    b
}

/// `byteorder::LittleEndian::write_u32` on a four-byte array: the array then
/// holds the four bytes of `n`, low byte first.
#[verifier::external_body]
pub(crate) fn u32_to_le(n: u32) -> (r: [u8; 4])
    ensures
        r@ == le_bytes(n as nat, 4),
{
    let mut b: [u8; 4] = [0u8; 4];
    LittleEndian::write_u32(&mut b, n);
    b
}

/// `byteorder::LittleEndian::write_u64` on an eight-byte array: the array then
/// holds the eight bytes of `n`, low byte first.
#[verifier::external_body]
pub(crate) fn u64_to_le(n: u64) -> (r: [u8; 8])
    ensures
        r@ == le_bytes(n as nat, 8),
{
    let mut b: [u8; 8] = [0u8; 8];
    LittleEndian::write_u64(&mut b, n);
    b
}

/// `byteorder::LittleEndian::write_i16`: the bytes of the two's complement of `n`.
#[verifier::external_body]
pub(crate) fn i16_to_le(n: i16) -> (r: [u8; 2])
    ensures
        r@ == le_bytes(unsigned(n as int, 2), 2),
{
    let mut b: [u8; 2] = [0u8; 2];
    LittleEndian::write_i16(&mut b, n);
    b
}

/// `byteorder::LittleEndian::write_i32`: the bytes of the two's complement of `n`.
#[verifier::external_body]
pub(crate) fn i32_to_le(n: i32) -> (r: [u8; 4])
    ensures
        r@ == le_bytes(unsigned(n as int, 4), 4),
{
    let mut b: [u8; 4] = [0u8; 4];
    LittleEndian::write_i32(&mut b, n);
    b
}

/// `byteorder::LittleEndian::write_i64`: the bytes of the two's complement of `n`.
#[verifier::external_body]
pub(crate) fn i64_to_le(n: i64) -> (r: [u8; 8])
    ensures
        r@ == le_bytes(unsigned(n as int, 8), 8),
{
    let mut b: [u8; 8] = [0u8; 8];
    LittleEndian::write_i64(&mut b, n);
    b
}

/// `byteorder::LittleEndian::read_u16`, which panics on fewer than two bytes:
/// the number that the first two bytes hold, low byte first.
#[verifier::external_body]
pub(crate) fn u16_from_le(b: &[u8]) -> (r: u16)
    requires
        b@.len() >= 2,
    ensures
        r as nat == le_value(b@.subrange(0, 2)),
{
    LittleEndian::read_u16(b)
}

/// `byteorder::LittleEndian::read_u32`, which panics on fewer than four bytes:
/// the number that the first four bytes hold, low byte first.
#[verifier::external_body]
pub(crate) fn u32_from_le(b: &[u8]) -> (r: u32)
    requires
        b@.len() >= 4,
    ensures
        r as nat == le_value(b@.subrange(0, 4)),
{
    LittleEndian::read_u32(b)
}

/// `byteorder::LittleEndian::read_u64`, which panics on fewer than eight bytes:
/// the number that the first eight bytes hold, low byte first.
#[verifier::external_body]
pub(crate) fn u64_from_le(b: &[u8]) -> (r: u64)
    requires
        b@.len() >= 8,
    ensures
        r as nat == le_value(b@.subrange(0, 8)),
{
    LittleEndian::read_u64(b)
}

/// `byteorder::LittleEndian::read_i16`, which panics on fewer than two bytes:
/// the first two bytes read as a two's complement.
#[verifier::external_body]
pub(crate) fn i16_from_le(b: &[u8]) -> (r: i16)
    requires
        b@.len() >= 2,
    ensures
        r as int == signed(le_value(b@.subrange(0, 2)), 2),
{
    LittleEndian::read_i16(b)
}

/// `byteorder::LittleEndian::read_i32`, which panics on fewer than four bytes:
/// the first four bytes read as a two's complement.
#[verifier::external_body]
pub(crate) fn i32_from_le(b: &[u8]) -> (r: i32)
    requires
        b@.len() >= 4,
    ensures
        r as int == signed(le_value(b@.subrange(0, 4)), 4),
{
    LittleEndian::read_i32(b)
}

/// `byteorder::LittleEndian::read_i64`, which panics on fewer than eight bytes:
/// the first eight bytes read as a two's complement.
#[verifier::external_body]
pub(crate) fn i64_from_le(b: &[u8]) -> (r: i64)
    requires
        b@.len() >= 8,
    ensures
        r as int == signed(le_value(b@.subrange(0, 8)), 8),
{
    LittleEndian::read_i64(b)
}

} // verus!
