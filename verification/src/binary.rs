//! Numbers of fixed size, and their bytes in little-endian order.

use vstd::prelude::*;
use crate::reader::{ByteReader, UnexpectedEof};

verus! {

/// The four bytes of a number, low byte first.
pub open spec fn le_bytes(x: u32) -> Seq<u8> {
    seq![le_byte(x, 0), le_byte(x, 1), le_byte(x, 2), le_byte(x, 3)]
}

/// The byte number `k` of `x`, counted from the low end.
pub open spec fn le_byte(x: u32, k: int) -> u8 {
    if k == 0 {
        (x % 256) as u8
    } else if k == 1 {
        (x / 0x100 % 256) as u8
    } else if k == 2 {
        (x / 0x1_0000 % 256) as u8
    } else {
        (x / 0x100_0000) as u8
    }
}

/// The number that four bytes stand for, low byte first.
pub open spec fn le_number(b0: u8, b1: u8, b2: u8, b3: u8) -> int {
    b0 + b1 * 0x100 + b2 * 0x1_0000 + b3 * 0x100_0000
}

/// The bytes of a number stand for it.
pub proof fn law_le_bytes(x: u32)
    ensures
        le_number(le_byte(x, 0), le_byte(x, 1), le_byte(x, 2), le_byte(x, 3)) == x,
{
}

/// The number that is the first four bytes of `input`, and the bytes after them.
pub open spec fn read_le(input: Seq<u8>) -> Option<(u32, Seq<u8>)> {
    if input.len() < 4 {
        None
    } else {
        Some((le_number(input[0], input[1], input[2], input[3]) as u32, input.skip(4)))
    }
}

/// The signed number with the same 64 bits.
pub open spec fn signed(x: u64) -> i64 {
    if x < 0x8000_0000_0000_0000 {
        x as i64
    } else {
        (x - 0x1_0000_0000_0000_0000) as i64
    }
}

/// The number without a sign with the same 64 bits.
pub open spec fn unsigned(x: i64) -> u64 {
    if x >= 0 {
        x as u64
    } else {
        (x + 0x1_0000_0000_0000_0000) as u64
    }
}

/// A number keeps its bits with a sign and without.
pub proof fn law_signed(x: u64)
    ensures
        unsigned(signed(x)) == x,
{
}

/// Takes the bits of a number for one with a sign.
pub fn to_signed(x: u64) -> (r: i64)
    ensures
        r == signed(x),
{
    if x < 0x8000_0000_0000_0000 {
        x as i64
    } else {
        (x as i128 - 0x1_0000_0000_0000_0000) as i64
    }
}

/// Takes the bits of a number for one without a sign.
pub fn to_unsigned(x: i64) -> (r: u64)
    ensures
        r == unsigned(x),
{
    if x >= 0 {
        x as u64
    } else {
        (x as i128 + 0x1_0000_0000_0000_0000) as u64
    }
}

/// Gets the byte number `k` of `x`, counted from the low end.
pub fn byte_of(x: u32, k: u32) -> (r: u8)
    requires
        k < 4,
    ensures
        r == le_byte(x, k as int),
{
    if k == 0 {
        (x % 256) as u8
    } else if k == 1 {
        (x / 0x100 % 256) as u8
    } else if k == 2 {
        (x / 0x1_0000 % 256) as u8
    } else {
        (x / 0x100_0000) as u8
    }
}

/// Appends a number.
pub fn push_le(out: &mut Vec<u8>, x: u32)
    ensures
        final(out)@ == old(out)@ + le_bytes(x),
{
    out.push(byte_of(x, 0));
    out.push(byte_of(x, 1));
    out.push(byte_of(x, 2));
    out.push(byte_of(x, 3));
    assert(out@ =~= old(out)@ + le_bytes(x));
}

/// Puts a number together from its bytes, low byte first.
pub fn number_of(b0: u8, b1: u8, b2: u8, b3: u8) -> (r: u32)
    ensures
        r == le_number(b0, b1, b2, b3),
{
    b0 as u32 + b1 as u32 * 0x100 + b2 as u32 * 0x1_0000 + b3 as u32 * 0x100_0000
}

/// Reads a number.
pub fn pull_le(reader: &mut ByteReader) -> (r: Result<u32, UnexpectedEof>)
    ensures
        match r {
            Ok(x) => read_le(old(reader)@) == Some((x, final(reader)@)),
            Err(_) => read_le(old(reader)@) is None && final(reader)@.len() == 0,
        },
{
    let ghost input = reader@;
    let b0: u8 = reader.read_byte()?;
    let b1: u8 = reader.read_byte()?;
    let b2: u8 = reader.read_byte()?;
    let b3: u8 = reader.read_byte()?;
    assert(reader@ =~= input.skip(4));
    Ok(number_of(b0, b1, b2, b3))
}

} // verus!
