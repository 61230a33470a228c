//! Integers of variable length.
//!
//! The leading ones of the first byte tell how many bytes follow it. The bits after the zero that
//! ends them, and the bytes that follow, are the number, top bits first:
//!
//! ```text
//! 0xxxxxxx                         below 2^7
//! 10xxxxxx yyyyyyyy                below 2^14
//! 110xxxxx yyyyyyyy zzzzzzzz       below 2^21
//! ...
//! 11111111 and eight bytes         from 2^56 on
//! ```

use vstd::prelude::*;
use vstd::arithmetic::div_mod::{lemma_div_denominator, lemma_fundamental_div_mod};
use vstd::arithmetic::power2::{lemma2_to64, lemma_pow2_adds, pow2};
use vstd::bits::lemma_u64_shr_is_div;
use crate::reader::{ByteReader, UnexpectedEof};

verus! {

/// The number that stands for `n`: an even one for a number that is not negative, an odd one for
/// a negative number.
pub open spec fn zigzag_of(n: i64) -> u64 {
    if n >= 0 {
        (2 * n) as u64
    } else {
        (-2 * n - 1) as u64
    }
}

/// The number that `z` stands for.
pub open spec fn unzigzag_of(z: u64) -> i64 {
    if z % 2 == 0 {
        (z / 2) as i64
    } else {
        (-(z / 2) - 1) as i64
    }
}

/// Maps negative numbers to odd ones, others to even ones: 0 to 0, -1 to 1, 1 to 2, -2 to 3.
pub fn zigzag(n: i64) -> (r: u64)
    ensures
        r == zigzag_of(n),
{
    assert(((n << 1) ^ (n >> 63)) as u64 == (if n >= 0 {
        2 * n
    } else {
        -2 * n - 1
    })) by (bit_vector);
    ((n << 1) ^ (n >> 63)) as u64
}

/// Undoes `zigzag`.
pub fn unzigzag(n: u64) -> (r: i64)
    ensures
        r == unzigzag_of(n),
{
    let half: i64 = (n >> 1) as i64;
    assert(n >> 1 == n / 2 && n & 1 == n % 2 && n >> 1 <= 0x7fff_ffff_ffff_ffff) by (bit_vector);
    if n & 1 == 0 {
        half
    } else {
        -half - 1
    }
}

/// Every number comes back.
pub proof fn law_zigzag(n: i64)
    ensures
        unzigzag_of(zigzag_of(n)) == n,
{
}

/// Every unsigned number stands for one number.
pub proof fn law_unzigzag(z: u64)
    ensures
        zigzag_of(unzigzag_of(z)) == z,
{
}

/// The `n`th power of 256.
pub open spec fn radix(n: int) -> int
    decreases n,
{
    if n <= 0 {
        1
    } else {
        256 * radix(n - 1)
    }
}

/// The last `n` digits of a number to the base 256, top digit first.
pub open spec fn digits(v: int, n: int) -> Seq<u8>
    decreases n,
{
    if n <= 0 {
        Seq::empty()
    } else {
        digits(v / 256, n - 1).push((v % 256) as u8)
    }
}

/// The number with these digits to the base 256, top digit first.
pub open spec fn number(digits: Seq<u8>) -> int
    decreases digits.len(),
{
    if digits.len() == 0 {
        0
    } else {
        number(digits.drop_last()) * 256 + digits.last()
    }
}

/// How many bytes a number takes.
pub open spec fn varint_len(value: u64) -> int {
    if value < 0x80 {
        1
    } else if value < 0x4000 {
        2
    } else if value < 0x20_0000 {
        3
    } else if value < 0x1000_0000 {
        4
    } else if value < 0x8_0000_0000 {
        5
    } else if value < 0x400_0000_0000 {
        6
    } else if value < 0x2_0000_0000_0000 {
        7
    } else if value < 0x100_0000_0000_0000 {
        8
    } else {
        9
    }
}

/// The first of `len` bytes without the bits of the number: one leading one less than there are
/// bytes.
pub open spec fn prefix_of(len: int) -> u8 {
    if len <= 1 {
        0
    } else if len == 2 {
        0x80
    } else if len == 3 {
        0xc0
    } else if len == 4 {
        0xe0
    } else if len == 5 {
        0xf0
    } else if len == 6 {
        0xf8
    } else if len == 7 {
        0xfc
    } else if len == 8 {
        0xfe
    } else {
        0xff
    }
}

/// The length that a first byte tells: that of the last prefix that is not above it.
pub open spec fn len_from(first: u8) -> int {
    if first < 0x80 {
        1
    } else if first < 0xc0 {
        2
    } else if first < 0xe0 {
        3
    } else if first < 0xf0 {
        4
    } else if first < 0xf8 {
        5
    } else if first < 0xfc {
        6
    } else if first < 0xfe {
        7
    } else if first < 0xff {
        8
    } else {
        9
    }
}

/// The bytes of a number.
pub open spec fn varint_bytes(value: u64) -> Seq<u8> {
    let n = varint_len(value);
    seq![(prefix_of(n) + value as int / radix(n - 1)) as u8] + digits(value as int, n - 1)
}

/// The number at the beginning of `input`, and what follows it, unless the input ends within it.
pub open spec fn varint_in(input: Seq<u8>) -> Option<(u64, Seq<u8>)> {
    if input.len() == 0 || input.len() < len_from(input[0]) {
        None
    } else {
        let n = len_from(input[0]);
        let top = input[0] - prefix_of(n);
        Some(((top * radix(n - 1) + number(input.subrange(1, n))) as u64, input.skip(n)))
    }
}

/// Reading gives back the number that was written, and stops behind it.
pub proof fn law_varint_roundtrip(value: u64, rest: Seq<u8>)
    ensures
        varint_in(varint_bytes(value) + rest) == Some((value, rest)),
{
    let n = varint_len(value);
    let bytes = varint_bytes(value);
    let input = bytes + rest;
    lemma_radix();
    lemma_digits(value as int, n - 1);
    lemma_fundamental_div_mod(value as int, radix(n - 1));
    lemma_top_digit(value);
    assert(input.subrange(1, n) =~= digits(value as int, n - 1));
    assert(input.skip(n) =~= rest);
    let top = value as int / radix(n - 1);
    assert(top * radix(n - 1) == radix(n - 1) * top) by (nonlinear_arith);
}

/// The top digit of a number fits behind the prefix.
pub proof fn lemma_top_digit(value: u64)
    ensures
        ({
            let n = varint_len(value);
            let top = value as int / radix(n - 1);
            0 <= top && prefix_of(n) + top <= 255 && len_from((prefix_of(n) + top) as u8) == n
        }),
{
    lemma_radix();
    let n = varint_len(value);
    if n == 1 {
    } else if n == 2 {
    } else if n == 3 {
    } else if n == 4 {
    } else if n == 5 {
    } else if n == 6 {
    } else if n == 7 {
    } else if n == 8 {
    } else {
        assert(n == 9);
    }
}

/// The powers of 256 up to the eighth.
pub proof fn lemma_radix()
    ensures
        radix(0) == 1,
        radix(1) == 0x100,
        radix(2) == 0x1_0000,
        radix(3) == 0x100_0000,
        radix(4) == 0x1_0000_0000,
        radix(5) == 0x100_0000_0000,
        radix(6) == 0x1_0000_0000_0000,
        radix(7) == 0x100_0000_0000_0000,
        radix(8) == 0x1_0000_0000_0000_0000,
{
    reveal_with_fuel(radix, 9);
}

/// The last digits of a number are its remainder.
pub proof fn lemma_digits(v: int, n: int)
    requires
        0 <= v,
        0 <= n,
    ensures
        digits(v, n).len() == n,
        number(digits(v, n)) == v % radix(n),
        radix(n) > 0,
    decreases n,
{
    if n > 0 {
        lemma_digits(v / 256, n - 1);
        let before = digits(v / 256, n - 1);
        assert(digits(v, n).drop_last() =~= before);
        let r = radix(n - 1);
        vstd::arithmetic::div_mod::lemma_mod_breakdown(v, 256, r);
        assert(256 * r == radix(n));
    } else {
        assert(v % 1 == 0) by (nonlinear_arith);
    }
}

/// Shifting by whole bytes divides by a power of 256.
proof fn lemma_shift_is_division(value: u64, k: u64)
    requires
        k <= 7,
    ensures
        value >> (8 * k) as u64 == value as int / radix(k as int),
        radix(k as int) > 0,
{
    lemma_radix_pow2(k as int);
    lemma_u64_shr_is_div(value, (8 * k) as u64);
}

/// The powers of 256 are powers of two.
proof fn lemma_radix_pow2(k: int)
    requires
        0 <= k,
    ensures
        radix(k) == pow2((8 * k) as nat),
        radix(k) > 0,
    decreases k,
{
    lemma2_to64();
    if k > 0 {
        lemma_radix_pow2(k - 1);
        lemma_pow2_adds(8, (8 * (k - 1)) as nat);
    }
}

fn len_of(value: u64) -> (r: usize)
    ensures
        r == varint_len(value),
{
    if value < 0x80 {
        1
    } else if value < 0x4000 {
        2
    } else if value < 0x20_0000 {
        3
    } else if value < 0x1000_0000 {
        4
    } else if value < 0x8_0000_0000 {
        5
    } else if value < 0x400_0000_0000 {
        6
    } else if value < 0x2_0000_0000_0000 {
        7
    } else if value < 0x100_0000_0000_0000 {
        8
    } else {
        9
    }
}

fn prefix(len: usize) -> (r: u8)
    requires
        1 <= len <= 9,
    ensures
        r == prefix_of(len as int),
{
    let prefixes: [u8; 9] = [
        0b00000000,
        0b10000000,
        0b11000000,
        0b11100000,
        0b11110000,
        0b11111000,
        0b11111100,
        0b11111110,
        0b11111111,
    ];
    prefixes[len - 1]
}

/// Writes a number.
pub fn write_varint(writer: &mut Vec<u8>, value: u64)
    ensures
        final(writer)@ == old(writer)@ + varint_bytes(value),
{
    let num_bytes: usize = len_of(value);
    let ghost start = writer@;
    let ghost v = value as int;
    proof {
        lemma_top_digit(value);
        lemma_radix();
        if num_bytes < 9 {
            lemma_shift_is_division(value, (num_bytes - 1) as u64);
        }
    }
    let top: u8 = if num_bytes == 9 {
        0
    } else {
        (value >> (8 * (num_bytes as u64 - 1))) as u8
    };
    writer.push(prefix(num_bytes) + top);
    let ghost first = seq![(prefix_of(num_bytes as int) + v / radix(num_bytes - 1)) as u8];
    let mut left: usize = num_bytes - 1;
    assert(writer@ =~= start + first + digits(v / radix(left as int), 0));
    while left > 0
        invariant
            left < num_bytes <= 9,
            v == value,
            writer@ == start + first + digits(v / radix(left as int), num_bytes - 1 - left),
        decreases left,
    {
        left = left - 1;
        let digit: u64 = value >> (8 * left as u64);
        proof {
            lemma_shift_is_division(value, left as u64);
            lemma_div_denominator(v, radix(left as int), 256);
            assert(radix(left as int) * 256 == radix(left + 1)) by {
                assert(radix(left + 1) == 256 * radix(left as int));
            }
            assert(digit as u8 == digit % 256) by (bit_vector);
        }
        let ghost before = writer@;
        writer.push(digit as u8);
        proof {
            let n = num_bytes - 1 - left;
            assert(digits(v / radix(left as int), n) =~= digits(v / radix(left + 1), n - 1).push(
                digit as u8,
            ));
            assert(writer@ =~= start + first + digits(v / radix(left as int), n));
        }
    }
    proof {
        lemma_radix();
        assert(writer@ =~= start + varint_bytes(value));
    }
}

fn len_told_by(first: u8) -> (r: usize)
    ensures
        r == len_from(first),
{
    if first < 0b10000000 {
        1
    } else if first < 0b11000000 {
        2
    } else if first < 0b11100000 {
        3
    } else if first < 0b11110000 {
        4
    } else if first < 0b11111000 {
        5
    } else if first < 0b11111100 {
        6
    } else if first < 0b11111110 {
        7
    } else if first < 0b11111111 {
        8
    } else {
        9
    }
}

/// Reads a number. Where the input ends within it, all of the input is used up.
pub fn read_varint(reader: &mut ByteReader) -> (r: Result<u64, UnexpectedEof>)
    ensures
        match r {
            Ok(value) => varint_in(old(reader)@) == Some((value, final(reader)@)),
            Err(_) => varint_in(old(reader)@) is None && final(reader)@.len() == 0,
        },
{
    let ghost input = reader@;
    let first_byte: u8 = reader.read_byte()?;
    let num_bytes: usize = len_told_by(first_byte);
    let mut result: u64 = (first_byte - prefix(num_bytes)) as u64;
    let ghost top = first_byte - prefix_of(num_bytes as int);
    let mut i: usize = 1;
    proof {
        lemma_radix();
        assert(input.subrange(1, 1) =~= Seq::empty());
    }
    while i < num_bytes
        invariant
            1 <= i <= num_bytes <= 9,
            input == old(reader)@,
            input.len() > 0,
            num_bytes == len_from(input[0]),
            top == input[0] - prefix_of(num_bytes as int),
            0 <= top,
            i <= input.len(),
            reader@ == input.skip(i as int),
            result == top * radix(i - 1) + number(input.subrange(1, i as int)),
            result < (top + 1) * radix(i - 1),
        decreases num_bytes - i,
    {
        proof {
            lemma_room(top, num_bytes as int, i as int, result as int);
        }
        let byte: u8 = reader.read_byte()?;
        proof {
            let s = input.subrange(1, i + 1);
            assert(s.drop_last() =~= input.subrange(1, i as int));
            assert(s.last() == byte);
            assert(reader@ =~= input.skip(i + 1));
            let r = radix(i - 1);
            assert(radix(i as int) == 256 * r);
            let n = number(input.subrange(1, i as int));
            assert((top * r + n) * 256 == top * (256 * r) + n * 256) by (nonlinear_arith);
            assert((top + 1) * (256 * r) == ((top + 1) * r) * 256) by (nonlinear_arith);
            assert((result << 8) | byte as u64 == result * 256 + byte) by (bit_vector)
                requires
                    result < 0x100_0000_0000_0000,
            ;
        }
        result = (result << 8) | byte as u64;
        i = i + 1;
    }
    Ok(result)
}

/// The part of a number that has been read leaves room for a byte.
proof fn lemma_room(top: int, num_bytes: int, i: int, result: int)
    requires
        1 <= i < num_bytes <= 9,
        0 <= top < 256 - prefix_of(num_bytes),
        num_bytes < 9 ==> prefix_of(num_bytes) + top < prefix_of(num_bytes + 1),
        result < (top + 1) * radix(i - 1),
    ensures
        result < 0x100_0000_0000_0000,
{
    lemma_radix();
    let r = radix(i - 1);
    assert(1 <= r <= 0x100_0000_0000_0000) by {
        if i == 1 {
        } else if i == 2 {
        } else if i == 3 {
        } else if i == 4 {
        } else if i == 5 {
        } else if i == 6 {
        } else if i == 7 {
        } else {
            assert(i == 8);
        }
    }
    let bound: int = if num_bytes == 2 {
        64
    } else if num_bytes == 3 {
        32
    } else if num_bytes == 4 {
        16
    } else if num_bytes == 5 {
        8
    } else if num_bytes == 6 {
        4
    } else if num_bytes == 7 {
        2
    } else {
        1
    };
    assert(top + 1 <= bound);
    assert((top + 1) * r <= bound * r) by (nonlinear_arith)
        requires
            top + 1 <= bound,
            r >= 1,
    ;
    let last = radix(num_bytes - 2);
    lemma_radix_monotonic(i - 1, num_bytes - 2);
    assert(bound * r <= bound * last) by (nonlinear_arith)
        requires
            r <= last,
            bound >= 1,
    ;
    assert(bound * last <= 0x100_0000_0000_0000) by {
        if num_bytes == 2 {
            assert(64 * 1 <= 0x100_0000_0000_0000int);
        } else if num_bytes == 3 {
        } else if num_bytes == 4 {
        } else if num_bytes == 5 {
        } else if num_bytes == 6 {
        } else if num_bytes == 7 {
        } else if num_bytes == 8 {
        } else {
            assert(num_bytes == 9);
        }
    }
}

/// A higher power is not smaller.
proof fn lemma_radix_monotonic(i: int, j: int)
    requires
        0 <= i <= j,
    ensures
        1 <= radix(i) <= radix(j),
    decreases j,
{
    if i > 0 {
        lemma_radix_monotonic(i - 1, j - 1);
    } else if j > 0 {
        lemma_radix_monotonic(0, j - 1);
    }
}

} // verus!
