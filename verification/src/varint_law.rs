//! How the bytes of integers are laid out, and that they stand in the order of the integers.

use vstd::prelude::*;
use vstd::arithmetic::div_mod::{lemma_fundamental_div_mod, lemma_mod_breakdown};
use vstd::arithmetic::power2::{lemma2_to64, lemma_pow2_adds, pow2};
use crate::order::{bytes_before, lemma_bytes_asymmetric};
use crate::varint::{
    digits, law_varint_roundtrip, lemma_digits, lemma_radix, lemma_top_digit, len_from, number,
    prefix_of, radix, varint_bytes, varint_in, varint_len, zigzag_of,
};

verus! {

/// Of two texts of the same length, the last byte decides where nothing before it does.
proof fn lemma_push_before(x: Seq<u8>, y: Seq<u8>, c: u8, d: u8)
    requires
        x.len() == y.len(),
        bytes_before(x, y) || (x == y && c < d),
    ensures
        bytes_before(x.push(c), y.push(d)),
    decreases x.len(),
{
    let u = x.push(c);
    let v = y.push(d);
    if x.len() > 0 {
        assert(u.skip(1) =~= x.skip(1).push(c));
        assert(v.skip(1) =~= y.skip(1).push(d));
        assert(u[0] == x[0] && v[0] == y[0]);
        if x[0] == y[0] {
            lemma_push_before(x.skip(1), y.skip(1), c, d);
        }
    }
}

/// The last digits of a number depend on its remainder alone.
proof fn lemma_digits_same(a: int, b: int, n: int)
    requires
        0 <= a,
        0 <= b,
        0 <= n,
        a % radix(n) == b % radix(n),
    ensures
        digits(a, n) == digits(b, n),
    decreases n,
{
    if n > 0 {
        let r = radix(n - 1);
        lemma_digits(a, n - 1);
        lemma_mod_breakdown(a, 256, r);
        lemma_mod_breakdown(b, 256, r);
        lemma_digits_same(a / 256, b / 256, n - 1);
    }
}

/// The last digits of numbers stand in the order of the remainders.
proof fn lemma_digits_before(a: int, b: int, n: int)
    requires
        0 <= a,
        0 <= b,
        0 <= n,
        a % radix(n) < b % radix(n),
    ensures
        bytes_before(digits(a, n), digits(b, n)),
    decreases n,
{
    if n > 0 {
        let r = radix(n - 1);
        lemma_digits(a / 256, n - 1);
        lemma_digits(b / 256, n - 1);
        lemma_mod_breakdown(a, 256, r);
        lemma_mod_breakdown(b, 256, r);
        if a / 256 % r == b / 256 % r {
            lemma_digits_same(a / 256, b / 256, n - 1);
        } else {
            lemma_digits_before(a / 256, b / 256, n - 1);
        }
        lemma_push_before(
            digits(a / 256, n - 1),
            digits(b / 256, n - 1),
            (a % 256) as u8,
            (b % 256) as u8,
        );
    } else {
        assert(a % 1 == 0 && b % 1 == 0) by (nonlinear_arith);
    }
}

proof fn lemma_smaller_before(a: u64, b: u64)
    requires
        a < b,
    ensures
        bytes_before(varint_bytes(a), varint_bytes(b)),
{
    let n = varint_len(b);
    let r = radix(n - 1);
    let (x, y) = (varint_bytes(a), varint_bytes(b));
    lemma_top_digit(a);
    lemma_top_digit(b);
    lemma_digits(b as int, n - 1);
    if varint_len(a) == n {
        lemma_fundamental_div_mod(a as int, r);
        lemma_fundamental_div_mod(b as int, r);
        let p = a as int / r;
        let q = b as int / r;
        assert(p <= q && (p == q ==> a as int % r < b as int % r)) by (nonlinear_arith)
            requires
                r > 0,
                a as int == r * p + a as int % r,
                b as int == r * q + b as int % r,
                0 <= a as int % r < r,
                0 <= b as int % r < r,
                a < b,
        ;
        if p == q {
            lemma_digits_before(a as int, b as int, n - 1);
            assert(x.skip(1) =~= digits(a as int, n - 1));
            assert(y.skip(1) =~= digits(b as int, n - 1));
        }
    }
}

/// The bytes of a number come before those of another just where the number is smaller.
pub proof fn law_varint_order(a: u64, b: u64)
    ensures
        a < b <==> bytes_before(varint_bytes(a), varint_bytes(b)),
{
    let (x, y) = (varint_bytes(a), varint_bytes(b));
    lemma_bytes_asymmetric(x, y);
    if a < b {
        lemma_smaller_before(a, b);
    } else if b < a {
        lemma_smaller_before(b, a);
    }
}

/// A number takes as few bytes as have seven bits for each of them, or nine. The first byte tells
/// how many, and without its prefix it is the top of the number. The other bytes are the rest.
pub proof fn law_varint_layout(value: u64)
    ensures
        ({
            let bytes = varint_bytes(value);
            let n = bytes.len() as int;
            &&& 1 <= n <= 9
            &&& n <= 8 ==> value < pow2((7 * n) as nat)
            &&& n > 1 ==> value >= pow2((7 * (n - 1)) as nat)
            &&& prefix_of(n) <= bytes[0]
            &&& len_from(bytes[0]) == n
            &&& value == (bytes[0] - prefix_of(n)) * radix(n - 1) + number(bytes.skip(1))
        }),
{
    let n = varint_len(value);
    let bytes = varint_bytes(value);
    let r = radix(n - 1);
    lemma2_to64();
    lemma_pow2_adds(32, 3);
    lemma_pow2_adds(32, 10);
    lemma_pow2_adds(32, 17);
    lemma_pow2_adds(32, 24);
    lemma_top_digit(value);
    lemma_digits(value as int, n - 1);
    assert(bytes.skip(1) =~= digits(value as int, n - 1));
    lemma_fundamental_div_mod(value as int, r);
    let top = value as int / r;
    assert(top * r == r * top) by (nonlinear_arith);
}

/// The bytes of a number do not begin those of another.
pub proof fn law_varint_prefix_free(a: u64, b: u64)
    requires
        varint_bytes(a).is_prefix_of(varint_bytes(b)),
    ensures
        a == b,
{
    let (x, y) = (varint_bytes(a), varint_bytes(b));
    let rest = y.skip(x.len() as int);
    assert(y =~= x + rest);
    assert(y =~= y + Seq::<u8>::empty());
    law_varint_roundtrip(a, rest);
    law_varint_roundtrip(b, Seq::empty());
}

/// Numbers near zero, of either sign, become small ones: zero stays, every negative number becomes
/// odd and every other one even, and a number further from zero becomes a larger one.
pub proof fn law_zigzag_order(a: i64, b: i64)
    ensures
        zigzag_of(0) == 0,
        zigzag_of(a) % 2 == 1 <==> a < 0,
        a >= 0 ==> zigzag_of(a) == 2 * a,
        a < 0 ==> zigzag_of(a) + 1 == -2 * a,
        0 <= a < b ==> zigzag_of(a) < zigzag_of(b),
        b < a <= 0 ==> zigzag_of(a) < zigzag_of(b),
        0 < a && b == -a ==> zigzag_of(b) == zigzag_of(a) - 1,
{
}

/// The least first byte of a number of `n` bytes: it has `n - 1` leading ones.
pub open spec fn least_first(n: int) -> int {
    if n <= 1 {
        0
    } else if n >= 10 {
        256
    } else {
        256 - pow2((9 - n) as nat)
    }
}

/// A number is read from any bytes: the leading ones of the first byte tell how many there are. The
/// other bits of the first byte and the bytes behind it are the number, in any of its forms. Only
/// where there are fewer bytes is there none.
pub proof fn law_varint_read(input: Seq<u8>, n: int)
    requires
        1 <= n <= 9,
        input.len() > 0,
        least_first(n) <= input[0] < least_first(n + 1),
    ensures
        input.len() < n ==> varint_in(input) is None,
        input.len() >= n ==> {
            let value = (input[0] - least_first(n)) * radix(n - 1) + number(input.subrange(1, n));
            &&& 0 <= value <= u64::MAX
            &&& varint_in(input) == Some((value as u64, input.skip(n)))
        },
{
    lemma2_to64();
    assert(len_from(input[0]) == n && prefix_of(n) == least_first(n));
    if input.len() >= n {
        let rest = input.subrange(1, n);
        lemma_number_range(rest);
        lemma_radix();
        let top = input[0] - least_first(n);
        let r = radix(n - 1);
        let most: int = if n >= 8 {
            0
        } else {
            least_first(n + 1) - least_first(n) - 1
        };
        assert(0 <= top <= most);
        assert(0 <= top * r <= most * r) by (nonlinear_arith)
            requires
                0 <= top <= most,
                r > 0,
        ;
    }
}

proof fn lemma_number_range(digits: Seq<u8>)
    ensures
        0 <= number(digits) < radix(digits.len() as int),
    decreases digits.len(),
{
    if digits.len() > 0 {
        lemma_number_range(digits.drop_last());
    }
}

} // verus!
