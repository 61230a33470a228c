//! Numbers in decimal notation.

use vstd::prelude::*;
use crate::text::chars_of;

verus! {

/// Why a text is not a number.
#[derive(Debug, Clone, Copy, PartialEq, Eq, Structural)]
pub enum NumberError {
    /// There is nothing to read.
    Empty,
    /// A character is not a digit.
    InvalidDigit,
    /// The number does not fit.
    TooLarge,
}

/// A decimal digit.
pub open spec fn is_digit(c: char) -> bool {
    '0' <= c && c <= '9'
}

/// The digit that stands for a number below ten.
pub open spec fn digit_of(d: int) -> char {
    (0x30 + d) as char
}

/// A number in decimal notation, without leading zeros.
pub open spec fn decimal(v: int) -> Seq<char>
    decreases v,
{
    if v < 10 {
        seq![digit_of(v)]
    } else {
        decimal(v / 10).push(digit_of(v % 10))
    }
}

/// Decimal notation is made of digits, has no zero before other digits, and has the value of the
/// number.
pub proof fn law_decimal_digits(v: int)
    requires
        0 <= v,
    ensures
        decimal(v).len() > 0,
        forall|i: int|
            0 <= i < decimal(v).len() ==> '0' <= #[trigger] decimal(v)[i] && decimal(v)[i] <= '9',
        decimal(v)[0] == '0' ==> v == 0 && decimal(v).len() == 1,
        value_of(decimal(v), decimal(v).len() as int) == v,
    decreases v,
{
    if v >= 10 {
        law_decimal_digits(v / 10);
        let before = decimal(v / 10);
        let all = decimal(v);
        assert(all[0] == before[0]);
        assert forall|i: int| 0 <= i < all.len() implies '0' <= #[trigger] all[i] && all[i]
            <= '9' by {
            if i < before.len() {
                assert(all[i] == before[i]);
            }
        }
        lemma_value_prefix(before, all.last(), before.len() as int);
    } else {
        assert(value_of(decimal(v), 0) == 0);
    }
}

proof fn lemma_value_prefix(digits: Seq<char>, last: char, n: int)
    requires
        n <= digits.len(),
    ensures
        value_of(digits.push(last), n) == value_of(digits, n),
    decreases n,
{
    if n > 0 {
        lemma_value_prefix(digits, last, n - 1);
    }
}

/// The number that is the first `n` of some digits, read one after the other, or what stopped it.
pub open spec fn read_digits(digits: Seq<char>, n: int) -> Result<u64, NumberError>
    decreases n,
{
    if n <= 0 {
        Ok(0)
    } else {
        match read_digits(digits, n - 1) {
            Err(e) => Err(e),
            Ok(v) => {
                let c = digits[n - 1];
                if !is_digit(c) {
                    Err(NumberError::InvalidDigit)
                } else if v * 10 + (c as int - 0x30) > u64::MAX {
                    Err(NumberError::TooLarge)
                } else {
                    Ok((v * 10 + (c as int - 0x30)) as u64)
                }
            },
        }
    }
}

/// A text without the plus sign before its first digit.
pub open spec fn unsigned(text: Seq<char>) -> Seq<char> {
    if text.len() > 1 && text[0] == '+' {
        text.skip(1)
    } else {
        text
    }
}

/// The number that a text stands for: digits, with or without a plus sign before them.
pub open spec fn parsed(text: Seq<char>) -> Result<u64, NumberError> {
    if text.len() == 0 {
        Err(NumberError::Empty)
    } else {
        read_digits(unsigned(text), unsigned(text).len() as int)
    }
}

/// The number with the first `n` of some digits.
pub open spec fn value_of(digits: Seq<char>, n: int) -> int
    decreases n,
{
    if n <= 0 {
        0
    } else {
        value_of(digits, n - 1) * 10 + (digits[n - 1] as int - 0x30)
    }
}

/// A text is a number where it is made of digits, with or without a plus sign before them, and
/// their value fits.
pub proof fn law_parsed(text: Seq<char>, v: u64)
    ensures
        parsed(text) == Ok::<u64, NumberError>(v) <==> {
            let digits = unsigned(text);
            &&& digits.len() > 0
            &&& forall|i: int| 0 <= i < digits.len() ==> is_digit(#[trigger] digits[i])
            &&& value_of(digits, digits.len() as int) == v
        },
{
    lemma_read_digits(unsigned(text), unsigned(text).len() as int);
}

proof fn lemma_read_digits(digits: Seq<char>, n: int)
    requires
        0 <= n <= digits.len(),
    ensures
        match read_digits(digits, n) {
            Ok(v) => {
                &&& forall|i: int| 0 <= i < n ==> is_digit(#[trigger] digits[i])
                &&& value_of(digits, n) == v
            },
            Err(_) => (exists|i: int| 0 <= i < n && !is_digit(#[trigger] digits[i])) || value_of(
                digits,
                n,
            ) > u64::MAX,
        },
    decreases n,
{
    if n > 0 {
        lemma_read_digits(digits, n - 1);
        assert(is_digit(digits[n - 1]) || !is_digit(digits[n - 1]));
    }
}

/// A number is read back from its decimal notation.
pub proof fn law_decimal_roundtrip(v: u64)
    ensures
        parsed(decimal(v as int)) == Ok::<u64, NumberError>(v),
{
    let text = decimal(v as int);
    lemma_decimal(v as int);
    assert(text.take(text.len() as int) =~= text);
    lemma_read_decimal(v as int, text);
}

/// Decimal notation is made of digits.
proof fn lemma_decimal(v: int)
    requires
        0 <= v,
    ensures
        decimal(v).len() > 0,
        forall|i: int| 0 <= i < decimal(v).len() ==> is_digit(#[trigger] decimal(v)[i]),
    decreases v,
{
    if v >= 10 {
        lemma_decimal(v / 10);
    }
}

proof fn lemma_read_decimal(v: int, digits: Seq<char>)
    requires
        0 <= v <= u64::MAX,
        decimal(v).len() <= digits.len(),
        digits.take(decimal(v).len() as int) == decimal(v),
    ensures
        read_digits(digits, decimal(v).len() as int) == Ok::<u64, NumberError>(v as u64),
    decreases v,
{
    let n = decimal(v).len() as int;
    lemma_decimal(v);
    assert(digits[n - 1] == decimal(v)[n - 1]);
    if v >= 10 {
        assert(digits.take(n - 1) =~= decimal(v / 10));
        lemma_read_decimal(v / 10, digits);
    } else {
        reveal_with_fuel(read_digits, 2);
    }
}

/// Reads a number.
pub fn parse_number(text: &str) -> (r: Result<u64, NumberError>)
    ensures
        r == parsed(text@),
{
    let chars: Vec<char> = chars_of(text);
    if chars.len() == 0 {
        return Err(NumberError::Empty);
    }
    let start: usize = if chars.len() > 1 && chars[0] == '+' {
        1
    } else {
        0
    };
    let ghost digits = unsigned(text@);
    let mut value: u64 = 0;
    let mut i: usize = start;
    while i < chars.len()
        invariant
            start <= i <= chars.len(),
            start <= 1,
            chars@ == text@,
            chars.len() > 0,
            digits == unsigned(text@),
            digits.len() == chars.len() - start,
            forall|k: int| 0 <= k < digits.len() ==> digits[k] == chars@[k + start],
            read_digits(digits, i - start) == Ok::<u64, NumberError>(value),
        decreases chars.len() - i,
    {
        let c: char = chars[i];
        assert(digits[i - start] == c);
        if !('0' <= c && c <= '9') {
            proof {
                lemma_read_stops(digits, i - start + 1, digits.len() as int);
            }
            return Err(NumberError::InvalidDigit);
        }
        let d: u64 = c as u64 - 0x30;
        if value > (u64::MAX - d) / 10 {
            proof {
                lemma_read_stops(digits, i - start + 1, digits.len() as int);
            }
            return Err(NumberError::TooLarge);
        }
        value = value * 10 + d;
        i = i + 1;
    }
    Ok(value)
}

/// What stops the reading of a number is the outcome.
proof fn lemma_read_stops(digits: Seq<char>, n: int, m: int)
    requires
        0 <= n <= m,
        read_digits(digits, n) is Err,
    ensures
        read_digits(digits, m) == read_digits(digits, n),
    decreases m - n,
{
    if n < m {
        lemma_read_stops(digits, n, m - 1);
    }
}

/// Writes a number.
pub fn to_decimal(v: u64) -> (r: String)
    ensures
        r@ == decimal(v as int),
{
    let mut text: String = String::new();
    push_decimal(&mut text, v);
    assert(text@ =~= decimal(v as int));
    text
}

fn push_decimal(text: &mut String, v: u64)
    ensures
        final(text)@ == old(text)@ + decimal(v as int),
    decreases v,
{
    let ghost before = text@;
    if v >= 10 {
        push_decimal(text, v / 10);
    }
    let digit: u8 = (v % 10) as u8 + 0x30;
    text.push(digit as char);
    assert(text@ =~= before + decimal(v as int));
}

/// The first character that is no digit, or the first digit with which the number no longer fits,
/// tells why a text is no number.
pub proof fn law_number_error(text: Seq<char>, k: int)
    requires
        text.len() > 0,
        0 <= k < unsigned(text).len(),
        forall|i: int| 0 <= i < k ==> is_digit(#[trigger] unsigned(text)[i]),
        value_of(unsigned(text), k) <= u64::MAX,
    ensures
        !is_digit(unsigned(text)[k]) ==> parsed(text) == Err::<u64, _>(NumberError::InvalidDigit),
        is_digit(unsigned(text)[k]) && value_of(unsigned(text), k + 1) > u64::MAX ==> parsed(text)
            == Err::<u64, _>(NumberError::TooLarge),
        parsed(Seq::empty()) == Err::<u64, _>(NumberError::Empty),
{
    let digits = unsigned(text);
    lemma_read_digits(digits, k);
    if read_digits(digits, k) is Err {
        let i = choose|i: int| 0 <= i < k && !is_digit(#[trigger] digits[i]);
    }
    if read_digits(digits, k + 1) is Err {
        lemma_read_stops(digits, k + 1, digits.len() as int);
    }
}

} // verus!
