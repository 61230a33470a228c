//! Text as sequences of characters.

use vstd::prelude::*;
use vstd::utf8::{decode_utf8, encode_utf8, encode_utf8_decode_utf8, valid_utf8};

verus! {

/// `String::push` appends one character.
pub assume_specification[ String::push ](text: &mut String, c: char)
    ensures
        final(text)@ == old(text)@.push(c),
;

/// What `String::from_utf8` says of bytes that are not text.
#[verifier::external_type_specification]
#[verifier::external_body]
pub struct ExFromUtf8Error(std::string::FromUtf8Error);

/// `String::from_utf8` takes bytes just where they are valid UTF-8, for the text that they encode.
pub assume_specification[ String::from_utf8 ](bytes: Vec<u8>) -> (r: Result<
    String,
    std::string::FromUtf8Error,
>)
    ensures
        match r {
            Ok(text) => valid_utf8(bytes@) && text@ == decode_utf8(bytes@),
            Err(_) => !valid_utf8(bytes@),
        },
;

/// Gets the characters of a text.
pub fn chars_of(text: &str) -> (r: Vec<char>)
    ensures
        r@ == text@,
{
    let mut chars: Vec<char> = Vec::new();
    for c in iter: text.chars()
        invariant
            chars@ == iter.seq().take(iter.index() as int),
            iter.seq() == text@,
    {
        chars.push(c);
        assert(iter.seq().take(iter.index() + 1) =~= iter.seq().take(iter.index() as int).push(c));
    }
    assert(chars@ =~= text@);
    chars
}

/// Puts characters together to a text.
pub fn text_of(chars: &[char]) -> (r: String)
    ensures
        r@ == chars@,
{
    let mut text: String = String::new();
    let mut i: usize = 0;
    while i < chars.len()
        invariant
            i <= chars.len(),
            text@ == chars@.take(i as int),
        decreases chars.len() - i,
    {
        text.push(chars[i]);
        i = i + 1;
        assert(chars@.take(i as int) =~= chars@.take(i - 1).push(chars@[i - 1]));
    }
    assert(text@ =~= chars@);
    text
}

/// Whether two texts are the same.
pub fn same_text(a: &str, b: &str) -> (r: bool)
    ensures
        r == (a@ == b@),
{
    let x: &[u8] = a.as_bytes();
    let y: &[u8] = b.as_bytes();
    proof {
        encode_utf8_decode_utf8(a@);
        encode_utf8_decode_utf8(b@);
    }
    if x.len() != y.len() {
        return false;
    }
    let mut i: usize = 0;
    while i < x.len()
        invariant
            x.len() == y.len(),
            i <= x.len(),
            x@ == encode_utf8(a@),
            y@ == encode_utf8(b@),
            forall|k: int| 0 <= k < i ==> x@[k] == y@[k],
        decreases x.len() - i,
    {
        if x[i] != y[i] {
            return false;
        }
        i = i + 1;
    }
    assert(x@ =~= y@);
    true
}

/// `text` has `part` at its beginning.
pub open spec fn begins_with(text: Seq<char>, part: Seq<char>) -> bool {
    part.len() <= text.len() && text.take(part.len() as int) == part
}

/// `text` with `to` in place of each `from`, from left to right, where `from` is not empty.
pub open spec fn replaced(text: Seq<char>, from: Seq<char>, to: Seq<char>) -> Seq<char>
    decreases text.len(),
{
    if text.len() == 0 || from.len() == 0 {
        text
    } else if begins_with(text, from) {
        to + replaced(text.skip(from.len() as int), from, to)
    } else {
        seq![text[0]] + replaced(text.skip(1), from, to)
    }
}

/// Whether `part` stands at `pos`.
fn is_at(text: &[char], pos: usize, part: &[char]) -> (r: bool)
    requires
        pos <= text.len(),
    ensures
        r == begins_with(text@.skip(pos as int), part@),
{
    if part.len() > text.len() - pos {
        return false;
    }
    let ghost rest = text@.skip(pos as int);
    let mut i: usize = 0;
    while i < part.len()
        invariant
            i <= part.len(),
            part.len() <= text.len() - pos,
            pos <= text.len(),
            rest == text@.skip(pos as int),
            forall|k: int| 0 <= k < i ==> rest[k] == part@[k],
        decreases part.len() - i,
    {
        if text[pos + i] != part[i] {
            assert(rest.take(part.len() as int)[i as int] != part@[i as int]);
            return false;
        }
        i = i + 1;
    }
    assert(rest.take(part.len() as int) =~= part@);
    true
}

/// Puts `to` in place of each `from`, from left to right.
pub fn replace(text: &[char], from: &[char], to: &[char]) -> (r: Vec<char>)
    requires
        from.len() > 0,
    ensures
        r@ == replaced(text@, from@, to@),
{
    let mut result: Vec<char> = Vec::new();
    let mut i: usize = 0;
    assert(text@.skip(0) =~= text@);
    assert(result@ + replaced(text@, from@, to@) =~= replaced(text@, from@, to@));
    while i < text.len()
        invariant
            i <= text.len(),
            from.len() > 0,
            replaced(text@, from@, to@) == result@ + replaced(text@.skip(i as int), from@, to@),
        decreases text.len() - i,
    {
        let ghost rest = text@.skip(i as int);
        let ghost before = result@;
        if is_at(text, i, from) {
            result.extend_from_slice(to);
            assert(rest.skip(from@.len() as int) =~= text@.skip(i + from@.len()));
            assert(before + (to@ + replaced(rest.skip(from@.len() as int), from@, to@)) =~= result@
                + replaced(rest.skip(from@.len() as int), from@, to@));
            i = i + from.len();
        } else {
            result.push(text[i]);
            assert(rest.skip(1) =~= text@.skip(i + 1));
            assert(before + (seq![rest[0]] + replaced(rest.skip(1), from@, to@)) =~= result@
                + replaced(rest.skip(1), from@, to@));
            i = i + 1;
        }
    }
    assert(result@ + replaced(text@.skip(i as int), from@, to@) =~= result@);
    result
}

/// Where `c` occurs first, or the length of the sequence where it does not.
pub open spec fn first_at<T>(text: Seq<T>, c: T) -> int
    decreases text.len(),
{
    if text.len() == 0 || text[0] == c {
        0
    } else {
        1 + first_at(text.skip(1), c)
    }
}

/// The first occurrence is the one that no other precedes.
pub proof fn lemma_first_at<T>(text: Seq<T>, c: T)
    ensures
        0 <= first_at(text, c) <= text.len(),
        first_at(text, c) < text.len() ==> text[first_at(text, c)] == c,
        forall|i: int| 0 <= i < first_at(text, c) ==> text[i] != c,
    decreases text.len(),
{
    if text.len() > 0 && text[0] != c {
        lemma_first_at(text.skip(1), c);
        let n = first_at(text.skip(1), c);
        assert forall|i: int| 0 <= i < n + 1 implies text[i] != c by {
            if i > 0 {
                assert(text[i] == text.skip(1)[i - 1]);
            }
        }
    }
}

/// Finds the first occurrence of `c`.
pub fn find_char(text: &[char], c: char) -> (r: Option<usize>)
    ensures
        match r {
            Some(i) => i == first_at(text@, c) && i < text.len(),
            None => first_at(text@, c) == text.len(),
        },
{
    proof {
        lemma_first_at(text@, c);
    }
    let mut i: usize = 0;
    while i < text.len()
        invariant
            i <= text.len(),
            i <= first_at(text@, c) <= text.len(),
            first_at(text@, c) < text.len() ==> text@[first_at(text@, c)] == c,
            forall|k: int| 0 <= k < first_at(text@, c) ==> text@[k] != c,
        decreases text.len() - i,
    {
        if text[i] == c {
            return Some(i);
        }
        i = i + 1;
    }
    None
}

} // verus!
