//! Case compression: text without capital letters.
//!
//! A `^` stands before a letter that was in upper case. A `$` stands before several of them, where
//! no small letter follows.

use vstd::prelude::*;
use crate::text::{chars_of, text_of};
use crate::unicode::{
    is_ascii_char, is_ascii_upper, is_letter, is_lower, is_upper, lower_chars, to_lower, to_upper,
    upper_chars,
};

verus! {

/// How many characters in upper case `text` begins with.
pub open spec fn upper_run(text: Seq<char>) -> int
    decreases text.len(),
{
    if text.len() > 0 && is_upper(text[0]) {
        1 + upper_run(text.skip(1))
    } else {
        0
    }
}

/// The characters in upper case that `text` begins with share one mark: they are several, and no
/// character in lower case follows.
pub open spec fn latches(text: Seq<char>) -> bool {
    let n = upper_run(text);
    n >= 2 && !(n < text.len() && is_lower(text[n]))
}

/// All characters in lower case.
pub open spec fn lowered(text: Seq<char>) -> Seq<char>
    decreases text.len(),
{
    if text.len() == 0 {
        Seq::empty()
    } else {
        to_lower(text[0]) + lowered(text.skip(1))
    }
}

/// All characters in lower case, each with a mark before it.
pub open spec fn shifted(text: Seq<char>) -> Seq<char>
    decreases text.len(),
{
    if text.len() == 0 {
        Seq::empty()
    } else {
        seq!['^'] + to_lower(text[0]) + shifted(text.skip(1))
    }
}

/// `text` begins with a capital letter.
pub open spec fn begins_upper(text: Seq<char>) -> bool {
    text.len() > 0 && is_letter(text[0]) && is_upper(text[0])
}

/// The characters in upper case that `text` begins with, in lower case and marked.
pub open spec fn marked_run(text: Seq<char>) -> Seq<char> {
    let run = text.take(upper_run(text));
    if latches(text) {
        seq!['$'] + lowered(run)
    } else {
        shifted(run)
    }
}

/// `text` with marks in place of upper case.
pub open spec fn case_encoded(text: Seq<char>) -> Seq<char>
    decreases text.len(),
{
    if text.len() == 0 {
        Seq::empty()
    } else if begins_upper(text) {
        proof {
            lemma_upper_run(text);
        }
        marked_run(text) + case_encoded(text.skip(upper_run(text)))
    } else {
        seq![text[0]] + case_encoded(text.skip(1))
    }
}

/// `text` with upper case in place of marks, where a mark for several characters is in force
/// (`latched`) or not.
pub open spec fn case_decoded(text: Seq<char>, latched: bool) -> Seq<char>
    decreases text.len(),
{
    if text.len() == 0 {
        Seq::empty()
    } else if latched && is_lower(text[0]) {
        to_upper(text[0]) + case_decoded(text.skip(1), true)
    } else if text[0] == '^' && text.len() > 1 {
        to_upper(text[1]) + case_decoded(text.skip(2), false)
    } else if text[0] == '$' {
        case_decoded(text.skip(1), true)
    } else {
        seq![text[0]] + case_decoded(text.skip(1), false)
    }
}

/// The run of upper case ends at the first character that is not in upper case.
pub proof fn lemma_upper_run(text: Seq<char>)
    ensures
        0 <= upper_run(text) <= text.len(),
        text.len() > 0 && is_upper(text[0]) ==> upper_run(text) >= 1,
        forall|i: int| 0 <= i < upper_run(text) ==> is_upper(#[trigger] text[i]),
        upper_run(text) < text.len() ==> !is_upper(text[upper_run(text)]),
    decreases text.len(),
{
    if text.len() > 0 && is_upper(text[0]) {
        lemma_upper_run(text.skip(1));
        let n = upper_run(text.skip(1));
        assert forall|i: int| 0 <= i < n + 1 implies is_upper(#[trigger] text[i]) by {
            if i > 0 {
                assert(text[i] == text.skip(1)[i - 1]);
            }
        }
    }
}

/// A mark restores the character.
pub open spec fn shift_restores(c: char) -> bool {
    to_lower(c).len() == 1 && to_upper(to_lower(c)[0]) == seq![c]
}

/// The character is its own lower case.
pub open spec fn is_caseless(c: char) -> bool {
    to_lower(c) == seq![c]
}

/// One mark restores all characters of `run`. It is in force up to the first that has no lower
/// case; those from there on stay as they are.
pub open spec fn latch_restores(run: Seq<char>) -> bool
    decreases run.len(),
{
    if run.len() == 0 {
        true
    } else if to_lower(run[0]).len() == 1 && is_lower(to_lower(run[0])[0]) {
        shift_restores(run[0]) && latch_restores(run.skip(1))
    } else {
        forall|i: int| 0 <= i < run.len() ==> is_caseless(#[trigger] run[i])
    }
}

/// Text that comes back from its encoded form: no character is taken for a mark (`^` is none at
/// the end), and the upper case of every run can be restored.
pub open spec fn is_restorable(text: Seq<char>) -> bool
    decreases text.len(),
{
    if text.len() == 0 {
        true
    } else if begins_upper(text) {
        proof {
            lemma_upper_run(text);
        }
        let run = text.take(upper_run(text));
        &&& if latches(text) {
            latch_restores(run)
        } else {
            forall|i: int| 0 <= i < run.len() ==> shift_restores(#[trigger] run[i])
        }
        &&& is_restorable(text.skip(upper_run(text)))
    } else {
        &&& text[0] != '$'
        &&& text[0] == '^' ==> text.len() == 1
        &&& is_restorable(text.skip(1))
    }
}

/// Decoding gives back restorable text.
pub proof fn law_case_roundtrip(text: Seq<char>)
    requires
        is_restorable(text),
    ensures
        case_decoded(case_encoded(text), false) == text,
    decreases text.len(),
{
    if text.len() == 0 {
    } else if begins_upper(text) {
        lemma_upper_run(text);
        let n = upper_run(text);
        let run = text.take(n);
        let left = text.skip(n);
        let rest = case_encoded(left);
        law_case_roundtrip(left);
        assert(text =~= run + left);
        if latches(text) {
            if left.len() > 0 {
                assert(left[0] == text[n]);
                assert(rest[0] == left[0]);
            }
            lemma_latch(run, rest);
            let marked = seq!['$'] + lowered(run) + rest;
            assert(marked.skip(1) =~= lowered(run) + rest);
            assert(case_encoded(text) =~= marked);
        } else {
            lemma_shift(run, rest);
        }
    } else {
        let left = text.skip(1);
        let whole = case_encoded(text);
        law_case_roundtrip(left);
        assert(whole.skip(1) =~= case_encoded(left));
        assert(text =~= seq![text[0]] + left);
        if text[0] == '^' {
            assert(left =~= Seq::empty());
            assert(whole.len() == 1);
        }
    }
}

/// A mark in force restores the characters of a run.
proof fn lemma_latch(run: Seq<char>, rest: Seq<char>)
    requires
        latch_restores(run),
        forall|i: int| 0 <= i < run.len() ==> is_upper(#[trigger] run[i]),
        rest.len() > 0 ==> !is_lower(rest[0]),
    ensures
        case_decoded(lowered(run) + rest, true) == run + case_decoded(rest, false),
    decreases run.len(),
{
    let whole = lowered(run) + rest;
    if run.len() == 0 {
        assert(whole =~= rest);
        assert(run + case_decoded(rest, false) =~= case_decoded(rest, false));
    } else {
        let left = run.skip(1);
        let c = run[0];
        assert forall|i: int| 0 <= i < left.len() implies is_upper(#[trigger] left[i]) by {
            assert(left[i] == run[i + 1]);
        }
        assert(run =~= seq![c] + left);
        if to_lower(c).len() == 1 && is_lower(to_lower(c)[0]) {
            lemma_latch(left, rest);
            assert(whole.skip(1) =~= lowered(left) + rest);
            assert(whole[0] == to_lower(c)[0]);
        } else {
            assert(is_caseless(run[0]));
            lemma_caseless(run, rest);
            assert(whole[0] == c);
            assert(c != '^' && c != '$') by {
                assert(is_upper(run[0]));
            }
            assert(case_decoded(whole, true) == case_decoded(whole, false));
        }
    }
}

/// Characters without a lower case are not changed.
proof fn lemma_caseless(run: Seq<char>, rest: Seq<char>)
    requires
        forall|i: int| 0 <= i < run.len() ==> is_caseless(#[trigger] run[i]),
        forall|i: int| 0 <= i < run.len() ==> is_upper(#[trigger] run[i]),
    ensures
        case_decoded(lowered(run) + rest, false) == run + case_decoded(rest, false),
    decreases run.len(),
{
    let whole = lowered(run) + rest;
    if run.len() == 0 {
        assert(whole =~= rest);
        assert(run + case_decoded(rest, false) =~= case_decoded(rest, false));
    } else {
        let left = run.skip(1);
        let c = run[0];
        assert forall|i: int| 0 <= i < left.len() implies is_upper(#[trigger] left[i])
            && is_caseless(left[i]) by {
            assert(left[i] == run[i + 1]);
            assert(is_caseless(run[i + 1]));
        }
        assert(is_caseless(c) && is_upper(c));
        lemma_caseless(left, rest);
        assert(whole[0] == c);
        assert(whole.skip(1) =~= lowered(left) + rest);
        assert(run =~= seq![c] + left);
        assert(run + case_decoded(rest, false) =~= seq![c] + (left + case_decoded(rest, false)));
    }
}

/// A mark before each character restores a run.
proof fn lemma_shift(run: Seq<char>, rest: Seq<char>)
    requires
        forall|i: int| 0 <= i < run.len() ==> shift_restores(#[trigger] run[i]),
    ensures
        case_decoded(shifted(run) + rest, false) == run + case_decoded(rest, false),
    decreases run.len(),
{
    let whole = shifted(run) + rest;
    if run.len() == 0 {
        assert(whole =~= rest);
        assert(run + case_decoded(rest, false) =~= case_decoded(rest, false));
    } else {
        let left = run.skip(1);
        let c = run[0];
        assert forall|i: int| 0 <= i < left.len() implies shift_restores(#[trigger] left[i]) by {
            assert(left[i] == run[i + 1]);
        }
        assert(shift_restores(c));
        lemma_shift(left, rest);
        assert(whole[0] == '^');
        assert(whole[1] == to_lower(c)[0]);
        assert(whole.skip(2) =~= shifted(left) + rest);
        assert(run =~= seq![c] + left);
        assert(run + case_decoded(rest, false) =~= seq![c] + (left + case_decoded(rest, false)));
    }
}

/// ASCII text in which no character is taken for a mark.
pub open spec fn has_no_marks(text: Seq<char>) -> bool {
    forall|i: int|
        0 <= i < text.len() ==> #[trigger] text[i] != '$' && (i < text.len() - 1 ==> text[i] != '^')
}

/// Text of ASCII characters.
pub open spec fn is_ascii_text(text: Seq<char>) -> bool {
    forall|i: int| 0 <= i < text.len() ==> is_ascii_char(#[trigger] text[i])
}

/// ASCII text comes back just where it has no `$`, and `^` only at the end.
pub proof fn law_ascii_case(text: Seq<char>)
    requires
        is_ascii_text(text),
    ensures
        case_decoded(case_encoded(text), false) == text <==> has_no_marks(text),
        has_no_marks(text) ==> is_restorable(text),
{
    lemma_ascii_marks(text);
    if has_no_marks(text) {
        lemma_ascii_restorable(text);
        law_case_roundtrip(text);
    }
}

proof fn lemma_ascii_part(text: Seq<char>, n: int)
    requires
        is_ascii_text(text),
        0 <= n <= text.len(),
    ensures
        is_ascii_text(text.skip(n)),
        has_no_marks(text) ==> has_no_marks(text.skip(n)),
{
    let left = text.skip(n);
    assert forall|i: int| 0 <= i < left.len() implies is_ascii_char(#[trigger] left[i]) by {
        assert(left[i] == text[i + n]);
    }
    if has_no_marks(text) {
        assert forall|i: int| 0 <= i < left.len() implies #[trigger] left[i] != '$' && (i
            < left.len() - 1 ==> left[i] != '^') by {
            assert(left[i] == text[i + n]);
        }
    }
}

/// The run of upper case that ASCII text begins with is made of capital letters.
proof fn lemma_ascii_upper_run(text: Seq<char>)
    requires
        is_ascii_text(text),
        begins_upper(text),
    ensures
        1 <= upper_run(text) <= text.len(),
        forall|i: int|
            0 <= i < upper_run(text) ==> is_ascii_upper(#[trigger] text.take(upper_run(text))[i]),
{
    lemma_upper_run(text);
    let run = text.take(upper_run(text));
    assert forall|i: int| 0 <= i < run.len() implies is_ascii_upper(#[trigger] run[i]) by {
        assert(run[i] == text[i]);
        assert(is_upper(text[i]) && is_ascii_char(text[i]));
    }
}

proof fn lemma_ascii_restorable(text: Seq<char>)
    requires
        is_ascii_text(text),
        has_no_marks(text),
    ensures
        is_restorable(text),
    decreases text.len(),
{
    if text.len() > 0 {
        if begins_upper(text) {
            lemma_ascii_upper_run(text);
            let n = upper_run(text);
            lemma_ascii_run(text.take(n));
            lemma_ascii_part(text, n);
            lemma_ascii_restorable(text.skip(n));
        } else {
            assert(text[0] != '$' && (0 < text.len() - 1 ==> text[0] != '^'));
            lemma_ascii_part(text, 1);
            lemma_ascii_restorable(text.skip(1));
        }
    }
}

/// ASCII text becomes no longer by encoding and decoding, and comes back only without marks.
proof fn lemma_ascii_marks(text: Seq<char>)
    requires
        is_ascii_text(text),
    ensures
        case_decoded(case_encoded(text), false).len() <= text.len(),
        case_decoded(case_encoded(text), true).len() <= text.len(),
        case_decoded(case_encoded(text), false) == text ==> has_no_marks(text),
    decreases text.len(), 1int,
{
    let whole = case_encoded(text);
    let back = case_decoded(whole, false);
    if text.len() == 0 {
    } else if begins_upper(text) {
        lemma_ascii_run_back(text);
        let n = upper_run(text);
        lemma_ascii_upper_run(text);
        let run = text.take(n);
        let left = text.skip(n);
        lemma_ascii_part(text, n);
        lemma_ascii_marks(left);
        if back == text {
            assert(text.skip(n) =~= case_decoded(case_encoded(left), false));
            assert forall|i: int| 0 <= i < text.len() implies #[trigger] text[i] != '$' && (i
                < text.len() - 1 ==> text[i] != '^') by {
                if i < n {
                    assert(is_ascii_upper(run[i]));
                } else {
                    assert(text[i] == left[i - n]);
                }
            }
        }
    } else {
        let c = text[0];
        let left = text.skip(1);
        let rest = case_encoded(left);
        assert(is_ascii_char(c));
        assert(whole.skip(1) =~= rest);
        lemma_ascii_part(text, 1);
        lemma_ascii_marks(left);
        if c == '^' {
            lemma_ascii_stray(text);
        } else if c != '$' && back == text {
            assert(back.skip(1) =~= case_decoded(rest, false));
            assert forall|i: int| 0 <= i < text.len() implies #[trigger] text[i] != '$' && (i
                < text.len() - 1 ==> text[i] != '^') by {
                if i > 0 {
                    assert(text[i] == left[i - 1]);
                }
            }
        }
    }
}

/// A run of capital letters comes back, whether a mark is in force before it or not.
proof fn lemma_ascii_run_back(text: Seq<char>)
    requires
        is_ascii_text(text),
        begins_upper(text),
    ensures
        ({
            let n = upper_run(text);
            let back = text.take(n) + case_decoded(case_encoded(text.skip(n)), false);
            &&& case_decoded(case_encoded(text), false) == back
            &&& case_decoded(case_encoded(text), true) == back
        }),
{
    lemma_upper_run(text);
    lemma_ascii_upper_run(text);
    let n = upper_run(text);
    let run = text.take(n);
    let left = text.skip(n);
    let rest = case_encoded(left);
    let whole = case_encoded(text);
    lemma_ascii_run(run);
    if latches(text) {
        if left.len() > 0 {
            assert(left[0] == text[n]);
            assert(rest[0] == left[0]);
        }
        assert forall|i: int| 0 <= i < run.len() implies is_upper(#[trigger] run[i]) by {
            assert(is_ascii_upper(run[i]));
        }
        lemma_latch(run, rest);
        assert(whole[0] == '$');
        assert(whole.skip(1) =~= lowered(run) + rest);
    } else {
        lemma_shift(run, rest);
        assert(whole[0] == '^');
        assert(whole[1] == to_lower(run[0])[0]);
    }
}

/// A `^` before other ASCII characters does not come back with them.
proof fn lemma_ascii_stray(text: Seq<char>)
    requires
        is_ascii_text(text),
        text.len() > 0,
        text[0] == '^',
    ensures
        case_decoded(case_encoded(text), false).len() <= text.len(),
        case_decoded(case_encoded(text), true) == case_decoded(case_encoded(text), false),
        text.len() > 1 ==> case_decoded(case_encoded(text), false) != text,
    decreases text.len(), 0int,
{
    let left = text.skip(1);
    let rest = case_encoded(left);
    let whole = case_encoded(text);
    let back = case_decoded(whole, false);
    assert(whole.skip(1) =~= rest);
    lemma_ascii_part(text, 1);
    if left.len() == 0 {
        assert(whole.len() == 1);
        assert(case_decoded(rest, false).len() == 0);
    } else if begins_upper(left) {
        lemma_ascii_upper_run(left);
        lemma_upper_run(left);
        let n = upper_run(left);
        let run = left.take(n);
        let end = left.skip(n);
        let tail = case_encoded(end);
        lemma_ascii_part(left, n);
        lemma_ascii_marks(end);
        assert(is_ascii_upper(run[0]));
        assert(text[1] == run[0]);
        lemma_ascii_run(run);
        if latches(left) {
            assert(rest[0] == '$');
            assert(whole.skip(2) =~= lowered(run) + tail);
            lemma_plain_lowered(run, tail);
            assert(to_upper('$') =~= seq!['$']);
            assert(whole[1] == '$');
            assert(back == to_upper('$') + case_decoded(whole.skip(2), false));
            assert(back[0] == '$');
        } else {
            let others = run.skip(1);
            assert(rest =~= seq!['^'] + to_lower(run[0]) + shifted(others) + tail);
            let after = to_lower(run[0]) + (shifted(others) + tail);
            assert(whole.skip(2) =~= after);
            assert(after.skip(1) =~= shifted(others) + tail);
            assert forall|i: int| 0 <= i < others.len() implies shift_restores(
                #[trigger] others[i],
            ) by {
                assert(others[i] == run[i + 1]);
            }
            lemma_shift(others, tail);
            assert(whole[1] == '^');
            assert(after[0] == to_lower(run[0])[0]);
            assert(to_upper('^') =~= seq!['^']);
            assert(back == to_upper('^') + case_decoded(after, false));
            assert(case_decoded(after, false) == seq![after[0]] + case_decoded(after.skip(1), false));
            assert(to_lower(run[0]) =~= seq![after[0]]);
            assert(back =~= seq!['^'] + (to_lower(run[0]) + (others + case_decoded(tail, false))));
            assert(back[1] == to_lower(run[0])[0]);
        }
    } else {
        let end = left.skip(1);
        lemma_ascii_part(left, 1);
        lemma_ascii_marks(end);
        assert(is_ascii_char(left[0]));
        assert(whole.skip(2) =~= case_encoded(end));
        assert(whole[1] == left[0]);
    }
}

/// Small letters stay as they are where no mark is in force.
proof fn lemma_plain_lowered(run: Seq<char>, rest: Seq<char>)
    requires
        forall|i: int| 0 <= i < run.len() ==> is_ascii_upper(#[trigger] run[i]),
    ensures
        case_decoded(lowered(run) + rest, false) == lowered(run) + case_decoded(rest, false),
        lowered(run).len() == run.len(),
    decreases run.len(),
{
    let whole = lowered(run) + rest;
    if run.len() == 0 {
        assert(whole =~= rest);
        assert(lowered(run) + case_decoded(rest, false) =~= case_decoded(rest, false));
    } else {
        let left = run.skip(1);
        let l = to_lower(run[0]);
        assert(is_ascii_upper(run[0]));
        assert forall|i: int| 0 <= i < left.len() implies is_ascii_upper(#[trigger] left[i]) by {
            assert(left[i] == run[i + 1]);
        }
        lemma_plain_lowered(left, rest);
        assert(whole[0] == l[0]);
        assert(whole.skip(1) =~= lowered(left) + rest);
        assert(lowered(run) + case_decoded(rest, false) =~= l + (lowered(left) + case_decoded(
            rest,
            false,
        )));
    }
}

proof fn lemma_ascii_run(run: Seq<char>)
    requires
        forall|i: int| 0 <= i < run.len() ==> is_ascii_upper(#[trigger] run[i]),
    ensures
        forall|i: int| 0 <= i < run.len() ==> shift_restores(#[trigger] run[i]),
        latch_restores(run),
    decreases run.len(),
{
    assert forall|i: int| 0 <= i < run.len() implies shift_restores(#[trigger] run[i]) by {
        assert(is_ascii_upper(run[i]));
        assert(to_upper(to_lower(run[i])[0]) =~= seq![run[i]]);
    }
    if run.len() > 0 {
        let left = run.skip(1);
        assert(is_ascii_upper(run[0]) && shift_restores(run[0]));
        assert forall|i: int| 0 <= i < left.len() implies is_ascii_upper(#[trigger] left[i]) by {
            assert(left[i] == run[i + 1]);
        }
        lemma_ascii_run(left);
    }
}

/// Replaces upper case by marks.
pub fn encode_case(input: &str) -> (r: String)
    ensures
        r@ == case_encoded(input@),
{
    let chars: Vec<char> = chars_of(input);
    let mut result: Vec<char> = Vec::new();
    let mut i: usize = 0;
    assert(chars@.skip(0) =~= chars@);
    assert(Seq::<char>::empty() + case_encoded(chars@) =~= case_encoded(chars@));
    while i < chars.len()
        invariant
            i <= chars.len(),
            case_encoded(chars@) == result@ + case_encoded(chars@.skip(i as int)),
        decreases chars.len() - i,
    {
        let ghost rest = chars@.skip(i as int);
        let ghost before = result@;
        let c: char = chars[i];
        if c.is_alphabetic() && c.is_uppercase() {
            let run_len: usize = count_upper(&chars, i);
            let next_is_lower: bool = i + run_len < chars.len()
                && chars[i + run_len].is_lowercase();
            if run_len >= 2 && !next_is_lower {
                result.push('$');
                push_lowered(&mut result, &chars, i, run_len);
            } else {
                push_shifted(&mut result, &chars, i, run_len);
            }
            proof {
                assert(result@ =~= before + marked_run(rest));
                assert(rest.skip(run_len as int) =~= chars@.skip(i + run_len));
                let tail = case_encoded(rest.skip(run_len as int));
                assert(before + (marked_run(rest) + tail) =~= result@ + tail);
            }
            i = i + run_len;
        } else {
            result.push(c);
            proof {
                assert(rest.skip(1) =~= chars@.skip(i + 1));
                let tail = case_encoded(rest.skip(1));
                assert(before + (seq![c] + tail) =~= result@ + tail);
            }
            i = i + 1;
        }
    }
    assert(result@ + case_encoded(chars@.skip(i as int)) =~= result@);
    text_of(&result)
}

fn count_upper(chars: &Vec<char>, i: usize) -> (r: usize)
    requires
        i < chars.len(),
        is_upper(chars@[i as int]),
    ensures
        r == upper_run(chars@.skip(i as int)),
        1 <= r <= chars.len() - i,
{
    let ghost rest = chars@.skip(i as int);
    let mut run_len: usize = 0;
    assert(rest.skip(0) =~= rest);
    while i + run_len < chars.len() && chars[i + run_len].is_uppercase()
        invariant
            i < chars.len(),
            run_len <= chars.len() - i,
            rest == chars@.skip(i as int),
            upper_run(rest) == run_len + upper_run(rest.skip(run_len as int)),
        decreases chars.len() - run_len,
    {
        assert(rest.skip(run_len as int).skip(1) =~= rest.skip(run_len + 1));
        run_len = run_len + 1;
    }
    assert(run_len == 0 ==> rest.skip(0)[0] == chars@[i as int]);
    run_len
}

fn push_lowered(result: &mut Vec<char>, chars: &Vec<char>, start: usize, len: usize)
    requires
        start + len <= chars.len(),
    ensures
        final(result)@ == old(result)@ + lowered(chars@.skip(start as int).take(len as int)),
{
    let ghost run = chars@.skip(start as int).take(len as int);
    let ghost before = result@;
    let mut k: usize = 0;
    assert(run.skip(0) =~= run);
    while k < len
        invariant
            k <= len,
            start + len <= chars.len(),
            run == chars@.skip(start as int).take(len as int),
            before + lowered(run) == result@ + lowered(run.skip(k as int)),
        decreases len - k,
    {
        let ghost now = result@;
        let mut lower: Vec<char> = lower_chars(chars[start + k]);
        let ghost added = lower@;
        result.append(&mut lower);
        proof {
            assert(run.skip(k as int).skip(1) =~= run.skip(k + 1));
            let tail = lowered(run.skip(k + 1));
            assert(now + (added + tail) =~= result@ + tail);
        }
        k = k + 1;
    }
    assert(result@ + lowered(run.skip(k as int)) =~= result@);
}

fn push_shifted(result: &mut Vec<char>, chars: &Vec<char>, start: usize, len: usize)
    requires
        start + len <= chars.len(),
    ensures
        final(result)@ == old(result)@ + shifted(chars@.skip(start as int).take(len as int)),
{
    let ghost run = chars@.skip(start as int).take(len as int);
    let ghost before = result@;
    let mut k: usize = 0;
    assert(run.skip(0) =~= run);
    while k < len
        invariant
            k <= len,
            start + len <= chars.len(),
            run == chars@.skip(start as int).take(len as int),
            before + shifted(run) == result@ + shifted(run.skip(k as int)),
        decreases len - k,
    {
        let ghost now = result@;
        result.push('^');
        let mut lower: Vec<char> = lower_chars(chars[start + k]);
        let ghost added = lower@;
        result.append(&mut lower);
        proof {
            assert(run.skip(k as int).skip(1) =~= run.skip(k + 1));
            let tail = shifted(run.skip(k + 1));
            assert(now + (seq!['^'] + added + tail) =~= result@ + tail);
        }
        k = k + 1;
    }
    assert(result@ + shifted(run.skip(k as int)) =~= result@);
}

/// Replaces marks by upper case.
pub fn decode_case(input: &str) -> (r: String)
    ensures
        r@ == case_decoded(input@, false),
{
    let chars: Vec<char> = chars_of(input);
    let mut result: Vec<char> = Vec::new();
    let mut i: usize = 0;
    let mut latched: bool = false;
    assert(chars@.skip(0) =~= chars@);
    assert(Seq::<char>::empty() + case_decoded(chars@, false) =~= case_decoded(chars@, false));
    while i < chars.len()
        invariant
            i <= chars.len(),
            case_decoded(chars@, false) == result@ + case_decoded(chars@.skip(i as int), latched),
        decreases chars.len() - i,
    {
        let ghost rest = chars@.skip(i as int);
        let ghost before = result@;
        let c: char = chars[i];
        if latched && c.is_lowercase() {
            let mut upper: Vec<char> = upper_chars(c);
            let ghost added = upper@;
            result.append(&mut upper);
            proof {
                assert(rest.skip(1) =~= chars@.skip(i + 1));
                let tail = case_decoded(rest.skip(1), true);
                assert(before + (added + tail) =~= result@ + tail);
            }
            i = i + 1;
        } else if c == '^' && i + 1 < chars.len() {
            let mut upper: Vec<char> = upper_chars(chars[i + 1]);
            let ghost added = upper@;
            result.append(&mut upper);
            proof {
                assert(rest.skip(2) =~= chars@.skip(i + 2));
                let tail = case_decoded(rest.skip(2), false);
                assert(before + (added + tail) =~= result@ + tail);
            }
            latched = false;
            i = i + 2;
        } else if c == '$' {
            assert(rest.skip(1) =~= chars@.skip(i + 1));
            latched = true;
            i = i + 1;
        } else {
            result.push(c);
            proof {
                assert(rest.skip(1) =~= chars@.skip(i + 1));
                let tail = case_decoded(rest.skip(1), false);
                assert(before + (seq![c] + tail) =~= result@ + tail);
            }
            latched = false;
            i = i + 1;
        }
    }
    assert(result@ + case_decoded(chars@.skip(i as int), latched) =~= result@);
    text_of(&result)
}

} // verus!
