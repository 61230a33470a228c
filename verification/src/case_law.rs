//! How case compression marks a text, character by character.

use vstd::prelude::*;
use crate::case::{
    begins_upper, case_decoded, case_encoded, is_ascii_text, latches, lemma_upper_run, lowered,
    shifted, upper_run,
};
use crate::unicode::{
    is_ascii_char, is_ascii_upper, is_letter, is_lower, is_upper, to_lower, to_upper,
};

verus! {

/// There is a character in upper case at `i`.
pub open spec fn is_capital_at(text: Seq<char>, i: int) -> bool {
    0 <= i < text.len() && is_upper(text[i])
}

/// Where the upper case at `i` ends: at the first place from `i` on that has none.
pub open spec fn run_end(text: Seq<char>, i: int) -> int
    decreases text.len() - i,
{
    if is_capital_at(text, i) {
        run_end(text, i + 1)
    } else {
        i
    }
}

/// Where the upper case at `i` begins: behind the last place before `i` that has none.
pub open spec fn run_begin(text: Seq<char>, i: int) -> int
    decreases i,
{
    if is_capital_at(text, i - 1) {
        run_begin(text, i - 1)
    } else {
        i
    }
}

/// The upper case at `i` belongs to two characters or more, and no character in lower case follows
/// them.
pub open spec fn shares_mark(text: Seq<char>, i: int) -> bool {
    let end = run_end(text, i);
    &&& end - run_begin(text, i) >= 2
    &&& !(end < text.len() && is_lower(text[end]))
}

/// The mark before the character at `i`: none in lower case, one `$` before several characters in
/// upper case that share it, and otherwise a `^` before each.
pub open spec fn mark_at(text: Seq<char>, i: int) -> Seq<char> {
    if !is_capital_at(text, i) {
        Seq::empty()
    } else if !shares_mark(text, i) {
        seq!['^']
    } else if run_begin(text, i) == i {
        seq!['$']
    } else {
        Seq::empty()
    }
}

/// The character at `i` in lower case, where it is in upper case.
pub open spec fn plain_at(text: Seq<char>, i: int) -> Seq<char> {
    if is_capital_at(text, i) {
        to_lower(text[i])
    } else {
        seq![text[i]]
    }
}

/// The characters from `i` on in lower case, each behind its mark.
pub open spec fn marked_from(text: Seq<char>, i: int) -> Seq<char>
    decreases text.len() - i,
{
    if i >= text.len() {
        Seq::empty()
    } else {
        mark_at(text, i) + plain_at(text, i) + marked_from(text, i + 1)
    }
}

/// All that is in upper case is a letter.
pub open spec fn has_cased_letters(text: Seq<char>) -> bool {
    forall|i: int| 0 <= i < text.len() && is_upper(text[i]) ==> is_letter(#[trigger] text[i])
}

proof fn lemma_run_end(text: Seq<char>, i: int)
    requires
        0 <= i <= text.len(),
    ensures
        run_end(text, i) == i + upper_run(text.skip(i)),
    decreases text.len() - i,
{
    if is_capital_at(text, i) {
        assert(text.skip(i)[0] == text[i]);
        assert(text.skip(i).skip(1) =~= text.skip(i + 1));
        lemma_run_end(text, i + 1);
    } else if i < text.len() {
        assert(text.skip(i)[0] == text[i]);
    }
}

/// Within a run, its ends are the same from everywhere.
proof fn lemma_within_run(text: Seq<char>, begin: int, end: int, i: int)
    requires
        0 <= begin <= i < end <= text.len(),
        forall|k: int| begin <= k < end ==> is_upper(#[trigger] text[k]),
        !is_capital_at(text, begin - 1),
        !is_capital_at(text, end),
    ensures
        run_begin(text, i) == begin,
        run_end(text, i) == end,
{
    lemma_begin(text, begin, i);
    lemma_end(text, end, i);
}

proof fn lemma_begin(text: Seq<char>, begin: int, i: int)
    requires
        0 <= begin <= i <= text.len(),
        forall|k: int| begin <= k < i ==> is_upper(#[trigger] text[k]),
        !is_capital_at(text, begin - 1),
    ensures
        run_begin(text, i) == begin,
    decreases i,
{
    if begin < i {
        assert(is_upper(text[i - 1]));
        lemma_begin(text, begin, i - 1);
    }
}

proof fn lemma_end(text: Seq<char>, end: int, i: int)
    requires
        0 <= i <= end <= text.len(),
        forall|k: int| i <= k < end ==> is_upper(#[trigger] text[k]),
        !is_capital_at(text, end),
    ensures
        run_end(text, i) == end,
    decreases end - i,
{
    if i < end {
        assert(is_upper(text[i]));
        lemma_end(text, end, i + 1);
    }
}

/// A run from its place `i` on, where it shares a mark or not.
proof fn lemma_run_marked(text: Seq<char>, begin: int, end: int, i: int)
    requires
        0 <= begin <= i <= end <= text.len(),
        forall|k: int| begin <= k < end ==> is_upper(#[trigger] text[k]),
        !is_capital_at(text, begin - 1),
        !is_capital_at(text, end),
    ensures
        ({
            let rest = text.subrange(i, end);
            let shared = end - begin >= 2 && !(end < text.len() && is_lower(text[end]));
            &&& !shared ==> marked_from(text, i) == shifted(rest) + marked_from(text, end)
            &&& shared && i > begin ==> marked_from(text, i) == lowered(rest) + marked_from(
                text,
                end,
            )
            &&& shared && i == begin ==> marked_from(text, i) == seq!['$'] + lowered(rest)
                + marked_from(text, end)
        }),
    decreases end - i,
{
    let rest = text.subrange(i, end);
    let tail = marked_from(text, end);
    if i < end {
        lemma_within_run(text, begin, end, i);
        lemma_run_marked(text, begin, end, i + 1);
        assert(is_upper(text[i]));
        assert(rest.skip(1) =~= text.subrange(i + 1, end));
        assert(rest[0] == text[i]);
        let low = to_lower(text[i]);
        let more = text.subrange(i + 1, end);
        assert(seq!['^'] + low + (shifted(more) + tail) =~= seq!['^'] + low + shifted(more)
            + tail);
        assert(Seq::<char>::empty() + low + (lowered(more) + tail) =~= low + lowered(more)
            + tail);
        assert(seq!['$'] + low + (lowered(more) + tail) =~= seq!['$'] + (low + lowered(more))
            + tail);
    } else {
        assert(rest =~= Seq::empty());
        assert(Seq::<char>::empty() + tail =~= tail);
    }
}

proof fn lemma_encoded_from(text: Seq<char>, i: int)
    requires
        has_cased_letters(text),
        0 <= i <= text.len(),
        !is_capital_at(text, i - 1) || !is_capital_at(text, i),
    ensures
        case_encoded(text.skip(i)) == marked_from(text, i),
    decreases text.len() - i,
{
    let rest = text.skip(i);
    if i < text.len() {
        assert(rest[0] == text[i]);
        if is_capital_at(text, i) {
            assert(is_letter(text[i]));
            lemma_run_end(text, i);
            lemma_upper_run(rest);
            let n = upper_run(rest);
            let end = i + n;
            assert forall|k: int| i <= k < end implies is_upper(#[trigger] text[k]) by {
                assert(rest[k - i] == text[k]);
            }
            if end < text.len() {
                assert(rest[n] == text[end]);
            }
            lemma_run_marked(text, i, end, i);
            assert(rest.take(n) =~= text.subrange(i, end));
            assert(rest.skip(n) =~= text.skip(end));
            lemma_encoded_from(text, end);
        } else {
            assert(rest.skip(1) =~= text.skip(i + 1));
            lemma_encoded_from(text, i + 1);
            assert(Seq::<char>::empty() + seq![text[i]] =~= seq![text[i]]);
        }
    }
}

/// The encoded form of a text is every character in lower case behind its mark: two or more
/// characters in upper case that none in lower case follows have one `$` before them, however many
/// they are, and any others a `^` before each.
pub proof fn law_case_marks(text: Seq<char>)
    requires
        has_cased_letters(text),
    ensures
        case_encoded(text) == marked_from(text, 0),
{
    assert(text.skip(0) =~= text);
    lemma_encoded_from(text, 0);
}

/// In ASCII text, all that is in upper case is a letter.
pub proof fn law_ascii_cased(text: Seq<char>)
    requires
        is_ascii_text(text),
    ensures
        has_cased_letters(text),
{
}

/// A small letter of ASCII for a capital one.
pub open spec fn small(c: char) -> char {
    ((c as u32) + 32) as char
}

proof fn lemma_lowered_capitals(run: Seq<char>)
    requires
        forall|i: int| 0 <= i < run.len() ==> 'A' <= #[trigger] run[i] && run[i] <= 'Z',
    ensures
        lowered(run).len() == run.len(),
        forall|i: int| 0 <= i < run.len() ==> #[trigger] lowered(run)[i] == small(run[i]),
    decreases run.len(),
{
    if run.len() > 0 {
        let left = run.skip(1);
        assert forall|i: int| 0 <= i < left.len() implies 'A' <= #[trigger] left[i] && left[i]
            <= 'Z' by {
            assert(left[i] == run[i + 1]);
        }
        lemma_lowered_capitals(left);
        assert('A' <= run[0] && run[0] <= 'Z');
        assert forall|i: int| 0 <= i < run.len() implies #[trigger] lowered(run)[i] == small(
            run[i],
        ) by {
            if i > 0 {
                assert(lowered(run)[i] == lowered(left)[i - 1]);
                assert(left[i - 1] == run[i]);
            }
        }
    }
}

/// Two or more capital letters alone are encoded as one `$` and the letters in lower case.
pub proof fn law_capital_run(text: Seq<char>)
    requires
        text.len() >= 2,
        forall|i: int| 0 <= i < text.len() ==> 'A' <= #[trigger] text[i] && text[i] <= 'Z',
    ensures
        case_encoded(text).len() == text.len() + 1,
        case_encoded(text)[0] == '$',
        forall|i: int|
            0 <= i < text.len() ==> case_encoded(text)[i + 1] == small(#[trigger] text[i]),
{
    lemma_lowered_capitals(text);
    lemma_upper_run(text);
    let n = upper_run(text);
    assert('A' <= text[0] && text[0] <= 'Z');
    if n < text.len() {
        assert('A' <= text[n] && text[n] <= 'Z');
    }
    assert(text.take(n) =~= text);
    assert(text.skip(n) =~= Seq::empty());
    assert(case_encoded(text.skip(n)) =~= Seq::empty());
    assert(latches(text) && begins_upper(text));
    let whole = case_encoded(text);
    assert(whole =~= seq!['$'] + lowered(text));
    assert forall|i: int| 0 <= i < text.len() implies whole[i + 1] == small(#[trigger] text[i]) by {
        assert(whole[i + 1] == lowered(text)[i]);
    }
}

/// Text without upper case stays as it is.
pub proof fn law_lower_text(text: Seq<char>)
    requires
        forall|i: int| 0 <= i < text.len() ==> !is_upper(#[trigger] text[i]),
    ensures
        case_encoded(text) == text,
    decreases text.len(),
{
    if text.len() > 0 {
        let left = text.skip(1);
        assert forall|i: int| 0 <= i < left.len() implies !is_upper(#[trigger] left[i]) by {
            assert(left[i] == text[i + 1]);
        }
        assert(!is_upper(text[0]));
        law_lower_text(left);
        assert(text =~= seq![text[0]] + left);
    } else {
        assert(text =~= Seq::empty());
    }
}

/// ASCII text is encoded without capital letters.
pub proof fn law_no_capitals(text: Seq<char>)
    requires
        is_ascii_text(text),
    ensures
        forall|k: int|
            0 <= k < case_encoded(text).len() ==> !is_ascii_upper(#[trigger] case_encoded(text)[k]),
{
    law_ascii_cased(text);
    law_case_marks(text);
    lemma_no_capitals_from(text, 0);
}

proof fn lemma_no_capitals_from(text: Seq<char>, i: int)
    requires
        is_ascii_text(text),
        0 <= i,
    ensures
        forall|k: int|
            0 <= k < marked_from(text, i).len() ==> !is_ascii_upper(
                #[trigger] marked_from(text, i)[k],
            ),
    decreases text.len() - i,
{
    if i < text.len() {
        lemma_no_capitals_from(text, i + 1);
        let mark = mark_at(text, i);
        let plain = plain_at(text, i);
        let rest = marked_from(text, i + 1);
        let whole = marked_from(text, i);
        assert(is_ascii_char(text[i]));
        assert(whole =~= mark + plain + rest);
        assert forall|k: int| 0 <= k < whole.len() implies !is_ascii_upper(
            #[trigger] whole[k],
        ) by {
            if k >= mark.len() + plain.len() {
                assert(whole[k] == rest[k - mark.len() - plain.len()]);
            } else if k >= mark.len() {
                assert(whole[k] == plain[k - mark.len()]);
            } else {
                assert(whole[k] == mark[k]);
            }
        }
    }
}

/// A `^` puts the character behind it in upper case.
pub proof fn law_decoded_shift(c: char, rest: Seq<char>)
    ensures
        case_decoded(seq!['^', c] + rest, false) == to_upper(c) + case_decoded(rest, false),
{
    let whole = seq!['^', c] + rest;
    assert(whole[0] == '^' && whole[1] == c);
    assert(whole.skip(2) =~= rest);
}

/// A `$` puts all characters in lower case behind it in upper case, up to the first character that
/// is not in lower case.
pub proof fn law_decoded_latch(run: Seq<char>, rest: Seq<char>)
    requires
        forall|i: int| 0 <= i < run.len() ==> is_lower(#[trigger] run[i]),
        rest.len() > 0 ==> !is_lower(rest[0]),
    ensures
        case_decoded(seq!['$'] + run + rest, false) == raised(run) + case_decoded(rest, false),
{
    let whole = seq!['$'] + run + rest;
    assert(whole[0] == '$');
    assert(whole.skip(1) =~= run + rest);
    lemma_latched(run, rest);
}

/// All characters in upper case.
pub open spec fn raised(text: Seq<char>) -> Seq<char>
    decreases text.len(),
{
    if text.len() == 0 {
        Seq::empty()
    } else {
        raised(text.drop_last()) + to_upper(text.last())
    }
}

proof fn lemma_raised_front(c: char, rest: Seq<char>)
    ensures
        raised(seq![c] + rest) == to_upper(c) + raised(rest),
    decreases rest.len(),
{
    let whole = seq![c] + rest;
    if rest.len() == 0 {
        assert(whole.drop_last() =~= Seq::empty());
        assert(raised(whole.drop_last()) =~= Seq::empty());
        assert(rest =~= Seq::empty());
        assert(raised(whole) =~= to_upper(c) + raised(rest));
    } else {
        assert(whole.drop_last() =~= seq![c] + rest.drop_last());
        lemma_raised_front(c, rest.drop_last());
        assert(to_upper(c) + raised(rest.drop_last()) + to_upper(rest.last()) =~= to_upper(c) + (
        raised(rest.drop_last()) + to_upper(rest.last())));
    }
}

proof fn lemma_latched(run: Seq<char>, rest: Seq<char>)
    requires
        forall|i: int| 0 <= i < run.len() ==> is_lower(#[trigger] run[i]),
        rest.len() > 0 ==> !is_lower(rest[0]),
    ensures
        case_decoded(run + rest, true) == raised(run) + case_decoded(rest, false),
    decreases run.len(),
{
    let whole = run + rest;
    if run.len() == 0 {
        assert(whole =~= rest);
        assert(raised(run) + case_decoded(rest, false) =~= case_decoded(rest, false));
    } else {
        let left = run.skip(1);
        assert(is_lower(run[0]));
        assert forall|i: int| 0 <= i < left.len() implies is_lower(#[trigger] left[i]) by {
            assert(left[i] == run[i + 1]);
        }
        lemma_latched(left, rest);
        assert(whole[0] == run[0]);
        assert(whole.skip(1) =~= left + rest);
        assert(run =~= seq![run[0]] + left);
        lemma_raised_front(run[0], left);
        assert(to_upper(run[0]) + (raised(left) + case_decoded(rest, false)) =~= to_upper(run[0])
            + raised(left) + case_decoded(rest, false));
    }
}

/// Characters that are no marks stay as they are, and so does a `^` at the end.
pub proof fn law_decoded_plain(text: Seq<char>, rest: Seq<char>)
    requires
        forall|i: int| 0 <= i < text.len() ==> #[trigger] text[i] != '^' && text[i] != '$',
    ensures
        case_decoded(text + rest, false) == text + case_decoded(rest, false),
        case_decoded(seq!['^'], false) == seq!['^'],
    decreases text.len(),
{
    let whole = text + rest;
    if text.len() == 0 {
        assert(whole =~= rest);
        assert(text + case_decoded(rest, false) =~= case_decoded(rest, false));
    } else {
        let left = text.skip(1);
        assert forall|i: int| 0 <= i < left.len() implies #[trigger] left[i] != '^' && left[i]
            != '$' by {
            assert(left[i] == text[i + 1]);
        }
        assert(text[0] != '^' && text[0] != '$');
        law_decoded_plain(left, rest);
        assert(whole.skip(1) =~= left + rest);
        assert(seq![text[0]] + (left + case_decoded(rest, false)) =~= text + case_decoded(
            rest,
            false,
        ));
    }
    let caret = seq!['^'];
    assert(caret.skip(1) =~= Seq::empty());
    assert(case_decoded(caret.skip(1), false) =~= Seq::empty());
    assert(case_decoded(caret, false) =~= caret);
}

} // verus!
