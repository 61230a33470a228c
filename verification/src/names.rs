//! Names of repositories: an owner, a slash and a name.
//!
//! Where the name holds the owner, a `@` stands in its place. The two names that are most common
//! then become shorter still: `@` is stored as nothing, and `@.github.io` as `@`.

use vstd::prelude::*;
use crate::text::{
    begins_with, chars_of, find_char, first_at, lemma_first_at, replace, replaced, same_text,
    text_of,
};

verus! {

/// The name has an owner: there is a slash in it.
pub open spec fn has_owner(full: Seq<char>) -> bool {
    first_at(full, '/') < full.len()
}

/// What stands before the first slash.
pub open spec fn owner_of(full: Seq<char>) -> Seq<char> {
    full.take(first_at(full, '/'))
}

/// What stands behind the first slash.
pub open spec fn name_of(full: Seq<char>) -> Seq<char> {
    full.skip(first_at(full, '/') + 1)
}

/// An owner and a name with a slash between them.
pub open spec fn full_name(owner: Seq<char>, name: Seq<char>) -> Seq<char> {
    owner + seq!['/'] + name
}

/// The name of the site of an owner.
pub open spec fn site_name() -> Seq<char> {
    "@.github.io"@
}

/// A name with `@` in place of its owner.
pub open spec fn marked(owner: Seq<char>, name: Seq<char>) -> Seq<char> {
    if owner.len() > 0 {
        replaced(name, owner, seq!['@'])
    } else {
        name
    }
}

/// A name with `@` in place of its owner, and the most common names shorter still.
pub open spec fn shortened(owner: Seq<char>, name: Seq<char>) -> Seq<char> {
    let text = marked(owner, name);
    if text == seq!['@'] {
        Seq::empty()
    } else if text == site_name() {
        seq!['@']
    } else {
        text
    }
}

/// The name that a shortened name stands for.
pub open spec fn restored(owner: Seq<char>, short: Seq<char>) -> Seq<char> {
    let text = if short.len() == 0 {
        seq!['@']
    } else if short == seq!['@'] {
        site_name()
    } else {
        short
    };
    replaced(text, seq!['@'], owner)
}

/// There is a `@` in the name that does not belong to its owner.
pub open spec fn has_stray_mark(owner: Seq<char>, name: Seq<char>) -> bool
    decreases name.len(),
{
    if name.len() == 0 {
        false
    } else if owner.len() > 0 && begins_with(name, owner) {
        has_stray_mark(owner, name.skip(owner.len() as int))
    } else {
        name[0] == '@' || has_stray_mark(owner, name.skip(1))
    }
}

/// The parts of a name with an owner give it back.
pub proof fn law_full_name(full: Seq<char>)
    requires
        has_owner(full),
    ensures
        full_name(owner_of(full), name_of(full)) == full,
{
    lemma_first_at(full, '/');
    assert(full_name(owner_of(full), name_of(full)) =~= full);
}

/// A name comes back from its short form just where it has no `@` of its own, and is not empty
/// while its owner is not.
pub proof fn law_name_restored(owner: Seq<char>, name: Seq<char>)
    ensures
        restored(owner, shortened(owner, name)) == name <==> !has_stray_mark(owner, name) && (
        name.len() > 0 || owner.len() == 0),
{
    reveal_strlit("@.github.io");
    let at = seq!['@'];
    let text = marked(owner, name);
    lemma_unmarked(owner, name);
    lemma_replaced_front('@', Seq::empty(), owner);
    assert(at + Seq::<char>::empty() =~= at);
    assert(owner + Seq::<char>::empty() =~= owner);
    assert(site_name().len() == 11);
    assert(at.len() == 1);
    if owner.len() == 0 {
        assert(owner =~= Seq::empty());
    }
    if name.len() == 0 {
        assert(name =~= Seq::empty());
        assert(text =~= Seq::empty());
    }
}

/// What `@` is replaced by at the front of a text.
proof fn lemma_replaced_front(c: char, rest: Seq<char>, owner: Seq<char>)
    ensures
        replaced(seq![c] + rest, seq!['@'], owner) == (if c == '@' {
            owner
        } else {
            seq![c]
        }) + replaced(rest, seq!['@'], owner),
{
    let text = seq![c] + rest;
    assert(text.skip(1) =~= rest);
    assert(text.take(1) =~= seq![c]);
    assert(begins_with(text, seq!['@']) <==> c == '@') by {
        assert(seq![c][0] == c);
        assert(seq!['@'][0] == '@');
    }
}

/// Putting the owner back for every `@` gives the name just where no `@` was its own.
proof fn lemma_unmarked(owner: Seq<char>, name: Seq<char>)
    ensures
        replaced(marked(owner, name), seq!['@'], owner) == name <==> !has_stray_mark(owner, name),
        owner.len() > 0 ==> replaced(marked(owner, name), seq!['@'], owner).len() >= name.len(),
        owner.len() == 0 ==> replaced(marked(owner, name), seq!['@'], owner).len() <= name.len(),
        name.len() > 0 ==> marked(owner, name).len() > 0,
    decreases name.len(),
{
    let back = replaced(marked(owner, name), seq!['@'], owner);
    if name.len() == 0 {
        assert(back =~= name);
    } else if owner.len() > 0 && begins_with(name, owner) {
        let rest = name.skip(owner.len() as int);
        lemma_unmarked(owner, rest);
        lemma_replaced_front('@', marked(owner, rest), owner);
        let end = replaced(marked(owner, rest), seq!['@'], owner);
        assert(back == owner + end);
        assert(name =~= owner + rest);
        if back == name {
            assert(end =~= back.skip(owner.len() as int));
        }
    } else {
        let c = name[0];
        let rest = name.skip(1);
        lemma_unmarked(owner, rest);
        lemma_replaced_front(c, marked(owner, rest), owner);
        let end = replaced(marked(owner, rest), seq!['@'], owner);
        assert(name =~= seq![c] + rest);
        assert(marked(owner, name) =~= seq![c] + marked(owner, rest));
        if c == '@' {
            assert(back == owner + end);
            if back == name {
                assert(owner.len() == 1);
                assert(back[0] == owner[0]);
                assert(name.take(1) =~= owner);
            }
        } else {
            assert(back == seq![c] + end);
            if back == name {
                assert(end =~= back.skip(1));
            }
        }
    }
}

/// Splits a name into its owner and the rest.
pub fn split_name(full: &str) -> (r: Option<(String, String)>)
    ensures
        match r {
            Some((owner, name)) => has_owner(full@) && owner@ == owner_of(full@) && name@
                == name_of(full@),
            None => !has_owner(full@),
        },
{
    let chars: Vec<char> = chars_of(full);
    match find_char(&chars, '/') {
        Some(slash) => {
            let owner: String = text_of(vstd::slice::slice_subrange(chars.as_slice(), 0, slash));
            let name: String = text_of(
                vstd::slice::slice_subrange(chars.as_slice(), slash + 1, chars.len()),
            );
            assert(owner@ =~= owner_of(full@));
            assert(name@ =~= name_of(full@));
            Some((owner, name))
        },
        None => None,
    }
}

/// Joins an owner and a name.
pub fn join_name(owner: &str, name: &str) -> (r: String)
    ensures
        r@ == full_name(owner@, name@),
{
    let mut chars: Vec<char> = chars_of(owner);
    chars.push('/');
    let mut rest: Vec<char> = chars_of(name);
    chars.append(&mut rest);
    assert(chars@ =~= full_name(owner@, name@));
    text_of(&chars)
}

/// Shortens a name by its owner.
pub fn shorten(owner: &str, name: &str) -> (r: String)
    ensures
        r@ == shortened(owner@, name@),
{
    let owner_chars: Vec<char> = chars_of(owner);
    let name_chars: Vec<char> = chars_of(name);
    let mark: [char; 1] = ['@'];
    assert(mark@ =~= seq!['@']);
    let text: Vec<char> = if owner_chars.len() > 0 {
        replace(&name_chars, &owner_chars, &mark)
    } else {
        name_chars
    };
    if text.len() == 1 && text[0] == '@' {
        assert(text@ =~= seq!['@']);
        String::new()
    } else {
        let text: String = text_of(&text);
        if same_text(text.as_str(), "@.github.io") {
            text_of(&mark)
        } else {
            text
        }
    }
}

/// Puts the owner back into a shortened name.
pub fn restore(owner: &str, short: &str) -> (r: String)
    ensures
        r@ == restored(owner@, short@),
{
    let owner_chars: Vec<char> = chars_of(owner);
    let short_chars: Vec<char> = chars_of(short);
    let mark: [char; 1] = ['@'];
    assert(mark@ =~= seq!['@']);
    let text: Vec<char> = if short_chars.len() == 0 {
        chars_of("@")
    } else if short_chars.len() == 1 && short_chars[0] == '@' {
        assert(short@ =~= seq!['@']);
        chars_of("@.github.io")
    } else {
        short_chars
    };
    proof {
        reveal_strlit("@");
        assert("@"@ =~= seq!['@']);
    }
    text_of(&replace(&text, &mark, &owner_chars))
}

} // verus!
