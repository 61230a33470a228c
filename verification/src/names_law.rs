//! What the short form of a name is for: the owner does not stand in it, and the names that are
//! most common are the shortest.

use vstd::prelude::*;
use crate::names::{has_owner, marked, name_of, owner_of, restored, shortened};
use crate::text::{begins_with, first_at, lemma_first_at, replaced};

verus! {

/// `part` stands in `text` at `i`.
pub open spec fn stands_at(text: Seq<char>, part: Seq<char>, i: int) -> bool {
    &&& 0 <= i
    &&& i + part.len() <= text.len()
    &&& text.subrange(i, i + part.len()) == part
}

/// `part` stands nowhere in `text`.
pub open spec fn is_absent(text: Seq<char>, part: Seq<char>) -> bool {
    forall|i: int| !#[trigger] stands_at(text, part, i)
}

/// Up to its first mark, a marked text is the text.
proof fn lemma_unmarked_front(text: Seq<char>, owner: Seq<char>, k: int)
    requires
        owner.len() > 0,
        0 <= k <= replaced(text, owner, seq!['@']).len(),
        forall|i: int| 0 <= i < k ==> #[trigger] replaced(text, owner, seq!['@'])[i] != '@',
    ensures
        k <= text.len(),
        text.take(k) == replaced(text, owner, seq!['@']).take(k),
    decreases text.len(),
{
    let short = replaced(text, owner, seq!['@']);
    if k > 0 {
        if text.len() == 0 {
            assert(short.len() == 0);
        } else if begins_with(text, owner) {
            assert(short[0] == '@');
        } else {
            let rest = replaced(text.skip(1), owner, seq!['@']);
            assert forall|i: int| 0 <= i < k - 1 implies #[trigger] rest[i] != '@' by {
                assert(short[i + 1] == rest[i]);
            }
            lemma_unmarked_front(text.skip(1), owner, k - 1);
            assert forall|i: int| 0 <= i < k implies text[i] == short[i] by {
                if i > 0 {
                    assert(text.skip(1).take(k - 1)[i - 1] == rest.take(k - 1)[i - 1]);
                }
            }
            assert(text.take(k) =~= short.take(k));
        }
    } else {
        assert(text.take(0) =~= short.take(0));
    }
}

proof fn lemma_owner_gone(text: Seq<char>, owner: Seq<char>, i: int)
    requires
        owner.len() > 0,
        forall|k: int| 0 <= k < owner.len() ==> #[trigger] owner[k] != '@',
    ensures
        !stands_at(replaced(text, owner, seq!['@']), owner, i),
    decreases text.len(),
{
    let short = replaced(text, owner, seq!['@']);
    let n = owner.len() as int;
    if stands_at(short, owner, i) {
        assert forall|k: int| 0 <= k < n implies short[i + k] == owner[k] by {
            assert(short.subrange(i, i + n)[k] == owner[k]);
        }
        if text.len() == 0 {
        } else if begins_with(text, owner) {
            let rest = replaced(text.skip(n), owner, seq!['@']);
            if i == 0 {
                assert(short[0] == owner[0]);
            } else {
                assert(rest.subrange(i - 1, i - 1 + n) =~= short.subrange(i, i + n));
                lemma_owner_gone(text.skip(n), owner, i - 1);
                assert(stands_at(rest, owner, i - 1));
            }
        } else if i == 0 {
            assert forall|k: int| 0 <= k < n implies #[trigger] short[k] != '@' by {
                assert(short[0 + k] == owner[k]);
            }
            lemma_unmarked_front(text, owner, n);
            assert(short.take(n) =~= short.subrange(0, n));
            assert(begins_with(text, owner));
        } else {
            let rest = replaced(text.skip(1), owner, seq!['@']);
            assert(rest.subrange(i - 1, i - 1 + n) =~= short.subrange(i, i + n));
            lemma_owner_gone(text.skip(1), owner, i - 1);
            assert(stands_at(rest, owner, i - 1));
        }
    }
}

proof fn lemma_absent_stays(text: Seq<char>, from: Seq<char>, to: Seq<char>)
    requires
        is_absent(text, from),
    ensures
        replaced(text, from, to) == text,
    decreases text.len(),
{
    if text.len() > 0 && from.len() > 0 {
        if begins_with(text, from) {
            assert(text.subrange(0, from.len() as int) =~= text.take(from.len() as int));
            assert(stands_at(text, from, 0));
        }
        let rest = text.skip(1);
        assert forall|i: int| !#[trigger] stands_at(rest, from, i) by {
            if stands_at(rest, from, i) {
                assert(text.subrange(i + 1, i + 1 + from.len()) =~= rest.subrange(
                    i,
                    i + from.len(),
                ));
                assert(stands_at(text, from, i + 1));
            }
        }
        lemma_absent_stays(rest, from, to);
        assert(text =~= seq![text[0]] + rest);
    }
}

proof fn lemma_replaced_len(text: Seq<char>, owner: Seq<char>)
    ensures
        replaced(text, owner, seq!['@']).len() <= text.len(),
    decreases text.len(),
{
    if text.len() > 0 && owner.len() > 0 {
        if begins_with(text, owner) {
            lemma_replaced_len(text.skip(owner.len() as int), owner);
        } else {
            lemma_replaced_len(text.skip(1), owner);
        }
    }
}

/// The short form of a name is no longer than the name, and the owner does not stand in it.
pub proof fn law_short_name(owner: Seq<char>, name: Seq<char>)
    requires
        owner.len() > 0,
        forall|k: int| 0 <= k < owner.len() ==> #[trigger] owner[k] != '@',
    ensures
        shortened(owner, name).len() <= name.len(),
        is_absent(shortened(owner, name), owner),
{
    reveal_strlit("@.github.io");
    let text = marked(owner, name);
    let short = shortened(owner, name);
    lemma_replaced_len(name, owner);
    assert forall|i: int| !#[trigger] stands_at(short, owner, i) by {
        lemma_owner_gone(name, owner, i);
        if short != text && stands_at(short, owner, i) {
            assert(short.subrange(i, i + owner.len())[0] == owner[0]);
            assert(short[i] == '@');
        }
    }
}

/// A name in which neither the owner stands nor a `@` is stored as it is.
pub proof fn law_other_name(owner: Seq<char>, name: Seq<char>)
    requires
        is_absent(name, owner),
        forall|k: int| 0 <= k < name.len() ==> #[trigger] name[k] != '@',
    ensures
        shortened(owner, name) == name,
{
    reveal_strlit("@.github.io");
    lemma_absent_stays(name, owner, seq!['@']);
    let at = seq!['@'];
    assert(at[0] == '@' && "@.github.io"@[0] == '@');
    if name == at || name == "@.github.io"@ {
        assert(name[0] != '@');
    }
}

/// A name that is its owner is stored as nothing, and the name of the owner's site as one mark,
/// where the owner does not stand in the rest of it.
pub proof fn law_common_names(owner: Seq<char>)
    requires
        owner.len() > 0,
    ensures
        shortened(owner, owner) == Seq::<char>::empty(),
        is_absent(".github.io"@, owner) ==> shortened(owner, owner + ".github.io"@) == seq!['@'],
{
    reveal_strlit("@.github.io");
    reveal_strlit(".github.io");
    let n = owner.len() as int;
    assert(owner.take(n) =~= owner);
    assert(owner.skip(n) =~= Seq::empty());
    assert(replaced(owner.skip(n), owner, seq!['@']) =~= Seq::empty());
    assert(marked(owner, owner) =~= seq!['@']);
    let end = ".github.io"@;
    let site = owner + end;
    if is_absent(end, owner) {
        assert(site.take(n) =~= owner);
        assert(site.skip(n) =~= end);
        lemma_absent_stays(end, owner, seq!['@']);
        assert(marked(owner, site) =~= "@.github.io"@);
        assert("@.github.io"@.len() == 11);
        assert(seq!['@'].len() == 1);
    }
}

/// A short name stands for the name with its owner in place of every `@`. Nothing stands for the
/// owner itself, and one mark alone for the name of the owner's site.
pub proof fn law_restored_names(owner: Seq<char>)
    ensures
        restored(owner, Seq::empty()) == owner,
        restored(owner, seq!['@']) == owner + ".github.io"@,
{
    reveal_strlit("@.github.io");
    reveal_strlit(".github.io");
    let at = seq!['@'];
    let end = ".github.io"@;
    assert(at.take(1) =~= at);
    assert(at.skip(1) =~= Seq::empty());
    assert(replaced(at.skip(1), at, owner) =~= Seq::empty());
    assert(replaced(at, at, owner) =~= owner);
    let site = "@.github.io"@;
    assert(site.take(1) =~= at);
    assert(site.skip(1) =~= end);
    assert forall|i: int| !#[trigger] stands_at(end, at, i) by {
        if stands_at(end, at, i) {
            assert(end.subrange(i, i + 1)[0] == at[0]);
        }
    }
    lemma_absent_stays(end, at, owner);
    assert(at != Seq::<char>::empty()) by {
        assert(at.len() == 1);
    }
}

/// A text up to the first place where `from` stands stays, `to` comes in its place, and so on
/// behind it.
pub proof fn law_replaced_first(text: Seq<char>, from: Seq<char>, to: Seq<char>, i: int)
    requires
        from.len() > 0,
        stands_at(text, from, i),
        forall|j: int| 0 <= j < i ==> !#[trigger] stands_at(text, from, j),
    ensures
        replaced(text, from, to) == text.take(i) + to + replaced(
            text.skip(i + from.len()),
            from,
            to,
        ),
    decreases i,
{
    let n = from.len() as int;
    let end = replaced(text.skip(i + n), from, to);
    if i == 0 {
        assert(text.subrange(0, n) =~= text.take(n));
        assert(text.take(0) + to + end =~= to + end);
    } else {
        if begins_with(text, from) {
            assert(text.subrange(0, n) =~= text.take(n));
            assert(stands_at(text, from, 0));
        }
        let rest = text.skip(1);
        assert(rest.subrange(i - 1, i - 1 + n) =~= text.subrange(i, i + n));
        assert forall|j: int| 0 <= j < i - 1 implies !#[trigger] stands_at(rest, from, j) by {
            if stands_at(rest, from, j) {
                assert(rest.subrange(j, j + n) =~= text.subrange(j + 1, j + 1 + n));
                assert(stands_at(text, from, j + 1));
            }
        }
        law_replaced_first(rest, from, to, i - 1);
        assert(rest.skip(i - 1 + n) =~= text.skip(i + n));
        assert(seq![text[0]] + (rest.take(i - 1) + to + end) =~= text.take(i) + to + end);
    }
}

/// A text in which `from` stands nowhere stays as it is.
pub proof fn law_replaced_absent(text: Seq<char>, from: Seq<char>, to: Seq<char>)
    requires
        is_absent(text, from),
    ensures
        replaced(text, from, to) == text,
{
    lemma_absent_stays(text, from, to);
}

/// A name has an owner where there is a slash in it. The owner ends at the first slash, and the
/// rest begins behind it.
pub proof fn law_split(full: Seq<char>)
    ensures
        has_owner(full) <==> full.contains('/'),
        has_owner(full) ==> {
            &&& !owner_of(full).contains('/')
            &&& owner_of(full).len() + 1 + name_of(full).len() == full.len()
            &&& full == owner_of(full) + seq!['/'] + name_of(full)
        },
{
    let n = first_at(full, '/');
    lemma_first_at(full, '/');
    if full.contains('/') {
        let i = choose|i: int| 0 <= i < full.len() && full[i] == '/';
        assert(!(i < n));
    }
    if has_owner(full) {
        assert(full[n] == '/');
        let owner = owner_of(full);
        if owner.contains('/') {
            let i = choose|i: int| 0 <= i < owner.len() && owner[i] == '/';
            assert(full[i] == '/');
        }
        assert(full =~= owner + seq!['/'] + name_of(full));
    }
}

} // verus!
