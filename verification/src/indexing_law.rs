//! What the arrays hold: differences to what came before, and every repository and owner once.

use vstd::prelude::*;
use crate::arrays::Arrays;
use crate::binary::signed;
use crate::clock::utc_seconds;
use crate::codec_law::{is_indexable, lemma_extends, lemma_indexable};
use crate::decimal::parsed;
use crate::errors::EncodeError;
use crate::events::{lemma_number_of_type, name_of_type, number_of_type, Event};
use crate::indexing::{
    arrays_of, base_time, indexed, lemma_indexed_stops, lemma_indexed_wf, times_of, Indexed,
};
use crate::interner::{lemma_position, position_of};
use crate::names::{has_owner, name_of, owner_of, shortened};
use crate::text::{first_at, lemma_first_at};

verus! {

/// The number of the event `i`, or zero before the first.
pub open spec fn id_at(events: Seq<Event>, i: int) -> int {
    if 0 <= i < events.len() {
        parsed(events[i].id)->Ok_0 as int
    } else {
        0
    }
}

/// The time of the event `i`.
pub open spec fn time_at(events: Seq<Event>, i: int) -> int {
    utc_seconds(events[i].created_at)->0 as int
}

/// The later of the times of the two events before `i`, that of the first event for the second, and
/// zero for the first.
pub open spec fn later_before(events: Seq<Event>, i: int) -> int {
    if i <= 0 {
        0
    } else if i == 1 || time_at(events, i - 1) > time_at(events, i - 2) {
        time_at(events, i - 1)
    } else {
        time_at(events, i - 2)
    }
}

/// Two events have the same repository.
pub open spec fn same_repo(a: Event, b: Event) -> bool {
    a.repo_id == b.repo_id && a.repo_name == b.repo_name
}

/// One of the first `n` events has the repository of `event`.
pub open spec fn repo_came(events: Seq<Event>, n: int, event: Event) -> bool {
    exists|j: int| 0 <= j < n && same_repo(#[trigger] events[j], event)
}

/// The repository of one of the first `n` events has this owner.
pub open spec fn owner_came(events: Seq<Event>, n: int, owner: Seq<char>) -> bool {
    exists|j: int| 0 <= j < n && owner_of((#[trigger] events[j]).repo_name) == owner
}

/// The repositories and owners that are known after the first `n` events: those of the events, each
/// once.
spec fn lists(x: Indexed, events: Seq<Event>, n: int) -> bool {
    &&& x.repos.no_duplicates()
    &&& x.owners.no_duplicates()
    &&& forall|k: int|
        0 <= k < x.repos.len() ==> exists|j: int|
            0 <= j < n && (events[j].repo_id, (#[trigger] events[j]).repo_name)
                == #[trigger] x.repos[k]
    &&& forall|k: int|
        0 <= k < x.owners.len() ==> owner_came(events, n, #[trigger] x.owners[k])
    &&& forall|j: int|
        0 <= j < n ==> x.repos.contains(((#[trigger] events[j]).repo_id, events[j].repo_name))
    &&& forall|j: int| 0 <= j < n ==> x.owners.contains(owner_of((#[trigger] events[j]).repo_name))
    &&& forall|j: int| 0 <= j < n ==> has_owner((#[trigger] events[j]).repo_name)
    &&& x.repos.len() <= n
    &&& x.owners.len() <= n
    &&& x.repo_ids.len() == x.repos.len()
    &&& x.names.len() == x.repos.len()
    &&& forall|k: int|
        0 <= k < x.repos.len() ==> {
            let repo = #[trigger] x.repos[k];
            &&& x.repo_ids[k] == repo.0
            &&& x.names[k] == shortened(owner_of(repo.1), name_of(repo.1))
        }
}

proof fn lemma_push_unique<T>(s: Seq<T>, x: T)
    requires
        s.no_duplicates(),
        !s.contains(x),
    ensures
        s.push(x).no_duplicates(),
{
    let t = s.push(x);
    assert forall|i: int, j: int| 0 <= i < t.len() && 0 <= j < t.len() && i != j implies t[i]
        != t[j] by {
        if i < s.len() && j == s.len() {
            assert(s.contains(s[i]));
        } else if j < s.len() && i == s.len() {
            assert(s.contains(s[j]));
        }
    }
}

proof fn lemma_push_contains<T>(s: Seq<T>, x: T, y: T)
    ensures
        s.contains(y) ==> s.push(x).contains(y),
        s.push(x).contains(x),
{
    if s.contains(y) {
        let i = choose|i: int| 0 <= i < s.len() && s[i] == y;
        assert(s.push(x)[i] == y);
    }
    assert(s.push(x)[s.len() as int] == x);
}

/// What one more event adds.
proof fn lemma_repo_listed(events: Seq<Event>, n: int, x: Indexed, next: Indexed)
    requires
        0 <= n < events.len(),
        lists(x, events, n),
        x.with_repo(events[n].repo_id, events[n].repo_name) == Ok::<_, EncodeError>(next),
    ensures
        lists(next, events, n + 1),
        ({
            let event = events[n];
            let owner = owner_of(event.repo_name);
            let b = next.backrefs.last();
            let small = n <= 0x7fff_fffe;
            &&& repo_came(events, n, event) <==> x.repos.contains((event.repo_id, event.repo_name))
            &&& owner_came(events, n, owner) <==> x.owners.contains(owner)
            &&& next.backrefs.len() == x.backrefs.len() + 1
            &&& repo_came(events, n, event) && small ==> {
                &&& b > 0 && b % 2 == 0 && b / 2 - 1 < x.repos.len()
                &&& x.repos[b / 2 - 1] == (event.repo_id, event.repo_name)
            }
            &&& repo_came(events, n, event) ==> next.repos == x.repos
            &&& repo_came(events, n, event) || owner_came(events, n, owner) ==> next.owners
                == x.owners
            &&& !repo_came(events, n, event) ==> next.repos == x.repos.push(
                (event.repo_id, event.repo_name),
            )
            &&& !repo_came(events, n, event) && owner_came(events, n, owner) && small ==> {
                &&& b % 2 == 1 && b / 2 < x.owners.len()
                &&& x.owners[b as int / 2] == owner
            }
            &&& !repo_came(events, n, event) && !owner_came(events, n, owner) ==> {
                &&& b == 0
                &&& next.owners == x.owners.push(owner)
            }
        }),
{
    let event = events[n];
    let key = (event.repo_id, event.repo_name);
    let owner = owner_of(event.repo_name);
    lemma_position(x.repos, key);
    lemma_position(x.owners, owner);
    if x.repos.contains(key) {
        let k = choose|k: int| 0 <= k < x.repos.len() && x.repos[k] == key;
        let j = choose|j: int|
            0 <= j < n && (events[j].repo_id, (#[trigger] events[j]).repo_name) == x.repos[k];
        assert(same_repo(events[j], event));
        assert(x.owners.contains(owner_of(events[j].repo_name)));
        assert(has_owner(events[j].repo_name));
    }
    if repo_came(events, n, event) {
        let j = choose|j: int| 0 <= j < n && same_repo(#[trigger] events[j], event);
        assert(x.repos.contains((events[j].repo_id, events[j].repo_name)));
    }
    if x.owners.contains(owner) {
        let k = choose|k: int| 0 <= k < x.owners.len() && x.owners[k] == owner;
        assert(owner_came(events, n, x.owners[k]));
    }
    if owner_came(events, n, owner) {
        let j = choose|j: int| 0 <= j < n && owner_of((#[trigger] events[j]).repo_name) == owner;
        assert(x.owners.contains(owner_of(events[j].repo_name)));
    }
    if !x.repos.contains(key) {
        lemma_push_unique(x.repos, key);
    }
    if !x.owners.contains(owner) {
        lemma_push_unique(x.owners, owner);
    }
    assert forall|k: int| 0 <= k < next.repos.len() implies exists|j: int|
        0 <= j < n + 1 && (events[j].repo_id, (#[trigger] events[j]).repo_name)
            == #[trigger] next.repos[k] by {
        if k < x.repos.len() {
            assert(next.repos[k] == x.repos[k]);
            let j = choose|j: int|
                0 <= j < n && (events[j].repo_id, (#[trigger] events[j]).repo_name) == x.repos[k];
            assert((events[j].repo_id, events[j].repo_name) == next.repos[k]);
        } else {
            assert((events[n].repo_id, events[n].repo_name) == next.repos[k]);
        }
    }
    assert forall|k: int| 0 <= k < next.owners.len() implies owner_came(
        events,
        n + 1,
        #[trigger] next.owners[k],
    ) by {
        if k < x.owners.len() {
            assert(next.owners[k] == x.owners[k]);
            assert(owner_came(events, n, x.owners[k]));
            let j = choose|j: int|
                0 <= j < n && owner_of((#[trigger] events[j]).repo_name) == x.owners[k];
            assert(owner_of(events[j].repo_name) == next.owners[k]);
        } else {
            assert(owner_of(events[n].repo_name) == next.owners[k]);
        }
    }
    assert forall|j: int| 0 <= j < n + 1 implies next.repos.contains(
        ((#[trigger] events[j]).repo_id, events[j].repo_name),
    ) by {
        if j < n {
            assert(x.repos.contains((events[j].repo_id, events[j].repo_name)));
        }
        lemma_push_contains(x.repos, key, (events[j].repo_id, events[j].repo_name));
    }
    assert forall|j: int| 0 <= j < n + 1 implies next.owners.contains(
        owner_of((#[trigger] events[j]).repo_name),
    ) by {
        if j < n {
            assert(x.owners.contains(owner_of(events[j].repo_name)));
        }
        lemma_push_contains(x.owners, owner, owner_of(events[j].repo_name));
    }
    assert forall|k: int| 0 <= k < next.repos.len() implies {
        let repo = #[trigger] next.repos[k];
        &&& next.repo_ids[k] == repo.0
        &&& next.names[k] == shortened(owner_of(repo.1), name_of(repo.1))
    } by {
        if k < x.repos.len() {
            assert(next.repos[k] == x.repos[k]);
        }
    }
}

/// What is known with the number and the type of one more event, but before its repository.
spec fn begun(x: Indexed, event: Event) -> Indexed {
    let id = parsed(event.id)->Ok_0;
    Indexed {
        prev_id: id,
        id_deltas: x.id_deltas.push(signed(id).wrapping_sub(signed(x.prev_id))),
        types: x.types.push(number_of_type(event.event_type)->0),
        ..x
    }
}

proof fn lemma_listed(events: Seq<Event>, n: int)
    requires
        0 <= n <= events.len(),
        indexed(events, n) is Ok,
    ensures
        lists(indexed(events, n)->Ok_0, events, n),
        indexed(events, n)->Ok_0.prev_id == id_at(events, n - 1),
    decreases n,
{
    if n > 0 {
        lemma_listed(events, n - 1);
        let x = indexed(events, n - 1)->Ok_0;
        lemma_repo_listed(events, n - 1, begun(x, events[n - 1]), indexed(events, n)->Ok_0);
    }
}

proof fn lemma_difference(id: u64, prev: u64)
    ensures
        (signed(id).wrapping_sub(signed(prev)) - (id - prev)) % 0x1_0000_0000_0000_0000 == 0,
{
    let t = signed(id).wrapping_sub(signed(prev)) - (id - prev);
    let m: int = 0x1_0000_0000_0000_0000;
    assert(t == 0 || t == m || t == -m || t == 2 * m || t == -2 * m);
}

proof fn lemma_time_difference(x: i64, y: i64)
    ensures
        (x.wrapping_sub(y) - (x - y)) % 0x1_0000_0000_0000_0000 == 0,
{
    let t = x.wrapping_sub(y) - (x - y);
    let m: int = 0x1_0000_0000_0000_0000;
    assert(t == 0 || t == m || t == -m);
}

/// The differences in the arrays: of the number of an event to that of the event before it, and of
/// its time to the later of the two before it, each up to multiples of 2^64. The type is that of
/// the event.
pub proof fn law_differences(events: Seq<Event>, a: Arrays, i: int)
    requires
        arrays_of(events) == Ok::<_, EncodeError>(a),
        0 <= i < events.len(),
    ensures
        a.id_deltas.len() == events.len(),
        a.ts_deltas.len() == events.len(),
        a.types.len() == events.len(),
        a.backrefs.len() == events.len(),
        (a.id_deltas[i] - (id_at(events, i) - id_at(events, i - 1))) % 0x1_0000_0000_0000_0000 == 0,
        (a.ts_deltas[i] - (time_at(events, i) - later_before(events, i)))
            % 0x1_0000_0000_0000_0000 == 0,
        a.types[i] < 16,
        name_of_type(a.types[i] as int) == events[i].event_type,
{
    let n = events.len() as int;
    lemma_indexed_wf(events, n);
    lemma_extends(events, i, n);
    lemma_extends(events, i + 1, n);
    lemma_indexed_wf(events, i);
    lemma_listed(events, i);
    let all = indexed(events, n)->Ok_0;
    let x = indexed(events, i)->Ok_0;
    let next = indexed(events, i + 1)->Ok_0;
    assert(next.id_deltas[i] == all.id_deltas.subrange(0, next.id_deltas.len() as int)[i]);
    assert(next.types[i] == all.types.subrange(0, next.types.len() as int)[i]);
    lemma_difference(parsed(events[i].id)->Ok_0, x.prev_id);
    lemma_number_of_type(events[i].event_type);
    let times = times_of(events);
    lemma_time_difference(times[i], base_time(times, i));
    assert(base_time(times, i) == later_before(events, i));
}

/// How many repositories there are among the first `n` events.
pub open spec fn repos_before(events: Seq<Event>, n: int) -> int
    decreases n,
{
    if n <= 0 {
        0
    } else if repo_came(events, n - 1, events[n - 1]) {
        repos_before(events, n - 1)
    } else {
        repos_before(events, n - 1) + 1
    }
}

/// How many owners there are among the first `n` events.
pub open spec fn owners_before(events: Seq<Event>, n: int) -> int
    decreases n,
{
    if n <= 0 {
        0
    } else if owner_came(events, n - 1, owner_of(events[n - 1].repo_name)) {
        owners_before(events, n - 1)
    } else {
        owners_before(events, n - 1) + 1
    }
}

proof fn lemma_list_sizes(events: Seq<Event>, n: int)
    requires
        0 <= n <= events.len(),
        indexed(events, n) is Ok,
    ensures
        indexed(events, n)->Ok_0.repos.len() == repos_before(events, n),
        indexed(events, n)->Ok_0.owners.len() == owners_before(events, n),
    decreases n,
{
    if n > 0 {
        lemma_list_sizes(events, n - 1);
        lemma_listed(events, n - 1);
        let x = indexed(events, n - 1)->Ok_0;
        let event = events[n - 1];
        lemma_repo_listed(events, n - 1, begun(x, event), indexed(events, n)->Ok_0);
        if repo_came(events, n - 1, event) {
            let j = choose|j: int| 0 <= j < n - 1 && same_repo(#[trigger] events[j], event);
            assert(owner_of(events[j].repo_name) == owner_of(event.repo_name));
            lemma_position(x.repos, (event.repo_id, event.repo_name));
        }
    }
}

/// The references in the arrays, and what is listed. A repository is listed when it comes first,
/// and so is an owner: there are as many as differ. An event whose repository came refers to it by
/// its place among them. One whose owner came refers to the owner, and only the others to neither.
pub proof fn law_references(events: Seq<Event>, a: Arrays, i: int)
    requires
        arrays_of(events) == Ok::<_, EncodeError>(a),
        events.len() <= 0x7fff_ffff,
        0 <= i < events.len(),
    ensures
        a.repo_ids.len() == repos_before(events, events.len() as int),
        a.names.len() == a.repo_ids.len(),
        a.owners.len() == owners_before(events, events.len() as int),
        a.owners.no_duplicates(),
        ({
            let event = events[i];
            let owner = owner_of(event.repo_name);
            let b = a.backrefs[i];
            let short = shortened(owner, name_of(event.repo_name));
            if repo_came(events, i, event) {
                &&& b > 0 && b % 2 == 0 && b / 2 - 1 < repos_before(events, i)
                &&& a.repo_ids[b / 2 - 1] == event.repo_id
                &&& a.names[b / 2 - 1] == short
            } else {
                let k = repos_before(events, i);
                &&& 0 <= k < a.repo_ids.len()
                &&& a.repo_ids[k] == event.repo_id
                &&& a.names[k] == short
                &&& if owner_came(events, i, owner) {
                    &&& b % 2 == 1 && b / 2 < owners_before(events, i)
                    &&& a.owners[b as int / 2] == owner
                } else {
                    &&& b == 0
                    &&& 0 <= owners_before(events, i) < a.owners.len()
                    &&& a.owners[owners_before(events, i)] == owner
                }
            }
        }),
{
    let n = events.len() as int;
    let event = events[i];
    let owner = owner_of(event.repo_name);
    lemma_extends(events, i, n);
    lemma_extends(events, i + 1, n);
    lemma_indexed_wf(events, n);
    lemma_indexed_wf(events, i);
    lemma_listed(events, i);
    lemma_listed(events, i + 1);
    lemma_listed(events, n);
    lemma_list_sizes(events, i);
    lemma_list_sizes(events, n);
    let all = indexed(events, n)->Ok_0;
    let x = indexed(events, i)->Ok_0;
    let next = indexed(events, i + 1)->Ok_0;
    lemma_repo_listed(events, i, begun(x, event), next);
    assert(next.backrefs[i] == all.backrefs.subrange(0, next.backrefs.len() as int)[i]);
    let b = next.backrefs.last();
    if repo_came(events, i, event) {
        lemma_in_prefix(x.repos, all.repos, b / 2 - 1);
        assert(all.repos[b / 2 - 1] == (event.repo_id, event.repo_name));
    } else {
        let k = x.repos.len() as int;
        lemma_in_prefix(next.repos, all.repos, k);
        assert(all.repos[k] == (event.repo_id, event.repo_name));
        if owner_came(events, i, owner) {
            lemma_in_prefix(x.owners, all.owners, b as int / 2);
        } else {
            lemma_in_prefix(next.owners, all.owners, x.owners.len() as int);
        }
    }
}

proof fn lemma_in_prefix<T>(a: Seq<T>, b: Seq<T>, k: int)
    requires
        a.is_prefix_of(b),
        0 <= k < a.len(),
    ensures
        k < b.len(),
        b[k] == a[k],
{
    assert(a[k] == b.subrange(0, a.len() as int)[k]);
}

/// Why an event cannot be encoded: its number is none, its type is not known, the number of its
/// repository is too large, or the name of its repository has no owner. The first of these counts.
pub open spec fn flaw_of(event: Event) -> Option<EncodeError> {
    match parsed(event.id) {
        Err(e) => Some(EncodeError::InvalidId(e)),
        Ok(_) => if forall|i: int| 0 <= i < 16 ==> #[trigger] name_of_type(i) != event.event_type {
            Some(EncodeError::UnknownEventType)
        } else if event.repo_id > u32::MAX {
            Some(EncodeError::RepoIdTooLarge)
        } else if !event.repo_name.contains('/') {
            Some(EncodeError::InvalidRepoName)
        } else {
            None
        },
    }
}

/// A time that is none counts before anything else.
pub proof fn law_time_error(events: Seq<Event>, k: int)
    requires
        0 <= k < events.len(),
        utc_seconds(events[k].created_at) is None,
    ensures
        arrays_of(events) == Err::<Arrays, _>(EncodeError::InvalidTimestamp),
{
}

proof fn lemma_owner_is_slash(name: Seq<char>)
    ensures
        has_owner(name) <==> name.contains('/'),
{
    lemma_first_at(name, '/');
    if name.contains('/') {
        let i = choose|i: int| 0 <= i < name.len() && name[i] == '/';
        assert(!(i < first_at(name, '/')));
    } else if has_owner(name) {
        assert(name[first_at(name, '/')] == '/');
    }
}

proof fn lemma_unknown(name: Seq<char>)
    ensures
        number_of_type(name) is None <==> forall|i: int|
            0 <= i < 16 ==> #[trigger] name_of_type(i) != name,
{
}

/// Where all events have times, the first event with a flaw decides, and its first flaw. Without a
/// flaw, events can be encoded.
pub proof fn law_first_flaw(events: Seq<Event>, k: int)
    requires
        forall|i: int|
            0 <= i < events.len() ==> utc_seconds(#[trigger] events[i].created_at) is Some,
        0 <= k <= events.len(),
        forall|i: int| 0 <= i < k ==> flaw_of(#[trigger] events[i]) is None,
    ensures
        k < events.len() && flaw_of(events[k]) is Some ==> arrays_of(events) == Err::<Arrays, _>(
            flaw_of(events[k])->0,
        ),
        k == events.len() ==> arrays_of(events) is Ok,
{
    let n = events.len() as int;
    assert forall|i: int| 0 <= i < k implies is_indexable(#[trigger] events[i]) by {
        assert(flaw_of(events[i]) is None);
        lemma_owner_is_slash(events[i].repo_name);
        lemma_unknown(events[i].event_type);
    }
    lemma_indexable(events, k);
    if k < n && flaw_of(events[k]) is Some {
        let event = events[k];
        let x = indexed(events, k)->Ok_0;
        lemma_owner_is_slash(event.repo_name);
        lemma_unknown(event.event_type);
        let key = (event.repo_id, event.repo_name);
        lemma_position(x.repos, key);
        if let Some(j) = position_of(x.repos, key) {
            assert(x.repos[j].0 <= u32::MAX && has_owner(x.repos[j].1));
        }
        assert(indexed(events, k + 1) == Err::<Indexed, _>(flaw_of(event)->0));
        lemma_indexed_stops(events, k + 1, n);
    }
}

} // verus!
