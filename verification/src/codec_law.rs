//! Decoding gives back what was encoded.

use vstd::prelude::*;
use crate::arrays::{new_owners, Arrays};
use crate::binary::{law_signed, signed};
use crate::case::law_ascii_case;
use crate::clock::{utc_seconds, utc_text};
use crate::codec::{decoded, encoded};
use crate::decimal::{decimal, parsed};
use crate::errors::{DecodeError, EncodeError};
use crate::events::{lemma_number_of_type, number_of_type, Event};
use crate::indexing::{
    arrays_of, base_time, has_writable_time, indexed, lemma_indexed_wf, time_deltas, times_of,
    Indexed,
};
use crate::interner::{lemma_position, position_of};
use crate::names::{
    has_owner, has_stray_mark, law_full_name, law_name_restored, marked, name_of, owner_of,
    restored, shortened,
};
use crate::order::{
    in_order, key_before, law_in_order, law_order_kept, lemma_from_events, lemma_in_order_len,
    lemma_same_events,
};
use crate::rebuilding::{events_in, rebuilt, time_texts, times_from, url_of, Rebuilt};
use crate::sections::payload;
use crate::sections_law::{is_storable, law_payload_roundtrip, law_payload_size};
use crate::text::{begins_with, first_at, lemma_first_at};
use crate::unicode::is_ascii_char;
use crate::zpaq::compress::law_compress_roundtrip;

verus! {

/// The name of a repository comes back from its shortened form.
pub open spec fn is_restored(name: Seq<char>) -> bool {
    let owner = owner_of(name);
    restored(owner, shortened(owner, name_of(name))) == name_of(name)
}

/// The name of a repository can be stored, and comes back from its shortened form.
pub open spec fn is_recoverable(name: Seq<char>) -> bool {
    let owner = owner_of(name);
    &&& is_storable(owner)
    &&& is_storable(shortened(owner, name_of(name)))
    &&& is_restored(name)
}

/// An event in its usual form: its number without leading zeros or a sign, its time in UTC to the
/// second, and the address of its repository by its name.
pub open spec fn usual(event: Event) -> Event {
    Event {
        id: decimal(parsed(event.id)->Ok_0 as int),
        repo_url: url_of(event.repo_name),
        created_at: utc_text(utc_seconds(event.created_at)->0)->0,
        ..event
    }
}

/// Events in their usual form.
pub open spec fn all_usual(events: Seq<Event>) -> Seq<Event> {
    Seq::new(events.len(), |i: int| usual(events[i]))
}

/// A difference that was taken in 64 bits leads back.
proof fn lemma_wrapped(x: i64, y: i64)
    ensures
        x.wrapping_add(y.wrapping_sub(x)) == y,
{
}

/// Times come back from their differences.
pub proof fn law_times_roundtrip(times: Seq<i64>, n: int)
    requires
        0 <= n <= times.len(),
    ensures
        times_from(time_deltas(times), n) == times.take(n),
    decreases n,
{
    if n > 0 {
        law_times_roundtrip(times, n - 1);
        let before = times.take(n - 1);
        assert(base_time(before, n - 1) == base_time(times, n - 1));
        lemma_wrapped(base_time(times, n - 1), times[n - 1]);
        assert(times.take(n) =~= before.push(times[n - 1]));
    }
}

/// All that was known is still known.
pub open spec fn extends(all: Indexed, x: Indexed) -> bool {
    &&& x.id_deltas.is_prefix_of(all.id_deltas)
    &&& x.types.is_prefix_of(all.types)
    &&& x.backrefs.is_prefix_of(all.backrefs)
    &&& x.repos.is_prefix_of(all.repos)
    &&& x.repo_ids.is_prefix_of(all.repo_ids)
    &&& x.owners.is_prefix_of(all.owners)
    &&& x.names.is_prefix_of(all.names)
}

proof fn lemma_prefix_step<T>(a: Seq<T>, x: T, b: Seq<T>)
    requires
        a.push(x).is_prefix_of(b),
    ensures
        a.is_prefix_of(b),
        a.len() < b.len(),
        b[a.len() as int] == x,
{
    assert(a.push(x)[a.len() as int] == x);
    assert forall|i: int| 0 <= i < a.len() implies a[i] == b[i] by {
        assert(a.push(x)[i] == a[i]);
    }
    assert(a =~= b.subrange(0, a.len() as int));
}

/// Events that can all be encoded are encoded one by one, and nothing is lost.
pub proof fn lemma_extends(events: Seq<Event>, n: int, m: int)
    requires
        0 <= n <= m,
        indexed(events, m) is Ok,
    ensures
        indexed(events, n) is Ok,
        extends(indexed(events, m)->Ok_0, indexed(events, n)->Ok_0),
    decreases m - n,
{
    let all = indexed(events, m)->Ok_0;
    if n == m {
        lemma_extends_self(all);
    } else {
        lemma_extends(events, n + 1, m);
        let x = indexed(events, n)->Ok_0;
        let next = indexed(events, n + 1)->Ok_0;
        lemma_step_extends(x, events[n], next, all);
    }
}

proof fn lemma_extends_self(x: Indexed)
    ensures
        extends(x, x),
{
    assert(x.id_deltas =~= x.id_deltas.subrange(0, x.id_deltas.len() as int));
    assert(x.types =~= x.types.subrange(0, x.types.len() as int));
    assert(x.backrefs =~= x.backrefs.subrange(0, x.backrefs.len() as int));
    assert(x.repos =~= x.repos.subrange(0, x.repos.len() as int));
    assert(x.repo_ids =~= x.repo_ids.subrange(0, x.repo_ids.len() as int));
    assert(x.owners =~= x.owners.subrange(0, x.owners.len() as int));
    assert(x.names =~= x.names.subrange(0, x.names.len() as int));
}

/// One more event leaves what was known as it was.
proof fn lemma_step_extends(x: Indexed, event: Event, next: Indexed, all: Indexed)
    requires
        x.with_event(event) == Ok::<_, EncodeError>(next),
        extends(all, next),
    ensures
        extends(all, x),
{
    lemma_prefix_step(x.id_deltas, next.id_deltas.last(), all.id_deltas);
    lemma_prefix_step(x.types, next.types.last(), all.types);
    lemma_prefix_step(x.backrefs, next.backrefs.last(), all.backrefs);
    if next.repos != x.repos {
        lemma_prefix_step(x.repos, next.repos.last(), all.repos);
        lemma_prefix_step(x.repo_ids, next.repo_ids.last(), all.repo_ids);
        lemma_prefix_step(x.names, next.names.last(), all.names);
    }
    if next.owners != x.owners {
        lemma_prefix_step(x.owners, next.owners.last(), all.owners);
    }
}

/// What the decoder has rebuilt where the encoder knew `x` after the events.
spec fn follows(x: Indexed, events: Seq<Event>) -> Rebuilt {
    Rebuilt {
        prev_id: x.prev_id,
        repos: x.repos,
        owners: x.owners.len() as int,
        events: all_usual(events),
    }
}

/// The decoder finds the repository of an event.
proof fn lemma_repo_found(x: Indexed, event: Event, next: Indexed, a: Arrays, r: Rebuilt)
    requires
        x.with_repo(event.repo_id, event.repo_name) == Ok::<_, EncodeError>(next),
        x.repos.len() == x.repo_ids.len(),
        x.names.len() == x.repo_ids.len(),
        x.repos.len() < 0x7fff_ffff,
        x.owners.len() < 0x7fff_ffff,
        is_restored(event.repo_name),
        next.repo_ids.is_prefix_of(a.repo_ids),
        next.names.is_prefix_of(a.names),
        next.owners.is_prefix_of(a.owners),
        r.repos == x.repos,
        r.owners == x.owners.len(),
        r.events.len() < a.backrefs.len(),
        a.backrefs[r.events.len() as int] == next.backrefs.last(),
    ensures
        r.with_repo(a) == Ok::<_, DecodeError>(
            (
                Rebuilt { repos: next.repos, owners: next.owners.len() as int, ..r },
                (event.repo_id, event.repo_name),
            ),
        ),
{
    let key = (event.repo_id, event.repo_name);
    let owner = owner_of(event.repo_name);
    lemma_position(x.repos, key);
    lemma_position(x.owners, owner);
    if position_of(x.repos, key) is None {
        let m = x.repos.len() as int;
        lemma_prefix_step(x.repo_ids, next.repo_ids.last(), a.repo_ids);
        lemma_prefix_step(x.names, next.names.last(), a.names);
        law_full_name(event.repo_name);
        assert(a.repo_ids[m] as u64 == event.repo_id);
        let made = r.with_new_repo(a, owner);
        assert(made.repos == x.repos.push(key));
        match position_of(x.owners, owner) {
            Some(n) => {
                assert(next.owners[n] == a.owners[n]);
            },
            None => {
                lemma_prefix_step(x.owners, owner, a.owners);
            },
        }
    }
}

/// The decoder rebuilds an event.
proof fn lemma_event_found(
    x: Indexed,
    event: Event,
    next: Indexed,
    a: Arrays,
    before: Seq<Event>,
)
    requires
        x.with_event(event) == Ok::<_, EncodeError>(next),
        x.repos.len() == x.repo_ids.len(),
        x.names.len() == x.repo_ids.len(),
        x.repos.len() < 0x7fff_ffff,
        x.owners.len() < 0x7fff_ffff,
        x.id_deltas.len() == before.len(),
        x.types.len() == before.len(),
        x.backrefs.len() == before.len(),
        is_restored(event.repo_name),
        has_writable_time(event),
        next.id_deltas.is_prefix_of(a.id_deltas),
        next.types.is_prefix_of(a.types),
        next.backrefs.is_prefix_of(a.backrefs),
        next.repo_ids.is_prefix_of(a.repo_ids),
        next.names.is_prefix_of(a.names),
        next.owners.is_prefix_of(a.owners),
    ensures
        follows(x, before).with_event(a, utc_text(utc_seconds(event.created_at)->0)) == Ok::<
            _,
            DecodeError,
        >(follows(next, before.push(event))),
{
    let r = follows(x, before);
    let id = parsed(event.id)->Ok_0;
    lemma_prefix_step(x.id_deltas, next.id_deltas.last(), a.id_deltas);
    lemma_prefix_step(x.types, next.types.last(), a.types);
    lemma_prefix_step(x.backrefs, next.backrefs.last(), a.backrefs);
    lemma_wrapped(signed(x.prev_id), signed(id));
    law_signed(id);
    lemma_number_of_type(event.event_type);
    let started = Indexed {
        prev_id: id,
        id_deltas: x.id_deltas.push(signed(id).wrapping_sub(signed(x.prev_id))),
        types: x.types.push(number_of_type(event.event_type)->0),
        ..x
    };
    lemma_repo_found(started, event, next, a, r);
    assert(all_usual(before.push(event)) =~= all_usual(before).push(usual(event)));
}

/// The numbers of repositories and owners are those of events at most.
proof fn lemma_counts(events: Seq<Event>, n: int)
    requires
        0 <= n <= events.len(),
    ensures
        match indexed(events, n) {
            Ok(x) => x.repos.len() <= n && x.owners.len() <= n,
            Err(_) => true,
        },
    decreases n,
{
    if n > 0 {
        lemma_counts(events, n - 1);
    }
}

/// The decoder rebuilds the first events.
proof fn lemma_events_found(events: Seq<Event>, a: Arrays, n: int)
    requires
        0 <= n <= events.len(),
        events.len() <= 0x7fff_ffff,
        arrays_of(events) == Ok::<_, EncodeError>(a),
        forall|i: int| 0 <= i < events.len() ==> is_restored(#[trigger] events[i].repo_name),
        forall|i: int| 0 <= i < events.len() ==> has_writable_time(#[trigger] events[i]),
    ensures
        rebuilt(a, time_texts(times_of(events)), n) == Ok::<_, DecodeError>(
            follows(indexed(events, n)->Ok_0, events.take(n)),
        ),
    decreases n,
{
    let texts = time_texts(times_of(events));
    lemma_extends(events, n, events.len() as int);
    if n == 0 {
        assert(all_usual(events.take(0)) =~= Seq::empty());
        assert(follows(Indexed::start(), events.take(0)) =~= Rebuilt::start());
    } else {
        let x = indexed(events, n - 1)->Ok_0;
        let next = indexed(events, n)->Ok_0;
        let event = events[n - 1];
        lemma_extends(events, n - 1, events.len() as int);
        lemma_events_found(events, a, n - 1);
        lemma_indexed_wf(events, n - 1);
        lemma_counts(events, n - 1);
        assert(is_restored(event.repo_name) && has_writable_time(event));
        lemma_event_found(x, event, next, a, events.take(n - 1));
        assert(events.take(n - 1).push(event) =~= events.take(n));
        assert(texts[n - 1] == utc_text(utc_seconds(event.created_at)->0));
    }
}

/// Events come back from their arrays, in their usual form.
pub proof fn law_arrays_roundtrip(events: Seq<Event>, a: Arrays)
    requires
        events.len() <= 0x7fff_ffff,
        arrays_of(events) == Ok::<_, EncodeError>(a),
        forall|i: int| 0 <= i < events.len() ==> is_restored(#[trigger] events[i].repo_name),
        forall|i: int| 0 <= i < events.len() ==> has_writable_time(#[trigger] events[i]),
    ensures
        events_in(a) == Ok::<_, DecodeError>(all_usual(events)),
{
    let n = events.len() as int;
    let times = times_of(events);
    lemma_events_found(events, a, n);
    lemma_indexed_wf(events, n);
    law_times_roundtrip(times, n);
    assert(times.take(n) =~= times);
    assert(events.take(n) =~= events);
}

/// The texts of events that can be recovered can be stored, and there is an owner for each
/// reference to a new one.
proof fn lemma_storable(events: Seq<Event>, n: int)
    requires
        0 <= n <= events.len(),
        events.len() <= 0x7fff_ffff,
        indexed(events, n) is Ok,
        forall|i: int| 0 <= i < events.len() ==> is_recoverable(#[trigger] events[i].repo_name),
    ensures
        ({
            let x = indexed(events, n)->Ok_0;
            &&& x.owners.len() == new_owners(x.backrefs, n)
            &&& forall|i: int| 0 <= i < x.owners.len() ==> is_storable(#[trigger] x.owners[i])
            &&& forall|i: int| 0 <= i < x.names.len() ==> is_storable(#[trigger] x.names[i])
        }),
    decreases n,
{
    if n > 0 {
        lemma_extends(events, n - 1, n);
        lemma_storable(events, n - 1);
        lemma_counts(events, n - 1);
        lemma_indexed_wf(events, n - 1);
        let x = indexed(events, n - 1)->Ok_0;
        let next = indexed(events, n)->Ok_0;
        let event = events[n - 1];
        assert(is_recoverable(event.repo_name));
        lemma_position(x.repos, (event.repo_id, event.repo_name));
        lemma_position(x.owners, owner_of(event.repo_name));
        lemma_new_owners_prefix(x.backrefs, next.backrefs, n - 1);
    }
}

/// Later references do not change how many earlier ones are to new owners.
proof fn lemma_new_owners_prefix(a: Seq<u64>, b: Seq<u64>, n: int)
    requires
        0 <= n <= a.len(),
        a.is_prefix_of(b),
    ensures
        new_owners(a, n) == new_owners(b, n),
    decreases n,
{
    if n > 0 {
        lemma_new_owners_prefix(a, b, n - 1);
        assert(a[n - 1] == b.subrange(0, a.len() as int)[n - 1]);
    }
}

/// An event that can be encoded.
pub open spec fn is_encodable(event: Event) -> bool {
    &&& utc_seconds(event.created_at) is Some
    &&& is_indexable(event)
}

/// An event that can be encoded, but for its time.
pub open spec fn is_indexable(event: Event) -> bool {
    &&& parsed(event.id) is Ok
    &&& number_of_type(event.event_type) is Some
    &&& event.repo_id <= u32::MAX
    &&& has_owner(event.repo_name)
}

pub proof fn lemma_indexable(events: Seq<Event>, n: int)
    requires
        0 <= n <= events.len(),
    ensures
        indexed(events, n) is Ok <==> forall|i: int|
            0 <= i < n ==> is_indexable(#[trigger] events[i]),
        match indexed(events, n) {
            Ok(x) => forall|k: int|
                0 <= k < x.repos.len() ==> (#[trigger] x.repos[k]).0 <= u32::MAX && has_owner(
                    x.repos[k].1,
                ),
            Err(_) => true,
        },
    decreases n,
{
    if n > 0 {
        lemma_indexable(events, n - 1);
        let event = events[n - 1];
        if let Ok(x) = indexed(events, n - 1) {
            let key = (event.repo_id, event.repo_name);
            lemma_position(x.repos, key);
            if let Some(k) = position_of(x.repos, key) {
                assert(x.repos[k].0 <= u32::MAX && has_owner(x.repos[k].1));
            }
            if indexed(events, n) is Ok {
                assert(is_indexable(events[n - 1]));
            }
        }
    }
}

/// Events can be encoded just where each of them can be.
pub proof fn law_encodable(events: Seq<Event>)
    ensures
        encoded(events) is Ok <==> forall|i: int|
            0 <= i < events.len() ==> is_encodable(#[trigger] events[i]),
{
    let sorted = in_order(events);
    let n = events.len() as int;
    lemma_in_order_len(events);
    lemma_indexable(sorted, n);
    if encoded(events) is Ok {
        assert forall|i: int| 0 <= i < n implies is_encodable(#[trigger] events[i]) by {
            lemma_same_events(events, i);
            let k = choose|k: int| 0 <= k < n && sorted[k] == events[i];
            assert(utc_seconds(sorted[k].created_at) is Some);
            assert(is_indexable(sorted[k]));
        }
    }
    if forall|i: int| 0 <= i < n ==> is_encodable(#[trigger] events[i]) {
        assert forall|k: int| 0 <= k < n implies is_encodable(#[trigger] sorted[k]) by {
            lemma_from_events(events, k);
        }
        assert forall|k: int| 0 <= k < n implies is_indexable(#[trigger] sorted[k]) by {
            assert(is_encodable(sorted[k]));
        }
        assert forall|k: int| 0 <= k < sorted.len() implies utc_seconds(
            #[trigger] sorted[k].created_at,
        ) is Some by {
            assert(is_encodable(sorted[k]));
        }
    }
}

/// Events that can be encoded are decoded to the same events, in the order of their keys and in
/// their usual form, where the names of the repositories can be recovered, the times can be
/// written, and the size of the sections fits in 32 bits.
pub proof fn law_codec_roundtrip(events: Seq<Event>)
    requires
        encoded(events) is Ok,
        payload(arrays_of(in_order(events))->Ok_0).len() <= u32::MAX,
        forall|i: int| 0 <= i < events.len() ==> is_recoverable(#[trigger] events[i].repo_name),
        forall|i: int| 0 <= i < events.len() ==> has_writable_time(#[trigger] events[i]),
    ensures
        decoded(encoded(events)->Ok_0) == Ok::<_, DecodeError>(all_usual(in_order(events))),
{
    let sorted = in_order(events);
    let n = events.len() as int;
    lemma_in_order_len(events);
    assert forall|k: int| 0 <= k < n implies is_recoverable(#[trigger] sorted[k].repo_name)
        && has_writable_time(sorted[k]) by {
        lemma_from_events(events, k);
        let i = choose|i: int| 0 <= i < n && #[trigger] events[i] == sorted[k];
        assert(is_recoverable(events[i].repo_name));
    }
    let a = arrays_of(sorted)->Ok_0;
    lemma_indexed_wf(sorted, n);
    law_payload_size(a);
    lemma_storable(sorted, n);
    lemma_counts(sorted, n);
    law_compress_roundtrip(payload(a));
    law_payload_roundtrip(a);
    assert forall|i: int| 0 <= i < sorted.len() implies is_restored(
        #[trigger] sorted[i].repo_name,
    ) by {
        assert(is_recoverable(sorted[i].repo_name));
    }
    assert forall|i: int| 0 <= i < sorted.len() implies has_writable_time(#[trigger] sorted[i]) by {
        assert(is_recoverable(sorted[i].repo_name));
    }
    law_arrays_roundtrip(sorted, a);
}

/// It does not matter whether events are put in order before they are encoded.
pub proof fn law_encoding_of_sorted(events: Seq<Event>)
    ensures
        encoded(in_order(events)) == encoded(events),
{
    law_in_order(events);
    lemma_in_order_len(events);
    law_order_kept(in_order(events));
}

/// Events that are in order and in their usual form come back as they were.
pub proof fn law_codec_identity(events: Seq<Event>)
    requires
        encoded(events) is Ok,
        payload(arrays_of(in_order(events))->Ok_0).len() <= u32::MAX,
        forall|i: int| 0 <= i < events.len() ==> is_recoverable(#[trigger] events[i].repo_name),
        forall|i: int| 0 <= i < events.len() ==> has_writable_time(#[trigger] events[i]),
        forall|i: int| 0 <= i < events.len() ==> usual(#[trigger] events[i]) == events[i],
        forall|i: int, j: int|
            0 <= i < j < events.len() ==> !key_before(#[trigger] events[j], #[trigger] events[i]),
    ensures
        decoded(encoded(events)->Ok_0) == Ok::<_, DecodeError>(events),
{
    law_codec_roundtrip(events);
    law_order_kept(events);
    assert(all_usual(events) =~= events);
}

/// A character of the names that are usual: one of ASCII that is no mark and does not end a text.
pub open spec fn is_plain(c: char) -> bool {
    is_ascii_char(c) && c != '$' && c != '^' && c != '@' && c != '\0'
}

/// A name of plain characters can be recovered, where neither the owner nor the name is empty.
pub proof fn law_plain_name(name: Seq<char>)
    requires
        forall|i: int| 0 <= i < name.len() ==> is_plain(#[trigger] name[i]),
        has_owner(name),
        owner_of(name).len() > 0,
        name_of(name).len() > 0,
    ensures
        is_recoverable(name),
{
    let owner = owner_of(name);
    let rest = name_of(name);
    lemma_first_at(name, '/');
    assert forall|i: int| 0 <= i < owner.len() implies is_plain(#[trigger] owner[i]) by {
        assert(owner[i] == name[i]);
    }
    assert forall|i: int| 0 <= i < rest.len() implies is_plain(#[trigger] rest[i]) by {
        assert(rest[i] == name[i + first_at(name, '/') + 1]);
    }
    lemma_plain_storable(owner);
    lemma_no_stray_mark(owner, rest);
    law_name_restored(owner, rest);
    lemma_plain_marked(owner, rest);
    reveal_strlit("@.github.io");
    let short = shortened(owner, rest);
    assert forall|i: int| 0 <= i < short.len() implies is_plain(#[trigger] short[i]) || short[i]
        == '@' by {
        if short == marked(owner, rest) {
        } else {
            assert(short.len() <= 1);
        }
    }
    lemma_plain_storable(short);
}

proof fn lemma_plain_storable(text: Seq<char>)
    requires
        forall|i: int| 0 <= i < text.len() ==> is_plain(#[trigger] text[i]) || text[i] == '@',
    ensures
        is_storable(text),
{
    assert forall|i: int| 0 <= i < text.len() implies is_ascii_char(#[trigger] text[i]) && text[i]
        != '$' && text[i] != '^' && text[i] != '\0' by {
        assert(is_plain(text[i]) || text[i] == '@');
    }
    reveal(is_storable);
    law_ascii_case(text);
    if text.contains('\0') {
        let k = choose|k: int| 0 <= k < text.len() && text[k] == '\0';
        assert(is_ascii_char(text[k]));
    }
}

proof fn lemma_no_stray_mark(owner: Seq<char>, name: Seq<char>)
    requires
        forall|i: int| 0 <= i < name.len() ==> is_plain(#[trigger] name[i]),
    ensures
        !has_stray_mark(owner, name),
    decreases name.len(),
{
    if name.len() > 0 {
        assert(is_plain(name[0]));
        let n: int = if owner.len() > 0 && begins_with(name, owner) {
            owner.len() as int
        } else {
            1
        };
        let rest = name.skip(n);
        assert forall|i: int| 0 <= i < rest.len() implies is_plain(#[trigger] rest[i]) by {
            assert(rest[i] == name[i + n]);
        }
        lemma_no_stray_mark(owner, rest);
    }
}

proof fn lemma_plain_marked(owner: Seq<char>, name: Seq<char>)
    requires
        forall|i: int| 0 <= i < name.len() ==> is_plain(#[trigger] name[i]),
    ensures
        forall|i: int|
            0 <= i < marked(owner, name).len() ==> is_plain(#[trigger] marked(owner, name)[i])
                || marked(owner, name)[i] == '@',
    decreases name.len(),
{
    if owner.len() > 0 && name.len() > 0 {
        let found = begins_with(name, owner);
        let n: int = if found {
            owner.len() as int
        } else {
            1
        };
        let rest = name.skip(n);
        assert forall|i: int| 0 <= i < rest.len() implies is_plain(#[trigger] rest[i]) by {
            assert(rest[i] == name[i + n]);
        }
        lemma_plain_marked(owner, rest);
        let whole = marked(owner, name);
        assert(is_plain(name[0]));
        assert forall|i: int| 0 <= i < whole.len() implies is_plain(#[trigger] whole[i])
            || whole[i] == '@' by {
            if i > 0 {
                assert(whole[i] == marked(owner, rest)[i - 1]);
            }
        }
    }
}

} // verus!
