//! What holds of every event that was decoded.

use vstd::prelude::*;
use crate::arrays::Arrays;
use crate::binary::{signed, unsigned};
use crate::clock::{utc_seconds, utc_text};
use crate::codec::{decoded, encoded};
use crate::codec_law::{is_encodable, is_recoverable, law_codec_roundtrip, law_encodable};
use crate::decimal::{decimal, law_decimal_digits, law_decimal_roundtrip, parsed};
use crate::errors::DecodeError;
use crate::events::{name_of_type, Event};
use crate::indexing::{arrays_of, has_writable_time};
use crate::order::{in_order, lemma_from_events, lemma_in_order_len};
use crate::rebuilding::{
    events_at, lemma_rebuilt_stops, rebuilt, time_texts, times_from, Rebuilt,
};
use crate::sections::{arrays_in, payload};
use crate::zpaq::compress::decompressed;

verus! {

/// The address of the repository is that of the interface, followed by the name of the repository,
/// character by character.
pub open spec fn has_usual_url(event: Event) -> bool {
    &&& event.repo_url.len() == 29 + event.repo_name.len()
    &&& event.repo_url.take(29) == "https://api.github.com/repos/"@
    &&& event.repo_url.skip(29) == event.repo_name
}

/// The number is written in digits, without a zero before others.
pub open spec fn has_usual_id(event: Event) -> bool {
    &&& event.id.len() > 0
    &&& forall|i: int| 0 <= i < event.id.len() ==> '0' <= #[trigger] event.id[i] && event.id[i]
        <= '9'
    &&& event.id[0] == '0' ==> event.id.len() == 1
}

/// The name of the repository has a slash, and its number fits in 32 bits.
pub open spec fn has_usual_repo(event: Event) -> bool {
    &&& event.repo_id <= u32::MAX
    &&& exists|k: int| 0 <= k < event.repo_name.len() && #[trigger] event.repo_name[k] == '/'
}

/// An event in the form in which it is decoded.
pub open spec fn is_in_form(event: Event) -> bool {
    &&& has_usual_url(event)
    &&& has_usual_id(event)
    &&& has_usual_repo(event)
}

/// The repository has a number of 32 bits, and a slash in its name.
spec fn is_repo(repo: (u64, Seq<char>)) -> bool {
    &&& repo.0 <= u32::MAX
    &&& exists|k: int| 0 <= k < repo.1.len() && #[trigger] repo.1[k] == '/'
}

spec fn are_in_form(r: Rebuilt) -> bool {
    &&& forall|i: int| 0 <= i < r.events.len() ==> is_in_form(#[trigger] r.events[i])
    &&& forall|i: int| 0 <= i < r.repos.len() ==> is_repo(#[trigger] r.repos[i])
}

proof fn lemma_new_repo(r: Rebuilt, a: Arrays, owner: Seq<char>)
    ensures
        is_repo(r.with_new_repo(a, owner).repos.last()),
{
    let repo = r.with_new_repo(a, owner).repos.last();
    assert(repo.1[owner.len() as int] == '/');
}

proof fn lemma_repos(r: Rebuilt, a: Arrays)
    requires
        forall|i: int| 0 <= i < r.repos.len() ==> is_repo(#[trigger] r.repos[i]),
    ensures
        match r.with_repo(a) {
            Ok((next, repo)) => {
                &&& is_repo(repo)
                &&& forall|i: int| 0 <= i < next.repos.len() ==> is_repo(#[trigger] next.repos[i])
                &&& next.events == r.events
            },
            Err(_) => true,
        },
{
    let backref = a.backrefs[r.events.len() as int];
    if let Ok((next, repo)) = r.with_repo(a) {
        if backref == 0 {
            lemma_new_repo(r, a, a.owners[r.owners]);
        } else if backref % 2 == 0 {
            assert(is_repo(r.repos[backref / 2 - 1]));
        } else {
            lemma_new_repo(r, a, a.owners[backref as int / 2]);
        }
        assert forall|i: int| 0 <= i < next.repos.len() implies is_repo(
            #[trigger] next.repos[i],
        ) by {
            if i < r.repos.len() {
                assert(next.repos[i] == r.repos[i]);
            }
        }
    }
}

proof fn lemma_event_form(r: Rebuilt, a: Arrays, time: Option<Seq<char>>)
    requires
        are_in_form(r),
    ensures
        match r.with_event(a, time) {
            Ok(next) => {
                &&& are_in_form(next)
                &&& next.events.len() == r.events.len() + 1
                &&& Some(next.events.last().created_at) == time
            },
            Err(_) => true,
        },
{
    lemma_repos(r, a);
    reveal_strlit("https://api.github.com/repos/");
    if let Ok(next) = r.with_event(a, time) {
        let event = next.events.last();
        let prefix = "https://api.github.com/repos/"@;
        assert(prefix.len() == 29);
        assert(event.repo_url.take(29) =~= prefix);
        assert(event.repo_url.skip(29) =~= event.repo_name);
        law_decimal_digits(next.prev_id as int);
        assert(event.id == decimal(next.prev_id as int));
        assert(is_in_form(event));
        assert forall|i: int| 0 <= i < next.events.len() implies is_in_form(
            #[trigger] next.events[i],
        ) by {
            if i < r.events.len() {
                assert(next.events[i] == r.events[i]);
            }
        }
    }
}

proof fn lemma_all_in_form(a: Arrays, times: Seq<Option<Seq<char>>>, n: int)
    requires
        0 <= n,
    ensures
        match rebuilt(a, times, n) {
            Ok(r) => are_in_form(r) && r.events.len() == n,
            Err(_) => true,
        },
    decreases n,
{
    if n > 0 {
        lemma_all_in_form(a, times, n - 1);
        if let Ok(r) = rebuilt(a, times, n - 1) {
            lemma_event_form(r, a, times[n - 1]);
        }
    }
}

/// Every event that is rebuilt has the address of its repository by its name, a number without
/// leading zeros, and a repository with an owner. There are as many as the arrays hold.
pub proof fn law_rebuilt_form(a: Arrays, times: Seq<Option<Seq<char>>>)
    ensures
        match events_at(a, times) {
            Ok(events) => {
                &&& events.len() == a.id_deltas.len()
                &&& forall|i: int| 0 <= i < events.len() ==> is_in_form(#[trigger] events[i])
            },
            Err(_) => true,
        },
{
    lemma_all_in_form(a, times, a.id_deltas.len() as int);
}

/// Every event that is decoded has the address of its repository by its name, a number without
/// leading zeros, and a repository with an owner.
pub proof fn law_decoded_form(bytes: Seq<u8>)
    ensures
        match decoded(bytes) {
            Ok(events) => forall|i: int|
                0 <= i < events.len() ==> is_in_form(#[trigger] events[i]),
            Err(_) => true,
        },
{
    if let Some(data) = decompressed(bytes) {
        if let Ok(a) = arrays_in(data) {
            law_rebuilt_form(a, time_texts(times_from(a.ts_deltas, a.ts_deltas.len() as int)));
        }
    }
}

/// What is decoded of encoded events: in the order of their keys, every event with its number, type
/// and repository as they were, its time to the second in UTC, and the address of its repository by
/// its name.
pub proof fn law_codec_fields(events: Seq<Event>, k: int)
    requires
        encoded(events) is Ok,
        payload(arrays_of(in_order(events))->Ok_0).len() <= u32::MAX,
        forall|i: int| 0 <= i < events.len() ==> is_recoverable(#[trigger] events[i].repo_name),
        forall|i: int| 0 <= i < events.len() ==> has_writable_time(#[trigger] events[i]),
        0 <= k < events.len(),
    ensures
        decoded(encoded(events)->Ok_0) is Ok,
        ({
            let before = in_order(events)[k];
            let after = decoded(encoded(events)->Ok_0)->Ok_0[k];
            &&& decoded(encoded(events)->Ok_0)->Ok_0.len() == events.len()
            &&& parsed(after.id) == parsed(before.id)
            &&& after.event_type == before.event_type
            &&& after.repo_id == before.repo_id
            &&& after.repo_name == before.repo_name
            &&& Some(after.created_at) == utc_text(utc_seconds(before.created_at)->0)
            &&& is_in_form(after)
        }),
{
    law_codec_roundtrip(events);
    law_decoded_form(encoded(events)->Ok_0);
    law_encodable(events);
    lemma_in_order_len(events);
    lemma_from_events(events, k);
    let i = choose|i: int| 0 <= i < events.len() && #[trigger] events[i] == in_order(events)[k];
    assert(is_encodable(events[i]) && has_writable_time(events[i]));
    law_decimal_roundtrip(parsed(events[i].id)->Ok_0);
}

/// How many of the first `n` references are to new repositories, of new owners or of others.
pub open spec fn repos_listed(backrefs: Seq<u64>, n: int) -> int
    decreases n,
{
    if n <= 0 {
        0
    } else if backrefs[n - 1] == 0 || backrefs[n - 1] % 2 == 1 {
        repos_listed(backrefs, n - 1) + 1
    } else {
        repos_listed(backrefs, n - 1)
    }
}

/// How many of the first `n` references are to new owners.
pub open spec fn owners_listed(backrefs: Seq<u64>, n: int) -> int
    decreases n,
{
    if n <= 0 {
        0
    } else if backrefs[n - 1] == 0 {
        owners_listed(backrefs, n - 1) + 1
    } else {
        owners_listed(backrefs, n - 1)
    }
}

/// The reference of the event `k` leads to what has come or is listed.
pub open spec fn leads_on(a: Arrays, k: int) -> bool {
    let b = a.backrefs[k];
    let repos = repos_listed(a.backrefs, k);
    let owners = owners_listed(a.backrefs, k);
    if b == 0 {
        repos < a.repo_ids.len() && owners < a.owners.len()
    } else if b % 2 == 0 {
        b / 2 <= repos
    } else {
        repos < a.repo_ids.len() && b / 2 < owners
    }
}

/// The event `k` has a time, and its reference leads on.
pub open spec fn is_found(a: Arrays, times: Seq<Option<Seq<char>>>, k: int) -> bool {
    times[k] is Some && leads_on(a, k)
}

/// The place in the lists of the repository of the event `k`.
pub open spec fn repo_place(a: Arrays, k: int) -> int {
    let b = a.backrefs[k];
    if b > 0 && b % 2 == 0 {
        b / 2 - 1
    } else {
        repos_listed(a.backrefs, k)
    }
}

proof fn lemma_rebuilt_counts(a: Arrays, times: Seq<Option<Seq<char>>>, n: int)
    requires
        0 <= n,
    ensures
        rebuilt(a, times, n) is Ok <==> forall|k: int|
            0 <= k < n ==> #[trigger] is_found(a, times, k),
        match rebuilt(a, times, n) {
            Ok(r) => {
                &&& r.events.len() == n
                &&& r.repos.len() == repos_listed(a.backrefs, n)
                &&& r.owners == owners_listed(a.backrefs, n)
                &&& forall|j: int|
                    0 <= j < r.repos.len() ==> (#[trigger] r.repos[j]).0 == a.repo_ids[j]
            },
            Err(_) => true,
        },
    decreases n,
{
    if n > 0 {
        lemma_rebuilt_counts(a, times, n - 1);
        if let Ok(r) = rebuilt(a, times, n - 1) {
            if let Ok(next) = rebuilt(a, times, n) {
                assert(is_found(a, times, n - 1));
                assert forall|j: int| 0 <= j < next.repos.len() implies (
                #[trigger] next.repos[j]).0 == a.repo_ids[j] by {
                    if j < r.repos.len() {
                        assert(next.repos[j] == r.repos[j]);
                    }
                }
            } else {
                assert(!is_found(a, times, n - 1));
            }
        } else {
            let k = choose|k: int|
                0 <= k < n - 1 && !#[trigger] is_found(a, times, k);
            assert(!is_found(a, times, k));
        }
    }
}

/// Events can be rebuilt from arrays just where all have times, and every reference leads to a
/// repository or an owner that came before, or to the next that are listed.
pub proof fn law_rebuildable(a: Arrays, times: Seq<Option<Seq<char>>>)
    ensures
        events_at(a, times) is Ok <==> forall|k: int|
            0 <= k < a.id_deltas.len() ==> #[trigger] is_found(a, times, k),
{
    lemma_rebuilt_counts(a, times, a.id_deltas.len() as int);
}

proof fn lemma_rebuilt_grows(a: Arrays, times: Seq<Option<Seq<char>>>, n: int, m: int)
    requires
        0 <= n <= m,
        rebuilt(a, times, m) is Ok,
    ensures
        rebuilt(a, times, n) is Ok,
        forall|k: int|
            0 <= k < n ==> #[trigger] rebuilt(a, times, m)->Ok_0.events[k] == rebuilt(
                a,
                times,
                n,
            )->Ok_0.events[k],
    decreases m - n,
{
    if n < m {
        lemma_rebuilt_grows(a, times, n, m - 1);
        lemma_rebuilt_counts(a, times, m - 1);
        lemma_rebuilt_counts(a, times, n);
        lemma_all_in_form(a, times, m);
        let x = rebuilt(a, times, m - 1)->Ok_0;
        let y = rebuilt(a, times, m)->Ok_0;
        lemma_repos_kept(x, a);
        assert(y.events =~= x.events.push(y.events.last()));
    }
}

proof fn lemma_repos_kept(r: Rebuilt, a: Arrays)
    ensures
        match r.with_repo(a) {
            Ok((next, _)) => next.events == r.events,
            Err(_) => true,
        },
{
}

/// An event that was rebuilt: its type is that with the number in the arrays, its time the one that
/// was given, the number of its repository the one that is listed at the place that it refers to,
/// and its own number that of the event before it plus the difference, in 64 bits.
pub proof fn law_rebuilt_values(a: Arrays, times: Seq<Option<Seq<char>>>, k: int)
    requires
        events_at(a, times) is Ok,
        0 <= k < a.id_deltas.len(),
    ensures
        ({
            let events = events_at(a, times)->Ok_0;
            let event = events[k];
            let before: int = if k > 0 {
                parsed(events[k - 1].id)->Ok_0 as int
            } else {
                0
            };
            &&& event.event_type == name_of_type(a.types[k] as int)
            &&& Some(event.created_at) == times[k]
            &&& event.repo_id == a.repo_ids[repo_place(a, k)]
            &&& parsed(event.id) is Ok
            &&& (parsed(event.id)->Ok_0 - before - a.id_deltas[k]) % 0x1_0000_0000_0000_0000 == 0
        }),
{
    let n = a.id_deltas.len() as int;
    lemma_rebuilt_counts(a, times, n);
    lemma_rebuilt_grows(a, times, k, n);
    lemma_rebuilt_grows(a, times, k + 1, n);
    lemma_rebuilt_counts(a, times, k);
    lemma_rebuilt_counts(a, times, k + 1);
    lemma_prev_id(a, times, k);
    lemma_prev_id(a, times, k + 1);
    let r = rebuilt(a, times, k)->Ok_0;
    let next = rebuilt(a, times, k + 1)->Ok_0;
    assert(is_found(a, times, k));
    lemma_repos_kept(r, a);
    assert(next.events[k] == next.events.last());
    law_decimal_roundtrip(next.prev_id);
    lemma_sum(r.prev_id, a.id_deltas[k]);
    if k > 0 {
        lemma_rebuilt_grows(a, times, k, n);
        law_decimal_roundtrip(r.prev_id);
        assert(rebuilt(a, times, n)->Ok_0.events[k - 1] == r.events[k - 1]);
    }
}

proof fn lemma_prev_id(a: Arrays, times: Seq<Option<Seq<char>>>, n: int)
    requires
        0 <= n,
        rebuilt(a, times, n) is Ok,
    ensures
        n == 0 ==> rebuilt(a, times, n)->Ok_0.prev_id == 0,
        n > 0 ==> rebuilt(a, times, n)->Ok_0.events.last().id == decimal(
            rebuilt(a, times, n)->Ok_0.prev_id as int,
        ),
{
}

proof fn lemma_sum(prev: u64, delta: i64)
    ensures
        (unsigned(signed(prev).wrapping_add(delta)) - prev - delta) % 0x1_0000_0000_0000_0000 == 0,
{
    let t = unsigned(signed(prev).wrapping_add(delta)) - prev - delta;
    let m: int = 0x1_0000_0000_0000_0000;
    assert(t == 0 || t == m || t == -m || t == 2 * m || t == -2 * m);
}

/// Why the event `k` cannot be rebuilt, where it cannot.
pub open spec fn fault_at(a: Arrays, times: Seq<Option<Seq<char>>>, k: int) -> DecodeError {
    let backref = a.backrefs[k];
    let event = k as usize;
    let repos = repos_listed(a.backrefs, k);
    let owners = owners_listed(a.backrefs, k);
    if times[k] is None {
        DecodeError::InvalidTimestamp
    } else if backref > 0 && backref % 2 == 0 {
        DecodeError::InvalidRepoRef { backref, event, repos: repos as usize }
    } else if repos >= a.repo_ids.len() {
        DecodeError::MissingRepo { event }
    } else if backref == 0 {
        DecodeError::MissingOwner {
            owner: owners as usize,
            owners: a.owners.len() as usize,
            event,
        }
    } else {
        DecodeError::InvalidOwnerRef {
            owner_index: backref / 2,
            backref,
            event,
            owners: owners as usize,
        }
    }
}

/// The first event that cannot be rebuilt decides for all.
pub proof fn law_first_fault(a: Arrays, times: Seq<Option<Seq<char>>>, k: int)
    requires
        0 <= k < a.id_deltas.len(),
        forall|j: int| 0 <= j < k ==> #[trigger] is_found(a, times, j),
        !is_found(a, times, k),
    ensures
        events_at(a, times) == Err::<Seq<Event>, _>(fault_at(a, times, k)),
{
    lemma_rebuilt_counts(a, times, k);
    assert(rebuilt(a, times, k + 1) == Err::<Rebuilt, _>(fault_at(a, times, k)));
    lemma_rebuilt_stops(a, times, k + 1, a.id_deltas.len() as int);
}

} // verus!
