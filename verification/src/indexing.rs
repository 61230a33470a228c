//! From events to arrays.

use vstd::prelude::*;
use crate::arrays::{texts_of, Arrays, EventArrays};
use crate::binary::{signed, to_signed};
use crate::clock::{parse_utc, utc_seconds, utc_text};
use crate::decimal::{parse_number, parsed};
use crate::errors::EncodeError;
use crate::events::{
    event_of, events_of, get_type_index, lemma_number_of_type, number_of_type, Event, EventKey,
    EventValue,
};
use crate::interner::{position_of, Interner};
use crate::names::{has_owner, name_of, owner_of, shorten, shortened, split_name};
use crate::order::{in_order, sorted_numbers};

verus! {

/// What the time of the event number `i` is compared with: the later of the two times before it.
pub open spec fn base_time(times: Seq<i64>, i: int) -> i64 {
    if i <= 0 {
        0
    } else if i == 1 || times[i - 1] >= times[i - 2] {
        times[i - 1]
    } else {
        times[i - 2]
    }
}

/// The times, each less what it is compared with, in 64 bits.
pub open spec fn time_deltas(times: Seq<i64>) -> Seq<i64> {
    Seq::new(times.len(), |i: int| times[i].wrapping_sub(base_time(times, i)))
}

/// The reference to the repository number `n`, in 32 bits.
pub open spec fn repo_ref(n: int) -> u64 {
    ((2 * n + 2) % 0x1_0000_0000) as u64
}

/// The reference to a new repository of the owner number `n`, in 32 bits.
pub open spec fn owner_ref(n: int) -> u64 {
    ((2 * n + 1) % 0x1_0000_0000) as u64
}

/// What is known after some events.
#[verifier::ext_equal]
pub ghost struct Indexed {
    /// The number of the last event.
    pub prev_id: u64,
    /// The differences of the numbers of the events.
    pub id_deltas: Seq<i64>,
    /// The types of the events.
    pub types: Seq<u8>,
    /// Where the repositories of the events are found.
    pub backrefs: Seq<u64>,
    /// The repositories, in the order in which they came.
    pub repos: Seq<(u64, Seq<char>)>,
    /// The numbers of the repositories.
    pub repo_ids: Seq<u32>,
    /// The owners, in the order in which they came.
    pub owners: Seq<Seq<char>>,
    /// The shortened names of the repositories.
    pub names: Seq<Seq<char>>,
}

impl Indexed {
    /// What is known before the first event.
    pub open spec fn start() -> Indexed {
        Indexed {
            prev_id: 0,
            id_deltas: Seq::empty(),
            types: Seq::empty(),
            backrefs: Seq::empty(),
            repos: Seq::empty(),
            repo_ids: Seq::empty(),
            owners: Seq::empty(),
            names: Seq::empty(),
        }
    }

    /// With the repository of one more event.
    pub open spec fn with_repo(self, id: u64, name: Seq<char>) -> Result<Indexed, EncodeError> {
        match position_of(self.repos, (id, name)) {
            Some(n) => Ok(Indexed { backrefs: self.backrefs.push(repo_ref(n)), ..self }),
            None => if id > u32::MAX {
                Err(EncodeError::RepoIdTooLarge)
            } else if !has_owner(name) {
                Err(EncodeError::InvalidRepoName)
            } else {
                let owner = owner_of(name);
                let next = Indexed {
                    repos: self.repos.push((id, name)),
                    repo_ids: self.repo_ids.push(id as u32),
                    names: self.names.push(shortened(owner, name_of(name))),
                    ..self
                };
                match position_of(self.owners, owner) {
                    Some(n) => Ok(Indexed { backrefs: self.backrefs.push(owner_ref(n)), ..next }),
                    None => Ok(
                        Indexed {
                            backrefs: self.backrefs.push(0),
                            owners: self.owners.push(owner),
                            ..next
                        },
                    ),
                }
            },
        }
    }

    /// With one more event.
    pub open spec fn with_event(self, event: Event) -> Result<Indexed, EncodeError> {
        match parsed(event.id) {
            Err(e) => Err(EncodeError::InvalidId(e)),
            Ok(id) => match number_of_type(event.event_type) {
                None => Err(EncodeError::UnknownEventType),
                Some(number) => Indexed {
                    prev_id: id,
                    id_deltas: self.id_deltas.push(
                        signed(id).wrapping_sub(signed(self.prev_id)),
                    ),
                    types: self.types.push(number),
                    ..self
                }.with_repo(event.repo_id, event.repo_name),
            },
        }
    }
}

/// What is known after the first `n` events, or why one of them cannot be encoded.
pub open spec fn indexed(events: Seq<Event>, n: int) -> Result<Indexed, EncodeError>
    decreases n,
{
    if n <= 0 {
        Ok(Indexed::start())
    } else {
        match indexed(events, n - 1) {
            Err(e) => Err(e),
            Ok(before) => before.with_event(events[n - 1]),
        }
    }
}

/// The arrays of events that happened at given times.
pub open spec fn arrays_at(events: Seq<Event>, times: Seq<i64>) -> Result<Arrays, EncodeError> {
    match indexed(events, events.len() as int) {
        Err(e) => Err(e),
        Ok(all) => Ok(
            Arrays {
                id_deltas: all.id_deltas,
                ts_deltas: time_deltas(times),
                types: all.types,
                backrefs: all.backrefs,
                repo_ids: all.repo_ids,
                owners: all.owners,
                names: all.names,
            },
        ),
    }
}

/// All events have times.
pub open spec fn have_times(events: Seq<Event>) -> bool {
    forall|i: int| 0 <= i < events.len() ==> utc_seconds(#[trigger] events[i].created_at) is Some
}

/// The time of an event is in the range of those that can be written.
pub open spec fn has_writable_time(event: Event) -> bool {
    utc_text(utc_seconds(event.created_at)->0) is Some
}

/// The times of events.
pub open spec fn times_of(events: Seq<Event>) -> Seq<i64> {
    Seq::new(events.len(), |i: int| utc_seconds(events[i].created_at)->0)
}

/// The arrays of events.
pub open spec fn arrays_of(events: Seq<Event>) -> Result<Arrays, EncodeError> {
    if have_times(events) {
        arrays_at(events, times_of(events))
    } else {
        Err(EncodeError::InvalidTimestamp)
    }
}

/// Owners as keys of a table.
spec fn owner_keys(owners: Seq<Seq<char>>) -> Seq<(u64, Seq<char>)> {
    Seq::new(owners.len(), |i: int| (0u64, owners[i]))
}

proof fn lemma_owner_position(owners: Seq<Seq<char>>, owner: Seq<char>)
    ensures
        position_of(owner_keys(owners), (0u64, owner)) == position_of(owners, owner),
    decreases owners.len(),
{
    if owners.len() > 0 {
        lemma_owner_position(owners.drop_last(), owner);
        assert(owner_keys(owners).drop_last() =~= owner_keys(owners.drop_last()));
    }
}

/// Collects the values of events.
struct Indexer {
    prev_id: u64,
    id_deltas: Vec<i64>,
    types: Vec<u8>,
    backrefs: Vec<u64>,
    repos: Interner,
    repo_ids: Vec<u32>,
    owners: Vec<String>,
    owner_table: Interner,
    names: Vec<String>,
}

impl View for Indexer {
    type V = Indexed;

    closed spec fn view(&self) -> Indexed {
        Indexed {
            prev_id: self.prev_id,
            id_deltas: self.id_deltas@,
            types: self.types@,
            backrefs: self.backrefs@,
            repos: self.repos@,
            repo_ids: self.repo_ids@,
            owners: texts_of(self.owners@),
            names: texts_of(self.names@),
        }
    }
}

/// Gets the low 32 bits of `2n + extra`.
fn reference(n: usize, extra: u64) -> (r: u64)
    requires
        extra <= 2,
    ensures
        r == (2 * n + extra) % 0x1_0000_0000,
{
    let n32: u64 = n as u64 % 0x1_0000_0000;
    (2 * n32 + extra) % 0x1_0000_0000
}

impl Indexer {
    spec fn wf(&self) -> bool {
        &&& self.repos.wf()
        &&& self.owner_table.wf()
        &&& self.owner_table@ == owner_keys(self@.owners)
    }

    fn new() -> (r: Self)
        ensures
            r@ == Indexed::start(),
            r.wf(),
    {
        let r: Indexer = Indexer {
            prev_id: 0,
            id_deltas: Vec::new(),
            types: Vec::new(),
            backrefs: Vec::new(),
            repos: Interner::new(),
            repo_ids: Vec::new(),
            owners: Vec::new(),
            owner_table: Interner::new(),
            names: Vec::new(),
        };
        assert(r@ =~= Indexed::start());
        assert(r.owner_table@ =~= owner_keys(r@.owners));
        r
    }

    /// Adds the repository of an event.
    fn add_repo(&mut self, id: u64, full: &str) -> (r: Result<(), EncodeError>)
        requires
            old(self).wf(),
        ensures
            match r {
                Ok(()) => old(self)@.with_repo(id, full@) == Ok::<_, EncodeError>(final(self)@)
                    && final(self).wf(),
                Err(e) => old(self)@.with_repo(id, full@) == Err::<Indexed, _>(e),
            },
    {
        let ghost before = self@;
        match self.repos.find(id, full) {
            Some(n) => {
                self.backrefs.push(reference(n, 2));
                assert(self@ =~= before.with_repo(id, full@)->Ok_0);
                Ok(())
            },
            None => {
                if id > 0xffff_ffff {
                    return Err(EncodeError::RepoIdTooLarge);
                }
                let (owner, name) = match split_name(full) {
                    Some(parts) => parts,
                    None => {
                        return Err(EncodeError::InvalidRepoName);
                    },
                };
                let ghost old_names = self.names@;
                let ghost old_owners = self.owners@;
                proof {
                    lemma_owner_position(before.owners, owner@);
                }
                self.repos.insert(id, full);
                self.repo_ids.push(id as u32);
                let short: String = shorten(owner.as_str(), name.as_str());
                self.names.push(short);
                assert(texts_of(self.names@) =~= texts_of(old_names).push(short@));
                match self.owner_table.find(0, owner.as_str()) {
                    Some(n) => {
                        self.backrefs.push(reference(n, 1));
                    },
                    None => {
                        self.owner_table.insert(0, owner.as_str());
                        self.owners.push(owner);
                        self.backrefs.push(0);
                        assert(texts_of(self.owners@) =~= texts_of(old_owners).push(owner@));
                        assert(owner_keys(self@.owners) =~= owner_keys(before.owners).push(
                            (0u64, owner@),
                        ));
                    },
                }
                assert(self@ =~= before.with_repo(id, full@)->Ok_0);
                Ok(())
            },
        }
    }

    /// Adds an event.
    fn add_event(&mut self, key: &EventKey, value: &EventValue) -> (r: Result<(), EncodeError>)
        requires
            old(self).wf(),
        ensures
            match r {
                Ok(()) => old(self)@.with_event(event_of((*key, *value))) == Ok::<_, EncodeError>(
                    final(self)@,
                ) && final(self).wf(),
                Err(e) => old(self)@.with_event(event_of((*key, *value))) == Err::<Indexed, _>(e),
            },
    {
        let ghost before = self@;
        let id: u64 = match parse_number(key.id.as_str()) {
            Ok(id) => id,
            Err(e) => {
                return Err(EncodeError::InvalidId(e));
            },
        };
        let type_idx: u8 = match get_type_index(key.event_type.as_str()) {
            Some(type_idx) => type_idx,
            None => {
                return Err(EncodeError::UnknownEventType);
            },
        };
        self.id_deltas.push(to_signed(id).wrapping_sub(to_signed(self.prev_id)));
        self.prev_id = id;
        self.types.push(type_idx);
        proof {
            let next = Indexed {
                prev_id: id,
                id_deltas: before.id_deltas.push(signed(id).wrapping_sub(signed(before.prev_id))),
                types: before.types.push(type_idx),
                ..before
            };
            assert(self@ =~= next);
        }
        self.add_repo(value.repo.id, value.repo.name.as_str())
    }
}

/// An event that cannot be encoded decides for all events.
pub proof fn lemma_indexed_stops(events: Seq<Event>, n: int, m: int)
    requires
        0 <= n <= m,
        indexed(events, n) is Err,
    ensures
        indexed(events, m) == indexed(events, n),
    decreases m - n,
{
    if n < m {
        lemma_indexed_stops(events, n, m - 1);
    }
}

/// What is known after some events has a value of each kind for each of them.
pub proof fn lemma_indexed_wf(events: Seq<Event>, n: int)
    requires
        0 <= n <= events.len(),
    ensures
        match indexed(events, n) {
            Ok(all) => {
                &&& all.id_deltas.len() == n
                &&& all.types.len() == n
                &&& all.backrefs.len() == n
                &&& forall|i: int| 0 <= i < n ==> #[trigger] all.types[i] < 16
                &&& all.repos.len() == all.repo_ids.len()
                &&& all.names.len() == all.repo_ids.len()
            },
            Err(_) => true,
        },
    decreases n,
{
    if n > 0 {
        lemma_indexed_wf(events, n - 1);
        lemma_number_of_type(events[n - 1].event_type);
    }
}

/// Computes the differences between times.
fn delta_times(times: &Vec<i64>) -> (r: Vec<i64>)
    ensures
        r@ == time_deltas(times@),
{
    let mut deltas: Vec<i64> = Vec::new();
    let mut prev_ts: i64 = 0;
    let mut prev_prev_ts: i64 = 0;
    let mut i: usize = 0;
    while i < times.len()
        invariant
            i <= times.len(),
            deltas.len() == i,
            forall|k: int| 0 <= k < i ==> #[trigger] deltas@[k] == time_deltas(times@)[k],
            prev_ts == (if i == 0 {
                0
            } else {
                times@[i - 1]
            }),
            i >= 2 ==> prev_prev_ts == times@[i - 2],
        decreases times.len() - i,
    {
        let base: i64 = if i < 2 || prev_ts >= prev_prev_ts {
            prev_ts
        } else {
            prev_prev_ts
        };
        deltas.push(times[i].wrapping_sub(base));
        prev_prev_ts = prev_ts;
        prev_ts = times[i];
        i = i + 1;
    }
    assert(deltas@ =~= time_deltas(times@));
    deltas
}

/// Splits the entries with given numbers into arrays, where they happened at given times.
pub fn split_events(
    entries: &[(EventKey, EventValue)],
    numbers: &Vec<usize>,
    times: &Vec<i64>,
) -> (r: Result<EventArrays, EncodeError>)
    requires
        numbers.len() == times.len(),
        forall|i: int| 0 <= i < numbers.len() ==> (#[trigger] numbers@[i]) < entries.len(),
    ensures
        ({
            let events = Seq::new(
                numbers@.len(),
                |i: int| events_of(entries@)[numbers@[i] as int],
            );
            match r {
                Ok(arrays) => arrays_at(events, times@) == Ok::<_, EncodeError>(arrays@)
                    && arrays@.wf(),
                Err(e) => arrays_at(events, times@) == Err::<Arrays, _>(e),
            }
        }),
{
    let ghost events = Seq::new(numbers@.len(), |i: int| events_of(entries@)[numbers@[i] as int]);
    let mut indexer: Indexer = Indexer::new();
    let mut i: usize = 0;
    while i < numbers.len()
        invariant
            i <= numbers.len(),
            forall|i: int| 0 <= i < numbers.len() ==> (#[trigger] numbers@[i]) < entries.len(),
            events == Seq::new(numbers@.len(), |i: int| events_of(entries@)[numbers@[i] as int]),
            indexer.wf(),
            indexed(events, i as int) == Ok::<_, EncodeError>(indexer@),
        decreases numbers.len() - i,
    {
        let n: usize = numbers[i];
        assert(events[i as int] == event_of(entries@[n as int]));
        match indexer.add_event(&entries[n].0, &entries[n].1) {
            Ok(()) => {},
            Err(e) => {
                proof {
                    lemma_indexed_stops(events, i + 1, numbers.len() as int);
                }
                return Err(e);
            },
        }
        i = i + 1;
    }
    proof {
        lemma_indexed_wf(events, numbers.len() as int);
    }
    let arrays: EventArrays = EventArrays {
        id_deltas: indexer.id_deltas,
        ts_deltas: delta_times(times),
        types: indexer.types,
        backrefs: indexer.backrefs,
        repo_ids: indexer.repo_ids,
        owners: indexer.owners,
        names: indexer.names,
    };
    assert(arrays@ =~= arrays_at(events, times@)->Ok_0);
    Ok(arrays)
}

/// Reads the times of the entries with given numbers.
fn read_times(entries: &[(EventKey, EventValue)], numbers: &Vec<usize>) -> (r: Result<
    Vec<i64>,
    EncodeError,
>)
    requires
        forall|i: int| 0 <= i < numbers.len() ==> (#[trigger] numbers@[i]) < entries.len(),
    ensures
        ({
            let events = Seq::new(
                numbers@.len(),
                |i: int| events_of(entries@)[numbers@[i] as int],
            );
            match r {
                Ok(times) => {
                    &&& have_times(events)
                    &&& times@ == times_of(events)
                    &&& forall|i: int|
                        0 <= i < events.len() ==> has_writable_time(#[trigger] events[i])
                },
                Err(e) => !have_times(events) && e == EncodeError::InvalidTimestamp,
            }
        }),
{
    let ghost events = Seq::new(numbers@.len(), |i: int| events_of(entries@)[numbers@[i] as int]);
    let mut times: Vec<i64> = Vec::new();
    let mut i: usize = 0;
    while i < numbers.len()
        invariant
            i <= numbers.len(),
            forall|i: int| 0 <= i < numbers.len() ==> (#[trigger] numbers@[i]) < entries.len(),
            events == Seq::new(numbers@.len(), |i: int| events_of(entries@)[numbers@[i] as int]),
            times.len() == i,
            forall|k: int|
                0 <= k < i ==> utc_seconds(#[trigger] events[k].created_at) == Some(times@[k]),
            forall|k: int| 0 <= k < i ==> has_writable_time(#[trigger] events[k]),
        decreases numbers.len() - i,
    {
        let n: usize = numbers[i];
        assert(events[i as int] == event_of(entries@[n as int]));
        match parse_utc(entries[n].1.created_at.as_str()) {
            Ok(seconds) => {
                times.push(seconds);
            },
            Err(_) => {
                assert(utc_seconds(events[i as int].created_at) is None);
                return Err(EncodeError::InvalidTimestamp);
            },
        }
        i = i + 1;
    }
    assert(times@ =~= times_of(events));
    Ok(times)
}

/// Puts entries in order and splits them into arrays.
pub fn index_events(entries: &[(EventKey, EventValue)]) -> (r: Result<EventArrays, EncodeError>)
    ensures
        match r {
            Ok(arrays) => {
                &&& arrays_of(in_order(events_of(entries@))) == Ok::<_, EncodeError>(arrays@)
                &&& arrays@.wf()
                &&& forall|i: int|
                    0 <= i < entries.len() ==> has_writable_time(
                        #[trigger] in_order(events_of(entries@))[i],
                    )
            },
            Err(e) => arrays_of(in_order(events_of(entries@))) == Err::<Arrays, _>(e),
        },
{
    let numbers: Vec<usize> = sorted_numbers(entries);
    let times: Vec<i64> = match read_times(entries, &numbers) {
        Ok(times) => times,
        Err(e) => {
            return Err(e);
        },
    };
    split_events(entries, &numbers, &times)
}

} // verus!
