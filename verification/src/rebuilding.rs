//! From arrays back to events.

use vstd::prelude::*;
use crate::arrays::{Arrays, EventArrays};
use crate::binary::{signed, to_signed, to_unsigned, unsigned};
use crate::clock::{format_utc, utc_text, TIME_FORMAT};
use crate::decimal::{decimal, to_decimal};
use crate::errors::DecodeError;
use crate::events::{
    event_of, events_of, get_type_from_index, name_of_type, Event, EventKey, EventValue, Repo,
};
use crate::indexing::base_time;
use crate::names::{full_name, join_name, restore, restored};
use crate::text::{chars_of, text_of};

verus! {

/// The times of the first `n` events from their differences, in 64 bits.
pub open spec fn times_from(deltas: Seq<i64>, n: int) -> Seq<i64>
    decreases n,
{
    if n <= 0 {
        Seq::empty()
    } else {
        let before = times_from(deltas, n - 1);
        before.push(base_time(before, n - 1).wrapping_add(deltas[n - 1]))
    }
}

/// Where a repository is found.
pub open spec fn url_of(name: Seq<char>) -> Seq<char> {
    "https://api.github.com/repos/"@ + name
}

/// What has been rebuilt.
#[verifier::ext_equal]
pub ghost struct Rebuilt {
    /// The number of the last event.
    pub prev_id: u64,
    /// The repositories that have come.
    pub repos: Seq<(u64, Seq<char>)>,
    /// How many owners have come.
    pub owners: int,
    /// The events.
    pub events: Seq<Event>,
}

impl Rebuilt {
    /// What there is before the first event.
    pub open spec fn start() -> Rebuilt {
        Rebuilt { prev_id: 0, repos: Seq::empty(), owners: 0, events: Seq::empty() }
    }

    /// With the next repository, of a given owner.
    pub open spec fn with_new_repo(self, a: Arrays, owner: Seq<char>) -> Rebuilt {
        let n = self.repos.len() as int;
        Rebuilt {
            repos: self.repos.push(
                (a.repo_ids[n] as u64, full_name(owner, restored(owner, a.names[n]))),
            ),
            ..self
        }
    }

    /// With the repository of the next event, and this repository.
    pub open spec fn with_repo(self, a: Arrays) -> Result<
        (Rebuilt, (u64, Seq<char>)),
        DecodeError,
    > {
        let event = self.events.len() as usize;
        let backref = a.backrefs[self.events.len() as int];
        if backref == 0 {
            if self.repos.len() >= a.repo_ids.len() {
                Err(DecodeError::MissingRepo { event })
            } else if self.owners >= a.owners.len() {
                Err(
                    DecodeError::MissingOwner {
                        owner: self.owners as usize,
                        owners: a.owners.len() as usize,
                        event,
                    },
                )
            } else {
                let next = Rebuilt {
                    owners: self.owners + 1,
                    ..self.with_new_repo(a, a.owners[self.owners])
                };
                Ok((next, next.repos.last()))
            }
        } else if backref % 2 == 0 {
            if backref / 2 - 1 >= self.repos.len() {
                Err(
                    DecodeError::InvalidRepoRef {
                        backref,
                        event,
                        repos: self.repos.len() as usize,
                    },
                )
            } else {
                Ok((self, self.repos[backref / 2 - 1]))
            }
        } else {
            if self.repos.len() >= a.repo_ids.len() {
                Err(DecodeError::MissingRepo { event })
            } else if backref / 2 >= self.owners {
                Err(
                    DecodeError::InvalidOwnerRef {
                        owner_index: backref / 2,
                        backref,
                        event,
                        owners: self.owners as usize,
                    },
                )
            } else {
                let next = self.with_new_repo(a, a.owners[backref as int / 2]);
                Ok((next, next.repos.last()))
            }
        }
    }

    /// With the next event, which happened at a given time.
    pub open spec fn with_event(self, a: Arrays, time: Option<Seq<char>>) -> Result<
        Rebuilt,
        DecodeError,
    > {
        let i = self.events.len() as int;
        let id = unsigned(signed(self.prev_id).wrapping_add(a.id_deltas[i]));
        match time {
            None => Err(DecodeError::InvalidTimestamp),
            Some(created_at) => match self.with_repo(a) {
                Err(e) => Err(e),
                Ok((next, (repo_id, repo_name))) => Ok(
                    Rebuilt {
                        prev_id: id,
                        events: self.events.push(
                            Event {
                                id: decimal(id as int),
                                event_type: name_of_type(a.types[i] as int),
                                repo_id,
                                repo_name,
                                repo_url: url_of(repo_name),
                                created_at,
                            },
                        ),
                        ..next
                    },
                ),
            },
        }
    }
}

/// What has been rebuilt after `n` events, or why one of them cannot be.
pub open spec fn rebuilt(a: Arrays, times: Seq<Option<Seq<char>>>, n: int) -> Result<
    Rebuilt,
    DecodeError,
>
    decreases n,
{
    if n <= 0 {
        Ok(Rebuilt::start())
    } else {
        match rebuilt(a, times, n - 1) {
            Err(e) => Err(e),
            Ok(before) => before.with_event(a, times[n - 1]),
        }
    }
}

/// The events in arrays, which happened at given times.
pub open spec fn events_at(a: Arrays, times: Seq<Option<Seq<char>>>) -> Result<
    Seq<Event>,
    DecodeError,
> {
    match rebuilt(a, times, a.id_deltas.len() as int) {
        Err(e) => Err(e),
        Ok(all) => Ok(all.events),
    }
}

/// Times as text.
pub open spec fn time_texts(times: Seq<i64>) -> Seq<Option<Seq<char>>> {
    Seq::new(times.len(), |i: int| utc_text(times[i]))
}

/// The events in arrays.
pub open spec fn events_in(a: Arrays) -> Result<Seq<Event>, DecodeError> {
    events_at(a, time_texts(times_from(a.ts_deltas, a.ts_deltas.len() as int)))
}

/// The characters of texts that may be missing.
pub open spec fn optional_texts(texts: Seq<Option<String>>) -> Seq<Option<Seq<char>>> {
    Seq::new(
        texts.len(),
        |i: int|
            match texts[i] {
                Some(text) => Some(text@),
                None => None,
            },
    )
}

/// Adds up the differences between times.
fn sum_times(deltas: &Vec<i64>) -> (r: Vec<i64>)
    ensures
        r@ == times_from(deltas@, deltas@.len() as int),
{
    let mut times: Vec<i64> = Vec::new();
    let mut i: usize = 0;
    while i < deltas.len()
        invariant
            i <= deltas.len(),
            times.len() == i,
            times@ == times_from(deltas@, i as int),
        decreases deltas.len() - i,
    {
        let base: i64 = if i == 0 {
            0
        } else if i == 1 || times[i - 1] >= times[i - 2] {
            times[i - 1]
        } else {
            times[i - 2]
        };
        times.push(base.wrapping_add(deltas[i]));
        i = i + 1;
    }
    times
}

/// Writes times as text.
fn write_times(times: &Vec<i64>) -> (r: Vec<Option<String>>)
    ensures
        optional_texts(r@) == time_texts(times@),
{
    let mut texts: Vec<Option<String>> = Vec::new();
    let mut i: usize = 0;
    while i < times.len()
        invariant
            i <= times.len(),
            texts.len() == i,
            forall|k: int|
                0 <= k < i ==> #[trigger] optional_texts(texts@)[k] == utc_text(times@[k]),
        decreases times.len() - i,
    {
        let ghost before = texts@;
        let text: Option<String> = format_utc(times[i], TIME_FORMAT);
        texts.push(text);
        i = i + 1;
        assert forall|k: int| 0 <= k < i implies #[trigger] optional_texts(texts@)[k] == utc_text(
            times@[k],
        ) by {
            if k < i - 1 {
                assert(optional_texts(texts@)[k] == optional_texts(before)[k]);
            }
        }
    }
    assert(optional_texts(texts@) =~= time_texts(times@));
    texts
}

/// The repositories and owners that have come.
struct Rebuilder {
    prev_id: u64,
    repos: Vec<(u64, String)>,
    owners: usize,
    events: Vec<(EventKey, EventValue)>,
}

impl View for Rebuilder {
    type V = Rebuilt;

    closed spec fn view(&self) -> Rebuilt {
        Rebuilt {
            prev_id: self.prev_id,
            repos: Seq::new(self.repos@.len(), |i: int| (self.repos@[i].0, self.repos@[i].1@)),
            owners: self.owners as int,
            events: events_of(self.events@),
        }
    }
}

impl Rebuilder {
    fn new() -> (r: Self)
        ensures
            r@ == Rebuilt::start(),
    {
        let r: Rebuilder = Rebuilder {
            prev_id: 0,
            repos: Vec::new(),
            owners: 0,
            events: Vec::new(),
        };
        assert(r@ =~= Rebuilt::start());
        r
    }

    /// Adds the next repository, of a given owner.
    fn add_new_repo(&mut self, arrays: &EventArrays, owner: &str)
        requires
            arrays@.wf(),
            old(self)@.repos.len() < arrays@.repo_ids.len(),
        ensures
            final(self)@ == old(self)@.with_new_repo(arrays@, owner@),
    {
        let ghost before = self@;
        let n: usize = self.repos.len();
        assert(arrays@.names.len() == arrays.names@.len());
        let name: String = restore(owner, arrays.names[n].as_str());
        let full: String = join_name(owner, name.as_str());
        self.repos.push((arrays.repo_ids[n] as u64, full));
        assert(self@ =~= before.with_new_repo(arrays@, owner@));
    }

    /// Finds the repository of the next event.
    fn add_repo(&mut self, arrays: &EventArrays) -> (r: Result<(u64, String), DecodeError>)
        requires
            arrays@.wf(),
            old(self)@.events.len() < arrays@.backrefs.len(),
            old(self)@.owners <= arrays@.owners.len(),
        ensures
            match r {
                Ok((id, name)) => old(self)@.with_repo(arrays@) == Ok::<_, DecodeError>(
                    (final(self)@, (id, name@)),
                ) && final(self)@.owners <= arrays@.owners.len(),
                Err(e) => old(self)@.with_repo(arrays@) == Err::<(Rebuilt, (u64, Seq<char>)), _>(
                    e,
                ),
            },
    {
        let ghost before = self@;
        let event: usize = self.events.len();
        let backref: u64 = arrays.backrefs[event];
        assert(arrays@.owners.len() == arrays.owners@.len());
        if backref == 0 {
            if self.repos.len() >= arrays.repo_ids.len() {
                return Err(DecodeError::MissingRepo { event });
            }
            if self.owners >= arrays.owners.len() {
                return Err(
                    DecodeError::MissingOwner {
                        owner: self.owners,
                        owners: arrays.owners.len(),
                        event,
                    },
                );
            }
            self.add_new_repo(arrays, arrays.owners[self.owners].as_str());
            self.owners = self.owners + 1;
            let last: usize = self.repos.len() - 1;
            assert(self@ =~= before.with_repo(arrays@)->Ok_0.0);
            Ok((self.repos[last].0, self.repos[last].1.clone()))
        } else if backref % 2 == 0 {
            let n: u64 = backref / 2 - 1;
            if n >= self.repos.len() as u64 {
                return Err(
                    DecodeError::InvalidRepoRef { backref, event, repos: self.repos.len() },
                );
            }
            Ok((self.repos[n as usize].0, self.repos[n as usize].1.clone()))
        } else {
            if self.repos.len() >= arrays.repo_ids.len() {
                return Err(DecodeError::MissingRepo { event });
            }
            let owner_index: u64 = backref / 2;
            if owner_index >= self.owners as u64 {
                return Err(
                    DecodeError::InvalidOwnerRef {
                        owner_index,
                        backref,
                        event,
                        owners: self.owners,
                    },
                );
            }
            self.add_new_repo(arrays, arrays.owners[owner_index as usize].as_str());
            let last: usize = self.repos.len() - 1;
            Ok((self.repos[last].0, self.repos[last].1.clone()))
        }
    }

    /// Adds the next event.
    fn add_event(&mut self, arrays: &EventArrays, time: &Option<String>) -> (r: Result<
        (),
        DecodeError,
    >)
        requires
            arrays@.wf(),
            old(self)@.events.len() < arrays@.id_deltas.len(),
            old(self)@.owners <= arrays@.owners.len(),
        ensures
            ({
                let created_at = match time {
                    Some(text) => Some(text@),
                    None => None,
                };
                match r {
                    Ok(()) => old(self)@.with_event(arrays@, created_at) == Ok::<_, DecodeError>(
                        final(self)@,
                    ) && final(self)@.owners <= arrays@.owners.len(),
                    Err(e) => old(self)@.with_event(arrays@, created_at) == Err::<Rebuilt, _>(e),
                }
            }),
    {
        let ghost before = self@;
        let i: usize = self.events.len();
        let id: u64 = to_unsigned(to_signed(self.prev_id).wrapping_add(arrays.id_deltas[i]));
        let created_at: String = match time {
            Some(text) => text.clone(),
            None => {
                return Err(DecodeError::InvalidTimestamp);
            },
        };
        assert(arrays@.types[i as int] < 16);
        let event_type: &'static str = get_type_from_index(arrays.types[i]).unwrap();
        let (repo_id, repo_name) = self.add_repo(arrays)?;
        let ghost found = self@;
        let mut url_chars: Vec<char> = chars_of("https://api.github.com/repos/");
        let mut name_chars: Vec<char> = chars_of(repo_name.as_str());
        url_chars.append(&mut name_chars);
        let url: String = text_of(&url_chars);
        self.prev_id = id;
        let ghost entries = self.events@;
        let key: EventKey = EventKey { id: to_decimal(id), event_type: event_type.to_owned() };
        let value: EventValue = EventValue {
            repo: Repo { id: repo_id, name: repo_name, url },
            created_at,
        };
        self.events.push((key, value));
        proof {
            assert(events_of(self.events@) =~= events_of(entries).push(event_of((key, value))));
            let time = Some(created_at@);
            assert(self@ =~= before.with_event(arrays@, time)->Ok_0);
        }
        Ok(())
    }
}

/// An event that cannot be rebuilt decides for all events.
pub proof fn lemma_rebuilt_stops(a: Arrays, times: Seq<Option<Seq<char>>>, n: int, m: int)
    requires
        0 <= n <= m,
        rebuilt(a, times, n) is Err,
    ensures
        rebuilt(a, times, m) == rebuilt(a, times, n),
    decreases m - n,
{
    if n < m {
        lemma_rebuilt_stops(a, times, n, m - 1);
    }
}

/// Joins the values in arrays to entries, where the events happened at given times. A time that
/// is missing was out of range.
pub fn join_events(arrays: &EventArrays, times: &Vec<Option<String>>) -> (r: Result<
    Vec<(EventKey, EventValue)>,
    DecodeError,
>)
    requires
        arrays@.wf(),
        times.len() == arrays.id_deltas.len(),
    ensures
        match r {
            Ok(entries) => events_at(arrays@, optional_texts(times@)) == Ok::<_, DecodeError>(
                events_of(entries@),
            ),
            Err(e) => events_at(arrays@, optional_texts(times@)) == Err::<Seq<Event>, _>(e),
        },
{
    let ghost texts = optional_texts(times@);
    let mut rebuilder: Rebuilder = Rebuilder::new();
    let n: usize = arrays.id_deltas.len();
    let mut i: usize = 0;
    while i < n
        invariant
            i <= n,
            n == arrays@.id_deltas.len(),
            n == times.len(),
            texts == optional_texts(times@),
            arrays@.wf(),
            rebuilder@.events.len() == i,
            rebuilder@.owners <= arrays@.owners.len(),
            rebuilt(arrays@, texts, i as int) == Ok::<_, DecodeError>(rebuilder@),
        decreases n - i,
    {
        match rebuilder.add_event(arrays, &times[i]) {
            Ok(()) => {},
            Err(e) => {
                proof {
                    lemma_rebuilt_stops(arrays@, texts, i + 1, n as int);
                }
                return Err(e);
            },
        }
        i = i + 1;
    }
    Ok(rebuilder.events)
}

/// Rebuilds entries from arrays.
pub fn rebuild_events(arrays: &EventArrays) -> (r: Result<
    Vec<(EventKey, EventValue)>,
    DecodeError,
>)
    requires
        arrays@.wf(),
    ensures
        match r {
            Ok(entries) => events_in(arrays@) == Ok::<_, DecodeError>(events_of(entries@)),
            Err(e) => events_in(arrays@) == Err::<Seq<Event>, _>(e),
        },
{
    let times: Vec<i64> = sum_times(&arrays.ts_deltas);
    let texts: Vec<Option<String>> = write_times(&times);
    proof {
        lemma_times_len(arrays@.ts_deltas, arrays@.ts_deltas.len() as int);
        assert(optional_texts(texts@).len() == texts.len());
    }
    join_events(arrays, &texts)
}

/// There are as many times as differences.
proof fn lemma_times_len(deltas: Seq<i64>, n: int)
    requires
        0 <= n,
    ensures
        times_from(deltas, n).len() == n,
    decreases n,
{
    if n > 0 {
        lemma_times_len(deltas, n - 1);
    }
}

} // verus!
