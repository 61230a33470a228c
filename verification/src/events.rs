//! Events of the timeline.

use vstd::prelude::*;
use crate::text::same_text;

verus! {

/// What identifies an event.
#[derive(Debug, Clone, PartialEq, Eq, PartialOrd, Ord, Hash)]
pub struct EventKey {
    /// The number of the event, in decimal notation.
    pub id: String,
    /// The name of the event's type.
    pub event_type: String,
}

/// A repository.
#[derive(Debug, Clone, PartialEq, Eq)]
pub struct Repo {
    /// The number of the repository.
    pub id: u64,
    /// The owner and the name of the repository, with a slash between them.
    pub name: String,
    /// Where the repository is found.
    pub url: String,
}

/// What is known of an event.
#[derive(Debug, Clone, PartialEq, Eq)]
pub struct EventValue {
    /// The repository that the event belongs to.
    pub repo: Repo,
    /// When the event happened.
    pub created_at: String,
}

/// The mathematical model of an event.
#[verifier::ext_equal]
pub ghost struct Event {
    /// The number of the event, in decimal notation.
    pub id: Seq<char>,
    /// The name of the event's type.
    pub event_type: Seq<char>,
    /// The number of the repository.
    pub repo_id: u64,
    /// The owner and the name of the repository.
    pub repo_name: Seq<char>,
    /// Where the repository is found.
    pub repo_url: Seq<char>,
    /// When the event happened.
    pub created_at: Seq<char>,
}

/// The model of a key and its value.
pub open spec fn event_of(entry: (EventKey, EventValue)) -> Event {
    Event {
        id: entry.0.id@,
        event_type: entry.0.event_type@,
        repo_id: entry.1.repo.id,
        repo_name: entry.1.repo.name@,
        repo_url: entry.1.repo.url@,
        created_at: entry.1.created_at@,
    }
}

/// The models of keys and values.
pub open spec fn events_of(entries: Seq<(EventKey, EventValue)>) -> Seq<Event> {
    Seq::new(entries.len(), |i: int| event_of(entries[i]))
}

/// The names of the types, in alphabetical order.
pub const EVENT_TYPES: [&'static str; 16] = [
    "CommitCommentEvent",
    "CreateEvent",
    "DeleteEvent",
    "DiscussionEvent",
    "ForkEvent",
    "GollumEvent",
    "IssueCommentEvent",
    "IssuesEvent",
    "MemberEvent",
    "PublicEvent",
    "PullRequestEvent",
    "PullRequestReviewCommentEvent",
    "PullRequestReviewEvent",
    "PushEvent",
    "ReleaseEvent",
    "WatchEvent",
];

/// The name of the type number `i`.
pub open spec fn name_of_type(i: int) -> Seq<char> {
    EVENT_TYPES[i]@
}

/// The number of the type with a name.
pub open spec fn number_of_type(name: Seq<char>) -> Option<u8> {
    if exists|i: int| 0 <= i < 16 && #[trigger] name_of_type(i) == name {
        Some((choose|i: int| 0 <= i < 16 && #[trigger] name_of_type(i) == name) as u8)
    } else {
        None
    }
}

/// No two types have the same name.
proof fn lemma_type_names_differ(i: int, j: int)
    requires
        0 <= i < j < 16,
    ensures
        name_of_type(i) != name_of_type(j),
{
    reveal_strlit("CommitCommentEvent");
    reveal_strlit("CreateEvent");
    reveal_strlit("DeleteEvent");
    reveal_strlit("DiscussionEvent");
    reveal_strlit("ForkEvent");
    reveal_strlit("GollumEvent");
    reveal_strlit("IssueCommentEvent");
    reveal_strlit("IssuesEvent");
    reveal_strlit("MemberEvent");
    reveal_strlit("PublicEvent");
    reveal_strlit("PullRequestEvent");
    reveal_strlit("PullRequestReviewCommentEvent");
    reveal_strlit("PullRequestReviewEvent");
    reveal_strlit("PushEvent");
    reveal_strlit("ReleaseEvent");
    reveal_strlit("WatchEvent");
    let a = name_of_type(i);
    let b = name_of_type(j);
    assert(a.len() != b.len() || a[0] != b[0] || a[1] != b[1]);
}

/// The number of a type leads to its name, and back.
pub proof fn law_type_numbers(i: int)
    requires
        0 <= i < 16,
    ensures
        number_of_type(name_of_type(i)) == Some(i as u8),
{
    let k = choose|k: int| 0 <= k < 16 && #[trigger] name_of_type(k) == name_of_type(i);
    if k < i {
        lemma_type_names_differ(k, i);
    } else if i < k {
        lemma_type_names_differ(i, k);
    }
}

/// The number that a name has is that of a type with this name.
pub proof fn lemma_number_of_type(name: Seq<char>)
    ensures
        match number_of_type(name) {
            Some(i) => i < 16 && name_of_type(i as int) == name,
            None => true,
        },
{
}

/// Finds the number of the type with a name.
pub fn get_type_index(type_str: &str) -> (r: Option<u8>)
    ensures
        r == number_of_type(type_str@),
{
    let mut i: usize = 0;
    while i < 16
        invariant
            i <= 16,
            forall|k: int| 0 <= k < i ==> #[trigger] name_of_type(k) != type_str@,
        decreases 16 - i,
    {
        if same_text(EVENT_TYPES[i], type_str) {
            proof {
                law_type_numbers(i as int);
            }
            return Some(i as u8);
        }
        i = i + 1;
    }
    None
}

/// Gets the name of the type with a number.
pub fn get_type_from_index(index: u8) -> (r: Option<&'static str>)
    ensures
        match r {
            Some(name) => index < 16 && name@ == name_of_type(index as int),
            None => index >= 16,
        },
{
    if index < 16 {
        Some(EVENT_TYPES[index as usize])
    } else {
        None
    }
}

/// The types that are known, each with its number.
pub proof fn law_type_names()
    ensures
        name_of_type(0) == "CommitCommentEvent"@,
        name_of_type(1) == "CreateEvent"@,
        name_of_type(2) == "DeleteEvent"@,
        name_of_type(3) == "DiscussionEvent"@,
        name_of_type(4) == "ForkEvent"@,
        name_of_type(5) == "GollumEvent"@,
        name_of_type(6) == "IssueCommentEvent"@,
        name_of_type(7) == "IssuesEvent"@,
        name_of_type(8) == "MemberEvent"@,
        name_of_type(9) == "PublicEvent"@,
        name_of_type(10) == "PullRequestEvent"@,
        name_of_type(11) == "PullRequestReviewCommentEvent"@,
        name_of_type(12) == "PullRequestReviewEvent"@,
        name_of_type(13) == "PushEvent"@,
        name_of_type(14) == "ReleaseEvent"@,
        name_of_type(15) == "WatchEvent"@,
{
}

/// A name has a number just where it is that of a known type, and then that type's.
pub proof fn law_known_types(name: Seq<char>)
    ensures
        match number_of_type(name) {
            Some(n) => n < 16 && name_of_type(n as int) == name,
            None => forall|i: int| 0 <= i < 16 ==> #[trigger] name_of_type(i) != name,
        },
{
    lemma_number_of_type(name);
}

} // verus!
