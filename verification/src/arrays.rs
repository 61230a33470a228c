//! Events as a struct of arrays.
//!
//! Values of the same kind stand next to each other, and mostly as the difference to what came
//! before them.

use vstd::prelude::*;

verus! {

/// Events, split by the kind of their values.
pub struct EventArrays {
    /// The number of each event less that of the event before it.
    pub id_deltas: Vec<i64>,
    /// The time of each event less the later of the two before it.
    pub ts_deltas: Vec<i64>,
    /// The number of the type of each event.
    pub types: Vec<u8>,
    /// Where the repository of each event is found: 0 for a new repository of a new owner,
    /// `2n + 1` for a new repository of the owner number `n`, `2n + 2` for the repository number
    /// `n`.
    pub backrefs: Vec<u64>,
    /// The numbers of the new repositories.
    pub repo_ids: Vec<u32>,
    /// The new owners.
    pub owners: Vec<String>,
    /// The shortened names of the new repositories.
    pub names: Vec<String>,
}

/// The mathematical model of `EventArrays`.
#[verifier::ext_equal]
pub ghost struct Arrays {
    /// The differences of the numbers of the events.
    pub id_deltas: Seq<i64>,
    /// The differences of the times of the events.
    pub ts_deltas: Seq<i64>,
    /// The types of the events.
    pub types: Seq<u8>,
    /// Where the repositories of the events are found.
    pub backrefs: Seq<u64>,
    /// The numbers of the new repositories.
    pub repo_ids: Seq<u32>,
    /// The new owners.
    pub owners: Seq<Seq<char>>,
    /// The shortened names of the new repositories.
    pub names: Seq<Seq<char>>,
}

/// The characters of some texts.
pub open spec fn texts_of(texts: Seq<String>) -> Seq<Seq<char>> {
    Seq::new(texts.len(), |i: int| texts[i]@)
}

impl View for EventArrays {
    type V = Arrays;

    open spec fn view(&self) -> Arrays {
        Arrays {
            id_deltas: self.id_deltas@,
            ts_deltas: self.ts_deltas@,
            types: self.types@,
            backrefs: self.backrefs@,
            repo_ids: self.repo_ids@,
            owners: texts_of(self.owners@),
            names: texts_of(self.names@),
        }
    }
}

impl Arrays {
    /// All events have all values, the types are known, and the new repositories have names.
    pub open spec fn wf(self) -> bool {
        &&& self.ts_deltas.len() == self.id_deltas.len()
        &&& self.types.len() == self.id_deltas.len()
        &&& self.backrefs.len() == self.id_deltas.len()
        &&& forall|i: int| 0 <= i < self.types.len() ==> #[trigger] self.types[i] < 16
        &&& self.names.len() == self.repo_ids.len()
    }
}

/// How many of the first `n` references are to new owners.
pub open spec fn new_owners(backrefs: Seq<u64>, n: int) -> int
    decreases n,
{
    if n <= 0 {
        0
    } else {
        new_owners(backrefs, n - 1) + (if backrefs[n - 1] == 0 {
            1int
        } else {
            0
        })
    }
}

} // verus!
