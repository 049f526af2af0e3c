//! The versioned event snapshot that searches read.

use vstd::prelude::*;

use crate::models::PkaEvent;

verus! {

/// An immutable, versioned copy of every event, answered from without a trip
/// to the event store. A refresh builds a new snapshot and swaps it in whole.
pub struct Snapshot {
    version: u64,
    events: Vec<PkaEvent>,
}

/// The version that follows `v` (wrapping after the largest).
pub open spec fn next_version(v: u64) -> u64 {
    if v == u64::MAX {
        0
    } else {
        (v + 1) as u64
    }
}

impl Snapshot {
    pub closed spec fn spec_version(&self) -> u64 {
        self.version
    }

    pub closed spec fn spec_events(&self) -> Seq<PkaEvent> {
        self.events@
    }

    /// The snapshot a process starts with: version 0, no events.
    pub fn empty() -> (r: Snapshot)
        ensures
            r.spec_version() == 0,
            r.spec_events().len() == 0,
    {
        Snapshot { version: 0, events: Vec::new() }
    }

    pub fn version(&self) -> (r: u64)
        ensures
            r == self.spec_version(),
    {
        self.version
    }

    pub fn events(&self) -> (r: &Vec<PkaEvent>)
        ensures
            r@ == self.spec_events(),
    {
        &self.events
    }

    /// The snapshot that replaces this one after a reload. A failed load
    /// (`None`) replaces nothing: the current snapshot stays in place. A
    /// successful one installs exactly the loaded events under the next
    /// version.
    pub fn refresh(&self, loaded: Option<Vec<PkaEvent>>) -> (r: Option<Snapshot>)
        ensures
            loaded is None <==> r is None,
            r is Some ==> r->0.spec_events() == loaded->0@ && r->0.spec_version() == next_version(
                self.spec_version(),
            ),
    {
        match loaded {
            None => None,
            Some(events) => {
                let version = if self.version == u64::MAX {
                    0
                } else {
                    self.version + 1
                };
                Some(Snapshot { version, events })
            },
        }
    }
}

} // verus!
