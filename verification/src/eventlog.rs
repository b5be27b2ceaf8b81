//! The event log: the durable, replayable record of every event ever
//! applied, keyed by event identifier. Appending is logical: a new
//! identifier adds an entry, a repeated identifier replaces its entry, so
//! the log is a mapping from identifier to event. The log is the source of
//! truth for reconstructing slice state; iteration order on reload is not
//! storage order, so recovery sorts by creation time before replay.

use vstd::prelude::*;
use crate::document::str_eq;
use crate::event::{evs, ids_unique, sorted_events, sort_events_spec, Event, EventV};

verus! {

/// Some event of the sequence carries the identifier.
pub open spec fn has_id(s: Seq<EventV>, id: Seq<char>) -> bool {
    exists|i: int| 0 <= i < s.len() && (#[trigger] s[i]).id == id
}

/// The index of the event carrying the identifier.
pub open spec fn id_index(s: Seq<EventV>, id: Seq<char>) -> int {
    choose|i: int| 0 <= i < s.len() && (#[trigger] s[i]).id == id
}

/// Under unique identifiers, every index carrying the identifier is
/// `id_index`.
pub proof fn lemma_id_index_unique(s: Seq<EventV>, id: Seq<char>)
    requires
        ids_unique(s),
        has_id(s, id),
    ensures
        0 <= id_index(s, id) < s.len(),
        s[id_index(s, id)].id == id,
        forall|i: int| 0 <= i < s.len() && (#[trigger] s[i]).id == id ==> i == id_index(s, id),
{
    let i0 = id_index(s, id);
    assert(0 <= i0 < s.len() && s[i0].id == id);
    assert forall|i: int| 0 <= i < s.len() && (#[trigger] s[i]).id == id implies i == i0 by {
        if i < i0 {
            assert(s[i].id != s[i0].id);
        } else if i > i0 {
            assert(s[i0].id != s[i].id);
        }
    }
}

/// The durable mapping from event identifier to event.
pub struct EventLog {
    pub events: Vec<Event>,
}

impl EventLog {
    /// The model of the log: its events in storage order.
    pub open spec fn view_events(self) -> Seq<EventV> {
        evs(self.events@)
    }

    /// A well-formed log: no two entries share an identifier.
    pub open spec fn wf(self) -> bool {
        ids_unique(self.view_events())
    }

    /// An empty log: a new installation, not an error.
    pub fn new() -> (r: EventLog)
        ensures
            r.view_events() == Seq::<EventV>::empty(),
            r.wf(),
    {
        let r = EventLog { events: Vec::new() };
        proof {
            assert(r.view_events() =~= Seq::<EventV>::empty());
        }
        r
    }

    /// Records an event under its identifier: a new identifier is added, a
    /// repeated identifier replaces its entry.
    #[verifier::loop_isolation(false)]
    pub fn append(&mut self, e: Event)
        requires
            old(self).wf(),
        ensures
            final(self).wf(),
            final(self).view_events() == if has_id(old(self).view_events(), e@.id) {
                old(self).view_events().update(id_index(old(self).view_events(), e@.id), e@)
            } else {
                old(self).view_events().push(e@)
            },
    {
        let ghost s0 = self.view_events();
        let n = self.events.len();
        let mut i: usize = 0;
        while i < n
            invariant
                i <= n,
                n == self.events@.len(),
                self.view_events() == s0,
                forall|j: int| 0 <= j < i ==> (#[trigger] s0[j]).id != e@.id,
            decreases n - i,
        {
            let hit = str_eq(self.events[i].id.as_str(), e.id.as_str());
            proof {
                assert(s0[i as int] == self.events@[i as int]@);
            }
            if hit {
                proof {
                    lemma_id_index_unique(s0, e@.id);
                }
                self.events.set(i, e);
                proof {
                    let s1 = self.view_events();
                    assert(s1 =~= s0.update(i as int, e@));
                    assert forall|a: int, b: int| 0 <= a < b < s1.len() implies (
                    #[trigger] s1[a]).id != (#[trigger] s1[b]).id by {
                        if a != i && b != i {
                            assert(s1[a] == s0[a] && s1[b] == s0[b]);
                        } else if a == i {
                            assert(s0[b].id != s0[i as int].id);
                        } else {
                            assert(s0[a].id != s0[i as int].id);
                        }
                    }
                }
                return;
            }
            i = i + 1;
        }
        self.events.push(e);
        proof {
            let s1 = self.view_events();
            assert(s1 =~= s0.push(e@));
            if has_id(s0, e@.id) {
                let w = choose|x: int| 0 <= x < s0.len() && (#[trigger] s0[x]).id == e@.id;
                assert(false);
            }
            assert forall|a: int, b: int| 0 <= a < b < s1.len() implies (#[trigger] s1[a]).id != (
            #[trigger] s1[b]).id by {
                if b < s0.len() {
                    assert(s1[a] == s0[a] && s1[b] == s0[b]);
                } else {
                    assert(s1[b] == e@);
                    assert(s1[a] == s0[a]);
                }
            }
        }
    }

    /// The number of recorded events.
    pub fn len(&self) -> (r: usize)
        ensures
            r == self.view_events().len(),
    {
        self.events.len()
    }

    /// The recorded events arranged into replay order: ascending creation
    /// time, ties broken by identifier.
    pub fn sorted(&self) -> (r: Vec<Event>)
        ensures
            evs(r@) == sort_events_spec(self.view_events()),
    {
        sorted_events(&self.events)
    }
}

} // verus!
