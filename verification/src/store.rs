//! The store: the machine together with its event log, and the recovery
//! protocol. At startup every slice begins at its registry-declared
//! initial value, a one-time internal initialization event is consumed
//! (and excluded from the log, so it is never replayed redundantly), the
//! recovered events are sorted by creation time ascending — ties broken by
//! identifier — and replayed one by one; only after replay has caught up is
//! the store handed back, so persistence listeners never see historical
//! events a second time. Live dispatching mints the canonical envelope,
//! consumes it, and records every successfully applied event in the log.

use vstd::prelude::*;
use vstd::string::*;
use crate::document::{dv, wf_doc, DocV, Document};
use crate::event::{
    evs, ids_unique, mint_event, sort_events_spec, Event, EventV,
};
use crate::eventlog::{has_id, id_index, EventLog};
use crate::machine::{
    changed_slices, changes_v, consume_slices, Change, ConsumeError, Machine,
};
use crate::registry::{reg_wf, RegEntryV, Registry};

verus! {

/// Every event's payload is well-formed.
pub open spec fn payloads_wf(s: Seq<EventV>) -> bool {
    forall|i: int| 0 <= i < s.len() ==> wf_doc((#[trigger] s[i]).payload)
}

/// The slice map a registry declares: every slice at its initial value.
pub open spec fn initial_slices(reg: Seq<RegEntryV>) -> Seq<(Seq<char>, DocV)> {
    Seq::new(reg.len(), |i: int| (reg[i].name, reg[i].initial))
}

/// What replaying a sequence of events over a slice map computes: each
/// event consumed in turn, stopping at the first reducer failure.
pub open spec fn replay_slices(
    s: Seq<(Seq<char>, DocV)>,
    reg: Seq<RegEntryV>,
    events: Seq<EventV>,
) -> Result<Seq<(Seq<char>, DocV)>, Seq<char>>
    decreases events.len(),
{
    if events.len() == 0 {
        Ok(s)
    } else {
        match consume_slices(s, reg, events[0]) {
            Ok(s2) => replay_slices(s2, reg, events.drop_first()),
            Err(n) => Err(n),
        }
    }
}

/// The shape of the internal initialization event: its type tag and empty
/// payload; its identifier and time are minted like any event's.
pub open spec fn init_event_shape(e: EventV) -> bool {
    &&& e.typ == "app_initialized"@
    &&& e.payload == DocV::Null
}

/// What startup computes, given the minted initialization event: the
/// declared initial slices, stepped by the initialization event, then by
/// the recovered events in replay order.
pub open spec fn startup_relation(
    reg: Seq<RegEntryV>,
    logged: Seq<EventV>,
    init: EventV,
    out: Result<Seq<(Seq<char>, DocV)>, Seq<char>>,
) -> bool {
    match consume_slices(initial_slices(reg), reg, init) {
        Ok(s1) => out == replay_slices(s1, reg, sort_events_spec(logged)),
        Err(n) => out == Err::<Seq<(Seq<char>, DocV)>, Seq<char>>(n),
    }
}

/// Replays events over a machine: sorts them into replay order, consumes
/// each in turn and discards the intermediate snapshots and change lists —
/// replay is a pure recompute, so no listener work is triggered for
/// historical events.
#[verifier::loop_isolation(false)]
pub fn replay(machine: &mut Machine, events: &Vec<Event>) -> (r: Result<(), ConsumeError>)
    requires
        old(machine).wf(),
        payloads_wf(evs(events@)),
    ensures
        final(machine).reducers == old(machine).reducers,
        final(machine).wf(),
        match r {
            Ok(_) => replay_slices(
                old(machine).slices(),
                old(machine).reducers@,
                sort_events_spec(evs(events@)),
            ) == Ok::<Seq<(Seq<char>, DocV)>, Seq<char>>(final(machine).slices()),
            Err(err) => replay_slices(
                old(machine).slices(),
                old(machine).reducers@,
                sort_events_spec(evs(events@)),
            ) == Err::<Seq<(Seq<char>, DocV)>, Seq<char>>(err.slice@),
        },
{
    broadcast use vstd::seq_lib::group_to_multiset_ensures;

    let sorted = crate::event::sorted_events(events);
    let ghost sv = evs(sorted@);
    proof {
        crate::event::lemma_sort_spec_ensures(evs(events@));
        assert forall|i: int| 0 <= i < sv.len() implies wf_doc((#[trigger] sv[i]).payload) by {
            assert(sv.to_multiset().contains(sv[i])) by {
                assert(sv.contains(sv[i]));
            }
            assert(evs(events@).to_multiset().contains(sv[i]));
            assert(evs(events@).contains(sv[i]));
            let w = choose|w: int| 0 <= w < evs(events@).len() && evs(events@)[w] == sv[i];
        }
    }
    let n = sorted.len();
    let mut i: usize = 0;
    proof {
        assert(sv.skip(0) =~= sv);
    }
    while i < n
        invariant
            i <= n,
            n == sorted@.len(),
            sv == evs(sorted@),
            machine.wf(),
            machine.reducers == old(machine).reducers,
            replay_slices(old(machine).slices(), old(machine).reducers@, sv) == replay_slices(
                machine.slices(),
                machine.reducers@,
                sv.skip(i as int),
            ),
        decreases n - i,
    {
        proof {
            assert(sv.skip(i as int)[0] == sv[i as int]);
            assert(sv.skip(i as int).drop_first() =~= sv.skip(i as int + 1));
            assert(sv[i as int] == sorted@[i as int]@);
        }
        match machine.consume(&sorted[i]) {
            Ok(_) => {
                // The intermediate snapshot and change list are discarded.
            },
            Err(err) => {
                return Err(err);
            },
        }
        i = i + 1;
    }
    proof {
        assert(sv.skip(n as int) =~= Seq::<EventV>::empty());
    }
    Ok(())
}

/// The machine and its durable event log.
pub struct Store {
    pub machine: Machine,
    pub log: EventLog,
}

impl Store {
    /// A well-formed store.
    pub open spec fn wf(self) -> bool {
        &&& self.machine.wf()
        &&& self.log.wf()
    }

    /// Startup and recovery. The recovered events come from the durable
    /// log, a mapping keyed by identifier, so their identifiers are unique;
    /// an empty sequence is a new installation, not an error. Every slice
    /// starts at its registry-declared initial value, the internal
    /// initialization event is consumed once without being logged, and the
    /// recovered events are replayed in creation-time order.
    pub fn startup(reducers: Registry, logged: Vec<Event>) -> (r: Result<Store, ConsumeError>)
        requires
            reg_wf(reducers@),
            payloads_wf(evs(logged@)),
            ids_unique(evs(logged@)),
        ensures
            match r {
                Ok(store) => {
                    &&& store.wf()
                    &&& store.machine.reducers == reducers
                    &&& store.log.view_events() == evs(logged@)
                    &&& exists|init: EventV| #[trigger]
                        init_event_shape(init) && startup_relation(
                            reducers@,
                            evs(logged@),
                            init,
                            Ok(store.machine.slices()),
                        )
                },
                Err(err) => exists|init: EventV| #[trigger]
                    init_event_shape(init) && startup_relation(
                        reducers@,
                        evs(logged@),
                        init,
                        Err(err.slice@),
                    ),
            },
    {
        let mut machine = Machine::from_registry(reducers);
        proof {
            assert(machine.slices() =~= initial_slices(machine.reducers@));
        }
        let init = mint_event(String::from_str("app_initialized"), Document::Null);
        let ghost initv = init@;
        match machine.consume(&init) {
            Ok(_) => {},
            Err(err) => {
                proof {
                    assert(init_event_shape(initv) && startup_relation(
                        reducers@,
                        evs(logged@),
                        initv,
                        Err(err.slice@),
                    ));
                }
                return Err(err);
            },
        }
        match replay(&mut machine, &logged) {
            Ok(_) => {},
            Err(err) => {
                proof {
                    assert(init_event_shape(initv) && startup_relation(
                        reducers@,
                        evs(logged@),
                        initv,
                        Err(err.slice@),
                    ));
                }
                return Err(err);
            },
        }
        let store = Store { machine, log: EventLog { events: logged } };
        proof {
            assert(init_event_shape(initv) && startup_relation(
                reducers@,
                evs(logged@),
                initv,
                Ok(store.machine.slices()),
            ));
        }
        Ok(store)
    }

    /// The caller-facing transition: mints the canonical event envelope —
    /// the sole place identity and time are stamped — consumes it, and on
    /// success records the applied event durably under its identifier.
    /// Returns the serialized snapshot of all slices with the change
    /// notifications, or the typed failure, with no slice and no log entry
    /// committed.
    pub fn dispatch(&mut self, typ: String, payload: Document) -> (r: Result<
        (Document, Vec<Change>),
        ConsumeError,
    >)
        requires
            old(self).wf(),
            wf_doc(dv(payload)),
        ensures
            final(self).wf(),
            final(self).machine.reducers == old(self).machine.reducers,
            match r {
                Ok(sc) => exists|e: EventV|
                    {
                        &&& #[trigger] e.typ == typ@
                        &&& e.payload == dv(payload)
                        &&& consume_slices(
                            old(self).machine.slices(),
                            old(self).machine.reducers@,
                            e,
                        ) == Ok::<Seq<(Seq<char>, DocV)>, Seq<char>>(final(self).machine.slices())
                        &&& dv(sc.0) == DocV::Obj(final(self).machine.slices())
                        &&& changes_v(sc.1@) == changed_slices(
                            old(self).machine.slices(),
                            final(self).machine.slices(),
                        )
                        &&& final(self).log.view_events() == (if has_id(
                            old(self).log.view_events(),
                            e.id,
                        ) {
                            old(self).log.view_events().update(
                                id_index(old(self).log.view_events(), e.id),
                                e,
                            )
                        } else {
                            old(self).log.view_events().push(e)
                        })
                    },
                Err(err) => {
                    &&& final(self).machine.slices() == old(self).machine.slices()
                    &&& final(self).log.view_events() == old(self).log.view_events()
                    &&& exists|e: EventV|
                        {
                            &&& #[trigger] e.typ == typ@
                            &&& e.payload == dv(payload)
                            &&& consume_slices(
                                old(self).machine.slices(),
                                old(self).machine.reducers@,
                                e,
                            ) == Err::<Seq<(Seq<char>, DocV)>, Seq<char>>(err.slice@)
                        }
                },
            },
    {
        let e = mint_event(typ, payload);
        let ghost ev = e@;
        match self.machine.consume(&e) {
            Ok(sc) => {
                self.log.append(e);
                proof {
                    assert(ev.typ == typ@ && ev.payload == dv(payload));
                }
                Ok(sc)
            },
            Err(err) => {
                proof {
                    assert(ev.typ == typ@ && ev.payload == dv(payload));
                }
                Err(err)
            },
        }
    }

    /// The serialized snapshot of all slices.
    pub fn snapshot(&self) -> (r: Document)
        ensures
            dv(r) == DocV::Obj(self.machine.slices()),
    {
        self.machine.snapshot()
    }
}

} // verus!
