//! The machine: owner of the current slice values. `consume` is the single
//! state-transition entry point: it applies every registered slice's
//! reducer to the incoming event, commits the new values only if every
//! application succeeds (atomic failure), reports which slices changed so
//! that listeners can be notified once per changed slice in slice order,
//! and returns a snapshot of all slices. Slices whose reducer returns a
//! structurally equal value fire no notification; that is how irrelevant
//! events are silently absorbed.
//!
//! Listener callbacks run outside the machine, on the returned change list,
//! after the transition has committed: a listener can therefore never
//! re-enter `consume` while it is in progress. Exclusive access is enforced
//! by ownership — `consume` takes the slice map by mutable reference — so
//! all state transitions are fully serialized; a shell shared between
//! threads wraps the machine in one mutual-exclusion lock.

use vstd::prelude::*;
use vstd::string::*;
use crate::document::{dv, keys_unique, wf_doc, DocV, Document};
use crate::event::{Event, EventV};
use crate::reducers::{apply_reducer, step_slice, ReducerKind};
use crate::registry::{reg_at, reg_has, reg_wf, RegEntryV, Registry};

verus! {

/// One change notification: a slice that took a new value.
#[derive(Debug)]
pub struct Change {
    pub slice: String,
    pub value: Document,
}

/// The model of a change list.
pub open spec fn changes_v(ch: Seq<Change>) -> Seq<(Seq<char>, DocV)> {
    ch.map(|i: int, c: Change| (c.slice@, dv(c.value)))
}

/// The typed failure of a state transition: one slice's reducer could not
/// interpret the event's payload. No slice value was committed.
#[derive(Debug)]
pub struct ConsumeError {
    pub slice: String,
}

/// The model of a slice map: name and value of each slice, in order.
pub open spec fn slices_v(s: Seq<(String, Document)>) -> Seq<(Seq<char>, DocV)> {
    Seq::new(s.len(), |i: int| (s[i].0@, dv(s[i].1)))
}

/// A well-formed slice map: slice names unique, every value well-formed.
pub open spec fn slices_wf(s: Seq<(Seq<char>, DocV)>) -> bool {
    &&& keys_unique(s)
    &&& forall|i: int| 0 <= i < s.len() ==> wf_doc((#[trigger] s[i]).1)
}

/// What one slice's transition computes: the registered reducer's step, or
/// the unchanged value for a slice with no registered reducer.
pub open spec fn step_of(slice: (Seq<char>, DocV), reg: Seq<RegEntryV>, e: EventV) -> Option<
    DocV,
> {
    if reg_has(reg, slice.0) {
        step_slice(reg_at(reg, slice.0).kind, slice.1, e)
    } else {
        Some(slice.1)
    }
}

/// What a whole transition computes: every slice's next value, or the name
/// of the first slice whose reducer rejected the payload.
pub open spec fn consume_slices(
    s: Seq<(Seq<char>, DocV)>,
    reg: Seq<RegEntryV>,
    e: EventV,
) -> Result<Seq<(Seq<char>, DocV)>, Seq<char>>
    decreases s.len(),
{
    if s.len() == 0 {
        Ok(Seq::empty())
    } else {
        match step_of(s[0], reg, e) {
            None => Err(s[0].0),
            Some(v) => match consume_slices(s.drop_first(), reg, e) {
                Ok(rest) => Ok(seq![(s[0].0, v)] + rest),
                Err(n) => Err(n),
            },
        }
    }
}

/// The slices whose value changed, each with its new value, in slice order.
pub open spec fn changed_slices(
    o: Seq<(Seq<char>, DocV)>,
    n: Seq<(Seq<char>, DocV)>,
) -> Seq<(Seq<char>, DocV)>
    decreases o.len(),
{
    if o.len() == 0 || n.len() == 0 {
        Seq::empty()
    } else {
        let rest = changed_slices(o.drop_first(), n.drop_first());
        if o[0].1 == n[0].1 {
            rest
        } else {
            seq![n[0]] + rest
        }
    }
}

/// A transition taken one slice further.
pub proof fn lemma_consume_snoc(
    s: Seq<(Seq<char>, DocV)>,
    reg: Seq<RegEntryV>,
    e: EventV,
    p: (Seq<char>, DocV),
)
    ensures
        consume_slices(s.push(p), reg, e) == (match consume_slices(s, reg, e) {
            Ok(r) => match step_of(p, reg, e) {
                Some(v) => Ok::<Seq<(Seq<char>, DocV)>, Seq<char>>(r.push((p.0, v))),
                None => Err(p.0),
            },
            Err(n) => Err(n),
        }),
    decreases s.len(),
{
    if s.len() == 0 {
        assert(s.push(p)[0] == p);
        assert(s.push(p).drop_first() =~= Seq::<(Seq<char>, DocV)>::empty());
        assert(consume_slices(Seq::empty(), reg, e) == Ok::<Seq<(Seq<char>, DocV)>, Seq<char>>(
            Seq::empty(),
        ));
        match step_of(p, reg, e) {
            Some(v) => {
                assert(seq![(p.0, v)] + Seq::<(Seq<char>, DocV)>::empty() =~= Seq::<(
                    Seq<char>,
                    DocV,
                )>::empty().push((p.0, v)));
            },
            None => {},
        }
    } else {
        assert(s.push(p)[0] == s[0]);
        assert(s.push(p).drop_first() =~= s.drop_first().push(p));
        lemma_consume_snoc(s.drop_first(), reg, e, p);
        match step_of(s[0], reg, e) {
            None => {},
            Some(v) => {
                match consume_slices(s.drop_first(), reg, e) {
                    Ok(rest) => {
                        match step_of(p, reg, e) {
                            Some(w) => {
                                assert(seq![(s[0].0, v)] + rest.push((p.0, w)) =~= (seq![
                                    (s[0].0, v),
                                ] + rest).push((p.0, w)));
                            },
                            None => {},
                        }
                    },
                    Err(n) => {},
                }
            },
        }
    }
}

/// A transition that has carried some slices and then meets a reducer that
/// rejects the payload fails with that slice's name.
pub proof fn lemma_consume_err(s: Seq<(Seq<char>, DocV)>, reg: Seq<RegEntryV>, e: EventV, i: int)
    requires
        0 <= i < s.len(),
        consume_slices(s.take(i), reg, e) is Ok,
        step_of(s[i], reg, e) is None,
    ensures
        consume_slices(s, reg, e) == Err::<Seq<(Seq<char>, DocV)>, Seq<char>>(s[i].0),
    decreases i,
{
    if i == 0 {
    } else {
        assert(s.take(i)[0] == s[0]);
        assert(s.take(i).drop_first() =~= s.drop_first().take(i - 1));
        assert(step_of(s[0], reg, e) is Some);
        assert(consume_slices(s.drop_first().take(i - 1), reg, e) is Ok);
        assert(s.drop_first()[i - 1] == s[i]);
        lemma_consume_err(s.drop_first(), reg, e, i - 1);
    }
}

/// A successful transition keeps every slice's name in place and pairs it
/// with exactly what its reducer computed.
pub proof fn lemma_consume_pointwise(s: Seq<(Seq<char>, DocV)>, reg: Seq<RegEntryV>, e: EventV)
    requires
        consume_slices(s, reg, e) is Ok,
    ensures
        consume_slices(s, reg, e)->Ok_0.len() == s.len(),
        forall|i: int| 0 <= i < s.len() ==> (#[trigger] consume_slices(s, reg, e)->Ok_0[i]).0
            == s[i].0,
        forall|i: int| 0 <= i < s.len() ==> Some((#[trigger] consume_slices(s, reg, e)->Ok_0[i]).1)
            == step_of(s[i], reg, e),
    decreases s.len(),
{
    if s.len() > 0 {
        lemma_consume_pointwise(s.drop_first(), reg, e);
        let r = consume_slices(s, reg, e)->Ok_0;
        let rest = consume_slices(s.drop_first(), reg, e)->Ok_0;
        assert forall|i: int| 0 <= i < s.len() implies ((#[trigger] r[i]).0 == s[i].0 && Some(
            r[i].1,
        ) == step_of(s[i], reg, e)) by {
            if i > 0 {
                assert(r[i] == rest[i - 1]);
                assert(s.drop_first()[i - 1] == s[i]);
            }
        }
    }
}

/// A transition of well-formed slices yields well-formed slices.
pub proof fn lemma_consume_wf(s: Seq<(Seq<char>, DocV)>, reg: Seq<RegEntryV>, e: EventV)
    requires
        consume_slices(s, reg, e) is Ok,
        slices_wf(s),
        wf_doc(e.payload),
    ensures
        slices_wf(consume_slices(s, reg, e)->Ok_0),
{
    lemma_consume_pointwise(s, reg, e);
    let r = consume_slices(s, reg, e)->Ok_0;
    assert forall|i: int| 0 <= i < r.len() implies wf_doc((#[trigger] r[i]).1) by {
        crate::reducers::lemma_step_slice_wf(
            if reg_has(reg, s[i].0) {
                reg_at(reg, s[i].0).kind
            } else {
                ReducerKind::StateIdentity
            },
            s[i].1,
            e,
        );
        assert(Some(r[i].1) == step_of(s[i], reg, e));
    }
    assert forall|i: int, j: int| 0 <= i < j < r.len() implies r[i].0 != r[j].0 by {
        assert(r[i].0 == s[i].0);
        assert(r[j].0 == s[j].0);
    }
}

/// Every change notification names a slice whose value changed and carries
/// that slice's new value.
pub proof fn lemma_changed_names(o: Seq<(Seq<char>, DocV)>, n: Seq<(Seq<char>, DocV)>)
    requires
        o.len() == n.len(),
    ensures
        forall|k: int| 0 <= k < changed_slices(o, n).len() ==> exists|j: int|
            0 <= j < o.len() && #[trigger] changed_slices(o, n)[k] == n[j] && o[j].1 != n[j].1,
    decreases o.len(),
{
    if o.len() == 0 {
    } else {
        lemma_changed_names(o.drop_first(), n.drop_first());
        let ch = changed_slices(o, n);
        let rest = changed_slices(o.drop_first(), n.drop_first());
        assert forall|k: int| 0 <= k < ch.len() implies exists|j: int|
            0 <= j < o.len() && #[trigger] ch[k] == n[j] && o[j].1 != n[j].1 by {
            if o[0].1 == n[0].1 {
                assert(ch[k] == rest[k]);
                let j0 = choose|j: int|
                    0 <= j < o.drop_first().len() && #[trigger] rest[k] == n.drop_first()[j]
                        && o.drop_first()[j].1 != n.drop_first()[j].1;
                assert(ch[k] == n[j0 + 1] && o[j0 + 1].1 != n[j0 + 1].1);
            } else {
                if k == 0 {
                    assert(ch[0] == n[0] && o[0].1 != n[0].1);
                } else {
                    assert(ch[k] == rest[k - 1]);
                    let j0 = choose|j: int|
                        0 <= j < o.drop_first().len() && #[trigger] rest[k - 1] == n.drop_first()[j]
                            && o.drop_first()[j].1 != n.drop_first()[j].1;
                    assert(ch[k] == n[j0 + 1] && o[j0 + 1].1 != n[j0 + 1].1);
                }
            }
        }
    }
}

/// The change list taken one slice further.
pub proof fn lemma_changed_snoc(
    o: Seq<(Seq<char>, DocV)>,
    n: Seq<(Seq<char>, DocV)>,
    a: (Seq<char>, DocV),
    b: (Seq<char>, DocV),
)
    requires
        o.len() == n.len(),
    ensures
        changed_slices(o.push(a), n.push(b)) == changed_slices(o, n) + (if a.1 == b.1 {
            Seq::<(Seq<char>, DocV)>::empty()
        } else {
            seq![b]
        }),
    decreases o.len(),
{
    if o.len() == 0 {
        assert(o.push(a)[0] == a);
        assert(n.push(b)[0] == b);
        assert(o.push(a).drop_first() =~= Seq::<(Seq<char>, DocV)>::empty());
        assert(n.push(b).drop_first() =~= Seq::<(Seq<char>, DocV)>::empty());
        assert(changed_slices(
            Seq::<(Seq<char>, DocV)>::empty(),
            Seq::<(Seq<char>, DocV)>::empty(),
        ) == Seq::<(Seq<char>, DocV)>::empty());
        if a.1 == b.1 {
            assert(changed_slices(o, n) + Seq::<(Seq<char>, DocV)>::empty() =~= changed_slices(
                o.push(a),
                n.push(b),
            ));
        } else {
            assert(changed_slices(o.push(a), n.push(b)) =~= seq![b]);
            assert(changed_slices(o, n) + seq![b] =~= seq![b]);
        }
    } else {
        assert(o.push(a)[0] == o[0]);
        assert(n.push(b)[0] == n[0]);
        assert(o.push(a).drop_first() =~= o.drop_first().push(a));
        assert(n.push(b).drop_first() =~= n.drop_first().push(b));
        lemma_changed_snoc(o.drop_first(), n.drop_first(), a, b);
        let tail = if a.1 == b.1 {
            Seq::<(Seq<char>, DocV)>::empty()
        } else {
            seq![b]
        };
        if o[0].1 == n[0].1 {
        } else {
            assert(seq![n[0]] + (changed_slices(o.drop_first(), n.drop_first()) + tail) =~= (seq![
                n[0],
            ] + changed_slices(o.drop_first(), n.drop_first())) + tail);
        }
    }
}

/// The view of paired names and computed values.
pub open spec fn paired_v(names: Seq<(String, Document)>, vals: Seq<Document>) -> Seq<
    (Seq<char>, DocV),
> {
    Seq::new(vals.len(), |j: int| (names[j].0@, dv(vals[j])))
}

/// The single state-transition entry point over a slice map. For every
/// slice, the registered reducer is applied to `(currentValue, event)`;
/// if any reducer rejects the payload, nothing is committed and the name of
/// the first rejecting slice is reported. Otherwise every slice takes its
/// computed value, the slices whose value changed are reported in slice
/// order with their new values, and a snapshot of all post-transition
/// slices is returned.
#[verifier::loop_isolation(false)]
pub fn consume(event: &Event, data: &mut Vec<(String, Document)>, reducers: &Registry) -> (r:
    Result<(Document, Vec<Change>), ConsumeError>)
    requires
        reg_wf(reducers@),
        slices_wf(slices_v(old(data)@)),
        wf_doc(event@.payload),
    ensures
        match r {
            Ok(sc) => {
                &&& consume_slices(slices_v(old(data)@), reducers@, event@) == Ok::<
                    Seq<(Seq<char>, DocV)>,
                    Seq<char>,
                >(slices_v(final(data)@))
                &&& dv(sc.0) == DocV::Obj(slices_v(final(data)@))
                &&& changes_v(sc.1@) == changed_slices(
                    slices_v(old(data)@),
                    slices_v(final(data)@),
                )
                &&& slices_wf(slices_v(final(data)@))
            },
            Err(err) => {
                &&& final(data)@ == old(data)@
                &&& consume_slices(slices_v(old(data)@), reducers@, event@) == Err::<
                    Seq<(Seq<char>, DocV)>,
                    Seq<char>,
                >(err.slice@)
            },
        },
{
    let ghost s0 = slices_v(data@);
    let n = data.len();
    // First pass: compute every slice's next value, committing nothing, so
    // that a rejecting reducer leaves every slice untouched.
    let mut new_vals: Vec<Document> = Vec::new();
    let mut i: usize = 0;
    proof {
        assert(s0.take(0) =~= Seq::<(Seq<char>, DocV)>::empty());
        assert(paired_v(data@, new_vals@) =~= Seq::<(Seq<char>, DocV)>::empty());
    }
    while i < n
        invariant
            i <= n,
            n == data@.len(),
            new_vals@.len() == i,
            consume_slices(s0.take(i as int), reducers@, event@) == Ok::<
                Seq<(Seq<char>, DocV)>,
                Seq<char>,
            >(paired_v(data@, new_vals@)),
        decreases n - i,
    {
        proof {
            assert(s0[i as int] == (data@[i as int].0@, dv(data@[i as int].1)));
        }
        let kind_opt = reducers.kind_of(data[i].0.as_str());
        let next = match kind_opt {
            Some(kind) => apply_reducer(kind, &data[i].1, event),
            None => Some(data[i].1.deep_copy()),
        };
        match next {
            Some(d) => {
                proof {
                    assert(Some(dv(d)) == step_of(s0[i as int], reducers@, event@));
                    lemma_consume_snoc(
                        s0.take(i as int),
                        reducers@,
                        event@,
                        s0[i as int],
                    );
                    assert(s0.take(i as int).push(s0[i as int]) =~= s0.take(i as int + 1));
                }
                let ghost prev_vals = new_vals@;
                new_vals.push(d);
                proof {
                    assert(paired_v(data@, new_vals@) =~= paired_v(data@, prev_vals).push(
                        (data@[i as int].0@, dv(d)),
                    ));
                }
            },
            None => {
                proof {
                    assert(step_of(s0[i as int], reducers@, event@) is None);
                    lemma_consume_err(s0, reducers@, event@, i as int);
                }
                return Err(ConsumeError { slice: data[i].0.clone() });
            },
        }
        i = i + 1;
    }
    proof {
        assert(s0.take(n as int) =~= s0);
    }
    let ghost newv = paired_v(data@, new_vals@);
    // Second pass: the change notifications, one per changed slice, in
    // slice order.
    let mut changes: Vec<Change> = Vec::new();
    let mut i: usize = 0;
    proof {
        assert(changed_slices(s0.take(0), newv.take(0)) =~= Seq::<(Seq<char>, DocV)>::empty());
        assert(changes_v(changes@) =~= Seq::<(Seq<char>, DocV)>::empty());
    }
    while i < n
        invariant
            i <= n,
            n == data@.len(),
            n == new_vals@.len(),
            newv == paired_v(data@, new_vals@),
            changes_v(changes@) == changed_slices(s0.take(i as int), newv.take(i as int)),
        decreases n - i,
    {
        proof {
            assert(s0[i as int] == (data@[i as int].0@, dv(data@[i as int].1)));
            assert(newv[i as int] == (data@[i as int].0@, dv(new_vals@[i as int])));
            lemma_changed_snoc(
                s0.take(i as int),
                newv.take(i as int),
                s0[i as int],
                newv[i as int],
            );
            assert(s0.take(i as int).push(s0[i as int]) =~= s0.take(i as int + 1));
            assert(newv.take(i as int).push(newv[i as int]) =~= newv.take(i as int + 1));
        }
        let unchanged = data[i].1.deep_eq(&new_vals[i]);
        if !unchanged {
            let ghost prev_changes = changes@;
            changes.push(
                Change { slice: data[i].0.clone(), value: new_vals[i].deep_copy() },
            );
            proof {
                assert(changes_v(changes@) =~= changes_v(prev_changes).push(
                    (data@[i as int].0@, dv(new_vals@[i as int])),
                ));
                assert(changed_slices(s0.take(i as int), newv.take(i as int)).push(
                    newv[i as int],
                ) =~= changed_slices(s0.take(i as int), newv.take(i as int)) + seq![
                    newv[i as int],
                ]);
            }
        } else {
            proof {
                assert(changed_slices(s0.take(i as int), newv.take(i as int)) + Seq::<(
                    Seq<char>,
                    DocV,
                )>::empty() =~= changed_slices(s0.take(i as int), newv.take(i as int)));
            }
        }
        i = i + 1;
    }
    proof {
        assert(s0.take(n as int) =~= s0);
        assert(newv.take(n as int) =~= newv);
    }
    // Third pass: commit every slice's new value.
    let mut i: usize = 0;
    while i < n
        invariant
            i <= n,
            n == data@.len(),
            n == new_vals@.len(),
            forall|j: int| 0 <= j < i ==> (#[trigger] data@[j]).0 == old(data)@[j].0 && dv(
                data@[j].1,
            ) == dv(new_vals@[j]),
            forall|j: int| i <= j < n ==> #[trigger] data@[j] == old(data)@[j],
        decreases n - i,
    {
        let name = data[i].0.clone();
        let val = new_vals[i].deep_copy();
        data.set(i, (name, val));
        i = i + 1;
    }
    proof {
        assert(slices_v(data@) =~= newv);
    }
    // The serialized snapshot of all post-transition slices.
    let mut snap_entries: Vec<(String, Document)> = Vec::new();
    let mut i: usize = 0;
    while i < n
        invariant
            i <= n,
            n == data@.len(),
            snap_entries@.len() == i,
            forall|j: int| 0 <= j < i ==> (#[trigger] snap_entries@[j]).0 == data@[j].0 && dv(
                snap_entries@[j].1,
            ) == dv(data@[j].1),
        decreases n - i,
    {
        let name = data[i].0.clone();
        let val = data[i].1.deep_copy();
        snap_entries.push((name, val));
        i = i + 1;
    }
    let snapshot = Document::Obj(snap_entries);
    proof {
        assert(crate::document::entries_of(dv(snapshot)) =~= slices_v(data@));
        lemma_consume_wf(s0, reducers@, event@);
    }
    Ok((snapshot, changes))
}

/// The machine: the current slice values and the reducer registry. Change
/// notifications are returned from `consume` for the caller to fan out.
pub struct Machine {
    pub data: Vec<(String, Document)>,
    pub reducers: Registry,
}

impl Machine {
    /// The model of the slice map.
    pub open spec fn slices(self) -> Seq<(Seq<char>, DocV)> {
        slices_v(self.data@)
    }

    /// A well-formed machine: well-formed registry and slice map.
    pub open spec fn wf(self) -> bool {
        &&& reg_wf(self.reducers@)
        &&& slices_wf(self.slices())
    }

    /// Constructs the machine from caller-supplied starting values and a
    /// registry.
    pub fn new(data: Vec<(String, Document)>, reducers: Registry) -> (m: Machine)
        ensures
            m.data == data,
            m.reducers == reducers,
    {
        Machine { data, reducers }
    }

    /// Constructs the machine with every registered slice at its declared
    /// initial value.
    #[verifier::loop_isolation(false)]
    pub fn from_registry(reducers: Registry) -> (m: Machine)
        requires
            reg_wf(reducers@),
        ensures
            m.reducers == reducers,
            m.wf(),
            m.slices().len() == reducers@.len(),
            forall|i: int| 0 <= i < reducers@.len() ==> #[trigger] m.slices()[i] == (
                reducers@[i].name,
                reducers@[i].initial,
            ),
    {
        let mut data: Vec<(String, Document)> = Vec::new();
        let mut i: usize = 0;
        while i < reducers.entries.len()
            invariant
                i <= reducers.entries@.len(),
                data@.len() == i,
                forall|j: int| 0 <= j < i ==> (#[trigger] data@[j]).0@ == reducers@[j].name && dv(
                    data@[j].1,
                ) == reducers@[j].initial,
            decreases reducers.entries@.len() - i,
        {
            proof {
                assert(reducers@[i as int] == reducers.entries@[i as int]@);
            }
            let name = reducers.entries[i].name.clone();
            let initial = reducers.entries[i].initial.deep_copy();
            data.push((name, initial));
            i = i + 1;
        }
        let m = Machine { data, reducers };
        proof {
            assert forall|j: int| 0 <= j < m.reducers@.len() implies #[trigger] m.slices()[j] == (
                m.reducers@[j].name,
                m.reducers@[j].initial,
            ) by {
                assert(m.slices()[j] == (m.data@[j].0@, dv(m.data@[j].1)));
            }
        }
        m
    }

    /// The single state-transition entry point.
    pub fn consume(&mut self, event: &Event) -> (r: Result<(Document, Vec<Change>), ConsumeError>)
        requires
            old(self).wf(),
            wf_doc(event@.payload),
        ensures
            final(self).reducers == old(self).reducers,
            final(self).wf(),
            match r {
                Ok(sc) => {
                    &&& consume_slices(old(self).slices(), old(self).reducers@, event@) == Ok::<
                        Seq<(Seq<char>, DocV)>,
                        Seq<char>,
                    >(final(self).slices())
                    &&& dv(sc.0) == DocV::Obj(final(self).slices())
                    &&& changes_v(sc.1@) == changed_slices(
                        old(self).slices(),
                        final(self).slices(),
                    )
                },
                Err(err) => {
                    &&& final(self).slices() == old(self).slices()
                    &&& consume_slices(old(self).slices(), old(self).reducers@, event@) == Err::<
                        Seq<(Seq<char>, DocV)>,
                        Seq<char>,
                    >(err.slice@)
                },
            },
    {
        consume(event, &mut self.data, &self.reducers)
    }

    /// The serialized snapshot of all slices.
    #[verifier::loop_isolation(false)]
    pub fn snapshot(&self) -> (r: Document)
        ensures
            dv(r) == DocV::Obj(self.slices()),
    {
        let n = self.data.len();
        let mut snap_entries: Vec<(String, Document)> = Vec::new();
        let mut i: usize = 0;
        while i < n
            invariant
                i <= n,
                n == self.data@.len(),
                snap_entries@.len() == i,
                forall|j: int| 0 <= j < i ==> (#[trigger] snap_entries@[j]).0 == self.data@[j].0
                    && dv(snap_entries@[j].1) == dv(self.data@[j].1),
            decreases n - i,
        {
            let name = self.data[i].0.clone();
            let val = self.data[i].1.deep_copy();
            snap_entries.push((name, val));
            i = i + 1;
        }
        let r = Document::Obj(snap_entries);
        proof {
            assert(crate::document::entries_of(dv(r)) =~= self.slices());
        }
        r
    }
}

/// The machine's bare storage, as the shell manages it beside the machine:
/// the slice map and the registry. Transitions on it run through the free
/// `consume` function.
pub struct State {
    pub data: Vec<(String, Document)>,
    pub reducers: Registry,
}

} // verus!
