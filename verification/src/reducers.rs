//! The pure reducers. Each slice owns exactly one reducer: a pure function
//! from the slice's current value and an incoming event to the next value.
//! Unknown event types are a no-op, never an error; a payload the reducer
//! cannot interpret is a typed failure, reported to the caller and changing
//! nothing.

use vstd::prelude::*;
use vstd::string::*;
use crate::document::{
    dv, entries_of, has_key, keys_unique, obj_del_v, obj_get_v, obj_merge_v, obj_set_v, wf_doc,
    DocV, Document,
};
use crate::document::{
    lemma_obj_cons, lemma_obj_del, lemma_obj_del_wf, lemma_obj_merge_push, lemma_obj_merge_wf,
    lemma_obj_set, lemma_obj_set_wf,
};
use crate::event::{Event, EventV};

verus! {

/// The model of an optional document result.
pub open spec fn opt_dv(r: Option<Document>) -> Option<DocV> {
    match r {
        Some(d) => Some(dv(d)),
        None => None,
    }
}

/// The character for one decimal digit.
pub open spec fn digit_char(d: nat) -> char {
    if d == 0 {
        '0'
    } else if d == 1 {
        '1'
    } else if d == 2 {
        '2'
    } else if d == 3 {
        '3'
    } else if d == 4 {
        '4'
    } else if d == 5 {
        '5'
    } else if d == 6 {
        '6'
    } else if d == 7 {
        '7'
    } else if d == 8 {
        '8'
    } else {
        '9'
    }
}

/// The decimal text of a number, most significant digit first.
pub open spec fn dec_str(n: nat) -> Seq<char>
    decreases n,
{
    if n < 10 {
        seq![digit_char(n)]
    } else {
        dec_str(n / 10) + seq![digit_char(n % 10)]
    }
}

/// The text of one decimal digit.
fn digit_text(d: u64) -> (r: &'static str)
    requires
        d < 10,
    ensures
        r@ == seq![digit_char(d as nat)],
{
    let r: &'static str = if d == 0 {
        "0"
    } else if d == 1 {
        "1"
    } else if d == 2 {
        "2"
    } else if d == 3 {
        "3"
    } else if d == 4 {
        "4"
    } else if d == 5 {
        "5"
    } else if d == 6 {
        "6"
    } else if d == 7 {
        "7"
    } else if d == 8 {
        "8"
    } else {
        "9"
    };
    proof {
        reveal_strlit("0");
        reveal_strlit("1");
        reveal_strlit("2");
        reveal_strlit("3");
        reveal_strlit("4");
        reveal_strlit("5");
        reveal_strlit("6");
        reveal_strlit("7");
        reveal_strlit("8");
        reveal_strlit("9");
        assert(r@ =~= seq![digit_char(d as nat)]);
    }
    r
}

/// The decimal text of a number.
pub fn dec_string(n: u64) -> (r: String)
    ensures
        r@ == dec_str(n as nat),
    decreases n,
{
    if n < 10 {
        String::from_str(digit_text(n))
    } else {
        let prefix = dec_string(n / 10);
        let r = prefix.concat(digit_text(n % 10));
        proof {
            assert(r@ =~= dec_str(n as nat));
        }
        r
    }
}

/// What the sources reducer computes. Adding mints a fresh entry under the
/// event's identifier, stamping `id` and `createTime` into the payload;
/// deleting removes the entry named by the payload's `id`, absent entries
/// being a no-op; every other event type leaves the slice unchanged.
pub open spec fn sources_step(state: DocV, e: EventV) -> Option<DocV> {
    if e.typ == "source_added"@ {
        if state is Obj && e.payload is Obj && 0 <= e.create_time <= i64::MAX {
            Some(
                DocV::Obj(
                    obj_set_v(
                        entries_of(state),
                        e.id,
                        DocV::Obj(
                            obj_set_v(
                                obj_set_v(entries_of(e.payload), "id"@, DocV::Text(e.id)),
                                "createTime"@,
                                DocV::Int(e.create_time),
                            ),
                        ),
                    ),
                ),
            )
        } else {
            None
        }
    } else if e.typ == "source_deleted"@ {
        if state is Obj && e.payload is Obj && (obj_get_v(entries_of(e.payload), "id"@) matches Some(
            DocV::Text(_),
        )) {
            let id = obj_get_v(entries_of(e.payload), "id"@)->Some_0->Text_0;
            Some(DocV::Obj(obj_del_v(entries_of(state), id)))
        } else {
            None
        }
    } else {
        Some(state)
    }
}

/// What the settings reducer computes: a shallow merge of the payload's
/// entries over the slice, keeping unrelated keys; every other event type
/// leaves the slice unchanged.
pub open spec fn settings_step(state: DocV, e: EventV) -> Option<DocV> {
    if e.typ == "settings_updated"@ || e.typ == "setting_added"@ {
        if state is Obj && e.payload is Obj {
            Some(DocV::Obj(obj_merge_v(entries_of(state), entries_of(e.payload))))
        } else {
            None
        }
    } else {
        Some(state)
    }
}

/// What the sessions reducer computes: a reading appended under the next
/// positional key, the key stamped into the entry as `id`.
pub open spec fn sessions_step(state: DocV, e: EventV) -> Option<DocV> {
    if e.typ == "add_reading"@ {
        if state is Obj && e.payload is Obj && entries_of(state).len() <= i64::MAX {
            let n = entries_of(state).len();
            Some(
                DocV::Obj(
                    obj_set_v(
                        entries_of(state),
                        dec_str(n),
                        DocV::Obj(obj_set_v(entries_of(e.payload), "id"@, DocV::Int(n as int))),
                    ),
                ),
            )
        } else {
            None
        }
    } else {
        Some(state)
    }
}

/// A reducer is one of a closed set of pure step functions; the registry
/// names one per slice.
#[derive(Clone, Copy, PartialEq, Eq, Debug)]
pub enum ReducerKind {
    Sources,
    Settings,
    Sessions,
    StateIdentity,
    PayloadIdentity,
}

/// What one application of a reducer computes: the next value of the slice,
/// or nothing when the payload cannot be interpreted.
pub open spec fn step_slice(kind: ReducerKind, state: DocV, e: EventV) -> Option<DocV> {
    match kind {
        ReducerKind::Sources => sources_step(state, e),
        ReducerKind::Settings => settings_step(state, e),
        ReducerKind::Sessions => sessions_step(state, e),
        ReducerKind::StateIdentity => Some(state),
        ReducerKind::PayloadIdentity => Some(e.payload),
    }
}

/// A successful step of a reducer yields a well-formed value again.
pub proof fn lemma_step_slice_wf(kind: ReducerKind, state: DocV, e: EventV)
    requires
        wf_doc(state),
        wf_doc(e.payload),
    ensures
        step_slice(kind, state, e) matches Some(d) ==> wf_doc(d),
{
    match kind {
        ReducerKind::Sources => {
            if e.typ == "source_added"@ {
                if state is Obj && e.payload is Obj && 0 <= e.create_time <= i64::MAX {
                    let stamped = obj_set_v(entries_of(e.payload), "id"@, DocV::Text(e.id));
                    lemma_obj_set_wf(entries_of(e.payload), "id"@, DocV::Text(e.id));
                    lemma_obj_set_wf(stamped, "createTime"@, DocV::Int(e.create_time));
                    lemma_obj_set_wf(
                        entries_of(state),
                        e.id,
                        DocV::Obj(obj_set_v(stamped, "createTime"@, DocV::Int(e.create_time))),
                    );
                }
            } else if e.typ == "source_deleted"@ {
                if state is Obj && e.payload is Obj && (obj_get_v(entries_of(e.payload), "id"@)
                    matches Some(DocV::Text(_))) {
                    let id = obj_get_v(entries_of(e.payload), "id"@)->Some_0->Text_0;
                    lemma_obj_del_wf(entries_of(state), id);
                }
            }
        },
        ReducerKind::Settings => {
            if e.typ == "settings_updated"@ || e.typ == "setting_added"@ {
                if state is Obj && e.payload is Obj {
                    lemma_obj_merge_wf(entries_of(state), entries_of(e.payload));
                }
            }
        },
        ReducerKind::Sessions => {
            if e.typ == "add_reading"@ {
                if state is Obj && e.payload is Obj && entries_of(state).len() <= i64::MAX {
                    let n = entries_of(state).len();
                    lemma_obj_set_wf(entries_of(e.payload), "id"@, DocV::Int(n as int));
                    lemma_obj_set_wf(
                        entries_of(state),
                        dec_str(n),
                        DocV::Obj(obj_set_v(entries_of(e.payload), "id"@, DocV::Int(n as int))),
                    );
                }
            }
        },
        ReducerKind::StateIdentity => {},
        ReducerKind::PayloadIdentity => {},
    }
}

/// The reducer of the `sources` slice.
pub fn sources_reducer(state: &Document, event: &Event) -> (r: Option<Document>)
    requires
        wf_doc(dv(*state)),
        wf_doc(event@.payload),
    ensures
        opt_dv(r) == sources_step(dv(*state), event@),
{
    if str_eq_text(&event.typ, "source_added") {
        if !state.is_object() || !event.payload.is_object() {
            return None;
        }
        if event.create_time > i64::MAX as u64 {
            return None;
        }
        let stamped = event.payload.deep_copy().obj_set(
            String::from_str("id"),
            Document::Text(event.id.clone()),
        );
        proof {
            lemma_obj_set(entries_of(event@.payload), "id"@, DocV::Text(event@.id));
        }
        let entry = stamped.obj_set(
            String::from_str("createTime"),
            Document::Int(event.create_time as i64),
        );
        let r = state.deep_copy().obj_set(event.id.clone(), entry);
        Some(r)
    } else if str_eq_text(&event.typ, "source_deleted") {
        if !state.is_object() {
            return None;
        }
        match event.payload.obj_get("id") {
            Some(id_doc) => match id_doc.as_text() {
                Some(id) => {
                    let r = state.deep_copy().obj_del(id.as_str());
                    Some(r)
                },
                None => None,
            },
            None => None,
        }
    } else {
        Some(state.deep_copy())
    }
}

/// The reducer of the `settings` slice.
#[verifier::loop_isolation(false)]
pub fn settings_reducer(state: &Document, event: &Event) -> (r: Option<Document>)
    requires
        wf_doc(dv(*state)),
        wf_doc(event@.payload),
    ensures
        opt_dv(r) == settings_step(dv(*state), event@),
{
    if str_eq_text(&event.typ, "settings_updated") || str_eq_text(&event.typ, "setting_added") {
        if !state.is_object() || !event.payload.is_object() {
            return None;
        }
        match &event.payload {
            Document::Obj(pentries) => {
                let ghost p = entries_of(event@.payload);
                let mut result = state.deep_copy();
                let mut i: usize = 0;
                proof {
                    assert(obj_merge_v(entries_of(dv(*state)), p.take(0)) =~= entries_of(
                        dv(*state),
                    ));
                }
                while i < pentries.len()
                    invariant
                        i <= pentries@.len(),
                        dv(result) == DocV::Obj(
                            obj_merge_v(entries_of(dv(*state)), p.take(i as int)),
                        ),
                        keys_unique(entries_of(dv(result))),
                    decreases pentries@.len() - i,
                {
                    let e = &pentries[i];
                    let ghost before = entries_of(dv(result));
                    result = result.obj_set(e.0.clone(), e.1.deep_copy());
                    proof {
                        lemma_obj_set(before, p[i as int].0, p[i as int].1);
                        assert(p.take(i as int).push(p[i as int]) =~= p.take(i as int + 1));
                        lemma_obj_merge_push(
                            entries_of(dv(*state)),
                            p.take(i as int),
                            p[i as int],
                        );
                    }
                    i = i + 1;
                }
                proof {
                    assert(p.take(i as int) =~= p);
                }
                Some(result)
            },
            _ => None,
        }
    } else {
        Some(state.deep_copy())
    }
}

/// The reducer of the `sessions` slice.
pub fn sessions_reducer(state: &Document, event: &Event) -> (r: Option<Document>)
    requires
        wf_doc(dv(*state)),
        wf_doc(event@.payload),
    ensures
        opt_dv(r) == sessions_step(dv(*state), event@),
{
    if str_eq_text(&event.typ, "add_reading") {
        if !state.is_object() || !event.payload.is_object() {
            return None;
        }
        let n = state.obj_len();
        if n as u64 > i64::MAX as u64 {
            return None;
        }
        let key = dec_string(n as u64);
        let entry = event.payload.deep_copy().obj_set(
            String::from_str("id"),
            Document::Int(n as i64),
        );
        let r = state.deep_copy().obj_set(key, entry);
        Some(r)
    } else {
        Some(state.deep_copy())
    }
}

/// The placeholder reducer for slices whose value never changes.
pub fn state_identity(state: &Document, event: &Event) -> (r: Option<Document>)
    ensures
        opt_dv(r) == Some(dv(*state)),
{
    let _ = event;
    Some(state.deep_copy())
}

/// The placeholder reducer that adopts every event's payload as the new
/// slice value.
pub fn payload_identity(state: &Document, event: &Event) -> (r: Option<Document>)
    ensures
        opt_dv(r) == Some(event@.payload),
{
    let _ = state;
    Some(event.payload.deep_copy())
}

/// One application of the reducer a registry entry names.
pub fn apply_reducer(kind: ReducerKind, state: &Document, event: &Event) -> (r: Option<Document>)
    requires
        wf_doc(dv(*state)),
        wf_doc(event@.payload),
    ensures
        opt_dv(r) == step_slice(kind, dv(*state), event@),
        r matches Some(d) ==> wf_doc(dv(d)),
{
    proof {
        lemma_step_slice_wf(kind, dv(*state), event@);
    }
    match kind {
        ReducerKind::Sources => sources_reducer(state, event),
        ReducerKind::Settings => settings_reducer(state, event),
        ReducerKind::Sessions => sessions_reducer(state, event),
        ReducerKind::StateIdentity => state_identity(state, event),
        ReducerKind::PayloadIdentity => payload_identity(state, event),
    }
}

/// Compares a string against a literal by character sequence.
fn str_eq_text(s: &String, lit: &str) -> (r: bool)
    ensures
        r == (s@ == lit@),
{
    crate::document::str_eq(s.as_str(), lit)
}

} // verus!
