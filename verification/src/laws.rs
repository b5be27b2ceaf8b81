//! The store's laws: what holds of every transition and every replay.
//! Each proof function states one guarantee over the models that the
//! executable functions' contracts speak of.

use vstd::prelude::*;
use vstd::seq_lib::lemma_multiset_commutative;
use crate::document::{
    entries_of, has_key, keys_unique, obj_del_v, obj_get_v, obj_merge_v, obj_set_v, wf_doc, DocV,
};
use crate::event::{
    event_lt, events_ordered, ids_unique, lemma_event_asym, lemma_sort_ids, lemma_sort_spec_ensures,
    lemma_ordered_unique, sort_events_spec, EventV,
};
use crate::machine::{
    changed_slices, consume_slices, lemma_changed_names, lemma_consume_pointwise, slices_wf,
    step_of,
};
use crate::reducers::{sources_step, settings_step, ReducerKind};
use crate::registry::{no_wholesale, reg_at, reg_has, reg_index, RegEntryV};
use crate::store::replay_slices;

verus! {

/// The event types some reducer reacts to.
pub open spec fn known_event_type(t: Seq<char>) -> bool {
    ||| t == "source_added"@
    ||| t == "source_deleted"@
    ||| t == "settings_updated"@
    ||| t == "setting_added"@
    ||| t == "add_reading"@
}

/// No slice changes when nothing changed.
proof fn lemma_changed_refl(s: Seq<(Seq<char>, DocV)>)
    ensures
        changed_slices(s, s) == Seq::<(Seq<char>, DocV)>::empty(),
    decreases s.len(),
{
    if s.len() > 0 {
        lemma_changed_refl(s.drop_first());
    }
}

/// A transition in which every slice's reducer accepts the event succeeds.
proof fn lemma_consume_all_some(s: Seq<(Seq<char>, DocV)>, reg: Seq<RegEntryV>, e: EventV)
    requires
        forall|j: int| 0 <= j < s.len() ==> step_of(#[trigger] s[j], reg, e) is Some,
    ensures
        consume_slices(s, reg, e) is Ok,
    decreases s.len(),
{
    if s.len() > 0 {
        assert forall|j: int| 0 <= j < s.drop_first().len() implies step_of(
            #[trigger] s.drop_first()[j],
            reg,
            e,
        ) is Some by {
            assert(s.drop_first()[j] == s[j + 1]);
        }
        lemma_consume_all_some(s.drop_first(), reg, e);
    }
}

/// An event of a type no reducer reacts to steps every slice to its
/// current value.
proof fn lemma_unknown_type_step(slice: (Seq<char>, DocV), reg: Seq<RegEntryV>, e: EventV)
    requires
        !known_event_type(e.typ),
        no_wholesale(reg),
    ensures
        step_of(slice, reg, e) == Some(slice.1),
{
    if reg_has(reg, slice.0) {
        let i = reg_index(reg, slice.0);
        assert(0 <= i < reg.len() && reg[i].name == slice.0);
        assert(reg[i].kind != ReducerKind::PayloadIdentity);
    }
}

/// Dispatching an event of an unregistered type changes no slice and
/// returns the snapshot unchanged: every reducer treats an unknown event
/// type as the identity, so no value moves and no listener fires.
pub proof fn lemma_unknown_type_noop(s: Seq<(Seq<char>, DocV)>, reg: Seq<RegEntryV>, e: EventV)
    requires
        !known_event_type(e.typ),
        no_wholesale(reg),
    ensures
        consume_slices(s, reg, e) == Ok::<Seq<(Seq<char>, DocV)>, Seq<char>>(s),
        changed_slices(s, s) == Seq::<(Seq<char>, DocV)>::empty(),
    decreases s.len(),
{
    lemma_changed_refl(s);
    if s.len() == 0 {
        assert(consume_slices(s, reg, e) == Ok::<Seq<(Seq<char>, DocV)>, Seq<char>>(
            Seq::empty(),
        ));
        assert(s =~= Seq::<(Seq<char>, DocV)>::empty());
    } else {
        lemma_unknown_type_step(s[0], reg, e);
        lemma_unknown_type_noop(s.drop_first(), reg, e);
        assert((s[0].0, s[0].1) == s[0]);
        assert(seq![s[0]] + s.drop_first() =~= s);
    }
}

/// The internal initialization event disturbs nothing under a registry
/// that adopts no payload wholesale: its type tag is one no reducer reacts
/// to, so startup's one-time dispatch of it leaves every slice at its
/// declared initial value.
pub proof fn lemma_init_event_noop(s: Seq<(Seq<char>, DocV)>, reg: Seq<RegEntryV>, init: EventV)
    requires
        no_wholesale(reg),
        crate::store::init_event_shape(init),
    ensures
        consume_slices(s, reg, init) == Ok::<Seq<(Seq<char>, DocV)>, Seq<char>>(s),
{
    assert(!known_event_type(init.typ)) by {
        lemma_type_tags_distinct();
        reveal_strlit("app_initialized");
        reveal_strlit("source_added");
        reveal_strlit("source_deleted");
        reveal_strlit("settings_updated");
        reveal_strlit("setting_added");
        reveal_strlit("add_reading");
        assert("app_initialized"@.len() == 15);
        assert("source_added"@.len() == 12);
        assert("source_deleted"@.len() == 14);
        assert("settings_updated"@.len() == 16);
        assert("setting_added"@.len() == 13);
        assert("add_reading"@.len() == 11);
    }
    lemma_unknown_type_noop(s, reg, init);
}

/// No-op suppression: when a slice's reducer returns a value structurally
/// equal to the slice's current one, no change notification names that
/// slice, so no listener fires for it.
pub proof fn lemma_noop_suppression(
    s: Seq<(Seq<char>, DocV)>,
    reg: Seq<RegEntryV>,
    e: EventV,
    i: int,
)
    requires
        keys_unique(s),
        0 <= i < s.len(),
        consume_slices(s, reg, e) is Ok,
        step_of(s[i], reg, e) == Some(s[i].1),
    ensures
        forall|k: int|
            0 <= k < changed_slices(s, consume_slices(s, reg, e)->Ok_0).len() ==> (
            #[trigger] changed_slices(s, consume_slices(s, reg, e)->Ok_0)[k]).0 != s[i].0,
{
    lemma_consume_pointwise(s, reg, e);
    let r = consume_slices(s, reg, e)->Ok_0;
    lemma_changed_names(s, r);
    let ch = changed_slices(s, r);
    assert forall|k: int| 0 <= k < ch.len() implies (#[trigger] ch[k]).0 != s[i].0 by {
        let j = choose|j: int| 0 <= j < s.len() && #[trigger] ch[k] == r[j] && s[j].1 != r[j].1;
        assert(r[j].0 == s[j].0);
        if ch[k].0 == s[i].0 {
            assert(s[j].0 == s[i].0);
            if j < i {
                assert(s[j].0 != s[i].0);
            } else if i < j {
                assert(s[i].0 != s[j].0);
            }
            assert(j == i);
            assert(Some(r[i].1) == step_of(s[i], reg, e));
            assert(r[i].1 == s[i].1);
            assert(false);
        }
    }
}

/// The entry the sources reducer mints for an added source: the payload
/// with the event's identifier stamped as `id` and the event's creation
/// time stamped as `createTime`.
pub open spec fn stamped_source(e: EventV) -> DocV {
    DocV::Obj(
        obj_set_v(
            obj_set_v(entries_of(e.payload), "id"@, DocV::Text(e.id)),
            "createTime"@,
            DocV::Int(e.create_time),
        ),
    )
}

/// The five reacting event types are pairwise distinct tags.
proof fn lemma_type_tags_distinct()
    ensures
        "source_added"@ != "source_deleted"@,
        "source_added"@ != "settings_updated"@,
        "source_added"@ != "setting_added"@,
        "source_added"@ != "add_reading"@,
        "source_deleted"@ != "settings_updated"@,
        "source_deleted"@ != "setting_added"@,
        "source_deleted"@ != "add_reading"@,
        "settings_updated"@ != "setting_added"@,
        "settings_updated"@ != "add_reading"@,
        "setting_added"@ != "add_reading"@,
{
    reveal_strlit("source_added");
    reveal_strlit("source_deleted");
    reveal_strlit("settings_updated");
    reveal_strlit("setting_added");
    reveal_strlit("add_reading");
    assert("source_added"@.len() == 12);
    assert("source_deleted"@.len() == 14);
    assert("settings_updated"@.len() == 16);
    assert("setting_added"@.len() == 13);
    assert("add_reading"@.len() == 11);
}

/// A slice whose reducer is not the sources or payload-adopting one steps
/// to its current value under a `source_added` or `source_deleted` event.
proof fn lemma_source_event_other_slices(
    slice: (Seq<char>, DocV),
    reg: Seq<RegEntryV>,
    e: EventV,
)
    requires
        e.typ == "source_added"@ || e.typ == "source_deleted"@,
        reg_has(reg, slice.0) ==> reg_at(reg, slice.0).kind != ReducerKind::Sources && reg_at(
            reg,
            slice.0,
        ).kind != ReducerKind::PayloadIdentity,
    ensures
        step_of(slice, reg, e) == Some(slice.1),
{
    lemma_type_tags_distinct();
}

/// Adding a source: the `sources` slice gains exactly one new entry, keyed
/// by the freshly minted event identifier (never caller-supplied), whose
/// `id` and `createTime` fields are stamped by the store; every other
/// slice is unaffected.
pub proof fn lemma_source_added(
    s: Seq<(Seq<char>, DocV)>,
    reg: Seq<RegEntryV>,
    e: EventV,
    i: int,
)
    requires
        slices_wf(s),
        0 <= i < s.len(),
        reg_has(reg, s[i].0),
        reg_at(reg, s[i].0).kind == ReducerKind::Sources,
        forall|j: int| 0 <= j < s.len() && j != i && reg_has(reg, (#[trigger] s[j]).0)
            ==> reg_at(reg, s[j].0).kind != ReducerKind::Sources && reg_at(reg, s[j].0).kind
            != ReducerKind::PayloadIdentity,
        e.typ == "source_added"@,
        e.payload is Obj,
        0 <= e.create_time <= i64::MAX,
        s[i].1 is Obj,
        !has_key(entries_of(s[i].1), e.id),
    ensures
        consume_slices(s, reg, e) is Ok,
        consume_slices(s, reg, e)->Ok_0.len() == s.len(),
        consume_slices(s, reg, e)->Ok_0[i] == (
            s[i].0,
            DocV::Obj(obj_set_v(entries_of(s[i].1), e.id, stamped_source(e))),
        ),
        entries_of(consume_slices(s, reg, e)->Ok_0[i].1).len() == entries_of(s[i].1).len() + 1,
        obj_get_v(entries_of(consume_slices(s, reg, e)->Ok_0[i].1), e.id) == Some(
            stamped_source(e),
        ),
        forall|k: Seq<char>| k != e.id ==> #[trigger] obj_get_v(
            entries_of(consume_slices(s, reg, e)->Ok_0[i].1),
            k,
        ) == obj_get_v(entries_of(s[i].1), k),
        forall|j: int| 0 <= j < s.len() && j != i ==> #[trigger] consume_slices(s, reg, e)->Ok_0[j]
            == s[j],
{
    assert forall|j: int| 0 <= j < s.len() implies step_of(#[trigger] s[j], reg, e) is Some by {
        if j == i {
            assert(step_of(s[i], reg, e) == sources_step(s[i].1, e));
        } else {
            lemma_source_event_other_slices(s[j], reg, e);
        }
    }
    lemma_consume_all_some(s, reg, e);
    lemma_consume_pointwise(s, reg, e);
    let r = consume_slices(s, reg, e)->Ok_0;
    assert(Some(r[i].1) == sources_step(s[i].1, e));
    crate::document::lemma_obj_set(entries_of(s[i].1), e.id, stamped_source(e));
    assert forall|j: int| 0 <= j < s.len() && j != i implies #[trigger] r[j] == s[j] by {
        lemma_source_event_other_slices(s[j], reg, e);
        assert(Some(r[j].1) == step_of(s[j], reg, e));
        assert((s[j].0, s[j].1) == s[j]);
        assert(r[j] == (r[j].0, r[j].1));
    }
    assert(r[i] == (r[i].0, r[i].1));
}

/// Deleting a source: the entry keyed by the payload's `id` is removed
/// from the `sources` slice, exactly that entry, and every other slice is
/// unaffected. Deleting an absent identifier is a no-op, not an error, and
/// fires no listener for the slice.
pub proof fn lemma_source_deleted(
    s: Seq<(Seq<char>, DocV)>,
    reg: Seq<RegEntryV>,
    e: EventV,
    i: int,
    id: Seq<char>,
)
    requires
        slices_wf(s),
        0 <= i < s.len(),
        reg_has(reg, s[i].0),
        reg_at(reg, s[i].0).kind == ReducerKind::Sources,
        forall|j: int| 0 <= j < s.len() && j != i && reg_has(reg, (#[trigger] s[j]).0)
            ==> reg_at(reg, s[j].0).kind != ReducerKind::Sources && reg_at(reg, s[j].0).kind
            != ReducerKind::PayloadIdentity,
        e.typ == "source_deleted"@,
        e.payload is Obj,
        obj_get_v(entries_of(e.payload), "id"@) == Some(DocV::Text(id)),
        s[i].1 is Obj,
    ensures
        consume_slices(s, reg, e) is Ok,
        consume_slices(s, reg, e)->Ok_0.len() == s.len(),
        consume_slices(s, reg, e)->Ok_0[i] == (
            s[i].0,
            DocV::Obj(obj_del_v(entries_of(s[i].1), id)),
        ),
        has_key(entries_of(s[i].1), id) ==> entries_of(consume_slices(s, reg, e)->Ok_0[i].1).len()
            == entries_of(s[i].1).len() - 1,
        obj_get_v(entries_of(consume_slices(s, reg, e)->Ok_0[i].1), id) is None,
        forall|k: Seq<char>| k != id ==> #[trigger] obj_get_v(
            entries_of(consume_slices(s, reg, e)->Ok_0[i].1),
            k,
        ) == obj_get_v(entries_of(s[i].1), k),
        !has_key(entries_of(s[i].1), id) ==> consume_slices(s, reg, e)->Ok_0[i] == s[i],
        !has_key(entries_of(s[i].1), id) ==> forall|k: int|
            0 <= k < changed_slices(s, consume_slices(s, reg, e)->Ok_0).len() ==> (
            #[trigger] changed_slices(s, consume_slices(s, reg, e)->Ok_0)[k]).0 != s[i].0,
        forall|j: int| 0 <= j < s.len() && j != i ==> #[trigger] consume_slices(s, reg, e)->Ok_0[j]
            == s[j],
{
    lemma_type_tags_distinct();
    assert forall|j: int| 0 <= j < s.len() implies step_of(#[trigger] s[j], reg, e) is Some by {
        if j == i {
            assert(step_of(s[i], reg, e) == sources_step(s[i].1, e));
        } else {
            lemma_source_event_other_slices(s[j], reg, e);
        }
    }
    lemma_consume_all_some(s, reg, e);
    lemma_consume_pointwise(s, reg, e);
    let r = consume_slices(s, reg, e)->Ok_0;
    assert(Some(r[i].1) == sources_step(s[i].1, e));
    crate::document::lemma_obj_del(entries_of(s[i].1), id);
    assert forall|j: int| 0 <= j < s.len() && j != i implies #[trigger] r[j] == s[j] by {
        lemma_source_event_other_slices(s[j], reg, e);
        assert(Some(r[j].1) == step_of(s[j], reg, e));
        assert((s[j].0, s[j].1) == s[j]);
        assert(r[j] == (r[j].0, r[j].1));
    }
    assert(r[i] == (r[i].0, r[i].1));
    if !has_key(entries_of(s[i].1), id) {
        assert(obj_del_v(entries_of(s[i].1), id) == entries_of(s[i].1));
        assert(s[i].1 == DocV::Obj(entries_of(s[i].1)));
        assert(r[i] == s[i]);
        assert(step_of(s[i], reg, e) == Some(s[i].1));
        lemma_noop_suppression(s, reg, e, i);
    }
}

/// Merging settings: every key of the payload takes the payload's value in
/// the `settings` slice, every unrelated existing key keeps its value
/// (shallow merge), and every other slice is unaffected.
pub proof fn lemma_settings_merge(
    s: Seq<(Seq<char>, DocV)>,
    reg: Seq<RegEntryV>,
    e: EventV,
    i: int,
)
    requires
        slices_wf(s),
        wf_doc(e.payload),
        0 <= i < s.len(),
        reg_has(reg, s[i].0),
        reg_at(reg, s[i].0).kind == ReducerKind::Settings,
        forall|j: int| 0 <= j < s.len() && j != i && reg_has(reg, (#[trigger] s[j]).0)
            ==> reg_at(reg, s[j].0).kind != ReducerKind::Settings && reg_at(reg, s[j].0).kind
            != ReducerKind::PayloadIdentity,
        e.typ == "settings_updated"@ || e.typ == "setting_added"@,
        e.payload is Obj,
        s[i].1 is Obj,
    ensures
        consume_slices(s, reg, e) is Ok,
        consume_slices(s, reg, e)->Ok_0.len() == s.len(),
        consume_slices(s, reg, e)->Ok_0[i] == (
            s[i].0,
            DocV::Obj(obj_merge_v(entries_of(s[i].1), entries_of(e.payload))),
        ),
        forall|k: Seq<char>| #[trigger] obj_get_v(
            entries_of(consume_slices(s, reg, e)->Ok_0[i].1),
            k,
        ) == if has_key(entries_of(e.payload), k) {
            obj_get_v(entries_of(e.payload), k)
        } else {
            obj_get_v(entries_of(s[i].1), k)
        },
        forall|j: int| 0 <= j < s.len() && j != i ==> #[trigger] consume_slices(s, reg, e)->Ok_0[j]
            == s[j],
{
    lemma_type_tags_distinct();
    assert forall|j: int| 0 <= j < s.len() implies step_of(#[trigger] s[j], reg, e) is Some by {
        if j == i {
            assert(step_of(s[i], reg, e) == settings_step(s[i].1, e));
        } else {
            assert(step_of(s[j], reg, e) == Some(s[j].1)) by {
                if reg_has(reg, s[j].0) {
                    match reg_at(reg, s[j].0).kind {
                        ReducerKind::Sources => {},
                        ReducerKind::Sessions => {},
                        ReducerKind::StateIdentity => {},
                        ReducerKind::Settings => {
                            assert(false);
                        },
                        ReducerKind::PayloadIdentity => {
                            assert(false);
                        },
                    }
                }
            }
        }
    }
    lemma_consume_all_some(s, reg, e);
    lemma_consume_pointwise(s, reg, e);
    let r = consume_slices(s, reg, e)->Ok_0;
    assert(Some(r[i].1) == settings_step(s[i].1, e));
    crate::document::lemma_obj_merge(entries_of(s[i].1), entries_of(e.payload));
    assert forall|j: int| 0 <= j < s.len() && j != i implies #[trigger] r[j] == s[j] by {
        assert(Some(r[j].1) == step_of(s[j], reg, e));
        assert((s[j].0, s[j].1) == s[j]);
        assert(r[j] == (r[j].0, r[j].1));
    }
    assert(r[i] == (r[i].0, r[i].1));
}

/// Replaying a concatenation is replaying the first part, then the second.
proof fn lemma_replay_concat(
    s0: Seq<(Seq<char>, DocV)>,
    reg: Seq<RegEntryV>,
    a: Seq<EventV>,
    b: Seq<EventV>,
)
    ensures
        replay_slices(s0, reg, a + b) == (match replay_slices(s0, reg, a) {
            Ok(s1) => replay_slices(s1, reg, b),
            Err(n) => Err::<Seq<(Seq<char>, DocV)>, Seq<char>>(n),
        }),
    decreases a.len(),
{
    if a.len() == 0 {
        assert(a + b =~= b);
    } else {
        assert((a + b)[0] == a[0]);
        assert((a + b).drop_first() =~= a.drop_first() + b);
        match consume_slices(s0, reg, a[0]) {
            Ok(s2) => {
                lemma_replay_concat(s2, reg, a.drop_first(), b);
            },
            Err(n) => {},
        }
    }
}

/// Replay determinism across restarts: replaying a persisted log and then
/// consuming later events one by one — as live dispatching does, with log
/// persistence in between — leaves exactly the slices that replaying the
/// combined log from the initial state yields, provided the later events
/// were created after all the logged ones and identifiers stay unique.
pub proof fn lemma_replay_restart(
    s0: Seq<(Seq<char>, DocV)>,
    reg: Seq<RegEntryV>,
    e1: Seq<EventV>,
    e2: Seq<EventV>,
)
    requires
        ids_unique(e1 + e2),
        events_ordered(e2),
        forall|a: int, b: int| 0 <= a < e1.len() && 0 <= b < e2.len() ==> event_lt(
            #[trigger] e1[a],
            #[trigger] e2[b],
        ),
    ensures
        replay_slices(s0, reg, sort_events_spec(e1 + e2)) == (match replay_slices(
            s0,
            reg,
            sort_events_spec(e1),
        ) {
            Ok(s1) => replay_slices(s1, reg, e2),
            Err(n) => Err::<Seq<(Seq<char>, DocV)>, Seq<char>>(n),
        }),
{
    broadcast use vstd::seq_lib::group_to_multiset_ensures;

    let both = e1 + e2;
    assert forall|a: int, b: int| 0 <= a < b < e1.len() implies (#[trigger] e1[a]).id != (
    #[trigger] e1[b]).id by {
        assert(both[a] == e1[a]);
        assert(both[b] == e1[b]);
    }
    lemma_sort_spec_ensures(e1);
    lemma_sort_spec_ensures(both);
    lemma_sort_ids(both);
    let s1 = sort_events_spec(e1);
    let cat = s1 + e2;
    // The concatenation is itself in replay order.
    assert forall|a: int, b: int| 0 <= a < b < cat.len() implies !event_lt(
        #[trigger] cat[b],
        #[trigger] cat[a],
    ) by {
        if b < s1.len() {
            assert(cat[a] == s1[a] && cat[b] == s1[b]);
        } else if a >= s1.len() {
            assert(cat[a] == e2[a - s1.len()] && cat[b] == e2[b - s1.len()]);
        } else {
            assert(cat[a] == s1[a] && cat[b] == e2[b - s1.len()]);
            assert(s1.to_multiset().contains(s1[a])) by {
                assert(s1.contains(s1[a]));
            }
            assert(e1.to_multiset().contains(s1[a]));
            assert(e1.contains(s1[a]));
            let w = choose|w: int| 0 <= w < e1.len() && e1[w] == s1[a];
            assert(event_lt(e1[w], e2[b - s1.len()]));
            lemma_event_asym(e1[w], e2[b - s1.len()]);
        }
    }
    // It holds the same events as the sorted combination.
    lemma_multiset_commutative(e1, e2);
    lemma_multiset_commutative(s1, e2);
    assert(cat.to_multiset() == sort_events_spec(both).to_multiset());
    // And so it is the sorted combination.
    lemma_ordered_unique(sort_events_spec(both), cat);
    lemma_replay_concat(s0, reg, s1, e2);
}

/// Out-of-order logs: startup with a log whose events carry out-of-order
/// creation timestamps reconstructs state identical to a fresh run where
/// the same events were dispatched in timestamp order.
pub proof fn lemma_replay_order_insensitive(
    s0: Seq<(Seq<char>, DocV)>,
    reg: Seq<RegEntryV>,
    logged: Seq<EventV>,
    dispatched: Seq<EventV>,
)
    requires
        logged.to_multiset() == dispatched.to_multiset(),
        ids_unique(logged),
        events_ordered(dispatched),
    ensures
        replay_slices(s0, reg, sort_events_spec(logged)) == replay_slices(s0, reg, dispatched),
{
    lemma_sort_spec_ensures(logged);
    lemma_sort_ids(logged);
    lemma_ordered_unique(sort_events_spec(logged), dispatched);
}

} // verus!
