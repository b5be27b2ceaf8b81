//! The canonical event envelope and its replay order. An event carries an
//! opaque unique identifier, a type tag, a payload document and a creation
//! timestamp; recovered events are replayed in ascending timestamp order,
//! ties broken by identifier, so that replay is deterministic across runs.

use vstd::prelude::*;
use vstd::multiset::Multiset;
use vstd::seq_lib::*;
use vstd::string::*;
use crate::document::{dv, wf_doc, DocV, Document};

verus! {

/// One applied event.
pub struct Event {
    pub id: String,
    pub typ: String,
    pub payload: Document,
    pub create_time: u64,
}

/// The mathematical model of an event.
#[verifier::ext_equal]
pub struct EventV {
    pub id: Seq<char>,
    pub typ: Seq<char>,
    pub payload: DocV,
    pub create_time: int,
}

impl View for Event {
    type V = EventV;

    open spec fn view(&self) -> EventV {
        EventV {
            id: self.id@,
            typ: self.typ@,
            payload: dv(self.payload),
            create_time: self.create_time as int,
        }
    }
}

/// A well-formed event: its payload has unique object keys throughout and
/// its timestamp fits the number range a document can store.
pub open spec fn event_wf(e: EventV) -> bool {
    &&& wf_doc(e.payload)
    &&& 0 <= e.create_time <= i64::MAX
}

impl Event {
    /// A structurally identical copy of this event.
    pub fn duplicate(&self) -> (r: Event)
        ensures
            r@ == self@,
    {
        Event {
            id: self.id.clone(),
            typ: self.typ.clone(),
            payload: self.payload.deep_copy(),
            create_time: self.create_time,
        }
    }
}

/// Relies on uuid::Uuid::new_v4 and its hyphenated text form: a fresh
/// version-4 identifier from a collision-resistant random scheme, printed
/// as 36 characters. Nothing more is promised of a random value.
#[verifier::external_body]
fn fresh_event_id() -> (r: String)
    ensures
        r@.len() == 36,
{
    uuid::Uuid::new_v4().to_string()
}

/// Relies on std::time::SystemTime::now: the wall clock as milliseconds
/// since the Unix epoch, or 0 for a clock reading before the epoch.
/// Nothing is promised of the reading.
#[verifier::external_body]
fn now_millis() -> (r: u64)
{
    match std::time::SystemTime::now().duration_since(std::time::UNIX_EPOCH) {
        Ok(d) => d.as_millis() as u64,
        Err(_) => 0,
    }
}

/// Mints the canonical event envelope. The identifier and the creation time
/// are stamped here, the sole place new events come into being: the
/// identifier is freshly generated, never caller-supplied, and the
/// timestamp is set by the store.
pub fn mint_event(typ: String, payload: Document) -> (e: Event)
    ensures
        e.typ@ == typ@,
        e.payload == payload,
        e.id@.len() == 36,
{
    Event { id: fresh_event_id(), typ, payload, create_time: now_millis() }
}

/// Strict lexicographic order on character sequences by scalar value.
pub open spec fn lex_lt(a: Seq<char>, b: Seq<char>) -> bool
    decreases a.len(),
{
    if b.len() == 0 {
        false
    } else if a.len() == 0 {
        true
    } else if (a[0] as u32) < (b[0] as u32) {
        true
    } else if (b[0] as u32) < (a[0] as u32) {
        false
    } else {
        lex_lt(a.drop_first(), b.drop_first())
    }
}

/// The replay order: ascending creation time, ties broken by identifier.
pub open spec fn event_lt(a: EventV, b: EventV) -> bool {
    ||| a.create_time < b.create_time
    ||| (a.create_time == b.create_time && lex_lt(a.id, b.id))
}

/// A sequence stands in replay order when no later element orders strictly
/// before an earlier one.
pub open spec fn events_ordered(s: Seq<EventV>) -> bool {
    forall|i: int, j: int| 0 <= i < j < s.len() ==> !event_lt(#[trigger] s[j], #[trigger] s[i])
}

/// No two events of the sequence share an identifier.
pub open spec fn ids_unique(s: Seq<EventV>) -> bool {
    forall|i: int, j: int| 0 <= i < j < s.len() ==> (#[trigger] s[i]).id != (#[trigger] s[j]).id
}

/// No sequence orders lexicographically before itself.
pub proof fn lemma_lex_irrefl(a: Seq<char>)
    ensures
        !lex_lt(a, a),
    decreases a.len(),
{
    if a.len() > 0 {
        lemma_lex_irrefl(a.drop_first());
    }
}

/// Any two sequences order one way, the other way, or are equal.
pub proof fn lemma_lex_trichotomy(a: Seq<char>, b: Seq<char>)
    ensures
        lex_lt(a, b) || lex_lt(b, a) || a == b,
    decreases a.len(),
{
    if b.len() == 0 || a.len() == 0 {
        if a.len() == b.len() {
            assert(a =~= b);
        }
    } else if (a[0] as u32) < (b[0] as u32) || (b[0] as u32) < (a[0] as u32) {
    } else {
        lemma_lex_trichotomy(a.drop_first(), b.drop_first());
        if a.drop_first() == b.drop_first() {
            vstd::utf8::char_u32_cast(a[0], a[0] as u32);
            vstd::utf8::char_u32_cast(b[0], b[0] as u32);
            assert(a[0] == b[0]);
            assert(a.drop_first().len() == b.drop_first().len());
            assert(a.len() == b.len());
            assert forall|i: int| 0 <= i < a.len() implies a[i] == b[i] by {
                if i > 0 {
                    assert(a.drop_first()[i - 1] == a[i]);
                    assert(b.drop_first()[i - 1] == b[i]);
                }
            }
            assert(a =~= b);
        }
    }
}

/// The lexicographic order is transitive.
pub proof fn lemma_lex_trans(a: Seq<char>, b: Seq<char>, c: Seq<char>)
    requires
        lex_lt(a, b),
        lex_lt(b, c),
    ensures
        lex_lt(a, c),
    decreases a.len(),
{
    if a.len() == 0 {
    } else if c.len() == 0 {
    } else {
        if (a[0] as u32) == (b[0] as u32) && (b[0] as u32) == (c[0] as u32) {
            lemma_lex_trans(a.drop_first(), b.drop_first(), c.drop_first());
        }
    }
}

/// The replay order is transitive.
pub proof fn lemma_event_trans(a: EventV, b: EventV, c: EventV)
    requires
        event_lt(a, b),
        event_lt(b, c),
    ensures
        event_lt(a, c),
{
    if a.create_time == b.create_time && b.create_time == c.create_time {
        lemma_lex_trans(a.id, b.id, c.id);
    }
}

/// No event orders strictly before itself, so two events cannot each order
/// before the other.
pub proof fn lemma_event_asym(a: EventV, b: EventV)
    requires
        event_lt(a, b),
    ensures
        !event_lt(b, a),
{
    if event_lt(b, a) {
        lemma_event_trans(a, b, a);
        lemma_lex_irrefl(a.id);
    }
}

/// Two events neither of which orders before the other share their
/// timestamp and identifier.
pub proof fn lemma_event_tie(a: EventV, b: EventV)
    requires
        !event_lt(a, b),
        !event_lt(b, a),
    ensures
        a.create_time == b.create_time,
        a.id == b.id,
{
    lemma_lex_trichotomy(a.id, b.id);
}

/// Whether `a` orders strictly before `b` in replay order.
pub fn event_before(a: &Event, b: &Event) -> (r: bool)
    ensures
        r == event_lt(a@, b@),
{
    if a.create_time < b.create_time {
        true
    } else if b.create_time < a.create_time {
        false
    } else {
        lex_before(a.id.as_str(), b.id.as_str())
    }
}

/// Whether `a` orders lexicographically before `b`.
#[verifier::loop_isolation(false)]
fn lex_before(a: &str, b: &str) -> (r: bool)
    ensures
        r == lex_lt(a@, b@),
{
    let alen = a.unicode_len();
    let blen = b.unicode_len();
    let mut i: usize = 0;
    proof {
        assert(a@.skip(0) =~= a@);
        assert(b@.skip(0) =~= b@);
    }
    while i < alen && i < blen
        invariant
            i <= a@.len(),
            i <= b@.len(),
            lex_lt(a@, b@) == lex_lt(a@.skip(i as int), b@.skip(i as int)),
        decreases a@.len() - i,
    {
        let ca = a.get_char(i);
        let cb = b.get_char(i);
        proof {
            assert(a@.skip(i as int)[0] == a@[i as int]);
            assert(b@.skip(i as int)[0] == b@[i as int]);
            assert(a@.skip(i as int).drop_first() =~= a@.skip(i as int + 1));
            assert(b@.skip(i as int).drop_first() =~= b@.skip(i as int + 1));
        }
        if (ca as u32) < (cb as u32) {
            return true;
        }
        if (cb as u32) < (ca as u32) {
            return false;
        }
        i = i + 1;
    }
    proof {
        assert(a@.skip(i as int).len() == a@.len() - i);
        assert(b@.skip(i as int).len() == b@.len() - i);
    }
    i < blen
}

/// The model of a sequence of events.
pub open spec fn evs(s: Seq<Event>) -> Seq<EventV> {
    s.map(|i: int, e: Event| e@)
}

/// A new element placed before the first element it orders strictly before;
/// ties keep the earlier arrival first.
pub open spec fn insert_ordered(s: Seq<EventV>, e: EventV) -> Seq<EventV>
    decreases s.len(),
{
    if s.len() == 0 {
        seq![e]
    } else if event_lt(e, s[0]) {
        seq![e] + s
    } else {
        seq![s[0]] + insert_ordered(s.drop_first(), e)
    }
}

/// The replay order of a sequence of events: each element inserted in turn,
/// stably, into an ordered sequence.
pub open spec fn sort_events_spec(s: Seq<EventV>) -> Seq<EventV>
    decreases s.len(),
{
    if s.len() == 0 {
        Seq::empty()
    } else {
        insert_ordered(sort_events_spec(s.drop_last()), s.last())
    }
}

/// Inserting into an ordered sequence keeps it ordered, adds the element to
/// the contents, and grows the length by one.
pub proof fn lemma_insert_ordered_ensures(s: Seq<EventV>, e: EventV)
    requires
        events_ordered(s),
    ensures
        events_ordered(insert_ordered(s, e)),
        insert_ordered(s, e).to_multiset() == s.to_multiset().insert(e),
        insert_ordered(s, e).len() == s.len() + 1,
    decreases s.len(),
{
    broadcast use vstd::seq_lib::group_to_multiset_ensures;
    broadcast use vstd::multiset::group_multiset_axioms;

    let r = insert_ordered(s, e);
    if s.len() == 0 {
        assert(seq![e] =~= Seq::<EventV>::empty().push(e));
        assert(Seq::<EventV>::empty().to_multiset() =~= Multiset::<EventV>::empty()) by {
            assert(Seq::<EventV>::empty().to_multiset().len() == 0);
        }
        assert(r.to_multiset() =~= s.to_multiset().insert(e));
    } else if event_lt(e, s[0]) {
        assert forall|i: int, j: int| 0 <= i < j < r.len() implies !event_lt(
            #[trigger] r[j],
            #[trigger] r[i],
        ) by {
            if i == 0 {
                assert(r[j] == s[j - 1]);
                if event_lt(s[j - 1], e) {
                    lemma_event_trans(s[j - 1], e, s[0]);
                    if j - 1 == 0 {
                        lemma_event_asym(e, s[0]);
                    } else {
                        assert(!event_lt(s[j - 1], s[0]));
                    }
                }
            } else {
                assert(r[i] == s[i - 1]);
                assert(r[j] == s[j - 1]);
            }
        }
        assert(seq![e] + s =~= (seq![e] + s));
        lemma_multiset_commutative(seq![e], s);
        assert(seq![e].to_multiset() =~= Multiset::<EventV>::empty().insert(e)) by {
            assert(seq![e] =~= Seq::<EventV>::empty().push(e));
            assert(Seq::<EventV>::empty().to_multiset() =~= Multiset::<EventV>::empty()) by {
                assert(Seq::<EventV>::empty().to_multiset().len() == 0);
            }
        }
        assert(r.to_multiset() =~= s.to_multiset().insert(e));
    } else {
        let t = s.drop_first();
        assert forall|i: int, j: int| 0 <= i < j < t.len() implies !event_lt(
            #[trigger] t[j],
            #[trigger] t[i],
        ) by {
            assert(t[i] == s[i + 1]);
            assert(t[j] == s[j + 1]);
        }
        lemma_insert_ordered_ensures(t, e);
        let rest = insert_ordered(t, e);
        assert(r == seq![s[0]] + rest);
        assert forall|i: int, j: int| 0 <= i < j < r.len() implies !event_lt(
            #[trigger] r[j],
            #[trigger] r[i],
        ) by {
            if i == 0 {
                assert(r[j] == rest[j - 1]);
                assert(rest.to_multiset().contains(rest[j - 1]));
                assert(rest.to_multiset() == t.to_multiset().insert(e));
                if rest[j - 1] == e {
                    if event_lt(e, s[0]) {
                        assert(false);
                    }
                } else {
                    assert(t.to_multiset().contains(rest[j - 1]));
                    assert(t.contains(rest[j - 1]));
                    let w = choose|w: int| 0 <= w < t.len() && t[w] == rest[j - 1];
                    assert(t[w] == s[w + 1]);
                    assert(!event_lt(s[w + 1], s[0]));
                }
            }
        }
        // contents
        assert(t.to_multiset() =~= s.to_multiset().remove(s[0])) by {
            assert(s.remove(0) =~= s.drop_first());
            assert(s.remove(0).to_multiset() =~= s.to_multiset().remove(s[0]));
        }
        lemma_multiset_commutative(seq![s[0]], rest);
        assert(seq![s[0]].to_multiset() =~= Multiset::<EventV>::empty().insert(s[0])) by {
            assert(seq![s[0]] =~= Seq::<EventV>::empty().push(s[0]));
            assert(Seq::<EventV>::empty().to_multiset() =~= Multiset::<EventV>::empty()) by {
                assert(Seq::<EventV>::empty().to_multiset().len() == 0);
            }
        }
        assert(s.to_multiset().contains(s[0])) by {
            assert(s.contains(s[0]));
        }
        assert(r.to_multiset() =~= s.to_multiset().insert(e));
    }
}

/// Every element after a stable insertion is the new event or one of the
/// old ones.
pub proof fn lemma_insert_ordered_contents(s: Seq<EventV>, e: EventV)
    ensures
        insert_ordered(s, e).len() == s.len() + 1,
        forall|k: int| 0 <= k < insert_ordered(s, e).len() ==> (#[trigger] insert_ordered(s, e)[k]
            == e || s.contains(insert_ordered(s, e)[k])),
    decreases s.len(),
{
    let r = insert_ordered(s, e);
    if s.len() == 0 {
    } else if event_lt(e, s[0]) {
        assert forall|k: int| 0 <= k < r.len() implies (#[trigger] r[k] == e || s.contains(
            r[k],
        )) by {
            if k > 0 {
                assert(r[k] == s[k - 1]);
            }
        }
    } else {
        let t = s.drop_first();
        lemma_insert_ordered_contents(t, e);
        assert forall|k: int| 0 <= k < r.len() implies (#[trigger] r[k] == e || s.contains(
            r[k],
        )) by {
            if k == 0 {
                assert(r[0] == s[0]);
            } else {
                assert(r[k] == insert_ordered(t, e)[k - 1]);
                if insert_ordered(t, e)[k - 1] != e {
                    assert(t.contains(insert_ordered(t, e)[k - 1]));
                    let w = choose|w: int| 0 <= w < t.len() && t[w] == insert_ordered(t, e)[k - 1];
                    assert(s[w + 1] == insert_ordered(t, e)[k - 1]);
                }
            }
        }
    }
}

/// Inserting an event whose identifier is fresh keeps identifiers unique.
pub proof fn lemma_insert_ordered_ids(s: Seq<EventV>, e: EventV)
    requires
        ids_unique(s),
        forall|j: int| 0 <= j < s.len() ==> (#[trigger] s[j]).id != e.id,
    ensures
        ids_unique(insert_ordered(s, e)),
    decreases s.len(),
{
    let r = insert_ordered(s, e);
    if s.len() == 0 {
    } else if event_lt(e, s[0]) {
        assert forall|a: int, b: int| 0 <= a < b < r.len() implies (#[trigger] r[a]).id != (
        #[trigger] r[b]).id by {
            if a == 0 {
                assert(r[b] == s[b - 1]);
            } else {
                assert(r[a] == s[a - 1]);
                assert(r[b] == s[b - 1]);
            }
        }
    } else {
        let t = s.drop_first();
        assert forall|a: int, b: int| 0 <= a < b < t.len() implies (#[trigger] t[a]).id != (
        #[trigger] t[b]).id by {
            assert(t[a] == s[a + 1]);
            assert(t[b] == s[b + 1]);
        }
        assert forall|j: int| 0 <= j < t.len() implies (#[trigger] t[j]).id != e.id by {
            assert(t[j] == s[j + 1]);
        }
        lemma_insert_ordered_ids(t, e);
        lemma_insert_ordered_contents(t, e);
        let rest = insert_ordered(t, e);
        assert forall|a: int, b: int| 0 <= a < b < r.len() implies (#[trigger] r[a]).id != (
        #[trigger] r[b]).id by {
            if a == 0 {
                assert(r[b] == rest[b - 1]);
                if rest[b - 1] == e {
                    assert(s[0].id != e.id);
                } else {
                    assert(t.contains(rest[b - 1]));
                    let w = choose|w: int| 0 <= w < t.len() && t[w] == rest[b - 1];
                    assert(s[w + 1] == rest[b - 1]);
                    assert(s[0].id != s[w + 1].id);
                }
            } else {
                assert(r[a] == rest[a - 1]);
                assert(r[b] == rest[b - 1]);
            }
        }
    }
}

/// Arranging events into replay order keeps identifiers unique.
pub proof fn lemma_sort_ids(s: Seq<EventV>)
    requires
        ids_unique(s),
    ensures
        ids_unique(sort_events_spec(s)),
    decreases s.len(),
{
    broadcast use vstd::seq_lib::group_to_multiset_ensures;

    if s.len() > 0 {
        let t = s.drop_last();
        assert forall|a: int, b: int| 0 <= a < b < t.len() implies (#[trigger] t[a]).id != (
        #[trigger] t[b]).id by {
            assert(t[a] == s[a]);
            assert(t[b] == s[b]);
        }
        lemma_sort_ids(t);
        lemma_sort_spec_ensures(t);
        let st = sort_events_spec(t);
        assert forall|j: int| 0 <= j < st.len() implies (#[trigger] st[j]).id != s.last().id by {
            assert(st.to_multiset().contains(st[j])) by {
                assert(st.contains(st[j]));
            }
            assert(t.to_multiset().contains(st[j]));
            assert(t.contains(st[j]));
            let w = choose|w: int| 0 <= w < t.len() && t[w] == st[j];
            assert(s[w] == st[j]);
            assert(s[w].id != s[s.len() - 1].id);
        }
        lemma_insert_ordered_ids(st, s.last());
    }
}

/// The replay order of any sequence is ordered and holds the same events.
pub proof fn lemma_sort_spec_ensures(s: Seq<EventV>)
    ensures
        events_ordered(sort_events_spec(s)),
        sort_events_spec(s).to_multiset() == s.to_multiset(),
        sort_events_spec(s).len() == s.len(),
    decreases s.len(),
{
    broadcast use vstd::seq_lib::group_to_multiset_ensures;
    broadcast use vstd::multiset::group_multiset_axioms;

    if s.len() == 0 {
    } else {
        lemma_sort_spec_ensures(s.drop_last());
        lemma_insert_ordered_ensures(sort_events_spec(s.drop_last()), s.last());
        assert(s =~= s.drop_last().push(s.last()));
        assert(s.drop_last().push(s.last()).to_multiset() =~= s.drop_last().to_multiset().insert(
            s.last(),
        ));
    }
}

/// Placing an element at the first position whose occupant it orders
/// strictly before is exactly the stable insertion.
pub proof fn lemma_insert_position(s: Seq<EventV>, e: EventV, j: int)
    requires
        0 <= j <= s.len(),
        forall|x: int| 0 <= x < j ==> !event_lt(e, #[trigger] s[x]),
        j < s.len() ==> event_lt(e, s[j]),
    ensures
        insert_ordered(s, e) == s.insert(j, e),
    decreases j,
{
    if s.len() == 0 {
        assert(insert_ordered(s, e) =~= s.insert(0, e));
    } else if j == 0 {
        assert(seq![e] + s =~= s.insert(0, e));
    } else {
        let t = s.drop_first();
        assert forall|x: int| 0 <= x < j - 1 implies !event_lt(e, #[trigger] t[x]) by {
            assert(t[x] == s[x + 1]);
        }
        assert(j - 1 < t.len() ==> event_lt(e, t[j - 1]));
        lemma_insert_position(t, e, j - 1);
        assert(insert_ordered(s, e) == seq![s[0]] + t.insert(j - 1, e));
        assert(seq![s[0]] + t.insert(j - 1, e) =~= s.insert(j, e));
    }
}

/// Two ordered sequences holding the same events, with identifiers unique
/// in the first, are the same sequence: the replay order is deterministic.
pub proof fn lemma_ordered_unique(x: Seq<EventV>, y: Seq<EventV>)
    requires
        events_ordered(x),
        events_ordered(y),
        ids_unique(x),
        x.to_multiset() == y.to_multiset(),
    ensures
        x == y,
    decreases x.len(),
{
    broadcast use vstd::seq_lib::group_to_multiset_ensures;
    broadcast use vstd::multiset::group_multiset_axioms;

    if x.len() == 0 || y.len() == 0 {
        assert(x.to_multiset().len() == x.len());
        assert(y.to_multiset().len() == y.len());
        assert(x =~= y);
    } else {
        assert(x.to_multiset().contains(y[0])) by {
            assert(y.contains(y[0]));
        }
        assert(x.contains(y[0]));
        let i = choose|i: int| 0 <= i < x.len() && x[i] == y[0];
        assert(y.to_multiset().contains(x[0])) by {
            assert(x.contains(x[0]));
        }
        assert(y.contains(x[0]));
        let k = choose|k: int| 0 <= k < y.len() && y[k] == x[0];
        // x[0] and y[0] tie in the order, so they share time and identifier.
        if i == 0 {
            lemma_lex_irrefl(x[0].id);
        }
        if k == 0 {
            lemma_lex_irrefl(y[0].id);
        }
        assert(!event_lt(x[i], x[0]));
        assert(!event_lt(y[k], y[0]));
        assert(!event_lt(y[0], x[0]));
        assert(!event_lt(x[0], y[0]));
        lemma_event_tie(x[0], y[0]);
        // x[i] shares x[0]'s identifier, so i == 0 and y[0] == x[0].
        assert(x[i].id == x[0].id);
        if i != 0 {
            assert(x[0].id != x[i].id);
            assert(false);
        }
        assert(x[0] == y[0]);
        let xt = x.drop_first();
        let yt = y.drop_first();
        assert(xt.to_multiset() =~= x.to_multiset().remove(x[0])) by {
            assert(x.remove(0) =~= xt);
            assert(x.remove(0).to_multiset() =~= x.to_multiset().remove(x[0]));
        }
        assert(yt.to_multiset() =~= y.to_multiset().remove(y[0])) by {
            assert(y.remove(0) =~= yt);
            assert(y.remove(0).to_multiset() =~= y.to_multiset().remove(y[0]));
        }
        assert forall|a: int, b: int| 0 <= a < b < xt.len() implies !event_lt(
            #[trigger] xt[b],
            #[trigger] xt[a],
        ) by {
            assert(xt[a] == x[a + 1]);
            assert(xt[b] == x[b + 1]);
        }
        assert forall|a: int, b: int| 0 <= a < b < yt.len() implies !event_lt(
            #[trigger] yt[b],
            #[trigger] yt[a],
        ) by {
            assert(yt[a] == y[a + 1]);
            assert(yt[b] == y[b + 1]);
        }
        assert forall|a: int, b: int| 0 <= a < b < xt.len() implies (#[trigger] xt[a]).id != (
        #[trigger] xt[b]).id by {
            assert(xt[a] == x[a + 1]);
            assert(xt[b] == x[b + 1]);
        }
        lemma_ordered_unique(xt, yt);
        assert(x =~= y) by {
            assert forall|n: int| 0 <= n < x.len() implies x[n] == y[n] by {
                if n > 0 {
                    assert(xt[n - 1] == x[n]);
                    assert(yt[n - 1] == y[n]);
                }
            }
        }
    }
}

/// The first position in `out` whose occupant the new event orders strictly
/// before; the length when there is none.
#[verifier::loop_isolation(false)]
fn insert_pos(out: &Vec<Event>, e: &Event) -> (j: usize)
    ensures
        j <= out@.len(),
        forall|x: int| 0 <= x < j ==> !event_lt(e@, #[trigger] evs(out@)[x]),
        j < out@.len() ==> event_lt(e@, evs(out@)[j as int]),
{
    let mut j: usize = 0;
    while j < out.len()
        invariant
            j <= out@.len(),
            forall|x: int| 0 <= x < j ==> !event_lt(e@, #[trigger] evs(out@)[x]),
        decreases out@.len() - j,
    {
        let before = event_before(e, &out[j]);
        proof {
            assert(evs(out@)[j as int] == out@[j as int]@);
        }
        if before {
            return j;
        }
        j = j + 1;
    }
    j
}

/// The events of a sequence, arranged into replay order: ascending creation
/// time, ties broken by identifier, equal keys keeping arrival order.
#[verifier::loop_isolation(false)]
pub fn sorted_events(events: &Vec<Event>) -> (r: Vec<Event>)
    ensures
        evs(r@) == sort_events_spec(evs(events@)),
{
    let mut out: Vec<Event> = Vec::new();
    let mut i: usize = 0;
    proof {
        assert(evs(events@.take(0)) =~= Seq::<EventV>::empty());
    }
    while i < events.len()
        invariant
            i <= events@.len(),
            evs(out@) == sort_events_spec(evs(events@.take(i as int))),
        decreases events@.len() - i,
    {
        let e = events[i].duplicate();
        let ghost prev = evs(out@);
        let j = insert_pos(&out, &e);
        proof {
            lemma_insert_position(prev, e@, j as int);
        }
        out.insert(j, e);
        proof {
            assert(evs(out@) =~= prev.insert(j as int, e@));
            assert(evs(events@.take(i as int + 1)) =~= evs(events@.take(i as int)).push(
                events@[i as int]@,
            ));
            assert(sort_events_spec(evs(events@.take(i as int + 1))) == insert_ordered(
                sort_events_spec(evs(events@.take(i as int))),
                events@[i as int]@,
            )) by {
                let w = evs(events@.take(i as int + 1));
                assert(w.drop_last() =~= evs(events@.take(i as int)));
                assert(w.last() == events@[i as int]@);
            }
        }
        i = i + 1;
    }
    proof {
        assert(events@.take(i as int) =~= events@);
    }
    out
}

} // verus!
