//! The reducer registry: a read-only mapping, fixed at construction time,
//! from slice name to that slice's initial value and reducer. No two
//! registrations share a name; registering a name again replaces the
//! earlier entry (last write wins). The registry is pure data: it performs
//! no input or output and never fails.

use vstd::prelude::*;
use vstd::string::*;
use crate::document::{dv, str_eq, wf_doc, DocV, Document};
use crate::reducers::ReducerKind;

verus! {

/// One registration: a slice name, its initial value, and its reducer.
pub struct RegEntry {
    pub name: String,
    pub initial: Document,
    pub kind: ReducerKind,
}

/// The mathematical model of a registration.
#[verifier::ext_equal]
pub struct RegEntryV {
    pub name: Seq<char>,
    pub initial: DocV,
    pub kind: ReducerKind,
}

impl View for RegEntry {
    type V = RegEntryV;

    open spec fn view(&self) -> RegEntryV {
        RegEntryV { name: self.name@, initial: dv(self.initial), kind: self.kind }
    }
}

/// The read-only mapping from slice name to initial value and reducer.
pub struct Registry {
    pub entries: Vec<RegEntry>,
}

/// The model of a registry: its registrations in order.
pub open spec fn reg_v(entries: Seq<RegEntry>) -> Seq<RegEntryV> {
    entries.map(|i: int, e: RegEntry| e@)
}

impl View for Registry {
    type V = Seq<RegEntryV>;

    open spec fn view(&self) -> Seq<RegEntryV> {
        reg_v(self.entries@)
    }
}

/// Some registration carries the name.
pub open spec fn reg_has(s: Seq<RegEntryV>, n: Seq<char>) -> bool {
    exists|i: int| 0 <= i < s.len() && (#[trigger] s[i]).name == n
}

/// The index of the registration carrying the name.
pub open spec fn reg_index(s: Seq<RegEntryV>, n: Seq<char>) -> int {
    choose|i: int| 0 <= i < s.len() && (#[trigger] s[i]).name == n
}

/// The registration carrying the name.
pub open spec fn reg_at(s: Seq<RegEntryV>, n: Seq<char>) -> RegEntryV {
    s[reg_index(s, n)]
}

/// A well-formed registry: no two registrations share a name, and every
/// initial value is well-formed.
pub open spec fn reg_wf(s: Seq<RegEntryV>) -> bool {
    &&& forall|i: int, j: int| 0 <= i < j < s.len() ==> (#[trigger] s[i]).name != (
    #[trigger] s[j]).name
    &&& forall|i: int| 0 <= i < s.len() ==> wf_doc((#[trigger] s[i]).initial)
}

/// Under unique names, every index carrying the name is `reg_index`.
pub proof fn lemma_reg_index_unique(s: Seq<RegEntryV>, n: Seq<char>)
    requires
        reg_wf(s),
        reg_has(s, n),
    ensures
        0 <= reg_index(s, n) < s.len(),
        reg_at(s, n).name == n,
        forall|i: int| 0 <= i < s.len() && (#[trigger] s[i]).name == n ==> i == reg_index(s, n),
{
    let i0 = reg_index(s, n);
    assert(0 <= i0 < s.len() && s[i0].name == n);
    assert forall|i: int| 0 <= i < s.len() && (#[trigger] s[i]).name == n implies i == i0 by {
        if i < i0 {
            assert(s[i].name != s[i0].name);
        } else if i > i0 {
            assert(s[i0].name != s[i].name);
        }
    }
}

impl Registry {
    /// An empty registry.
    pub fn new() -> (r: Registry)
        ensures
            r@ == Seq::<RegEntryV>::empty(),
    {
        let r = Registry { entries: Vec::new() };
        proof {
            assert(r@ =~= Seq::<RegEntryV>::empty());
        }
        r
    }

    /// Adds a registration. A name registered before is replaced in place:
    /// the last registration of a name wins. Keeps the registry well-formed.
    #[verifier::loop_isolation(false)]
    pub fn register(&mut self, name: String, initial: Document, kind: ReducerKind)
        requires
            reg_wf(old(self)@),
            wf_doc(dv(initial)),
        ensures
            reg_wf(final(self)@),
            reg_has(final(self)@, name@),
            reg_at(final(self)@, name@) == (RegEntryV { name: name@, initial: dv(initial), kind }),
            forall|n: Seq<char>| n != name@ ==> #[trigger] reg_has(final(self)@, n) == reg_has(
                old(self)@,
                n,
            ),
            forall|n: Seq<char>| n != name@ && reg_has(old(self)@, n) ==> #[trigger] reg_at(
                final(self)@,
                n,
            ) == reg_at(old(self)@, n),
            final(self)@.len() == if reg_has(old(self)@, name@) {
                old(self)@.len() as int
            } else {
                old(self)@.len() + 1 as int
            },
            forall|j: int| 0 <= j < final(self)@.len() ==> (#[trigger] final(self)@[j]).kind
                == kind || (0 <= j < old(self)@.len() && final(self)@[j] == old(self)@[j]),
    {
        let ghost s0 = self@;
        let n = self.entries.len();
        let mut i: usize = 0;
        while i < n
            invariant
                i <= n,
                n == self.entries@.len(),
                self@ == s0,
                forall|j: int| 0 <= j < i ==> (#[trigger] s0[j]).name != name@,
            decreases n - i,
        {
            let hit = str_eq(self.entries[i].name.as_str(), name.as_str());
            proof {
                assert(s0[i as int] == self.entries@[i as int]@);
            }
            if hit {
                self.entries.set(i, RegEntry { name, initial, kind });
                proof {
                    let s1 = self@;
                    assert(forall|j: int|
                        0 <= j < s1.len() && j != i ==> #[trigger] s1[j] == s0[j]);
                    assert(s1[i as int] == (RegEntryV {
                        name: s0[i as int].name,
                        initial: dv(initial),
                        kind,
                    }));
                    lemma_found_at(s0, s1, i as int);
                }
                return;
            }
            i = i + 1;
        }
        let ghost nv = name@;
        let ghost iv = dv(initial);
        self.entries.push(RegEntry { name, initial, kind });
        proof {
            let s1 = self@;
            assert(forall|j: int| 0 <= j < s0.len() ==> #[trigger] s1[j] == s0[j]);
            assert(s1[s0.len() as int] == (RegEntryV { name: nv, initial: iv, kind }));
            lemma_found_at(s0, s1, s0.len() as int);
        }
    }

    /// The reducer registered for a slice name, if any.
    #[verifier::loop_isolation(false)]
    pub fn kind_of(&self, name: &str) -> (r: Option<ReducerKind>)
        requires
            reg_wf(self@),
        ensures
            match r {
                Some(k) => reg_has(self@, name@) && reg_at(self@, name@).kind == k,
                None => !reg_has(self@, name@),
            },
    {
        let mut i: usize = 0;
        while i < self.entries.len()
            invariant
                i <= self.entries@.len(),
                forall|j: int| 0 <= j < i ==> (#[trigger] self@[j]).name != name@,
            decreases self.entries@.len() - i,
        {
            let hit = str_eq(self.entries[i].name.as_str(), name);
            proof {
                assert(self@[i as int] == self.entries@[i as int]@);
            }
            if hit {
                proof {
                    lemma_reg_index_unique(self@, name@);
                }
                return Some(self.entries[i].kind);
            }
            i = i + 1;
        }
        proof {
            if reg_has(self@, name@) {
                let w = choose|x: int| 0 <= x < self@.len() && (#[trigger] self@[x]).name == name@;
                assert(false);
            }
        }
        None
    }
}

/// A registry differing from a well-formed one only at one index, where the
/// stored name was either already there or new, is well-formed, and lookups
/// behave as a single replacement.
proof fn lemma_found_at(s0: Seq<RegEntryV>, s1: Seq<RegEntryV>, i: int)
    requires
        reg_wf(s0),
        wf_doc(s1[i].initial),
        0 <= i <= s0.len(),
        s1.len() == if i < s0.len() {
            s0.len() as int
        } else {
            s0.len() + 1 as int
        },
        forall|j: int| 0 <= j < s1.len() && j != i ==> #[trigger] s1[j] == s0[j],
        i < s0.len() ==> s1[i].name == s0[i].name,
        i == s0.len() ==> !reg_has(s0, s1[i].name),
    ensures
        reg_wf(s1),
        reg_has(s1, s1[i].name),
        reg_at(s1, s1[i].name) == s1[i],
        forall|n: Seq<char>| n != s1[i].name ==> #[trigger] reg_has(s1, n) == reg_has(s0, n),
        forall|n: Seq<char>| n != s1[i].name && reg_has(s0, n) ==> #[trigger] reg_at(s1, n)
            == reg_at(s0, n),
{
    assert forall|a: int, b: int| 0 <= a < b < s1.len() implies (#[trigger] s1[a]).name != (
    #[trigger] s1[b]).name by {
        if a != i && b != i {
            assert(s0[a].name != s0[b].name);
        } else if a == i {
            if i < s0.len() {
                assert(s0[a].name != s0[b].name);
            } else {
                assert(false);
            }
        } else {
            if i < s0.len() {
                assert(s0[a].name != s0[b].name);
            } else {
                assert(s1[a] == s0[a]);
                assert(!(exists|x: int|
                    0 <= x < s0.len() && (#[trigger] s0[x]).name == s1[i].name));
            }
        }
    }
    assert forall|x: int| 0 <= x < s1.len() implies wf_doc((#[trigger] s1[x]).initial) by {
        if x != i {
            assert(s1[x] == s0[x]);
        }
    }
    assert(reg_has(s1, s1[i].name)) by {
        assert(0 <= i < s1.len() && s1[i].name == s1[i].name);
    }
    lemma_reg_index_unique(s1, s1[i].name);
    assert forall|n: Seq<char>| n != s1[i].name implies (reg_has(s1, n) == reg_has(s0, n) && (
    reg_has(s0, n) ==> reg_at(s1, n) == reg_at(s0, n))) by {
        if reg_has(s0, n) {
            let w = choose|x: int| 0 <= x < s0.len() && (#[trigger] s0[x]).name == n;
            assert(w != i);
            assert(s1[w] == s0[w]);
            assert(reg_has(s1, n));
            lemma_reg_index_unique(s1, n);
            lemma_reg_index_unique(s0, n);
            assert(reg_index(s1, n) == w);
            assert(reg_index(s0, n) == w);
        }
        if reg_has(s1, n) {
            let w = choose|x: int| 0 <= x < s1.len() && (#[trigger] s1[x]).name == n;
            assert(w != i);
            assert(s1[w] == s0[w]);
            assert(reg_has(s0, n));
        }
    }
}

/// The registry the store runs with: the five slices and their reducers.
pub fn default_registry() -> (r: Registry)
    ensures
        reg_wf(r@),
        r@.len() == 5,
        reg_has(r@, "sources"@) && reg_at(r@, "sources"@).kind == ReducerKind::Sources && reg_at(
            r@,
            "sources"@,
        ).initial == crate::document::empty_obj_v(),
        reg_has(r@, "settings"@) && reg_at(r@, "settings"@).kind == ReducerKind::Settings && reg_at(
            r@,
            "settings"@,
        ).initial == crate::document::empty_obj_v(),
        reg_has(r@, "sessions"@) && reg_at(r@, "sessions"@).kind == ReducerKind::StateIdentity,
        reg_has(r@, "learnings"@) && reg_at(r@, "learnings"@).kind == ReducerKind::StateIdentity,
        reg_has(r@, "collections"@) && reg_at(r@, "collections"@).kind
            == ReducerKind::StateIdentity,
        no_wholesale(r@),
{
    let mut r = Registry::new();
    proof {
        reveal_strlit("sources");
        reveal_strlit("sessions");
        reveal_strlit("learnings");
        reveal_strlit("settings");
        reveal_strlit("collections");
        assert("sources"@.len() == 7);
        assert("sessions"@.len() == 8);
        assert("learnings"@.len() == 9);
        assert("settings"@.len() == 8);
        assert("collections"@.len() == 11);
        assert("settings"@[2] == 't');
        assert("sessions"@[2] == 's');
    }
    r.register(String::from_str("sources"), Document::empty_obj(), ReducerKind::Sources);
    proof {
        assert(!reg_has(r@, "sessions"@));
        assert(r@.len() == 1);
        assert(no_wholesale(r@));
    }
    r.register(String::from_str("sessions"), Document::empty_obj(), ReducerKind::StateIdentity);
    proof {
        assert(reg_at(r@, "sources"@).kind == ReducerKind::Sources);
        assert(!reg_has(r@, "learnings"@));
        assert(r@.len() == 2);
        assert(no_wholesale(r@));
    }
    r.register(String::from_str("learnings"), Document::empty_obj(), ReducerKind::StateIdentity);
    proof {
        assert(reg_at(r@, "sources"@).kind == ReducerKind::Sources);
        assert(reg_at(r@, "sessions"@).kind == ReducerKind::StateIdentity);
        assert(!reg_has(r@, "settings"@));
        assert(r@.len() == 3);
        assert(no_wholesale(r@));
    }
    r.register(String::from_str("settings"), Document::empty_obj(), ReducerKind::Settings);
    proof {
        assert(reg_at(r@, "sources"@).kind == ReducerKind::Sources);
        assert(reg_at(r@, "sessions"@).kind == ReducerKind::StateIdentity);
        assert(reg_at(r@, "learnings"@).kind == ReducerKind::StateIdentity);
        assert(!reg_has(r@, "collections"@));
        assert(r@.len() == 4);
        assert(no_wholesale(r@));
    }
    r.register(
        String::from_str("collections"),
        Document::empty_obj(),
        ReducerKind::StateIdentity,
    );
    proof {
        assert(reg_at(r@, "sources"@).kind == ReducerKind::Sources);
        assert(reg_at(r@, "sessions"@).kind == ReducerKind::StateIdentity);
        assert(reg_at(r@, "learnings"@).kind == ReducerKind::StateIdentity);
        assert(reg_at(r@, "settings"@).kind == ReducerKind::Settings);
        assert(r@.len() == 5);
        assert(no_wholesale(r@));
    }
    r
}

/// No registration adopts event payloads wholesale.
pub open spec fn no_wholesale(s: Seq<RegEntryV>) -> bool {
    forall|i: int| 0 <= i < s.len() ==> (#[trigger] s[i]).kind != ReducerKind::PayloadIdentity
}

} // verus!
