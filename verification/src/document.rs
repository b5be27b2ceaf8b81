//! The structured value type used both as event payload and as slice state:
//! a tree of scalars, arrays and key/value objects. Objects are association
//! lists whose keys are unique; insertion order is preserved, and updating an
//! existing key replaces the value in place.

use vstd::prelude::*;

verus! {

/// A structured document value.
#[derive(Debug)]
pub enum Document {
    Null,
    Bool(bool),
    Int(i64),
    Text(String),
    Arr(Vec<Document>),
    Obj(Vec<(String, Document)>),
}

/// The mathematical model of a `Document`.
#[verifier::ext_equal]
pub enum DocV {
    Null,
    Bool(bool),
    Int(int),
    Text(Seq<char>),
    Arr(Seq<DocV>),
    Obj(Seq<(Seq<char>, DocV)>),
}

/// The model of a document: scalars map to themselves, arrays to sequences
/// of models, objects to sequences of (key, model) pairs in storage order.
pub open spec fn dv(d: Document) -> DocV
    decreases d,
{
    match d {
        Document::Null => DocV::Null,
        Document::Bool(b) => DocV::Bool(b),
        Document::Int(i) => DocV::Int(i as int),
        Document::Text(s) => DocV::Text(s@),
        Document::Arr(v) => DocV::Arr(
            Seq::new(
                v@.len(),
                |i: int|
                    if 0 <= i < v@.len() {
                        dv(v@[i])
                    } else {
                        DocV::Null
                    },
            ),
        ),
        Document::Obj(v) => DocV::Obj(
            Seq::new(
                v@.len(),
                |i: int|
                    if 0 <= i < v@.len() {
                        (v@[i].0@, dv(v@[i].1))
                    } else {
                        (Seq::empty(), DocV::Null)
                    },
            ),
        ),
    }
}

impl View for Document {
    type V = DocV;

    open spec fn view(&self) -> DocV {
        dv(*self)
    }
}

/// The entry sequence of an object model.
pub open spec fn entries_of(d: DocV) -> Seq<(Seq<char>, DocV)>
    recommends
        d is Obj,
{
    d->Obj_0
}

/// No two entries of the association list share a key.
pub open spec fn keys_unique(o: Seq<(Seq<char>, DocV)>) -> bool {
    forall|i: int, j: int| 0 <= i < j < o.len() ==> o[i].0 != o[j].0
}

/// Some entry of the association list carries the key.
pub open spec fn has_key(o: Seq<(Seq<char>, DocV)>, k: Seq<char>) -> bool {
    exists|i: int| 0 <= i < o.len() && #[trigger] o[i].0 == k
}

/// The index of the entry carrying the key (unique when `keys_unique`).
pub open spec fn key_index(o: Seq<(Seq<char>, DocV)>, k: Seq<char>) -> int {
    choose|i: int| 0 <= i < o.len() && #[trigger] o[i].0 == k
}

/// The value stored under a key, if any.
pub open spec fn obj_get_v(o: Seq<(Seq<char>, DocV)>, k: Seq<char>) -> Option<DocV> {
    if has_key(o, k) {
        Some(o[key_index(o, k)].1)
    } else {
        None
    }
}

/// The association list after storing a value under a key: an existing entry
/// is replaced in place, a new key is appended at the end.
pub open spec fn obj_set_v(
    o: Seq<(Seq<char>, DocV)>,
    k: Seq<char>,
    v: DocV,
) -> Seq<(Seq<char>, DocV)> {
    if has_key(o, k) {
        o.update(key_index(o, k), (k, v))
    } else {
        o.push((k, v))
    }
}

/// The association list after removing a key; removing an absent key is a
/// no-op.
pub open spec fn obj_del_v(o: Seq<(Seq<char>, DocV)>, k: Seq<char>) -> Seq<(Seq<char>, DocV)> {
    if has_key(o, k) {
        o.remove(key_index(o, k))
    } else {
        o
    }
}

/// The finite map an object denotes, forgetting entry order.
pub open spec fn obj_map(o: Seq<(Seq<char>, DocV)>) -> Map<Seq<char>, DocV> {
    Map::new(|k: Seq<char>| has_key(o, k), |k: Seq<char>| o[key_index(o, k)].1)
}

/// Well-formedness: every object in the tree has unique keys.
pub open spec fn wf_doc(d: DocV) -> bool
    decreases d,
{
    match d {
        DocV::Arr(s) => forall|i: int| 0 <= i < s.len() ==> wf_doc(#[trigger] s[i]),
        DocV::Obj(o) => keys_unique(o) && forall|i: int|
            0 <= i < o.len() ==> wf_doc(#[trigger] o[i].1),
        _ => true,
    }
}

/// An empty object.
pub open spec fn empty_obj_v() -> DocV {
    DocV::Obj(Seq::empty())
}

/// Under unique keys, every index carrying the key is `key_index`.
pub proof fn lemma_key_index_unique(o: Seq<(Seq<char>, DocV)>, k: Seq<char>)
    requires
        keys_unique(o),
        has_key(o, k),
    ensures
        0 <= key_index(o, k) < o.len(),
        o[key_index(o, k)].0 == k,
        forall|i: int| 0 <= i < o.len() && #[trigger] o[i].0 == k ==> i == key_index(o, k),
{
    let i0 = key_index(o, k);
    assert(0 <= i0 < o.len() && o[i0].0 == k);
    assert forall|i: int| 0 <= i < o.len() && #[trigger] o[i].0 == k implies i == i0 by {
        if i < i0 {
            assert(o[i].0 != o[i0].0);
        } else if i > i0 {
            assert(o[i0].0 != o[i].0);
        }
    }
}

/// Under unique keys, storing a value acts on the denoted map as `insert`,
/// keeps keys unique, and grows the entry list exactly when the key is new.
pub proof fn lemma_obj_set(o: Seq<(Seq<char>, DocV)>, k: Seq<char>, v: DocV)
    requires
        keys_unique(o),
    ensures
        keys_unique(obj_set_v(o, k, v)),
        obj_map(obj_set_v(o, k, v)) == obj_map(o).insert(k, v),
        obj_get_v(obj_set_v(o, k, v), k) == Some(v),
        obj_set_v(o, k, v).len() == if has_key(o, k) {
            o.len() as int
        } else {
            o.len() + 1 as int
        },
        forall|k2: Seq<char>| k2 != k ==> #[trigger] obj_get_v(obj_set_v(o, k, v), k2)
            == obj_get_v(o, k2),
{
    let o2 = obj_set_v(o, k, v);
    if has_key(o, k) {
        lemma_key_index_unique(o, k);
        let i = key_index(o, k);
        assert(forall|x: int| 0 <= x < o2.len() ==> #[trigger] o2[x].0 == o[x].0);
    } else {
        assert forall|a: int, b: int| 0 <= a < b < o2.len() implies o2[a].0 != o2[b].0 by {
            if b == o.len() {
                assert(o2[b].0 == k);
                assert(o2[a].0 == o[a].0);
                assert(!(exists|x: int| 0 <= x < o.len() && #[trigger] o[x].0 == k));
            }
        }
    }
    assert(has_key(o2, k)) by {
        if has_key(o, k) {
            assert(o2[key_index(o, k)].0 == k);
        } else {
            assert(o2[o.len() as int].0 == k);
        }
    }
    lemma_key_index_unique(o2, k);
    if has_key(o, k) {
        lemma_key_index_unique(o, k);
        assert(key_index(o2, k) == key_index(o, k));
    } else {
        assert(key_index(o2, k) == o.len() as int);
    }
    assert(obj_get_v(o2, k) == Some(v));
    assert forall|k2: Seq<char>| k2 != k implies #[trigger] obj_get_v(o2, k2) == obj_get_v(
        o,
        k2,
    ) by {
        lemma_set_preserves_other(o, k, v, k2);
    }
    assert(obj_map(o2) =~= obj_map(o).insert(k, v)) by {
        assert forall|k2: Seq<char>| k2 != k implies (#[trigger] has_key(o2, k2) == has_key(o, k2)
            && (has_key(o, k2) ==> o2[key_index(o2, k2)].1 == o[key_index(o, k2)].1)) by {
            lemma_set_preserves_other(o, k, v, k2);
        }
    }
}

/// Storing under one key leaves lookups of every other key unchanged.
proof fn lemma_set_preserves_other(o: Seq<(Seq<char>, DocV)>, k: Seq<char>, v: DocV, k2: Seq<char>)
    requires
        keys_unique(o),
        k2 != k,
    ensures
        has_key(obj_set_v(o, k, v), k2) == has_key(o, k2),
        obj_get_v(obj_set_v(o, k, v), k2) == obj_get_v(o, k2),
        has_key(o, k2) ==> obj_set_v(o, k, v)[key_index(obj_set_v(o, k, v), k2)].1 == o[key_index(
            o,
            k2,
        )].1,
{
    let o2 = obj_set_v(o, k, v);
    let i = key_index(o, k);
    if has_key(o, k2) {
        lemma_key_index_unique(o, k2);
        let w = key_index(o, k2);
        assert(o2[w].0 == k2);
        assert(has_key(o2, k2));
    }
    if has_key(o2, k2) {
        let w2 = choose|x: int| 0 <= x < o2.len() && #[trigger] o2[x].0 == k2;
        assert(o2[w2].0 == k2);
        if has_key(o, k) {
            lemma_key_index_unique(o, k);
            assert(w2 != i);
            assert(o2[w2] == o[w2]);
            assert(has_key(o, k2));
        } else {
            assert(w2 != o.len());
            assert(o2[w2] == o[w2]);
            assert(has_key(o, k2));
        }
    }
    if has_key(o, k2) {
        lemma_key_index_unique(o, k2);
        lemma_obj_set_unique(o, k, v);
        lemma_key_index_unique(o2, k2);
        let w = key_index(o, k2);
        assert(o2[w].0 == k2);
        assert(key_index(o2, k2) == w);
        assert(o2[w].1 == o[w].1);
    }
}

/// Storing a value keeps keys unique.
proof fn lemma_obj_set_unique(o: Seq<(Seq<char>, DocV)>, k: Seq<char>, v: DocV)
    requires
        keys_unique(o),
    ensures
        keys_unique(obj_set_v(o, k, v)),
{
    let o2 = obj_set_v(o, k, v);
    if has_key(o, k) {
        lemma_key_index_unique(o, k);
        assert(forall|x: int| 0 <= x < o2.len() ==> #[trigger] o2[x].0 == o[x].0);
    } else {
        assert forall|a: int, b: int| 0 <= a < b < o2.len() implies o2[a].0 != o2[b].0 by {
            if b == o.len() {
                assert(o2[b].0 == k);
                assert(o2[a].0 == o[a].0);
                assert(!(exists|x: int| 0 <= x < o.len() && #[trigger] o[x].0 == k));
            }
        }
    }
}

/// Under unique keys, removing a key acts on the denoted map as `remove`,
/// keeps keys unique, and shrinks the entry list exactly when the key was
/// present; removing an absent key changes nothing.
pub proof fn lemma_obj_del(o: Seq<(Seq<char>, DocV)>, k: Seq<char>)
    requires
        keys_unique(o),
    ensures
        keys_unique(obj_del_v(o, k)),
        obj_map(obj_del_v(o, k)) == obj_map(o).remove(k),
        obj_get_v(obj_del_v(o, k), k) is None,
        obj_del_v(o, k).len() == if has_key(o, k) {
            o.len() - 1
        } else {
            o.len() as int
        },
        forall|k2: Seq<char>| k2 != k ==> #[trigger] obj_get_v(obj_del_v(o, k), k2) == obj_get_v(
            o,
            k2,
        ),
        !has_key(o, k) ==> obj_del_v(o, k) == o,
{
    let o2 = obj_del_v(o, k);
    if !has_key(o, k) {
        assert(o2 == o);
        assert(obj_map(o2) =~= obj_map(o).remove(k));
    } else {
        lemma_key_index_unique(o, k);
        let i = key_index(o, k);
        assert(forall|x: int|
            0 <= x < o2.len() ==> #[trigger] o2[x] == (if x < i {
                o[x]
            } else {
                o[x + 1]
            }));
        assert forall|a: int, b: int| 0 <= a < b < o2.len() implies o2[a].0 != o2[b].0 by {
            let a0 = if a < i { a } else { a + 1 };
            let b0 = if b < i { b } else { b + 1 };
            assert(o[a0].0 != o[b0].0);
        }
        assert forall|k2: Seq<char>| k2 != k implies (#[trigger] has_key(o2, k2) == has_key(o, k2)
            && obj_get_v(o2, k2) == obj_get_v(o, k2)) by {
            if has_key(o, k2) {
                lemma_key_index_unique(o, k2);
                let w = key_index(o, k2);
                assert(w != i);
                let w2 = if w < i { w } else { w - 1 };
                assert(o2[w2].0 == k2);
                assert(has_key(o2, k2));
                lemma_key_index_unique(o2, k2);
                assert(key_index(o2, k2) == w2);
                assert(o2[w2].1 == o[w].1);
            }
            if has_key(o2, k2) {
                let w2 = choose|x: int| 0 <= x < o2.len() && #[trigger] o2[x].0 == k2;
                let w0 = if w2 < i { w2 } else { w2 + 1 };
                assert(o[w0].0 == k2);
                assert(has_key(o, k2));
            }
        }
        assert(!has_key(o2, k)) by {
            if has_key(o2, k) {
                let w2 = choose|x: int| 0 <= x < o2.len() && #[trigger] o2[x].0 == k;
                let w0 = if w2 < i { w2 } else { w2 + 1 };
                assert(o[w0].0 == k);
                assert(w0 == i);
                assert(false);
            }
        }
        assert(obj_map(o2) =~= obj_map(o).remove(k));
    }
}

/// Compares two string slices by their character sequences.
pub fn str_eq(a: &str, b: &str) -> (r: bool)
    ensures
        r == (a@ == b@),
{
    let sa = String::from_str(a);
    let sb = String::from_str(b);
    sa == sb
}

/// The index of the first entry carrying the key, if any.
#[verifier::loop_isolation(false)]
fn find_key(entries: &Vec<(String, Document)>, key: &str) -> (r: Option<usize>)
    ensures
        match r {
            Some(i) => i < entries@.len() && entries@[i as int].0@ == key@ && forall|j: int|
                0 <= j < i ==> entries@[j].0@ != key@,
            None => forall|j: int| 0 <= j < entries@.len() ==> entries@[j].0@ != key@,
        },
{
    let mut i: usize = 0;
    while i < entries.len()
        invariant
            i <= entries@.len(),
            forall|j: int| 0 <= j < i ==> entries@[j].0@ != key@,
        decreases entries@.len() - i,
    {
        if str_eq(entries[i].0.as_str(), key) {
            return Some(i);
        }
        i = i + 1;
    }
    None
}

impl Document {
    /// An object with no entries.
    pub fn empty_obj() -> (r: Document)
        ensures
            r@ == empty_obj_v(),
    {
        let r = Document::Obj(Vec::new());
        proof {
            assert(entries_of(r@) =~= Seq::<(Seq<char>, DocV)>::empty());
        }
        r
    }

    /// Whether this document is an object.
    pub fn is_object(&self) -> (r: bool)
        ensures
            r == (self@ is Obj),
    {
        matches!(self, Document::Obj(_))
    }

    /// The text carried by a text document, if it is one.
    pub fn as_text<'a>(&'a self) -> (r: Option<&'a String>)
        ensures
            match r {
                Some(s) => self@ == DocV::Text(s@),
                None => !(self@ is Text),
            },
    {
        match self {
            Document::Text(s) => Some(s),
            _ => None,
        }
    }

    /// The number of entries of an object.
    pub fn obj_len(&self) -> (r: usize)
        requires
            self@ is Obj,
        ensures
            r == entries_of(self@).len(),
    {
        match self {
            Document::Obj(entries) => entries.len(),
            _ => 0,
        }
    }

    /// The value stored under a key, or `None` for an absent key or a
    /// non-object.
    pub fn obj_get<'a>(&'a self, key: &str) -> (r: Option<&'a Document>)
        requires
            self@ is Obj ==> keys_unique(entries_of(self@)),
        ensures
            match r {
                Some(d) => self@ is Obj && obj_get_v(entries_of(self@), key@) == Some(d@),
                None => !(self@ is Obj) || obj_get_v(entries_of(self@), key@) is None,
            },
    {
        match self {
            Document::Obj(entries) => {
                let ghost o = entries_of(self@);
                match find_key(entries, key) {
                    Some(i) => {
                        proof {
                            assert(o[i as int].0 == key@);
                            lemma_key_index_unique(o, key@);
                        }
                        Some(&entries[i].1)
                    },
                    None => {
                        proof {
                            if has_key(o, key@) {
                                let w = choose|x: int|
                                    0 <= x < o.len() && #[trigger] o[x].0 == key@;
                                assert(entries@[w].0@ == key@);
                            }
                        }
                        None
                    },
                }
            },
            _ => None,
        }
    }

    /// This object with a value stored under a key: an existing entry is
    /// replaced in place, a new key is appended. A non-object is returned
    /// unchanged.
    pub fn obj_set(self, key: String, value: Document) -> (r: Document)
        ensures
            self@ is Obj && keys_unique(entries_of(self@)) ==> r@ == DocV::Obj(
                obj_set_v(entries_of(self@), key@, value@),
            ),
            !(self@ is Obj) ==> r@ == self@,
    {
        let ghost s0 = self@;
        match self {
            Document::Obj(mut entries) => {
                let ghost o = entries_of(s0);
                match find_key(&entries, key.as_str()) {
                    Some(i) => {
                        proof {
                            assert(o[i as int].0 == key@);
                            if keys_unique(o) {
                                lemma_key_index_unique(o, key@);
                            }
                        }
                        entries.set(i, (key, value));
                        let r = Document::Obj(entries);
                        proof {
                            if keys_unique(o) {
                                assert(entries_of(r@) =~~= obj_set_v(o, key@, value@));
                            }
                        }
                        r
                    },
                    None => {
                        proof {
                            if has_key(o, key@) {
                                let w = choose|x: int|
                                    0 <= x < o.len() && #[trigger] o[x].0 == key@;
                                assert(entries@[w].0@ == key@);
                            }
                        }
                        entries.push((key, value));
                        let r = Document::Obj(entries);
                        proof {
                            assert(entries_of(r@) =~~= obj_set_v(o, key@, value@));
                        }
                        r
                    },
                }
            },
            other => other,
        }
    }

    /// This object with a key removed; removing an absent key or operating
    /// on a non-object is a no-op.
    pub fn obj_del(self, key: &str) -> (r: Document)
        ensures
            self@ is Obj && keys_unique(entries_of(self@)) ==> r@ == DocV::Obj(
                obj_del_v(entries_of(self@), key@),
            ),
            !(self@ is Obj) ==> r@ == self@,
    {
        let ghost s0 = self@;
        match self {
            Document::Obj(mut entries) => {
                let ghost o = entries_of(s0);
                match find_key(&entries, key) {
                    Some(i) => {
                        proof {
                            assert(o[i as int].0 == key@);
                            if keys_unique(o) {
                                lemma_key_index_unique(o, key@);
                            }
                        }
                        entries.remove(i);
                        let r = Document::Obj(entries);
                        proof {
                            if keys_unique(o) {
                                assert(entries_of(r@) =~~= obj_del_v(o, key@));
                            }
                        }
                        r
                    },
                    None => {
                        proof {
                            if has_key(o, key@) {
                                let w = choose|x: int|
                                    0 <= x < o.len() && #[trigger] o[x].0 == key@;
                                assert(entries@[w].0@ == key@);
                            }
                            assert(entries_of(Document::Obj(entries)@) =~~= obj_del_v(o, key@));
                        }
                        Document::Obj(entries)
                    },
                }
            },
            other => other,
        }
    }

    /// A structurally identical copy of this document.
    #[verifier::loop_isolation(false)]
    pub fn deep_copy(&self) -> (r: Document)
        ensures
            r@ == self@,
        decreases *self,
    {
        match self {
            Document::Null => Document::Null,
            Document::Bool(b) => Document::Bool(*b),
            Document::Int(i) => Document::Int(*i),
            Document::Text(s) => Document::Text(s.clone()),
            Document::Arr(v) => {
                let mut out: Vec<Document> = Vec::new();
                let mut i: usize = 0;
                while i < v.len()
                    invariant
                        i <= v@.len(),
                        out@.len() == i,
                        forall|j: int| 0 <= j < i ==> dv(#[trigger] out@[j]) == dv(v@[j]),
                    decreases v@.len() - i,
                {
                    proof {
                        assert(decreases_to!(*self => v@[i as int]));
                    }
                    out.push(v[i].deep_copy());
                    i = i + 1;
                }
                let ghost outv = out@;
                let r = Document::Arr(out);
                proof {
                    assert forall|j: int| 0 <= j < r@->Arr_0.len() implies #[trigger] r@->Arr_0[j]
                        == self@->Arr_0[j] by {
                        assert(r@->Arr_0[j] == dv(outv[j]));
                        assert(self@->Arr_0[j] == dv(v@[j]));
                    }
                    lemma_arr_eq(r@, self@);
                }
                r
            },
            Document::Obj(v) => {
                let mut out: Vec<(String, Document)> = Vec::new();
                let mut i: usize = 0;
                while i < v.len()
                    invariant
                        i <= v@.len(),
                        out@.len() == i,
                        forall|j: int| 0 <= j < i ==> (#[trigger] out@[j]).0@ == v@[j].0@ && dv(
                            out@[j].1,
                        ) == dv(v@[j].1),
                    decreases v@.len() - i,
                {
                    proof {
                        assert(decreases_to!(*self => v@[i as int].1));
                    }
                    let e = &v[i];
                    out.push((e.0.clone(), e.1.deep_copy()));
                    i = i + 1;
                }
                let ghost outv = out@;
                let r = Document::Obj(out);
                proof {
                    assert forall|j: int| 0 <= j < r@->Obj_0.len() implies #[trigger] r@->Obj_0[j].0
                        == self@->Obj_0[j].0 && r@->Obj_0[j].1 == self@->Obj_0[j].1 by {
                        assert(r@->Obj_0[j] == (outv[j].0@, dv(outv[j].1)));
                        assert(self@->Obj_0[j] == (v@[j].0@, dv(v@[j].1)));
                    }
                    lemma_obj_eq(r@, self@);
                }
                r
            },
        }
    }

    /// Structural equality: two documents are equal exactly when their
    /// models are.
    #[verifier::loop_isolation(false)]
    pub fn deep_eq(&self, other: &Document) -> (r: bool)
        ensures
            r == (self@ == other@),
        decreases *self,
    {
        match (self, other) {
            (Document::Null, Document::Null) => true,
            (Document::Bool(a), Document::Bool(b)) => a == b,
            (Document::Int(a), Document::Int(b)) => a == b,
            (Document::Text(a), Document::Text(b)) => str_eq(a.as_str(), b.as_str()),
            (Document::Arr(a), Document::Arr(b)) => {
                if a.len() != b.len() {
                    proof {
                        assert(self@->Arr_0.len() == a@.len());
                        assert(other@->Arr_0.len() == b@.len());
                    }
                    return false;
                }
                let mut i: usize = 0;
                while i < a.len()
                    invariant
                        i <= a@.len(),
                        a@.len() == b@.len(),
                        forall|j: int| 0 <= j < i ==> dv(#[trigger] a@[j]) == dv(b@[j]),
                    decreases a@.len() - i,
                {
                    proof {
                        assert(decreases_to!(*self => a@[i as int]));
                    }
                    if !a[i].deep_eq(&b[i]) {
                        proof {
                            assert(entries_at_arr(self@, i as int) == dv(a@[i as int]));
                            assert(entries_at_arr(other@, i as int) == dv(b@[i as int]));
                        }
                        return false;
                    }
                    i = i + 1;
                }
                proof {
                    assert forall|j: int| 0 <= j < self@->Arr_0.len() implies #[trigger] self@->Arr_0[j]
                        == other@->Arr_0[j] by {
                        assert(self@->Arr_0[j] == dv(a@[j]));
                        assert(other@->Arr_0[j] == dv(b@[j]));
                    }
                    lemma_arr_eq(self@, other@);
                }
                true
            },
            (Document::Obj(a), Document::Obj(b)) => {
                if a.len() != b.len() {
                    proof {
                        assert(self@->Obj_0.len() == a@.len());
                        assert(other@->Obj_0.len() == b@.len());
                    }
                    return false;
                }
                let mut i: usize = 0;
                while i < a.len()
                    invariant
                        i <= a@.len(),
                        a@.len() == b@.len(),
                        forall|j: int| 0 <= j < i ==> (#[trigger] a@[j]).0@ == b@[j].0@,
                        forall|j: int| 0 <= j < i ==> dv((#[trigger] a@[j]).1) == dv(b@[j].1),
                    decreases a@.len() - i,
                {
                    proof {
                        assert(decreases_to!(*self => a@[i as int].1));
                    }
                    let ea = &a[i];
                    let eb = &b[i];
                    let keys_same = str_eq(ea.0.as_str(), eb.0.as_str());
                    if !keys_same || !ea.1.deep_eq(&eb.1) {
                        proof {
                            assert(entries_of(self@)[i as int] == (
                                a@[i as int].0@,
                                dv(a@[i as int].1),
                            ));
                            assert(entries_of(other@)[i as int] == (
                                b@[i as int].0@,
                                dv(b@[i as int].1),
                            ));
                        }
                        return false;
                    }
                    proof {
                        assert(a@[i as int].0@ == b@[i as int].0@);
                        assert(dv(a@[i as int].1) == dv(b@[i as int].1));
                    }
                    i = i + 1;
                }
                proof {
                    assert forall|j: int| 0 <= j < self@->Obj_0.len() implies #[trigger] self@->Obj_0[j].0
                        == other@->Obj_0[j].0 && self@->Obj_0[j].1 == other@->Obj_0[j].1 by {
                        assert(self@->Obj_0[j] == (a@[j].0@, dv(a@[j].1)));
                        assert(other@->Obj_0[j] == (b@[j].0@, dv(b@[j].1)));
                    }
                    lemma_obj_eq(self@, other@);
                }
                true
            },
            _ => false,
        }
    }

    /// Whether every object in this document has unique keys.
    #[verifier::loop_isolation(false)]
    pub fn check_wf(&self) -> (r: bool)
        ensures
            r == wf_doc(self@),
        decreases *self,
    {
        match self {
            Document::Arr(v) => {
                let mut i: usize = 0;
                while i < v.len()
                    invariant
                        i <= v@.len(),
                        forall|j: int| 0 <= j < i ==> wf_doc(dv(#[trigger] v@[j])),
                    decreases v@.len() - i,
                {
                    proof {
                        assert(decreases_to!(*self => v@[i as int]));
                    }
                    if !v[i].check_wf() {
                        proof {
                            assert(entries_at_arr(self@, i as int) == dv(v@[i as int]));
                        }
                        return false;
                    }
                    i = i + 1;
                }
                true
            },
            Document::Obj(v) => {
                let ghost o = entries_of(self@);
                let mut i: usize = 0;
                while i < v.len()
                    invariant
                        i <= v@.len(),
                        forall|j: int| 0 <= j < i ==> wf_doc(dv(#[trigger] v@[j].1)),
                        forall|a: int, b: int| 0 <= a < b < i ==> o[a].0 != o[b].0,
                    decreases v@.len() - i,
                {
                    let mut j: usize = 0;
                    while j < i
                        invariant
                            j <= i <= v@.len(),
                            forall|x: int| 0 <= x < j ==> o[x].0 != o[i as int].0,
                        decreases i - j,
                    {
                        if str_eq(v[j].0.as_str(), v[i].0.as_str()) {
                            proof {
                                assert(o[j as int].0 == v@[j as int].0@);
                                assert(o[i as int].0 == v@[i as int].0@);
                                assert(!keys_unique(o));
                            }
                            return false;
                        }
                        j = j + 1;
                    }
                    proof {
                        assert(decreases_to!(*self => v@[i as int].1));
                    }
                    if !v[i].1.check_wf() {
                        proof {
                            assert(o[i as int].1 == dv(v@[i as int].1));
                        }
                        return false;
                    }
                    i = i + 1;
                }
                proof {
                    assert forall|x: int| 0 <= x < o.len() implies wf_doc(#[trigger] o[x].1) by {
                        assert(o[x].1 == dv(v@[x].1));
                    }
                }
                true
            },
            _ => true,
        }
    }
}

/// The association list after merging a second object into a first: every
/// entry of the second is stored over the first, in entry order.
pub open spec fn obj_merge_v(
    o: Seq<(Seq<char>, DocV)>,
    p: Seq<(Seq<char>, DocV)>,
) -> Seq<(Seq<char>, DocV)>
    decreases p.len(),
{
    if p.len() == 0 {
        o
    } else {
        obj_merge_v(obj_set_v(o, p[0].0, p[0].1), p.drop_first())
    }
}

/// Every entry after a store is the stored entry or one of the old ones.
pub proof fn lemma_obj_set_entries(o: Seq<(Seq<char>, DocV)>, k: Seq<char>, v: DocV)
    ensures
        forall|x: int| 0 <= x < obj_set_v(o, k, v).len() ==> #[trigger] obj_set_v(o, k, v)[x] == (
        k,
        v,
        ) || (0 <= x < o.len() && obj_set_v(o, k, v)[x] == o[x]),
{
}

/// Every entry after a removal is one of the old entries.
pub proof fn lemma_obj_del_entries(o: Seq<(Seq<char>, DocV)>, k: Seq<char>)
    ensures
        forall|x: int| 0 <= x < obj_del_v(o, k).len() ==> (#[trigger] obj_del_v(o, k)[x] == o[x] || (
        0 <= x + 1 < o.len() && obj_del_v(o, k)[x] == o[x + 1])),
{
}

/// Storing a well-formed value into a well-formed object keeps the object
/// well-formed.
pub proof fn lemma_obj_set_wf(o: Seq<(Seq<char>, DocV)>, k: Seq<char>, v: DocV)
    requires
        wf_doc(DocV::Obj(o)),
        wf_doc(v),
    ensures
        wf_doc(DocV::Obj(obj_set_v(o, k, v))),
{
    lemma_obj_set(o, k, v);
    lemma_obj_set_entries(o, k, v);
    let o2 = obj_set_v(o, k, v);
    assert forall|x: int| 0 <= x < o2.len() implies wf_doc(#[trigger] o2[x].1) by {
        if o2[x] == (k, v) {
        } else {
            assert(o2[x] == o[x]);
        }
    }
}

/// Removing a key from a well-formed object keeps it well-formed.
pub proof fn lemma_obj_del_wf(o: Seq<(Seq<char>, DocV)>, k: Seq<char>)
    requires
        wf_doc(DocV::Obj(o)),
    ensures
        wf_doc(DocV::Obj(obj_del_v(o, k))),
{
    lemma_obj_del(o, k);
    lemma_obj_del_entries(o, k);
    let o2 = obj_del_v(o, k);
    assert forall|x: int| 0 <= x < o2.len() implies wf_doc(#[trigger] o2[x].1) by {
        if o2[x] == o[x] {
        } else {
            assert(o2[x] == o[x + 1]);
        }
    }
}

/// Splitting an object at its first entry: lookups hit the head key first.
pub proof fn lemma_obj_cons(p: Seq<(Seq<char>, DocV)>)
    requires
        keys_unique(p),
        p.len() > 0,
    ensures
        keys_unique(p.drop_first()),
        forall|k: Seq<char>| #[trigger] obj_get_v(p, k) == if k == p[0].0 {
            Some(p[0].1)
        } else {
            obj_get_v(p.drop_first(), k)
        },
{
    let t = p.drop_first();
    assert forall|a: int, b: int| 0 <= a < b < t.len() implies t[a].0 != t[b].0 by {
        assert(t[a] == p[a + 1]);
        assert(t[b] == p[b + 1]);
    }
    assert forall|k: Seq<char>| #[trigger] obj_get_v(p, k) == (if k == p[0].0 {
        Some(p[0].1)
    } else {
        obj_get_v(t, k)
    }) by {
        if k == p[0].0 {
            assert(p[0].0 == k);
            assert(has_key(p, k));
            lemma_key_index_unique(p, k);
            assert(key_index(p, k) == 0);
        } else {
            if has_key(t, k) {
                lemma_key_index_unique(t, k);
                let w = key_index(t, k);
                assert(t[w] == p[w + 1]);
                assert(p[w + 1].0 == k);
                assert(has_key(p, k));
                lemma_key_index_unique(p, k);
                assert(key_index(p, k) == w + 1);
            }
            if has_key(p, k) {
                lemma_key_index_unique(p, k);
                let w = key_index(p, k);
                assert(w != 0);
                assert(t[w - 1] == p[w]);
                assert(has_key(t, k));
            }
        }
    }
}

/// Merging acts on lookups as "prefer the merged-in object": a key of the
/// second object takes its value from there, every other key keeps its
/// value from the first. Nothing else changes: keys stay unique and the
/// merged object holds exactly the keys of the two.
pub proof fn lemma_obj_merge(o: Seq<(Seq<char>, DocV)>, p: Seq<(Seq<char>, DocV)>)
    requires
        keys_unique(o),
        keys_unique(p),
    ensures
        keys_unique(obj_merge_v(o, p)),
        forall|k: Seq<char>| #[trigger] obj_get_v(obj_merge_v(o, p), k) == if has_key(p, k) {
            obj_get_v(p, k)
        } else {
            obj_get_v(o, k)
        },
    decreases p.len(),
{
    if p.len() == 0 {
        assert forall|k: Seq<char>| #[trigger] obj_get_v(obj_merge_v(o, p), k) == (if has_key(
            p,
            k,
        ) {
            obj_get_v(p, k)
        } else {
            obj_get_v(o, k)
        }) by {
            if has_key(p, k) {
                let w = choose|x: int| 0 <= x < p.len() && #[trigger] p[x].0 == k;
                assert(false);
            }
        }
    } else {
        let h = p[0];
        let t = p.drop_first();
        let o2 = obj_set_v(o, h.0, h.1);
        lemma_obj_set(o, h.0, h.1);
        lemma_obj_cons(p);
        lemma_obj_merge(o2, t);
        assert forall|k: Seq<char>| #[trigger] obj_get_v(obj_merge_v(o, p), k) == (if has_key(
            p,
            k,
        ) {
            obj_get_v(p, k)
        } else {
            obj_get_v(o, k)
        }) by {
            assert(obj_merge_v(o, p) == obj_merge_v(o2, t));
            if has_key(t, k) {
                lemma_key_index_unique(t, k);
                assert(t[key_index(t, k)].0 == k);
                assert(p[key_index(t, k) + 1].0 == k);
                assert(has_key(p, k));
                assert(obj_get_v(p, k) == obj_get_v(t, k));
            } else if k == h.0 {
                assert(p[0].0 == k);
                assert(has_key(p, k));
                assert(obj_get_v(obj_merge_v(o2, t), k) == obj_get_v(o2, k));
                assert(obj_get_v(o2, k) == Some(h.1));
                assert(obj_get_v(p, k) == Some(p[0].1));
            } else {
                if has_key(p, k) {
                    lemma_key_index_unique(p, k);
                    let w = key_index(p, k);
                    assert(w != 0);
                    assert(t[w - 1] == p[w]);
                    assert(has_key(t, k));
                    assert(false);
                }
                assert(obj_get_v(obj_merge_v(o2, t), k) == obj_get_v(o2, k));
                assert(obj_get_v(o2, k) == obj_get_v(o, k));
            }
        }
    }
}

/// Merging a well-formed object into a well-formed object keeps the result
/// well-formed.
pub proof fn lemma_obj_merge_wf(o: Seq<(Seq<char>, DocV)>, p: Seq<(Seq<char>, DocV)>)
    requires
        wf_doc(DocV::Obj(o)),
        wf_doc(DocV::Obj(p)),
    ensures
        wf_doc(DocV::Obj(obj_merge_v(o, p))),
    decreases p.len(),
{
    if p.len() > 0 {
        let h = p[0];
        let t = p.drop_first();
        let o2 = obj_set_v(o, h.0, h.1);
        lemma_obj_set_wf(o, h.0, h.1);
        assert forall|a: int, b: int| 0 <= a < b < t.len() implies t[a].0 != t[b].0 by {
            assert(t[a] == p[a + 1]);
            assert(t[b] == p[b + 1]);
        }
        assert forall|x: int| 0 <= x < t.len() implies wf_doc(#[trigger] t[x].1) by {
            assert(t[x] == p[x + 1]);
        }
        lemma_obj_merge_wf(o2, t);
    }
}

/// The fold that merging performs, taken one entry further.
pub proof fn lemma_obj_merge_push(
    o: Seq<(Seq<char>, DocV)>,
    p: Seq<(Seq<char>, DocV)>,
    x: (Seq<char>, DocV),
)
    ensures
        obj_merge_v(o, p.push(x)) == obj_set_v(obj_merge_v(o, p), x.0, x.1),
    decreases p.len(),
{
    if p.len() == 0 {
        assert(p.push(x)[0] == x);
        assert(p.push(x).drop_first() =~= Seq::<(Seq<char>, DocV)>::empty());
        assert(obj_merge_v(obj_set_v(o, x.0, x.1), Seq::empty()) == obj_set_v(o, x.0, x.1));
        assert(obj_merge_v(o, p) == o);
    } else {
        assert(p.push(x)[0] == p[0]);
        assert(p.push(x).drop_first() =~= p.drop_first().push(x));
        lemma_obj_merge_push(obj_set_v(o, p[0].0, p[0].1), p.drop_first(), x);
        assert(obj_merge_v(o, p) == obj_merge_v(obj_set_v(o, p[0].0, p[0].1), p.drop_first()));
        assert(obj_merge_v(o, p.push(x)) == obj_merge_v(
            obj_set_v(o, p[0].0, p[0].1),
            p.drop_first().push(x),
        ));
    }
}

/// The model of one array element; a helper for triggering element facts.
pub open spec fn entries_at_arr(d: DocV, i: int) -> DocV
    recommends
        d is Arr,
{
    d->Arr_0[i]
}

/// Two array models with pointwise equal elements are equal.
proof fn lemma_arr_eq(s1: DocV, s2: DocV)
    requires
        s1 is Arr,
        s2 is Arr,
        s1->Arr_0.len() == s2->Arr_0.len(),
        forall|j: int| 0 <= j < s1->Arr_0.len() ==> #[trigger] s1->Arr_0[j] == s2->Arr_0[j],
    ensures
        s1 == s2,
{
    assert(s1->Arr_0 =~= s2->Arr_0);
}

/// Two object models with pointwise equal keys and values are equal.
proof fn lemma_obj_eq(s1: DocV, s2: DocV)
    requires
        s1 is Obj,
        s2 is Obj,
        s1->Obj_0.len() == s2->Obj_0.len(),
        forall|j: int| 0 <= j < s1->Obj_0.len() ==> #[trigger] s1->Obj_0[j].0 == s2->Obj_0[j].0
            && s1->Obj_0[j].1 == s2->Obj_0[j].1,
    ensures
        s1 == s2,
{
    assert forall|j: int| 0 <= j < s1->Obj_0.len() implies #[trigger] s1->Obj_0[j]
        == s2->Obj_0[j] by {
        assert(s1->Obj_0[j].0 == s2->Obj_0[j].0);
        assert(s1->Obj_0[j].1 == s2->Obj_0[j].1);
        assert(s1->Obj_0[j] =~= s2->Obj_0[j]);
    }
    assert(s1->Obj_0 =~= s2->Obj_0);
}

} // verus!
