use slicestore::document::Document;
use slicestore::event::Event;
use slicestore::reducers::{
    dec_string, payload_identity, sessions_reducer, settings_reducer, sources_reducer,
    state_identity,
};

fn obj(entries: Vec<(&str, Document)>) -> Document {
    let mut d = Document::empty_obj();
    for (k, v) in entries {
        d = d.obj_set(k.to_string(), v);
    }
    d
}

fn text(s: &str) -> Document {
    Document::Text(s.to_string())
}

fn event(id: &str, typ: &str, payload: Document, t: u64) -> Event {
    Event { id: id.to_string(), typ: typ.to_string(), payload, create_time: t }
}

#[test]
fn dec_string_prints_exact_decimal_text() {
    assert_eq!(dec_string(0), "0");
    assert_eq!(dec_string(7), "7");
    assert_eq!(dec_string(10), "10");
    assert_eq!(dec_string(90217), "90217");
}

#[test]
fn obj_set_replaces_existing_key_in_place() {
    let d = obj(vec![("a", Document::Int(1)), ("b", Document::Int(2))]);
    let d = d.obj_set("a".to_string(), Document::Int(9));
    assert_eq!(d.obj_len(), 2);
    assert!(d.obj_get("a").unwrap().deep_eq(&Document::Int(9)));
    assert!(d.obj_get("b").unwrap().deep_eq(&Document::Int(2)));
}

#[test]
fn obj_del_of_absent_key_is_a_noop() {
    let d = obj(vec![("a", Document::Int(1))]);
    let d = d.obj_del("zzz");
    assert_eq!(d.obj_len(), 1);
}

#[test]
fn deep_eq_is_structural() {
    let a = obj(vec![("x", Document::Arr(vec![Document::Int(1), Document::Bool(true)]))]);
    let b = obj(vec![("x", Document::Arr(vec![Document::Int(1), Document::Bool(true)]))]);
    let c = obj(vec![("x", Document::Arr(vec![Document::Int(2), Document::Bool(true)]))]);
    assert!(a.deep_eq(&b));
    assert!(!a.deep_eq(&c));
    assert!(!a.deep_eq(&Document::Null));
}

#[test]
fn check_wf_rejects_duplicate_keys() {
    let ok = obj(vec![("a", Document::Int(1)), ("b", Document::Int(2))]);
    assert!(ok.check_wf());
    let dup = Document::Obj(vec![
        ("a".to_string(), Document::Int(1)),
        ("a".to_string(), Document::Int(2)),
    ]);
    assert!(!dup.check_wf());
}

#[test]
fn sessions_reducer_appends_reading_under_positional_key() {
    let state = Document::empty_obj();
    let e = event("id-1", "add_reading", obj(vec![("pages", Document::Int(12))]), 5);
    let next = sessions_reducer(&state, &e).expect("add_reading succeeds");
    assert_eq!(next.obj_len(), 1);
    let entry = next.obj_get("0").expect("entry under key 0");
    assert!(entry.obj_get("id").unwrap().deep_eq(&Document::Int(0)));
    assert!(entry.obj_get("pages").unwrap().deep_eq(&Document::Int(12)));
    let again = sessions_reducer(&next, &e).expect("second reading succeeds");
    assert_eq!(again.obj_len(), 2);
    assert!(again.obj_get("1").is_some());
}

#[test]
fn identity_reducers_do_what_their_names_say() {
    let state = obj(vec![("k", Document::Int(1))]);
    let e = event("id-1", "anything", obj(vec![("p", Document::Int(2))]), 1);
    let kept = state_identity(&state, &e).unwrap();
    assert!(kept.deep_eq(&state));
    let adopted = payload_identity(&state, &e).unwrap();
    assert!(adopted.deep_eq(&e.payload));
}

#[test]
fn settings_reducer_rejects_non_object_payload() {
    let state = Document::empty_obj();
    let e = event("id-1", "settings_updated", Document::Int(3), 1);
    assert!(settings_reducer(&state, &e).is_none());
}

#[test]
fn sources_reducer_ignores_unrelated_event_types() {
    let state = obj(vec![("existing", text("v"))]);
    let e = event("id-1", "settings_updated", obj(vec![("x", Document::Int(1))]), 1);
    let next = sources_reducer(&state, &e).expect("unrelated type is a no-op");
    assert!(next.deep_eq(&state));
}

#[test]
fn sources_reducer_stamps_id_and_create_time() {
    let state = Document::empty_obj();
    let e = event(
        "the-id",
        "source_added",
        obj(vec![("name", text("X"))]),
        42,
    );
    let next = sources_reducer(&state, &e).expect("source_added succeeds");
    let entry = next.obj_get("the-id").expect("keyed by the event identifier");
    assert!(entry.obj_get("id").unwrap().deep_eq(&text("the-id")));
    assert!(entry.obj_get("createTime").unwrap().deep_eq(&Document::Int(42)));
    assert!(entry.obj_get("name").unwrap().deep_eq(&text("X")));
}

#[test]
fn sources_reducer_rejects_delete_without_id_field() {
    let state = Document::empty_obj();
    let e = event("id-1", "source_deleted", obj(vec![("nope", text("x"))]), 1);
    assert!(sources_reducer(&state, &e).is_none());
}
