use slicestore::document::Document;
use slicestore::event::{mint_event, sorted_events, Event};
use slicestore::eventlog::EventLog;
use slicestore::machine::Machine;
use slicestore::registry::default_registry;
use slicestore::store::{replay, Store};

fn obj(entries: Vec<(&str, Document)>) -> Document {
    let mut d = Document::empty_obj();
    for (k, v) in entries {
        d = d.obj_set(k.to_string(), v);
    }
    d
}

fn text(s: &str) -> Document {
    Document::Text(s.to_string())
}

fn get<'a>(d: &'a Document, key: &str) -> &'a Document {
    d.obj_get(key).expect("key should be present")
}

fn event(id: &str, typ: &str, payload: Document, t: u64) -> Event {
    Event { id: id.to_string(), typ: typ.to_string(), payload, create_time: t }
}

fn fresh_store() -> Store {
    Store::startup(default_registry(), Vec::new()).expect("startup of empty log succeeds")
}

#[test]
fn startup_empty_log_yields_initial_slices() {
    let store = fresh_store();
    let snap = store.snapshot();
    for name in ["sources", "sessions", "learnings", "settings", "collections"] {
        let slice = get(&snap, name);
        assert!(slice.is_object());
        assert_eq!(slice.obj_len(), 0);
    }
}

#[test]
fn source_added_gains_exactly_one_stamped_entry() {
    let mut store = fresh_store();
    let before_settings = store.snapshot();
    let (snap, changes) = store
        .dispatch("source_added".to_string(), obj(vec![("name", text("X"))]))
        .expect("source_added succeeds");
    let sources = get(&snap, "sources");
    assert_eq!(sources.obj_len(), 1);
    // The identifier was freshly generated by the store, not caller-supplied.
    let entry = match sources {
        Document::Obj(entries) => &entries[0],
        _ => panic!("sources is an object"),
    };
    let id_field = get(&entry.1, "id");
    assert!(text(&entry.0).deep_eq(id_field));
    assert_eq!(entry.0.len(), 36);
    assert!(get(&entry.1, "name").deep_eq(&text("X")));
    assert!(matches!(get(&entry.1, "createTime"), Document::Int(_)));
    // Other slices are unaffected.
    assert!(get(&snap, "settings").deep_eq(get(&before_settings, "settings")));
    assert!(get(&snap, "sessions").deep_eq(get(&before_settings, "sessions")));
    // Exactly the sources slice fired a change.
    assert_eq!(changes.len(), 1);
    assert_eq!(changes[0].slice, "sources");
}

#[test]
fn source_added_ignores_caller_supplied_id() {
    let mut store = fresh_store();
    let (snap, _) = store
        .dispatch(
            "source_added".to_string(),
            obj(vec![("id", text("caller-pick")), ("name", text("X"))]),
        )
        .expect("source_added succeeds");
    let sources = get(&snap, "sources");
    assert!(sources.obj_get("caller-pick").is_none());
    let entry = match sources {
        Document::Obj(entries) => &entries[0],
        _ => panic!("sources is an object"),
    };
    assert_ne!(entry.0, "caller-pick");
    assert!(get(&entry.1, "id").deep_eq(&text(&entry.0)));
}

#[test]
fn source_deleted_removes_exactly_that_entry_and_is_idempotent() {
    let mut store = fresh_store();
    store
        .dispatch("source_added".to_string(), obj(vec![("name", text("A"))]))
        .expect("add A");
    let (snap, _) = store
        .dispatch("source_added".to_string(), obj(vec![("name", text("B"))]))
        .expect("add B");
    let sources = get(&snap, "sources");
    assert_eq!(sources.obj_len(), 2);
    let id_a = match sources {
        Document::Obj(entries) => entries
            .iter()
            .find(|e| get(&e.1, "name").deep_eq(&text("A")))
            .expect("A is present")
            .0
            .clone(),
        _ => panic!("sources is an object"),
    };
    let (snap, _) = store
        .dispatch("source_deleted".to_string(), obj(vec![("id", text(&id_a))]))
        .expect("delete succeeds");
    let sources = get(&snap, "sources");
    assert_eq!(sources.obj_len(), 1);
    assert!(sources.obj_get(&id_a).is_none());
    // Deleting the absent entry again is a no-op, not an error, and fires
    // no listener.
    let (snap2, changes) = store
        .dispatch("source_deleted".to_string(), obj(vec![("id", text(&id_a))]))
        .expect("idempotent delete succeeds");
    assert!(get(&snap2, "sources").deep_eq(get(&snap, "sources")));
    assert!(changes.is_empty());
}

#[test]
fn settings_update_merges_shallowly() {
    let mut store = fresh_store();
    store
        .dispatch("settings_updated".to_string(), obj(vec![("volume", Document::Int(7))]))
        .expect("first update");
    let (snap, _) = store
        .dispatch("settings_updated".to_string(), obj(vec![("theme", text("dark"))]))
        .expect("second update");
    let settings = get(&snap, "settings");
    assert!(get(settings, "theme").deep_eq(&text("dark")));
    // The unrelated existing key was not discarded.
    assert!(get(settings, "volume").deep_eq(&Document::Int(7)));
}

#[test]
fn setting_added_behaves_like_settings_updated() {
    let mut store = fresh_store();
    let (snap, _) = store
        .dispatch("setting_added".to_string(), obj(vec![("theme", text("light"))]))
        .expect("setting_added succeeds");
    assert!(get(get(&snap, "settings"), "theme").deep_eq(&text("light")));
}

#[test]
fn unknown_event_type_changes_nothing() {
    let mut store = fresh_store();
    store
        .dispatch("settings_updated".to_string(), obj(vec![("theme", text("dark"))]))
        .expect("seed");
    let before = store.snapshot();
    let (snap, changes) = store
        .dispatch("unheard_of".to_string(), obj(vec![("x", Document::Int(1))]))
        .expect("unknown type is a no-op, not an error");
    assert!(snap.deep_eq(&before));
    assert!(changes.is_empty());
}

#[test]
fn noop_reduction_fires_no_listener() {
    let mut store = fresh_store();
    store
        .dispatch("settings_updated".to_string(), obj(vec![("theme", text("dark"))]))
        .expect("first");
    // Merging the same value again leaves settings structurally equal, so
    // no change notification fires for it.
    let (_, changes) = store
        .dispatch("settings_updated".to_string(), obj(vec![("theme", text("dark"))]))
        .expect("second");
    assert!(changes.is_empty());
}

#[test]
fn malformed_payload_is_a_typed_failure_and_commits_nothing() {
    let mut store = fresh_store();
    store
        .dispatch("settings_updated".to_string(), obj(vec![("theme", text("dark"))]))
        .expect("seed");
    let before = store.snapshot();
    let log_len_before = store.log.len();
    // source_added needs an object payload; Null cannot be interpreted.
    let err = store
        .dispatch("source_added".to_string(), Document::Null)
        .expect_err("malformed payload is rejected");
    assert_eq!(err.slice, "sources");
    // Atomic failure: no slice moved, nothing was logged.
    assert!(store.snapshot().deep_eq(&before));
    assert_eq!(store.log.len(), log_len_before);
}

#[test]
fn dispatch_returns_snapshot_of_all_slices() {
    let mut store = fresh_store();
    let (snap, _) = store
        .dispatch("settings_updated".to_string(), obj(vec![("theme", text("dark"))]))
        .expect("update");
    for name in ["sources", "sessions", "learnings", "settings", "collections"] {
        assert!(snap.obj_get(name).is_some());
    }
}

#[test]
fn successful_dispatch_is_logged_keyed_by_identifier() {
    let mut store = fresh_store();
    assert_eq!(store.log.len(), 0);
    store
        .dispatch("settings_updated".to_string(), obj(vec![("a", Document::Int(1))]))
        .expect("first");
    store
        .dispatch("settings_updated".to_string(), obj(vec![("b", Document::Int(2))]))
        .expect("second");
    assert_eq!(store.log.len(), 2);
    // The internal initialization event is never persisted.
    for e in &store.log.events {
        assert_ne!(e.typ, "app_initialized");
    }
}

#[test]
fn replay_rebuilds_state_from_logged_events() {
    let log = vec![
        event("id-1", "source_added", obj(vec![("name", text("X"))]), 100),
        event(
            "id-2",
            "settings_updated",
            obj(vec![("theme", text("dark"))]),
            200,
        ),
    ];
    let store = Store::startup(default_registry(), log).expect("startup succeeds");
    let snap = store.snapshot();
    let sources = get(&snap, "sources");
    assert_eq!(sources.obj_len(), 1);
    // Replay reuses the logged identifier and creation time: determinism.
    let entry = get(sources, "id-1");
    assert!(get(entry, "id").deep_eq(&text("id-1")));
    assert!(get(entry, "createTime").deep_eq(&Document::Int(100)));
    assert!(get(get(&snap, "settings"), "theme").deep_eq(&text("dark")));
}

#[test]
fn replay_matches_incremental_application_across_restarts() {
    let early = vec![
        event("id-1", "source_added", obj(vec![("name", text("X"))]), 100),
        event(
            "id-2",
            "settings_updated",
            obj(vec![("theme", text("dark"))]),
            200,
        ),
    ];
    let late = vec![
        event("id-3", "source_deleted", obj(vec![("id", text("id-1"))]), 300),
        event(
            "id-4",
            "settings_updated",
            obj(vec![("volume", Document::Int(3))]),
            400,
        ),
    ];
    // One process: the whole log replayed from the initial state.
    let mut all = clone_events(&early);
    for e in &late {
        all.push(e.duplicate());
    }
    let mut m1 = Machine::from_registry(default_registry());
    replay(&mut m1, &all).expect("combined replay succeeds");
    // Two sittings: replay the persisted part, then consume live events.
    let mut m2 = Machine::from_registry(default_registry());
    replay(&mut m2, &early).expect("replay of the persisted log succeeds");
    for e in &late {
        m2.consume(e).expect("live consume succeeds");
    }
    assert!(m1.snapshot().deep_eq(&m2.snapshot()));
}

fn clone_events(events: &[Event]) -> Vec<Event> {
    events.iter().map(|e| e.duplicate()).collect()
}

#[test]
fn out_of_order_log_replays_in_timestamp_order() {
    let unsorted = vec![
        event(
            "id-3",
            "settings_updated",
            obj(vec![("theme", text("last"))]),
            300,
        ),
        event(
            "id-1",
            "settings_updated",
            obj(vec![("theme", text("first"))]),
            100,
        ),
        event(
            "id-2",
            "settings_updated",
            obj(vec![("theme", text("middle"))]),
            200,
        ),
    ];
    let mut replayed = Machine::from_registry(default_registry());
    replay(&mut replayed, &unsorted).expect("replay succeeds");
    // A fresh run dispatching the same events in timestamp order.
    let mut fresh = Machine::from_registry(default_registry());
    for id in ["id-1", "id-2", "id-3"] {
        let e = unsorted.iter().find(|e| e.id == id).unwrap();
        fresh.consume(e).expect("consume succeeds");
    }
    assert!(replayed.snapshot().deep_eq(&fresh.snapshot()));
    // The winner is the event with the greatest timestamp, wherever it
    // stood in the log.
    let snap = replayed.snapshot();
    assert!(get(get(&snap, "settings"), "theme").deep_eq(&text("last")));
}

#[test]
fn sorted_events_breaks_timestamp_ties_by_identifier() {
    let events = vec![
        event("bb", "settings_updated", obj(vec![("k", text("b"))]), 100),
        event("aa", "settings_updated", obj(vec![("k", text("a"))]), 100),
        event("cc", "settings_updated", obj(vec![("k", text("c"))]), 50),
    ];
    let sorted = sorted_events(&events);
    let ids: Vec<&str> = sorted.iter().map(|e| e.id.as_str()).collect();
    assert_eq!(ids, vec!["cc", "aa", "bb"]);
}

#[test]
fn event_log_append_replaces_on_same_identifier() {
    let mut log = EventLog::new();
    log.append(event("same", "settings_updated", obj(vec![("a", Document::Int(1))]), 1));
    log.append(event("same", "settings_updated", obj(vec![("a", Document::Int(2))]), 2));
    log.append(event("other", "settings_updated", obj(vec![("b", Document::Int(3))]), 3));
    assert_eq!(log.len(), 2);
    assert_eq!(log.events[0].create_time, 2);
}

#[test]
fn minted_events_carry_fresh_36_character_identifiers() {
    let a = mint_event("t".to_string(), Document::Null);
    let b = mint_event("t".to_string(), Document::Null);
    assert_eq!(a.id.len(), 36);
    assert_eq!(b.id.len(), 36);
    // A collision-resistant random scheme: two mints never coincide.
    assert_ne!(a.id, b.id);
    assert_eq!(a.typ, "t");
}
