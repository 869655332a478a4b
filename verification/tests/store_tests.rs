use twk::cell::Locked;
use twk::record::Information;
use twk::wiki::Wiki;
use twk::{book, commit, is_using_global, recall, recall_by_tag, set_use_global, switch, Context,
    StoreError};

fn fresh_store() -> Wiki {
    Wiki::new("notes".to_string(), "store/notes".to_string())
}

#[test]
fn context_flags() {
    let mut ctx = Context::new();
    assert!(!is_using_global(&ctx));
    set_use_global(&mut ctx, true);
    assert!(is_using_global(&ctx));
    set_use_global(&mut ctx, false);
    assert!(!is_using_global(&ctx));
}

#[test]
fn operations_without_a_store_fail() {
    let mut ctx = Context::new();
    assert_eq!(
        commit(&mut ctx, "x".to_string(), Vec::new()).unwrap_err(),
        StoreError::NotFound
    );
    assert_eq!(recall(&ctx, "x", None).unwrap_err(), StoreError::NotFound);
    assert_eq!(recall_by_tag(&ctx, "x").unwrap_err(), StoreError::NotFound);
    assert_eq!(book(&ctx).unwrap_err(), StoreError::NotFound);
}

#[test]
fn example_scenario() {
    let mut ctx = Context::new();
    switch(&mut ctx, fresh_store()).unwrap();
    let (id, _path, _payload) = commit(
        &mut ctx,
        "Remember to call Alice".to_string(),
        vec!["personal".to_string()],
    )
    .unwrap();

    let hits = recall(&ctx, "alice", None).unwrap();
    assert_eq!(hits.len(), 1);
    assert_eq!(hits[0].name, "Remember to call Alice");
    assert_eq!(hits[0].data, "Remember to call Alice");
    assert_eq!(hits[0].id, id);

    let by_tag = recall_by_tag(&ctx, "personal").unwrap();
    assert_eq!(by_tag.len(), 1);
    assert_eq!(by_tag[0].id, id);

    let none = recall_by_tag(&ctx, "work").unwrap();
    assert!(none.is_empty());
}

#[test]
fn round_trip_through_serialized_form() {
    let mut store = fresh_store();
    let (id, _path, payload) = store.commit("Buy milk".to_string(), vec!["errand".to_string()]);

    let loaded = Wiki::load_or_create(
        "notes".to_string(),
        "store/notes".to_string(),
        Some(&vec![payload]),
    );
    let records = loaded.snapshot();
    assert_eq!(records.len(), 1);
    assert_eq!(records[0].id, id);
    assert_eq!(records[0].name, "Buy milk");
    assert_eq!(records[0].data, "Buy milk");
    assert_eq!(records[0].tags, vec!["errand".to_string()]);
}

#[test]
fn load_skips_malformed_files() {
    let mut store = fresh_store();
    let (id, _p, good) = store.commit("keep me".to_string(), Vec::new());
    let files = vec!["corrupt".to_string(), good, "".to_string()];
    let loaded = Wiki::load_or_create("n".to_string(), "p".to_string(), Some(&files));
    let records = loaded.snapshot();
    assert_eq!(records.len(), 1);
    assert_eq!(records[0].id, id);
}

#[test]
fn record_count_follows_commits() {
    let mut store = fresh_store();
    let (_i, _p, payload) = store.commit("loaded one".to_string(), Vec::new());
    let mut reloaded =
        Wiki::load_or_create("n".to_string(), "p".to_string(), Some(&vec![payload]));
    assert_eq!(reloaded.snapshot().len(), 1);
    reloaded.commit("second".to_string(), Vec::new());
    reloaded.commit("third".to_string(), Vec::new());
    assert_eq!(reloaded.snapshot().len(), 3);
}

#[test]
fn commit_gives_distinct_ids_and_paths() {
    let mut store = fresh_store();
    let (id1, path1, _) = store.commit("one".to_string(), Vec::new());
    let (id2, path2, _) = store.commit("two".to_string(), Vec::new());
    assert_ne!(id1, id2);
    assert_ne!(path1, path2);
    assert_eq!(path1, format!("store/notes/{}.rec", id1));
    assert_eq!(path2, format!("store/notes/{}.rec", id2));
}

#[test]
fn exclusive_session_persists_in_full() {
    let record = Information {
        id: 5,
        tags: vec!["t".to_string()],
        name: "title".to_string(),
        data: "old body".to_string(),
    };
    let (mut cell, first_payload) = Locked::new(record);
    assert!(first_payload.contains("old body"));

    cell.write();
    cell.set_data("new body".to_string());
    let second_payload = cell.release();
    assert!(second_payload.contains("new body"));
    assert!(!second_payload.contains("old body"));

    let shared = cell.read();
    assert_eq!(shared.data, "new body");
    assert_eq!(shared.name, "title");

    let reloaded = Locked::load(&second_payload).unwrap();
    assert_eq!(reloaded.read().data, "new body");
}

#[test]
fn load_rejects_malformed_cell() {
    match Locked::load("twk 1\nid zzz") {
        Err(StoreError::DeserializeError) => {},
        _ => panic!("malformed contents must give the deserialize error"),
    }
}

#[test]
fn book_returns_full_snapshot() {
    let mut ctx = Context::new();
    switch(&mut ctx, fresh_store()).unwrap();
    commit(&mut ctx, "a".to_string(), Vec::new()).unwrap();
    commit(&mut ctx, "b".to_string(), vec!["t".to_string()]).unwrap();
    let all = book(&ctx).unwrap();
    assert_eq!(all.len(), 2);
    assert_eq!(all[0].name, "a");
    assert_eq!(all[1].name, "b");
}
