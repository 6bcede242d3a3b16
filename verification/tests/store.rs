use paste_stack::clipboard_event::ClipboardEvent;
use paste_stack::errors::{FinalizeOutcome, StoreError};
use paste_stack::storage::ClipboardStorage;

fn memory_store(max_events: usize) -> ClipboardStorage {
    let conn = rusqlite::Connection::open_in_memory().unwrap();
    ClipboardStorage::with_max_items(conn, max_events).unwrap()
}

fn insert_text_event(store: &mut ClipboardStorage, timestamp: i64, text: &str) -> FinalizeOutcome {
    store.start_event_at(timestamp);
    store.start_item();
    store.add_type("plain-text".to_string(), text.as_bytes().to_vec());
    store.finalize_event().unwrap()
}

fn stored_id(outcome: FinalizeOutcome) -> i64 {
    match outcome {
        FinalizeOutcome::Stored(id) => id,
        other => panic!("expected a stored event, got {:?}", other),
    }
}

#[test]
fn fresh_store_is_empty_with_default_capacity() {
    let conn = rusqlite::Connection::open_in_memory().unwrap();
    let store = ClipboardStorage::new(conn).unwrap();
    assert_eq!(store.count(), 0);
    assert_eq!(store.most_recent(5).len(), 0);
}

#[test]
fn capture_one_item_two_payloads() {
    let mut store = memory_store(100);
    store.start_event_at(10);
    store.start_item();
    store.add_type("plain-text".to_string(), b"hello".to_vec());
    store.add_type("html".to_string(), b"<b>hello</b>".to_vec());
    let id = stored_id(store.finalize_event().unwrap());
    assert_eq!(store.count(), 1);

    let recent = store.most_recent(1);
    assert_eq!(recent.len(), 1);
    let event = &recent[0];
    assert_eq!(event.id, Some(id));
    assert_eq!(event.timestamp, 10);
    assert_eq!(event.items.len(), 1);
    let item = &event.items[0];
    assert_eq!(item.types.len(), 2);
    assert_eq!(item.types[0].uti, "plain-text");
    assert_eq!(item.types[0].data, b"hello".to_vec());
    assert_eq!(item.types[0].size, 5);
    assert_eq!(item.types[1].uti, "html");
    assert_eq!(item.types[1].data, b"<b>hello</b>".to_vec());
    // the cached size always equals the payload's byte length
    assert_eq!(item.types[1].size, item.types[1].data.len());
    assert_eq!(item.types[1].size, 12);
}

#[test]
fn duplicate_insert_is_reported_and_changes_nothing() {
    let mut store = memory_store(100);
    let first = insert_text_event(&mut store, 1, "same content");
    let id = stored_id(first);
    assert_eq!(store.count(), 1);

    let second = insert_text_event(&mut store, 2, "same content");
    assert!(matches!(second, FinalizeOutcome::Duplicate));
    assert_eq!(store.count(), 1);

    let event = store.restore_event_by_id(id).unwrap();
    assert_eq!(event.timestamp, 1);
    assert_eq!(event.items.len(), 1);
    assert_eq!(event.items[0].types[0].data, b"same content".to_vec());
}

#[test]
fn retention_keeps_only_the_most_recent() {
    let mut store = memory_store(2);
    let id1 = stored_id(insert_text_event(&mut store, 1, "first"));
    let id2 = stored_id(insert_text_event(&mut store, 2, "second"));
    let id3 = stored_id(insert_text_event(&mut store, 3, "third"));

    assert_eq!(store.count(), 2);
    assert!(matches!(
        store.restore_event_by_id(id1),
        Err(StoreError::NotFound)
    ));
    assert_eq!(store.restore_event_by_id(id2).unwrap().timestamp, 2);
    assert_eq!(store.restore_event_by_id(id3).unwrap().timestamp, 3);
}

#[test]
fn retention_over_capacity_many_times() {
    let mut store = memory_store(3);
    let mut ids = Vec::new();
    for k in 0..10i64 {
        let text = format!("content number {}", k);
        ids.push(stored_id(insert_text_event(&mut store, k, &text)));
    }
    assert_eq!(store.count(), 3);
    for k in 0..7usize {
        assert!(matches!(
            store.restore_event_by_id(ids[k]),
            Err(StoreError::NotFound)
        ));
    }
    for k in 7..10usize {
        assert!(store.restore_event_by_id(ids[k]).is_ok());
    }
}

#[test]
fn get_by_id_returns_exact_content() {
    let mut store = memory_store(100);
    store.start_event_at(42);
    store.start_item();
    store.add_type("png".to_string(), vec![0u8, 159, 146, 150]);
    store.start_item();
    store.add_type("plain-text".to_string(), b"two items".to_vec());
    let id = stored_id(store.finalize_event().unwrap());

    let event = store.restore_event_by_id(id).unwrap();
    assert_eq!(event.id, Some(id));
    assert_eq!(event.timestamp, 42);
    assert_eq!(event.items.len(), 2);
    assert_eq!(event.items[0].types[0].uti, "png");
    assert_eq!(event.items[0].types[0].data, vec![0u8, 159, 146, 150]);
    assert_eq!(event.items[1].types[0].uti, "plain-text");
    assert_eq!(event.items[1].types[0].data, b"two items".to_vec());
}

#[test]
fn unknown_id_is_not_found() {
    let store = memory_store(100);
    assert!(matches!(
        store.restore_event_by_id(7),
        Err(StoreError::NotFound)
    ));
}

#[test]
fn finalize_without_event_is_a_no_op() {
    let mut store = memory_store(100);
    let outcome = store.finalize_event().unwrap();
    assert!(matches!(outcome, FinalizeOutcome::NoEvent));
    assert_eq!(store.count(), 0);
}

#[test]
fn second_empty_item_replaces_first_and_empty_shell_commits() {
    let mut store = memory_store(100);
    store.start_event_at(5);
    store.start_item();
    store.start_item();
    let id = stored_id(store.finalize_event().unwrap());

    let event = store.restore_event_by_id(id).unwrap();
    assert_eq!(event.items.len(), 1);
    assert_eq!(event.items[0].types.len(), 0);

    // a second all-empty event carries the same (empty) content hash
    store.start_event_at(6);
    store.start_item();
    let again = store.finalize_event().unwrap();
    assert!(matches!(again, FinalizeOutcome::Duplicate));
    assert_eq!(store.count(), 1);
}

#[test]
fn implicit_event_and_item_open_on_add_type() {
    let mut store = memory_store(100);
    store.add_type("plain-text".to_string(), b"implicit".to_vec());
    let id = stored_id(store.finalize_event().unwrap());
    let event = store.restore_event_by_id(id).unwrap();
    assert_eq!(event.items.len(), 1);
    assert_eq!(event.items[0].types[0].data, b"implicit".to_vec());
}

#[test]
fn most_recent_orders_newest_first() {
    let mut store = memory_store(100);
    insert_text_event(&mut store, 30, "a");
    insert_text_event(&mut store, 10, "b");
    insert_text_event(&mut store, 20, "c");

    let recent = store.most_recent(2);
    assert_eq!(recent.len(), 2);
    assert_eq!(recent[0].timestamp, 30);
    assert_eq!(recent[1].timestamp, 20);

    let all = store.most_recent(10);
    assert_eq!(all.len(), 3);
    assert_eq!(all[2].timestamp, 10);
}

#[test]
fn equal_timestamps_keep_the_freshest_insertion() {
    let mut store = memory_store(1);
    let id1 = stored_id(insert_text_event(&mut store, 9, "older insertion"));
    let id2 = stored_id(insert_text_event(&mut store, 9, "newer insertion"));
    assert_eq!(store.count(), 1);
    assert!(matches!(
        store.restore_event_by_id(id1),
        Err(StoreError::NotFound)
    ));
    assert_eq!(
        store.restore_event_by_id(id2).unwrap().items[0].types[0].data,
        b"newer insertion".to_vec()
    );
}

#[test]
fn history_survives_reopening_the_same_database() {
    let flags = rusqlite::OpenFlags::default();
    let uri = "file:retained_history_case?mode=memory&cache=shared";
    let keeper = rusqlite::Connection::open_with_flags(uri, flags).unwrap();

    let conn = rusqlite::Connection::open_with_flags(uri, flags).unwrap();
    let mut store = ClipboardStorage::with_max_items(conn, 10).unwrap();
    store.start_event_at(77);
    store.start_item();
    store.add_type("plain-text".to_string(), b"durable".to_vec());
    let id = stored_id(store.finalize_event().unwrap());
    drop(store);

    let conn2 = rusqlite::Connection::open_with_flags(uri, flags).unwrap();
    let reopened = ClipboardStorage::with_max_items(conn2, 10).unwrap();
    assert_eq!(reopened.count(), 1);
    let event = reopened.restore_event_by_id(id).unwrap();
    assert_eq!(event.timestamp, 77);
    assert_eq!(event.items[0].types[0].uti, "plain-text");
    assert_eq!(event.items[0].types[0].data, b"durable".to_vec());
    drop(keeper);
}

#[test]
fn dedup_survives_reopening_the_same_database() {
    let flags = rusqlite::OpenFlags::default();
    let uri = "file:dedup_after_reopen_case?mode=memory&cache=shared";
    let keeper = rusqlite::Connection::open_with_flags(uri, flags).unwrap();

    let conn = rusqlite::Connection::open_with_flags(uri, flags).unwrap();
    let mut store = ClipboardStorage::with_max_items(conn, 10).unwrap();
    insert_text_event(&mut store, 1, "remembered");
    drop(store);

    let conn2 = rusqlite::Connection::open_with_flags(uri, flags).unwrap();
    let mut reopened = ClipboardStorage::with_max_items(conn2, 10).unwrap();
    let outcome = insert_text_event(&mut reopened, 2, "remembered");
    assert!(matches!(outcome, FinalizeOutcome::Duplicate));
    assert_eq!(reopened.count(), 1);
    drop(keeper);
}

#[test]
fn storage_fault_is_surfaced_and_history_stays_intact() {
    let flags = rusqlite::OpenFlags::default();
    let uri = "file:fault_surfaced_case?mode=memory&cache=shared";
    let keeper = rusqlite::Connection::open_with_flags(uri, flags).unwrap();

    let conn = rusqlite::Connection::open_with_flags(uri, flags).unwrap();
    let mut store = ClipboardStorage::with_max_items(conn, 10).unwrap();
    let id = stored_id(insert_text_event(&mut store, 1, "committed before the fault"));

    // break the durable layer behind the store's back
    keeper.execute_batch("DROP TABLE clipboard_types").unwrap();

    store.start_event_at(2);
    store.start_item();
    store.add_type("plain-text".to_string(), b"never committed".to_vec());
    let outcome = store.finalize_event();
    assert!(matches!(outcome, Err(StoreError::StorageFault(_))));

    // prior history is untouched and the builder was reset
    assert_eq!(store.count(), 1);
    assert_eq!(store.restore_event_by_id(id).unwrap().timestamp, 1);
    assert!(matches!(
        store.finalize_event().unwrap(),
        FinalizeOutcome::NoEvent
    ));
}

#[test]
fn builder_discards_unfinished_event_on_restart() {
    let mut store = memory_store(100);
    store.start_event_at(1);
    store.start_item();
    store.add_type("plain-text".to_string(), b"forgotten".to_vec());
    store.start_event_at(2);
    store.start_item();
    store.add_type("plain-text".to_string(), b"kept".to_vec());
    let id = stored_id(store.finalize_event().unwrap());
    assert_eq!(store.count(), 1);
    let event = store.restore_event_by_id(id).unwrap();
    assert_eq!(event.timestamp, 2);
    assert_eq!(event.items[0].types[0].data, b"kept".to_vec());
}

#[test]
fn hash_of_committed_event_is_recorded() {
    let mut store = memory_store(100);
    let id = stored_id(insert_text_event(&mut store, 3, "hashed"));
    let event: ClipboardEvent = store.restore_event_by_id(id).unwrap();
    let recorded = event.content_hash.clone().unwrap();
    assert_eq!(recorded, event.calculate_hash());
    assert_eq!(recorded.len(), 64);
}
