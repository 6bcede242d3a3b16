use paste_stack::clipboard_event::{ClipboardEvent, ClipboardItem, ClipboardType};
use paste_stack::errors::RestoreError;
use paste_stack::event::{Data, Event, Item};
use paste_stack::hashing::to_hex;
use paste_stack::poll::{effective_interval, ChangeDetector};
use paste_stack::restore::{capture_snapshot, restore_plan, restore_rejection};

fn event_with(items: Vec<Vec<(&str, &[u8])>>) -> ClipboardEvent {
    let mut ev = ClipboardEvent::new(0);
    for slots in items {
        let mut item = ClipboardItem::new();
        for (tag, bytes) in slots {
            item.add_type(ClipboardType::new(tag.to_string(), bytes.to_vec()));
        }
        ev.add_item(item);
    }
    ev
}

#[test]
fn hash_of_empty_event_is_digest_of_nothing() {
    let ev = ClipboardEvent::new(0);
    assert_eq!(
        ev.calculate_hash(),
        "e3b0c44298fc1c149afbf4c8996fb92427ae41e4649b934ca495991b7852b855"
    );
}

#[test]
fn hash_concatenates_tag_then_bytes() {
    // the canonical stream is the tag's bytes followed by the payload, so
    // ("a", "bc") streams exactly "abc"
    let ev = event_with(vec![vec![("a", b"bc")]]);
    assert_eq!(
        ev.calculate_hash(),
        "ba7816bf8f01cfea414140de5dae2223b00361a396177a9cb410ff61f20015ad"
    );
}

#[test]
fn hash_ignores_payload_order_within_an_item() {
    let forward = event_with(vec![vec![("plain-text", b"hello"), ("html", b"<b>hello</b>")]]);
    let backward = event_with(vec![vec![("html", b"<b>hello</b>"), ("plain-text", b"hello")]]);
    assert_eq!(forward.calculate_hash(), backward.calculate_hash());
}

#[test]
fn hash_respects_item_order() {
    let ab = event_with(vec![vec![("t", b"first")], vec![("t", b"second")]]);
    let ba = event_with(vec![vec![("t", b"second")], vec![("t", b"first")]]);
    assert_ne!(ab.calculate_hash(), ba.calculate_hash());
}

#[test]
fn hash_differs_for_different_content() {
    let one = event_with(vec![vec![("plain-text", b"one")]]);
    let two = event_with(vec![vec![("plain-text", b"two")]]);
    assert_ne!(one.calculate_hash(), two.calculate_hash());

    let tagged = event_with(vec![vec![("html", b"one")]]);
    assert_ne!(one.calculate_hash(), tagged.calculate_hash());
}

#[test]
fn hash_does_not_depend_on_ids_or_timestamp() {
    let mut a = event_with(vec![vec![("plain-text", b"stable")]]);
    let mut b = event_with(vec![vec![("plain-text", b"stable")]]);
    a.timestamp = 1;
    b.timestamp = 9;
    b.id = Some(12);
    b.items[0].id = Some(3);
    assert_eq!(a.calculate_hash(), b.calculate_hash());
}

#[test]
fn hex_rendering_is_lowercase_two_digits_per_byte() {
    assert_eq!(to_hex(&vec![]), "");
    assert_eq!(to_hex(&vec![0u8, 1, 15, 16, 171, 255]), "00010f10abff");
}

#[test]
fn payload_size_is_cached_length() {
    let t = ClipboardType::new("plain-text".to_string(), b"hello".to_vec());
    assert_eq!(t.size, 5);
    assert_eq!(t.id, None);
    assert_eq!(t.item_id, None);
}

#[test]
fn round_trip_restores_identical_content() {
    let snapshot = vec![
        vec![
            ("html".to_string(), b"<i>x</i>".to_vec()),
            ("plain-text".to_string(), b"x".to_vec()),
        ],
        vec![("png".to_string(), vec![1u8, 2, 3])],
    ];
    let captured = capture_snapshot(&snapshot, 100);
    let plan = restore_plan(&captured);
    assert_eq!(plan, snapshot);

    let recaptured = capture_snapshot(&plan, 200);
    assert_eq!(recaptured.calculate_hash(), captured.calculate_hash());
}

#[test]
fn rejection_names_the_offending_tag() {
    let plan = vec![vec![("html".to_string(), b"<p>".to_vec()), (
        "public.png".to_string(),
        vec![9u8],
    )]];
    let err = restore_rejection(&plan, 0, 1);
    let RestoreError::TypeRejected(tag) = err;
    assert_eq!(tag, "public.png");
}

#[test]
fn changed_token_without_items_is_a_benign_empty_cycle() {
    let mut d = ChangeDetector::new(1);
    let empty: Option<Vec<Vec<(String, Vec<u8>)>>> = None;
    let full: Option<Vec<Vec<(String, Vec<u8>)>>> =
        Some(vec![vec![("plain-text".to_string(), b"x".to_vec())]]);

    // token moved but the platform reported nothing: no capture, token kept
    assert!(!d.observe_snapshot(2, &empty));
    // unchanged token: no capture even with items available
    assert!(!d.observe_snapshot(2, &full));
    // token moved with items available: capture
    assert!(d.observe_snapshot(3, &full));
}

#[test]
fn hash_is_64_lowercase_hex_characters() {
    let ev = event_with(vec![vec![("plain-text", b"shape check")]]);
    let h = ev.calculate_hash();
    assert_eq!(h.len(), 64);
    for c in h.chars() {
        assert!(('0'..='9').contains(&c) || ('a'..='f').contains(&c));
    }
    // the same unmodified event renders the same string on every call
    assert_eq!(h, ev.calculate_hash());
}

#[test]
fn detector_fires_once_per_token_change() {
    let mut d = ChangeDetector::new(5);
    assert!(!d.observe(5));
    assert!(d.observe(6));
    assert!(!d.observe(6));
    assert!(d.observe(9));
}

#[test]
fn zero_interval_means_default() {
    assert_eq!(effective_interval(0), 500);
    assert_eq!(effective_interval(1), 1);
    assert_eq!(effective_interval(250), 250);
}

#[test]
fn snapshot_event_builder_appends_in_order() {
    let mut ev = Event::new();
    ev.add_data("t".to_string(), b"dropped without an item".to_vec());
    assert_eq!(ev.items.len(), 0);

    ev.new_item();
    ev.add_data("plain-text".to_string(), b"one".to_vec());
    ev.add_data("html".to_string(), b"<p>one</p>".to_vec());
    ev.new_item();
    ev.add_data("plain-text".to_string(), b"two".to_vec());

    assert_eq!(ev.items.len(), 2);
    assert_eq!(ev.items[0].data_list.len(), 2);
    assert_eq!(ev.items[0].data_list[0].type_tag, "plain-text");
    assert_eq!(ev.items[0].data_list[0].data, b"one".to_vec());
    assert_eq!(ev.items[1].data_list.len(), 1);
    assert_eq!(ev.items[1].data_list[0].data, b"two".to_vec());
}

#[test]
fn item_accumulates_data_in_order() {
    let mut item = Item::new();
    item.add_data(Data::new("a".to_string(), vec![1u8]));
    item.add_data(Data::new("b".to_string(), vec![2u8, 3]));
    assert_eq!(item.data_list.len(), 2);
    assert_eq!(item.data_list[0].type_tag, "a");
    assert_eq!(item.data_list[1].data, vec![2u8, 3]);
}
