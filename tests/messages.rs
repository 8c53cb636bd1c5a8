use synac_client::messages::{Message, Messages};

fn msg(id: usize, channel: usize, timestamp: i64, text: &str) -> Message {
    Message {
        id,
        channel,
        author: 1,
        timestamp,
        timestamp_edit: None,
        text: text.as_bytes().to_vec(),
    }
}

fn ids(store: &Messages, channel: usize) -> Vec<usize> {
    store.get(channel).iter().map(|m| m.id).collect()
}

#[test]
fn redelivery_keeps_one_entry_with_new_content() {
    let mut store = Messages::new();
    store.add(msg(5, 1, 100, "first"));
    store.add(msg(5, 1, 100, "second"));
    let timeline = store.get(1);
    assert_eq!(timeline.len(), 1);
    assert_eq!(timeline[0].text, b"second".to_vec());
}

#[test]
fn redelivery_among_equal_timestamps_updates_in_place() {
    let mut store = Messages::new();
    store.add(msg(1, 1, 100, "a"));
    store.add(msg(2, 1, 100, "b"));
    store.add(msg(3, 1, 100, "c"));
    store.add(msg(2, 1, 100, "b edited"));
    assert_eq!(ids(&store, 1), vec![1, 2, 3]);
    assert_eq!(store.get(1)[1].text, b"b edited".to_vec());
}

#[test]
fn out_of_order_arrival_is_sorted() {
    let mut store = Messages::new();
    store.add(msg(3, 1, 300, "c"));
    store.add(msg(1, 1, 100, "a"));
    store.add(msg(4, 1, 400, "d"));
    store.add(msg(2, 1, 200, "b"));
    assert_eq!(ids(&store, 1), vec![1, 2, 3, 4]);
    let stamps: Vec<i64> = store.get(1).iter().map(|m| m.timestamp).collect();
    assert_eq!(stamps, vec![100, 200, 300, 400]);
}

#[test]
fn equal_timestamps_keep_first_insertion_order() {
    let mut store = Messages::new();
    store.add(msg(7, 1, 50, "x"));
    store.add(msg(9, 1, 100, "y"));
    store.add(msg(8, 1, 100, "z"));
    store.add(msg(6, 1, 100, "w"));
    store.add(msg(10, 1, 20, "v"));
    assert_eq!(ids(&store, 1), vec![10, 7, 9, 8, 6]);
}

#[test]
fn same_id_with_other_timestamp_is_a_new_entry() {
    let mut store = Messages::new();
    store.add(msg(1, 1, 100, "a"));
    store.add(msg(1, 1, 200, "a again"));
    assert_eq!(ids(&store, 1), vec![1, 1]);
}

#[test]
fn channels_are_kept_apart() {
    let mut store = Messages::new();
    store.add(msg(1, 1, 100, "a"));
    store.add(msg(2, 2, 50, "b"));
    assert_eq!(ids(&store, 1), vec![1]);
    assert_eq!(ids(&store, 2), vec![2]);
    assert!(store.get(3).is_empty());
}

#[test]
fn remove_gives_channel_and_leaves_others() {
    let mut store = Messages::new();
    store.add(msg(1, 1, 100, "a"));
    store.add(msg(2, 1, 110, "b"));
    store.add(msg(3, 2, 105, "c"));
    assert_eq!(store.remove(2), Some(1));
    assert_eq!(ids(&store, 1), vec![1]);
    assert_eq!(ids(&store, 2), vec![3]);
}

#[test]
fn remove_absent_id_changes_nothing() {
    let mut store = Messages::new();
    store.add(msg(1, 1, 100, "a"));
    store.add(msg(3, 2, 105, "c"));
    assert_eq!(store.remove(42), None);
    assert_eq!(ids(&store, 1), vec![1]);
    assert_eq!(ids(&store, 2), vec![3]);
}

#[test]
fn has_tells_loaded_from_never_seen() {
    let mut store = Messages::new();
    assert!(!store.has(1));
    store.add(msg(1, 1, 100, "a"));
    assert!(store.has(1));
    assert_eq!(store.remove(1), Some(1));
    assert!(store.has(1));
    assert!(store.get(1).is_empty());
    assert!(!store.has(2));
}
