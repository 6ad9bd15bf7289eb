//! The buffer of messages.

use mikui::kafka::store::{memory_of, MessageMeta, MessageStore, DEFAULT_MAX_BYTES};

fn push_simple(store: &mut MessageStore, partition: i32, offset: i64, ts: i64) -> bool {
    store.push(
        partition,
        offset,
        ts,
        format!("key-{offset}").as_bytes(),
        format!("value-{offset}").as_bytes(),
        &[],
    )
}

#[test]
fn stores_and_reads_back_payloads() {
    let mut store = MessageStore::new(DEFAULT_MAX_BYTES);
    assert!(push_simple(&mut store, 0, 1, 100));
    assert!(push_simple(&mut store, 1, 2, 200));

    assert_eq!(store.len(), 2);
    assert_eq!(store.key(0), b"key-1");
    assert_eq!(store.value(0), b"value-1");
    assert_eq!(store.key(1), b"key-2");
    assert_eq!(store.value(1), b"value-2");
    assert_eq!(store.get(1).unwrap().partition, 1);
}

#[test]
fn handles_empty_key_and_value() {
    let mut store = MessageStore::new(DEFAULT_MAX_BYTES);
    assert!(store.push(0, 0, 0, b"", b"", &[]));
    assert_eq!(store.key(0), b"");
    assert_eq!(store.value(0), b"");
    assert!(store.headers(0).is_empty());
}

#[test]
fn roundtrips_headers_including_empty_values() {
    let mut store = MessageStore::new(DEFAULT_MAX_BYTES);
    let headers: Vec<(&str, &[u8])> = vec![
        ("content-type", b"application/json".as_slice()),
        ("empty", b"".as_slice()),
        ("binary", &[0xff, 0x00, 0xfe]),
    ];
    assert!(store.push(0, 0, 0, b"k", b"v", &headers));

    let read = store.headers(0);
    assert_eq!(read.len(), 3);
    assert_eq!(read[0], ("content-type", b"application/json".as_slice()));
    assert_eq!(read[1], ("empty", b"".as_slice()));
    assert_eq!(read[2], ("binary", [0xff, 0x00, 0xfe].as_slice()));
}

#[test]
fn spans_stay_correct_across_many_messages() {
    let mut store = MessageStore::new(DEFAULT_MAX_BYTES);
    for i in 0..1000 {
        assert!(push_simple(&mut store, (i % 4) as i32, i, i));
    }
    assert_eq!(store.key(0), b"key-0");
    assert_eq!(store.value(500), b"value-500");
    assert_eq!(store.key(999), b"key-999");
}

#[test]
fn sorts_newest_first_without_touching_payloads() {
    let mut store = MessageStore::new(DEFAULT_MAX_BYTES);
    push_simple(&mut store, 0, 1, 100);
    push_simple(&mut store, 0, 2, 300);
    push_simple(&mut store, 0, 3, 200);

    store.sort_staged(true);

    assert_eq!(store.get(0).unwrap().timestamp, 300);
    assert_eq!(store.value(0), b"value-2");
    assert_eq!(store.get(2).unwrap().timestamp, 100);
    assert_eq!(store.value(2), b"value-1");
}

#[test]
fn published_prefix_never_moves_when_older_data_arrives() {
    let mut store = MessageStore::new(DEFAULT_MAX_BYTES);
    push_simple(&mut store, 0, 1, 300);
    push_simple(&mut store, 0, 2, 200);
    store.sort_staged(true);
    store.commit_all();

    push_simple(&mut store, 0, 3, 250);
    store.sort_staged(true);
    store.commit_all();

    assert_eq!(store.get(0).unwrap().timestamp, 300);
    assert_eq!(store.get(1).unwrap().timestamp, 200);
    assert_eq!(store.get(2).unwrap().timestamp, 250);
}

#[test]
fn commit_staged_while_holds_back_the_unsafe_tail() {
    let mut store = MessageStore::new(DEFAULT_MAX_BYTES);
    for ts in [500, 400, 300, 200] {
        push_simple(&mut store, 0, ts, ts);
    }
    store.sort_staged(true);

    let published = store.commit_staged_while(|m| m.timestamp > 300);
    assert_eq!(published, 2);
    assert_eq!(store.committed_len(), 2);
    assert_eq!(store.staged_len(), 2);

    store.sort_staged(true);
    assert_eq!(store.commit_all(), 2);
    assert_eq!(store.get(0).unwrap().timestamp, 500);
    assert_eq!(store.get(3).unwrap().timestamp, 200);
}

#[test]
fn truncate_reclaims_blob_and_pulls_committed_back() {
    let mut store = MessageStore::new(DEFAULT_MAX_BYTES);
    for i in 0..10 {
        push_simple(&mut store, 0, i, i);
    }
    store.commit_all();
    let bytes_before = store.byte_size();

    store.truncate(4);
    assert_eq!(store.len(), 4);
    assert_eq!(store.committed_len(), 4);
    assert!(store.byte_size() < bytes_before);
    assert_eq!(store.value(3), b"value-3");
    assert!(push_simple(&mut store, 0, 99, 99));
    assert_eq!(store.value(4), b"value-99");
    assert_eq!(store.value(0), b"value-0");
}

#[test]
fn stops_accepting_when_budget_is_exhausted() {
    let mut store = MessageStore::new(32);
    let mut accepted = 0;
    for i in 0..100 {
        if push_simple(&mut store, 0, i, i) {
            accepted += 1;
        }
    }
    assert!(accepted > 0);
    assert!(accepted < 100);
    assert!(store.is_full());
}

#[test]
fn clear_keeps_capacity_release_frees_it() {
    let mut store = MessageStore::new(DEFAULT_MAX_BYTES);
    for i in 0..100 {
        push_simple(&mut store, 0, i, i);
    }
    let capacity_before = store.memory_bytes();
    store.clear();
    assert_eq!(store.len(), 0);
    assert_eq!(store.byte_size(), 0);
    assert_eq!(store.memory_bytes(), capacity_before);
    assert!(capacity_before > 0);

    store.release();
    assert_eq!(store.memory_bytes(), 0);
}

#[test]
fn truncate_drops_tail_only() {
    let mut store = MessageStore::new(DEFAULT_MAX_BYTES);
    for i in 0..10 {
        push_simple(&mut store, 0, i, i);
    }
    store.truncate(3);
    assert_eq!(store.len(), 3);
    assert_eq!(store.value(2), b"value-2");
}

#[test]
fn clear_and_release_reset_the_published_boundary() {
    let mut store = MessageStore::new(DEFAULT_MAX_BYTES);
    push_simple(&mut store, 0, 1, 100);
    store.commit_all();
    assert_eq!(store.committed_len(), 1);

    store.clear();
    assert_eq!(store.committed_len(), 0);

    push_simple(&mut store, 0, 1, 100);
    store.commit_all();
    store.release();
    assert_eq!(store.committed_len(), 0);
}

#[test]
fn at_the_same_time_the_offset_decides_and_then_the_partition() {
    for newest_first in [false, true] {
        let mut s = MessageStore::new(1 << 20);
        s.push(0, 9, 100, b"", b"a", &[]);
        s.push(1, 3, 100, b"", b"b", &[]);
        s.push(0, 3, 100, b"", b"c", &[]);
        s.sort_staged(newest_first);
        let places: Vec<(i64, i32)> = (0..3)
            .map(|i| s.get(i).unwrap())
            .map(|m| (m.offset, m.partition))
            .collect();
        assert_eq!(places, vec![(3, 0), (3, 1), (9, 0)]);
    }
}

#[test]
fn memory_is_the_arena_and_the_records_with_their_room() {
    let record = std::mem::size_of::<MessageMeta>();
    assert_eq!(memory_of(0, 0), 0);
    assert_eq!(memory_of(100, 3), 100 + 3 * record);
    assert_eq!(memory_of(usize::MAX, 1), usize::MAX);
    assert_eq!(memory_of(1, usize::MAX), usize::MAX);

    let mut s = MessageStore::new(1 << 20);
    for i in 0..100 {
        push_simple(&mut s, 0, i, i);
    }
    assert!(s.memory_bytes() >= s.byte_size() + 100 * record);
}

#[test]
fn the_arena_ends_with_the_messages_that_stay() {
    let mut s = MessageStore::new(1 << 20);
    s.push(0, 1, 1, b"k", b"first", &[]);
    s.push(0, 2, 2, b"k", b"second", &[]);
    s.push(0, 3, 3, b"k", b"third", &[]);
    s.sort_staged(true);
    // What stays first in order lies last in the arena.
    s.truncate(1);
    assert_eq!(s.byte_size(), 1 + 5 + 1 + 6 + 1 + 5);
    assert_eq!(s.value(0), b"third");
    s.truncate(0);
    assert_eq!(s.byte_size(), 0);
}
