//! Windows, ranges and views: what is read of a topic and what is shown of it.

use std::time::Duration;

use mikui::kafka::cursor::{
    self, eof_exhausts, exclusive, intersect, selected_partitions, validate_range, PartitionCursor,
    RoundPartition, MAX_ROUND_CHUNK, MAX_WINDOW_FLOOR, MIN_ROUND_CHUNK,
};
use mikui::kafka::reader::Reader;
use mikui::kafka::store::MessageStore;
use mikui::kafka::types::{
    MessageFilter, ReadRange, SortColumn, SortDirection, SortSpec, StartFrom,
};
use mikui::kafka::view::{grow_view, undecided_rows, PreparedFilter};

type Decoder = fn(&[u8]) -> Option<String>;

const NEWEST: bool = true;
const OLDEST: bool = false;

fn cursor_of(low: i64, high: i64, newest_first: bool, budget: i64) -> PartitionCursor {
    PartitionCursor {
        partition: 0,
        low,
        high,
        next: if newest_first { high } else { low },
        absorbed: 0,
        budget,
        read_position: None,
        exhausted: low >= high,
        frontier_ts: None,
        barren_rounds: 0,
    }
}

#[test]
fn approx_total_counts_only_the_partitions_being_read() {
    let mut reader = Reader::new();
    reader.newest_first = NEWEST;
    reader.cursors.push(cursor_of(10, 110, NEWEST, 1000));
    reader.cursors.push(PartitionCursor { partition: 3, ..cursor_of(0, 50, NEWEST, 1000) });

    let scope = reader.read_scope();
    assert_eq!(scope.approx_total, Some(150));
    assert_eq!(scope.scanned, 0);
}

#[test]
fn approx_total_is_unknown_before_the_watermarks_are_in() {
    assert_eq!(Reader::new().read_scope().approx_total, None);
}

#[test]
fn an_unbounded_budget_still_walks_the_partition_in_normal_windows() {
    let windows = walk(cursor_of(0, 25, OLDEST, i64::MAX), OLDEST, 10);
    assert_eq!(windows, vec![(0, 10), (10, 20), (20, 25)]);

    let backwards = walk(cursor_of(0, 25, NEWEST, i64::MAX), NEWEST, 10);
    assert_eq!(backwards, vec![(15, 25), (5, 15), (0, 5)]);
}

fn walk(mut c: PartitionCursor, newest_first: bool, chunk: i64) -> Vec<(i64, i64)> {
    let mut windows = Vec::new();
    while let Some((start, end)) = c.next_window(newest_first, chunk) {
        windows.push((start, end));
        c.advance(
            newest_first,
            &RoundPartition {
partition: 0,
                start,
                end,
                absorbed: end - start,
                done: true,
            },
        );
        assert!(windows.len() < 1000);
    }
    windows
}

#[test]
fn eof_beyond_the_window_does_not_finish_the_partition() {
    assert!(!eof_exhausts(OLDEST, 60, 20));
    assert!(eof_exhausts(OLDEST, 60, 60));
    assert!(eof_exhausts(OLDEST, 55, 60));
    assert!(!eof_exhausts(NEWEST, 60, 60));
}

#[test]
fn a_closed_window_does_not_claim_where_the_reader_stands() {
    let mut c = cursor_of(0, 1000, OLDEST, 1000);
    c.note_read_position(137);
    c.advance(
        OLDEST,
        &RoundPartition {
partition: 0,
            start: 0,
            end: 20,
            absorbed: 20,
            done: true,
        },
    );

    assert_eq!(c.next, 20);
    assert_eq!(
        c.read_position,
        Some(137));
}

#[test]
fn newest_walks_windows_backwards_from_the_end() {
    let windows = walk(cursor_of(0, 1000, NEWEST, 1000), NEWEST, 250);
    assert_eq!(windows, vec![(750, 1000), (500, 750), (250, 500), (0, 250)]);
}

#[test]
fn oldest_walks_windows_forward_from_the_start() {
    let windows = walk(cursor_of(0, 1000, OLDEST, 1000), OLDEST, 250);
    assert_eq!(windows, vec![(0, 250), (250, 500), (500, 750), (750, 1000)]);
}

#[test]
fn windows_never_cross_the_partition_bounds() {
    assert_eq!(
        walk(cursor_of(400, 1000, NEWEST, 10_000), NEWEST, 250),
        vec![(750, 1000), (500, 750), (400, 500)],
    );
    assert_eq!(
        walk(cursor_of(400, 1000, OLDEST, 10_000), OLDEST, 250),
        vec![(400, 650), (650, 900), (900, 1000)],
    );
}

#[test]
fn budget_caps_the_last_window_and_stops_the_walk() {
    assert_eq!(
        walk(cursor_of(0, 1000, NEWEST, 300), NEWEST, 250),
        vec![(750, 1000), (700, 750)],
    );
    assert_eq!(
        walk(cursor_of(0, 1000, OLDEST, 300), OLDEST, 250),
        vec![(0, 250), (250, 300)],
    );
}

#[test]
fn a_bounded_range_walks_all_the_way_to_its_far_edge() {
    let mut c = cursor_of(0, 1000, OLDEST, 300);
    c.budget = c.budget.max(c.high - c.low);
    assert_eq!(
        walk(c, OLDEST, 250),
        vec![(0, 250), (250, 500), (500, 750), (750, 1000)],
    );

    let mut c = cursor_of(0, 1000, NEWEST, 300);
    c.budget = c.budget.max(c.high - c.low);
    assert_eq!(
        walk(c, NEWEST, 250),
        vec![(750, 1000), (500, 750), (250, 500), (0, 250)],
    );
}

#[test]
fn all_partitions_when_nothing_is_selected() {
    assert_eq!(selected_partitions(&None, 4).unwrap(), vec![0, 1, 2, 3]);
    assert_eq!(selected_partitions(&Some(vec![]), 3).unwrap(), vec![0, 1, 2]);
}

#[test]
fn selection_is_sorted_and_deduplicated() {
    assert_eq!(
        selected_partitions(&Some(vec![5, 1, 5, 1, 3]), 8).unwrap(),
        vec![1, 3, 5],
    );
}

#[test]
fn selection_outside_the_topic_is_rejected() {
    assert!(selected_partitions(&Some(vec![0, 7]), 2).is_err());
    assert!(selected_partitions(&Some(vec![-1]), 2).is_err());
}

#[test]
fn an_inclusive_upper_bound_keeps_the_message_it_names() {
    assert_eq!(
        intersect(100, 1000, Some(200), exclusive(Some(300))),
        (200, 301),
    );
}

#[test]
fn range_is_clipped_to_what_the_partition_actually_holds() {
    assert_eq!(intersect(100, 1000, Some(0), None), (100, 1000));
    assert_eq!(
        intersect(100, 1000, None, exclusive(Some(i64::MAX))),
        (100, 1000)
    );
    assert_eq!(intersect(100, 1000, Some(5000), None), (5000, 5000));
    assert_eq!(intersect(100, 1000, None, exclusive(Some(10))), (100, 100));
}

#[test]
fn only_an_upper_bound_reads_backwards() {
    let to_only = ReadRange {
        to_offset: Some(500),
        ..ReadRange::default()
    };
    assert!(to_only.newest_first(StartFrom::Oldest));

    let from_only = ReadRange {
        from_offset: Some(500),
        ..ReadRange::default()
    };
    assert!(!from_only.newest_first(StartFrom::Newest));

    let both = ReadRange {
        from_offset: Some(1),
        to_offset: Some(500),
        ..ReadRange::default()
    };
    assert!(!both.newest_first(StartFrom::Newest));

    let none = ReadRange::default();
    assert!(none.newest_first(StartFrom::Newest));
    assert!(!none.newest_first(StartFrom::Oldest));
}

#[test]
fn inverted_bounds_are_rejected_with_a_reason() {
    assert!(validate_range(&ReadRange {
        from_offset: Some(500),
        to_offset: Some(100),
        ..ReadRange::default()
    })
    .is_err());
    assert!(validate_range(&ReadRange {
        from_timestamp: Some(2),
        to_timestamp: Some(1),
        ..ReadRange::default()
    })
    .is_err());
    assert!(validate_range(&ReadRange {
        from_offset: Some(-1),
        ..ReadRange::default()
    })
    .is_err());
    assert!(validate_range(&ReadRange {
        from_offset: Some(100),
        to_offset: Some(100),
        ..ReadRange::default()
    })
    .is_ok());
}

#[test]
fn empty_partition_yields_no_windows() {
    assert!(walk(cursor_of(0, 0, NEWEST, 1000), NEWEST, 250).is_empty());
    assert!(walk(cursor_of(500, 500, OLDEST, 1000), OLDEST, 250).is_empty());
}

#[test]
fn a_window_that_yielded_nothing_still_advances_the_cursor() {
    let mut c = cursor_of(0, 500, NEWEST, 1000);
    let (start, end) = c.next_window(NEWEST, 250).unwrap();
    c.advance(
        NEWEST,
        &RoundPartition {
partition: 0,
            start,
            end,
            absorbed: 0,
            done: true,
        },
    );
    assert_eq!(c.absorbed, 0);
    assert_eq!(c.next_window(NEWEST, 250), Some((0, 250)));
}

#[test]
fn raising_the_budget_resumes_without_overlap() {
    let mut c = cursor_of(0, 1000, NEWEST, 250);
    let (start, end) = c.next_window(NEWEST, 250).unwrap();
    assert_eq!((start, end), (750, 1000));
    c.advance(
        NEWEST,
        &RoundPartition {
partition: 0,
            start,
            end,
            absorbed: 250,
            done: true,
        },
    );
    assert_eq!(c.next_window(NEWEST, 250), None);

    c.budget = c.absorbed + 250;
    assert_eq!(c.next_window(NEWEST, 250), Some((500, 750)));
}

#[derive(Clone, Copy)]
struct Estimate {
    bytes_per_sec: f64,
    bytes_per_offset: f64,
}

fn estimate(bytes_per_sec: f64, bytes_per_offset: f64) -> Option<Estimate> {
    Some(Estimate { bytes_per_sec, bytes_per_offset })
}

const TARGET_ROUND_SECS: f64 = 2.0;
const FETCH_MESSAGE_MAX_BYTES: f64 = 262_144.0;
const QUICK: Option<Duration> = Some(Duration::from_millis(500));
const NO_FLOOR: i64 = MIN_ROUND_CHUNK;

/// The next window by a measured speed and by how long the last round took.
fn next_window(
    previous: i64,
    estimate: Option<Estimate>,
    active: usize,
    last_round: Option<Duration>,
    floor: i64,
) -> i64 {
    let target = estimate.map(|e| {
        let bytes = e.bytes_per_sec * TARGET_ROUND_SECS;
        (bytes / e.bytes_per_offset.max(1.0) / active.max(1) as f64).round() as i64
    });
    let shrunk = last_round
        .filter(|r| r.as_secs_f64() > TARGET_ROUND_SECS)
        .map(|r| (previous as f64 / (r.as_secs_f64() / TARGET_ROUND_SECS)).round() as i64);
    cursor::next_window(previous, target, shrunk, floor)
}

/// The floor of a window by how many bytes of an offset are kept.
fn window_floor(kept_per_offset: Option<f64>) -> i64 {
    let per_fetch = kept_per_offset
        .filter(|k| *k > 0.0)
        .map(|k| (FETCH_MESSAGE_MAX_BYTES / k).round() as i64);
    cursor::window_floor(per_fetch)
}

#[test]
fn a_slow_round_stops_the_window_from_growing_even_without_measurements() {
    assert_eq!(next_window(20, None, 8, QUICK, NO_FLOOR), 40);
    assert_eq!(next_window(40, None, 8, QUICK, NO_FLOOR), 80);

    let after_slow = next_window(80, None, 8, Some(Duration::from_secs_f64(10.4)), NO_FLOOR);
    assert!(
        after_slow < 20);
}

#[test]
fn overrun_shrinks_the_window_in_proportion() {
    let previous = 600;
    let w = next_window(
        previous,
        None,
        8,
        Some(Duration::from_secs_f64(TARGET_ROUND_SECS * 4.0)),
        NO_FLOOR,
    );
    assert_eq!(w, previous / 4);
}

#[test]
fn window_is_computed_from_the_measured_quota() {
    let previous = 100;
    let w = next_window(previous, estimate(200_000.0, 12_000.0), 4, QUICK, NO_FLOOR);
    assert_eq!(
        w,
        (200_000.0 * TARGET_ROUND_SECS / 12_000.0 / 4.0).round() as i64
    );

    let small = next_window(previous, estimate(200_000.0, 400.0), 4, QUICK, NO_FLOOR);
    assert!(small > w * 10);

    assert_eq!(
        next_window(previous, estimate(200_000.0, 12_000.0), 8, QUICK, NO_FLOOR),
        MIN_ROUND_CHUNK
    );
}

#[test]
fn window_splits_the_quota_across_partitions() {
    let est = estimate(2_000_000.0, 1_000.0);
    assert!(
        next_window(10_000, est, 16, QUICK, NO_FLOOR)
            < next_window(10_000, est, 4, QUICK, NO_FLOOR)
    );
}

#[test]
fn window_growth_is_capped_even_on_a_wildly_optimistic_estimate() {
    let burst = estimate(50_000_000.0, 100.0);
    assert_eq!(next_window(10, burst, 8, QUICK, NO_FLOOR), 20);
    assert_eq!(next_window(20, burst, 8, QUICK, NO_FLOOR), 40);
    assert_eq!(next_window(40, None, 8, QUICK, NO_FLOOR), 80);
}

#[test]
fn window_shrinks_in_a_single_step() {
    let slow = estimate(200_000.0, 12_000.0);
    assert!(
        next_window(2_000, slow, 8, QUICK, NO_FLOOR) < 10);
}

#[test]
fn window_stays_within_bounds() {
    assert_eq!(
        next_window(1_000, estimate(1.0, 1_000_000.0), 64, QUICK, NO_FLOOR),
        MIN_ROUND_CHUNK
    );
    let mut w = 10;
    for _ in 0..50 {
        w = next_window(w, estimate(f64::MAX, 1.0), 1, QUICK, NO_FLOOR);
    }
    assert_eq!(w, MAX_ROUND_CHUNK);
}

#[test]
fn window_floor_covers_one_fetch_worth_of_offsets() {
    let floor = window_floor(Some(8_000.0));
    assert_eq!(floor, (FETCH_MESSAGE_MAX_BYTES / 8_000.0).round() as i64);
    assert!(
        floor > MIN_ROUND_CHUNK * 6);
}

#[test]
fn window_floor_falls_back_to_the_absolute_minimum_without_a_measurement() {
    assert_eq!(window_floor(None), MIN_ROUND_CHUNK);
    assert_eq!(window_floor(Some(0.0)), MIN_ROUND_CHUNK);
    assert_eq!(window_floor(Some(10_000_000.0)), MIN_ROUND_CHUNK);
}

#[test]
fn window_floor_is_capped_on_tiny_messages() {
    assert_eq!(window_floor(Some(40.0)), MAX_WINDOW_FLOOR);
}

#[test]
fn the_floor_stops_the_shrinking_death_spiral() {
    let collapsed = estimate(1_000_000.0, 101_746.0);
    let floor = window_floor(Some(8_000.0));

    let unbounded = next_window(10, collapsed, 8, QUICK, NO_FLOOR);
    assert_eq!(
        unbounded, MIN_ROUND_CHUNK);

    let bounded = next_window(10, collapsed, 8, QUICK, floor);
    assert_eq!(bounded, floor);
    assert!(bounded > unbounded * 6);
}

#[test]
fn barren_windows_widen_the_next_one() {
    let mut c = cursor_of(0, 100_000, NEWEST, 10_000);
    let (start, end) = c.next_window(NEWEST, 100).unwrap();
    assert_eq!(end - start, 100);

    c.advance(
        NEWEST,
        &RoundPartition {
partition: 0,
            start,
            end,
            absorbed: 0,
            done: true,
        },
    );
    let (start, end) = c.next_window(NEWEST, 100).unwrap();
    assert_eq!(end - start, 200);

    c.advance(
        NEWEST,
        &RoundPartition {
partition: 0,
            start,
            end,
            absorbed: 7,
            done: true,
        },
    );
    assert_eq!(c.barren_rounds, 0);
    let (start, end) = c.next_window(NEWEST, 100).unwrap();
    assert_eq!(end - start, 100);
}

#[test]
fn frontier_tracks_the_deepest_point_reached_in_each_direction() {
    let mut c = cursor_of(0, 1000, NEWEST, 1000);
    for ts in [300, 100, 200] {
        c.observe(NEWEST, ts);
    }
    assert_eq!(c.frontier_ts, Some(100));

    let mut c = cursor_of(0, 1000, OLDEST, 1000);
    for ts in [100, 300, 200] {
        c.observe(OLDEST, ts);
    }
    assert_eq!(c.frontier_ts, Some(300));
}

fn store_of(rows: &[(i32, i64, i64, &str, &[u8])]) -> MessageStore {
    let mut store = MessageStore::new(1 << 20);
    for &(partition, offset, ts, key, value) in rows {
        assert!(store.push(partition, offset, ts, key.as_bytes(), value, &[]));
    }
    store.commit_all();
    store
}

fn text_rows(rows: &[(&str, &str)]) -> Vec<(i32, i64, i64, String, Vec<u8>)> {
    rows.iter()
        .enumerate()
        .map(|(i, (k, v))| (0, i as i64, i as i64, k.to_string(), v.as_bytes().to_vec()))
        .collect()
}

fn store_of_text(rows: &[(&str, &str)]) -> MessageStore {
    let owned = text_rows(rows);
    let refs: Vec<_> = owned
        .iter()
        .map(|(p, o, t, k, v)| (*p, *o, *t, k.as_str(), v.as_slice()))
        .collect();
    store_of(&refs)
}

fn filter_of(key: &str, value: &str) -> MessageFilter {
    MessageFilter {
        key: key.to_string(),
        value: value.to_string(),
        case_sensitive: false,
        search_decoded: false,
    }
}

fn view_of(
    store: &MessageStore,
    filter: &MessageFilter,
    decoder: Option<Decoder>,
) -> Vec<usize> {
    let prepared = PreparedFilter::new(filter, decoder.is_some());
    let mut texts: Vec<Option<String>> = vec![None; store.committed_len()];
    for row in undecided_rows(store, &prepared, 0) {
        texts[row] = decoder.and_then(|decode| decode(store.value(row)));
    }
    let mut view = Vec::new();
    grow_view(store, &prepared, &texts, None, 0, &mut view);
    view
}

#[test]
fn an_empty_filter_shows_everything() {
    let store = store_of_text(&[("k1", "v1"), ("k2", "v2")]);
    assert_eq!(view_of(&store, &filter_of("", ""), None), vec![0, 1]);
    let mut bare = filter_of("", "");
    bare.search_decoded = true;
    assert_eq!(view_of(&store, &bare, None), vec![0, 1]);
}

#[test]
fn key_and_value_needles_are_combined_with_and() {
    let store = store_of_text(&[
        ("order-1", "paid"),
        ("order-2", "shipped"),
        ("refund-1", "paid"),
    ]);
    assert_eq!(view_of(&store, &filter_of("order", ""), None), vec![0, 1]);
    assert_eq!(view_of(&store, &filter_of("", "paid"), None), vec![0, 2]);
    assert_eq!(view_of(&store, &filter_of("order", "paid"), None), vec![0]);
}

#[test]
fn cyrillic_filter_finds_rows_in_any_case() {
    let store = store_of_text(&[
        ("клиент-1", "Сбербанк"),
        ("КЛИЕНТ-2", "ГАЗПРОМ"),
        ("client-3", "Yandex"),
    ]);
    assert_eq!(view_of(&store, &filter_of("клиент", ""), None), vec![0, 1]);
    assert_eq!(view_of(&store, &filter_of("КЛИЕНТ", ""), None), vec![0, 1]);
    assert_eq!(view_of(&store, &filter_of("", "сбербанк"), None), vec![0]);
    assert_eq!(view_of(&store, &filter_of("", "газпром"), None), vec![1]);
}

#[test]
fn case_sensitive_filter_still_distinguishes_cyrillic() {
    let store = store_of_text(&[("k", "Сбербанк")]);
    let mut exact = filter_of("", "сбербанк");
    exact.case_sensitive = true;
    assert!(view_of(&store, &exact, None).is_empty());
    exact.value = "Сбербанк".to_string();
    assert_eq!(view_of(&store, &exact, None), vec![0]);
}

fn event_bytes(customer: &str, amount: i32) -> Vec<u8> {
    let mut out = vec![0x0a, customer.len() as u8];
    out.extend_from_slice(customer.as_bytes());
    out.extend_from_slice(&[0x10, amount as u8]);
    out
}

/// Reads `Event { string customer = 1; int32 amount = 2; }` off the wire.
fn event_text(raw: &[u8]) -> Option<String> {
    if raw.first() != Some(&0x0a) {
        return None;
    }
    let length = usize::from(*raw.get(1)?);
    let customer = std::str::from_utf8(raw.get(2..2 + length)?).ok()?;
    let amount = match raw.get(2 + length..)? {
        [0x10, amount] => amount,
        _ => return None,
    };
    Some(format!(r#"{{"customer": "{customer}", "amount": {amount}}}"#))
}

#[test]
fn string_field_content_is_found_without_decoding() {
    let store = store_of(&[
        (0, 0, 0, "a", &event_bytes("Сбербанк", 10)),
        (0, 1, 1, "b", &event_bytes("Тинькофф", 20)),
    ]);
    assert_eq!(view_of(&store, &filter_of("", "сбербанк"), None), vec![0]);
    assert_eq!(view_of(&store, &filter_of("", "ТИНЬКОФФ"), None), vec![1]);
}

#[test]
fn a_field_name_is_found_only_when_decoding_is_asked_for() {
    let store = store_of(&[
        (0, 0, 0, "a", &event_bytes("Сбербанк", 10)),
        (0, 1, 1, "b", &event_bytes("Тинькофф", 20)),
    ]);

    let plain = filter_of("", "customer");
    assert!(view_of(&store, &plain, Some(event_text)).is_empty());

    let mut decoded = plain.clone();
    decoded.search_decoded = true;
    assert_eq!(view_of(&store, &decoded, Some(event_text)), vec![0, 1]);

    let mut amount = filter_of("", "20");
    amount.search_decoded = true;
    assert_eq!(view_of(&store, &amount, Some(event_text)), vec![1]);

    assert!(view_of(&store, &decoded, None).is_empty());

}

#[test]
fn an_undecodable_body_falls_back_to_raw_bytes() {
    let store = store_of(&[
        (0, 0, 0, "a", &event_bytes("Сбербанк", 10)),
        (0, 1, 1, "b", b"plain text payload"),
    ]);

    let mut decoded = filter_of("", "payload");
    decoded.search_decoded = true;
    assert_eq!(view_of(&store, &decoded, Some(event_text)), vec![1]);

}

#[test]
fn growing_the_view_in_tranches_equals_one_full_rebuild() {
    let rows: Vec<(i32, i64, i64, String, Vec<u8>)> = vec![
        (0, 10, 100, "ключ-a".into(), b"alpha".to_vec()),
        (1, 11, 100, "ключ-b".into(), b"beta".to_vec()),
        (0, 12, 200, "ключ-a".into(), b"alpha".to_vec()),
        (2, 13, 100, "ключ-c".into(), b"gamma".to_vec()),
        (1, 14, 200, "ключ-b".into(), b"alpha".to_vec()),
        (0, 15, 300, "ключ-a".into(), b"beta".to_vec()),
        (2, 16, 200, "ключ-c".into(), b"alpha".to_vec()),
        (1, 17, 300, "ключ-b".into(), b"gamma".to_vec()),
        (0, 18, 100, "ключ-a".into(), b"alpha".to_vec()),
    ];
    let columns = [
        None,
        Some(SortColumn::Partition),
        Some(SortColumn::Offset),
        Some(SortColumn::Timestamp),
        Some(SortColumn::Key),
    ];
    let directions = [SortDirection::Asc, SortDirection::Desc];

    for filter in [
        filter_of("", ""),
        filter_of("", "alpha"),
        filter_of("КЛЮЧ-A", ""),
    ] {
        for column in columns {
            for direction in directions {
                let sort = column.map(|column| SortSpec { column, direction });
                let prepared = PreparedFilter::new(&filter, false);

                let mut store = MessageStore::new(1 << 20);
                let mut incremental = Vec::new();
                let mut scanned = 0usize;
                for chunk in rows.chunks(3) {
                    for (p, o, ts, k, v) in chunk {
                        assert!(store.push(*p, *o, *ts, k.as_bytes(), v, &[]));
                    }
                    store.commit_all();
                    let texts = vec![None; store.committed_len() - scanned];
                    scanned =
                        grow_view(&store, &prepared, &texts, sort, scanned, &mut incremental);
                }
                assert_eq!(scanned, rows.len());

                let mut full = Vec::new();
                let texts = vec![None; store.committed_len()];
                grow_view(&store, &prepared, &texts, sort, 0, &mut full);

                assert_eq!(
                    incremental, full);
            }
        }
    }
}
