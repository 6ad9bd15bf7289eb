//! Measuring what a cluster gives.

use mikui::kafka::quota::{BrokerStats, Measurement, PartitionStats, QuotaMeter, TransferSample};

const SECOND: u64 = 1_000_000_000;
const START: u64 = 1_000 * SECOND;

#[derive(Debug)]
struct Estimate {
    bytes_per_sec: f64,
    bytes_per_offset: f64,
    peak_throttle_ms: u64,
    brokers: usize,
    known_brokers: usize,
}

/// The speed and the price of an offset that a measurement comes to.
fn estimate(meter: &QuotaMeter) -> Option<Estimate> {
    meter.measurement().map(|m: Measurement| Estimate {
        bytes_per_sec: m.rx_bytes as f64 / (m.span_nanos as f64 / SECOND as f64),
        bytes_per_offset: m.rx_bytes as f64 / m.offsets as f64,
        peak_throttle_ms: m.peak_throttle_ms,
        brokers: m.brokers,
        known_brokers: m.known_brokers,
    })
}

fn run(ticks: &[(u64, i64)]) -> QuotaMeter {
    let mut meter = QuotaMeter::new();
    meter.set_reading(true);
    let start = START;
    let mut rx_total = 0;
    meter.tick(&[(0, rx_total)], (0, 0), 0, start);
    for (i, &(bytes, offsets)) in ticks.iter().enumerate() {
        rx_total += bytes;
        meter.record_offsets(offsets);
        meter.tick(
            &[(0, rx_total)],
            (0, 0),
            0,
            start + (i as u64 + 1) * SECOND,
        );
    }
    meter
}

#[test]
fn no_estimate_until_there_is_enough_to_measure() {
    assert!(estimate(&QuotaMeter::new()).is_none());
    assert!(estimate(&run(&[(100_000, 10), (100_000, 10)])).is_none());
    assert!(estimate(&run(&[(100_000, 10); 4])).is_some());
}

#[test]
fn measures_steady_throughput_and_the_price_of_an_offset() {
    let est = estimate(&run(&[(200_000, 20); 10])).unwrap();
    assert!((est.bytes_per_sec - 200_000.0).abs() < 1.0);
    assert!((est.bytes_per_offset - 10_000.0).abs() < 1.0);
}

#[test]
fn burst_followed_by_a_stall_averages_out_to_the_quota() {
    let mut ticks = vec![(2_000_000, 200); 2];
    ticks.extend(vec![(0, 0); 18]);
    let est = estimate(&run(&ticks)).unwrap();

    assert!(
        est.bytes_per_sec > 150_000.0 && est.bytes_per_sec < 250_000.0);
}

#[test]
fn old_measurements_leave_the_window() {
    let mut ticks = vec![(10_000_000, 1000); 3];
    ticks.extend(vec![(100_000, 10); 40]);
    let est = estimate(&run(&ticks)).unwrap();
    assert!((est.bytes_per_sec - 100_000.0).abs() < 5_000.0);
}

#[test]
fn idle_time_does_not_count_as_slowness() {
    let mut meter = QuotaMeter::new();
    let start = START;
    meter.set_reading(true);
    meter.tick(&[(0, 0)], (0, 0), 0, start);
    for i in 1..=6 {
        meter.record_offsets(20);
        meter.tick(
            &[(0, 200_000 * i)],
            (0, 0),
            0,
            start + i * SECOND,
        );
    }
    let before = estimate(&meter).unwrap();

    meter.set_reading(false);
    meter.tick(
        &[(0, 1_200_000)],
        (0, 0),
        0,
        start + 1800 * SECOND,
    );

    let after = estimate(&meter).unwrap();
    assert_eq!(
        before.bytes_per_sec.round(),
        after.bytes_per_sec.round());
}

#[test]
fn remembers_the_worst_throttling_seen() {
    let mut meter = QuotaMeter::new();
    let start = START;
    meter.set_reading(true);
    meter.tick(&[(0, 0)], (0, 0), 0, start);
    for i in 1..=4 {
        meter.record_offsets(10);
        meter.tick(
            &[(0, 100_000 * i)],
            (0, 0),
            if i == 2 { 9_000 } else { 120 },
            start + i * SECOND,
        );
    }
    assert_eq!(estimate(&meter).unwrap().peak_throttle_ms, 9_000);
}

#[test]
fn counts_the_brokers_the_bytes_came_from() {
    let mut meter = QuotaMeter::new();
    let start = START;
    meter.set_reading(true);

    let snapshot = |second: u64| -> Vec<(i32, u64)> {
        let mut brokers: Vec<(i32, u64)> = (0..5).map(|id| (id, 200_000 * second)).collect();
        brokers.push((5, 0));
        brokers
    };

    meter.tick(&snapshot(0), (0, 0), 0, start);
    for second in 1..=5 {
        meter.record_offsets(100);
        meter.tick(
            &snapshot(second),
            (0, 0),
            0,
            start + second * SECOND,
        );
    }

    let est = estimate(&meter).unwrap();
    assert_eq!(est.brokers, 5);
    assert_eq!(est.known_brokers, 6);
    assert!((est.bytes_per_sec - 1_000_000.0).abs() < 1.0);
}

#[test]
fn reset_forgets_the_previous_cluster() {
    let mut meter = run(&[(200_000, 20); 10]);
    assert!(estimate(&meter).is_some());
    meter.reset();
    assert!(estimate(&meter).is_none());
}

fn transfer(ticks: u64, wire: u64, msgs: u64, bytes: u64) -> QuotaMeter {
    let mut meter = QuotaMeter::new();
    let start = START;
    meter.set_reading(true);
    meter.mark();

    let (mut rx, mut m, mut b) = (0u64, 0u64, 0u64);
    meter.tick(&[(0, rx)], (m, b), 0, start);
    for second in 1..=ticks {
        rx += wire;
        m += msgs;
        b += bytes;
        meter.tick(
            &[(0, rx)],
            (m, b),
            0,
            start + second * SECOND,
        );
    }
    meter
}

#[test]
fn measures_what_a_message_costs_on_the_wire() {
    let sample = transfer(10, 100_000, 500, 400_000)
        .transfer()
        .unwrap();

    assert_eq!(sample.wire_bytes, 1_000_000);
    assert_eq!(sample.messages, 5_000);
    assert_eq!(sample.message_bytes, 4_000_000);
    assert_eq!(sample.wire_bytes / sample.messages, 200);
}

#[test]
fn a_sample_too_small_to_trust_is_not_offered() {
    assert!(QuotaMeter::new().transfer().is_none());
    assert!(transfer(4, 200_000, 10, 100_000).transfer().is_none());
    assert!(transfer(4, 1_000, 500, 4_000).transfer().is_none());
}

#[test]
fn marking_starts_the_transfer_sample_over() {
    let mut meter = transfer(10, 100_000, 500, 400_000);
    assert!(meter.transfer().is_some());
    meter.mark();
    assert!(meter.transfer().is_none());
}

#[test]
fn a_counter_that_went_away_does_not_corrupt_the_sample() {
    let mut meter = transfer(10, 100_000, 500, 400_000);
    let before = meter.transfer().unwrap();

    let now = START;
    meter.tick(&[(0, 1_000_000)], (0, 0), 0, now);

    let after = meter.transfer().unwrap();
    assert_eq!(after.messages, before.messages);
    assert_eq!(after.message_bytes, before.message_bytes);
}

#[test]
fn a_measurement_is_exact() {
    let meter = run(&[(200_000, 20); 10]);
    assert_eq!(
        meter.measurement(),
        Some(Measurement {
            rx_bytes: 2_000_000,
            span_nanos: 10 * u128::from(SECOND),
            offsets: 200,
            peak_throttle_ms: 0,
            brokers: 1,
            known_brokers: 1,
        })
    );
}

#[test]
fn statistics_count_identified_brokers_and_all_partitions() {
    let mut meter = QuotaMeter::default();
    meter.set_reading(true);
    meter.mark();
    let brokers = |second: u64| {
        [
            BrokerStats { node_id: 1, rx_bytes: 100_000 * second, throttle_max: Some(7) },
            BrokerStats { node_id: -1, rx_bytes: 999, throttle_max: Some(5_000) },
            BrokerStats { node_id: 2, rx_bytes: 100_000 * second, throttle_max: None },
        ]
    };
    let partitions = |second: u64| {
        [
            PartitionStats { rx_msgs: 30 * second, rx_bytes: 900 * second },
            PartitionStats { rx_msgs: 20 * second, rx_bytes: 100 * second },
        ]
    };
    for second in 0..=6 {
        meter.record_offsets(10);
        meter.observe(&brokers(second), &partitions(second), START + second * SECOND);
    }
    let m = meter.measurement().unwrap();
    assert_eq!(m.rx_bytes, 1_200_000);
    assert_eq!(m.brokers, 2);
    assert_eq!(m.known_brokers, 2);
    assert_eq!(
        meter.transfer(),
        Some(TransferSample { wire_bytes: 1_200_000, messages: 300, message_bytes: 6_000 })
    );
}

#[test]
fn the_worst_delay_outlives_the_window() {
    let mut meter = QuotaMeter::new();
    meter.set_reading(true);
    meter.tick(&[(0, 0)], (0, 0), 9_000, START);
    for i in 1..=60u64 {
        meter.record_offsets(10);
        meter.tick(&[(0, 100_000 * i)], (0, 0), 0, START + i * SECOND);
    }
    let m = meter.measurement().unwrap();
    assert_eq!(m.peak_throttle_ms, 9_000);
    assert_eq!(m.span_nanos, 20 * u128::from(SECOND));
}

#[test]
fn marking_keeps_the_measured_speed() {
    let mut meter = run(&[(200_000, 20); 10]);
    let before = meter.measurement();
    meter.mark();
    assert_eq!(meter.measurement(), before);
}

#[test]
fn a_snapshot_that_cannot_be_counted_is_noticed() {
    let broker = |rx_bytes| BrokerStats { node_id: 1, rx_bytes, throttle_max: None };
    let part = |rx_msgs, rx_bytes| PartitionStats { rx_msgs, rx_bytes };
    let mut meter = QuotaMeter::new();
    assert!(meter.can_observe(&[broker(u64::MAX)], &[part(u64::MAX, 0)], START));
    assert!(!meter.can_observe(&[broker(u64::MAX), broker(1)], &[], START));
    assert!(!meter.can_observe(&[], &[part(u64::MAX, 0), part(1, 0)], START));
    assert!(!meter.can_observe(&[], &[part(0, u64::MAX), part(0, 1)], START));

    meter.set_reading(true);
    meter.observe(&[broker(0)], &[part(0, 0)], START);
    meter.observe(&[broker(u64::MAX)], &[part(5, 5)], START + SECOND);
    meter.observe(&[broker(0)], &[part(0, 0)], START + 2 * SECOND);
    assert!(meter.can_observe(&[broker(0)], &[part(5, 5)], START + 3 * SECOND));
    assert!(!meter.can_observe(&[broker(1)], &[part(5, 5)], START + 3 * SECOND));
}

#[test]
fn offsets_that_cannot_be_counted_are_noticed() {
    let mut meter = QuotaMeter::new();
    assert!(meter.can_record(i64::MAX));
    meter.record_offsets(i64::MAX);
    assert!(meter.can_record(0));
    assert!(!meter.can_record(1));
    assert!(meter.can_record(i64::MIN));
}

#[test]
fn the_sample_grows_without_a_read_and_not_by_the_first_snapshot() {
    let mut meter = QuotaMeter::new();
    meter.tick(&[(0, 900_000)], (9_000, 9_000), 0, START);
    assert_eq!(meter.transfer(), None);
    meter.tick(&[(0, 1_500_000)], (9_300, 9_900), 0, START + SECOND);
    let sample = TransferSample { wire_bytes: 600_000, messages: 300, message_bytes: 900 };
    assert_eq!(meter.transfer(), Some(sample));
    meter.tick(&[(0, 0)], (0, 0), 0, START + 2 * SECOND);
    assert_eq!(meter.transfer(), Some(sample));
}
