//! Integration tests for the traffic accounting library: the event store
//! with its aggregation queries, the delta recorder logic, and the calendar
//! bucketing keys.

use ambr::calendar;
use ambr::db::{
    init_db, recent_by_interface, recent_by_interface_at, recent_totals, recent_totals_at,
    save_delta, usage_by_day, usage_by_hour, usage_by_month, usage_by_week, EventStore,
};
use ambr::recorder::{compute_deltas, Snapshot};

const MIB: f64 = 1024.0 * 1024.0;

fn unix_now() -> u64 {
    match std::time::SystemTime::now().duration_since(std::time::UNIX_EPOCH) {
        Ok(d) => d.as_secs(),
        Err(_) => 0,
    }
}

fn test_store() -> EventStore {
    let mut store = EventStore::new();
    init_db(&mut store);
    store
}

#[test]
fn test_init_db() {
    let mut store = test_store();
    save_delta(&mut store, "eth0", 1000, 2000);
    let (rx, tx, total) = recent_totals(&store, 60);
    let (rx, tx, total) = (rx as f64 / MIB, tx as f64 / MIB, total as f64 / MIB);
    assert!(rx > 0.0 && tx > 0.0 && total > 0.0);
}

#[test]
fn test_save_delta_and_recent_totals() {
    let mut store = test_store();
    save_delta(&mut store, "lo", 1024, 2048);
    save_delta(&mut store, "lo", 512, 256);

    let (rx, tx, total) = recent_totals(&store, 60);
    let (rx, tx, total) = (rx as f64 / MIB, tx as f64 / MIB, total as f64 / MIB);
    let expected_rx = (1024 + 512) as f64 / MIB;
    let expected_tx = (2048 + 256) as f64 / MIB;
    assert!((rx - expected_rx).abs() < 1e-6);
    assert!((tx - expected_tx).abs() < 1e-6);
    assert!((total - (expected_rx + expected_tx)).abs() < 1e-6);
}

#[test]
fn test_recent_by_interface() {
    let mut store = test_store();
    save_delta(&mut store, "eth0", 1000, 500);
    save_delta(&mut store, "wlan0", 2000, 1000);

    let rows = recent_by_interface(&store, 60);
    assert_eq!(rows.len(), 2);
    let names: Vec<&str> = rows.iter().map(|r| r.interface.as_str()).collect();
    assert!(names.contains(&"eth0"));
    assert!(names.contains(&"wlan0"));
    assert_eq!(rows[0].interface, "wlan0");
    assert_eq!(rows[1].interface, "eth0");
}

#[test]
fn test_usage_by_day() {
    let mut store = test_store();
    save_delta(&mut store, "eth0", 100_000, 50_000);
    let rows = usage_by_day(&store, 10);
    assert!(!rows.is_empty());
    let (rx, tx, total) = (
        rows[0].rx_bytes as f64 / MIB,
        rows[0].tx_bytes as f64 / MIB,
        rows[0].total_bytes as f64 / MIB,
    );
    assert!((total - (rx + tx)).abs() < 1e-6);
}

#[test]
fn test_usage_by_hour() {
    let mut store = test_store();
    save_delta(&mut store, "eth0", 2000, 1000);
    let rows = usage_by_hour(&store, 24);
    assert!(!rows.is_empty());
}

#[test]
fn test_usage_by_month() {
    let mut store = test_store();
    save_delta(&mut store, "eth0", 5000, 3000);
    let rows = usage_by_month(&store, 12);
    assert!(!rows.is_empty());
}

#[test]
fn test_usage_by_week() {
    let mut store = test_store();
    save_delta(&mut store, "eth0", 4000, 2000);
    let rows = usage_by_week(&store, 8);
    assert!(!rows.is_empty());
}

#[test]
fn test_single_event_single_day_row() {
    let mut store = test_store();
    save_delta(&mut store, "eth0", 100_000, 50_000);
    let rows = usage_by_day(&store, 10);
    assert_eq!(rows.len(), 1);
    assert_eq!(rows[0].rx_bytes, 100_000);
    assert_eq!(rows[0].tx_bytes, 50_000);
    assert_eq!(rows[0].total_bytes, 150_000);
}

#[test]
fn test_init_db_is_idempotent() {
    let mut store = test_store();
    save_delta(&mut store, "eth0", 123, 456);
    init_db(&mut store);
    init_db(&mut store);
    let (rx, tx, total) = recent_totals(&store, 60);
    assert_eq!(rx, 123);
    assert_eq!(tx, 456);
    assert_eq!(total, 579);
}

#[test]
fn test_recent_totals_empty_window() {
    let store = test_store();
    let (rx, tx, total) = recent_totals(&store, 60);
    assert_eq!((rx, tx, total), (0, 0, 0));
}

#[test]
fn test_recent_by_interface_empty_window() {
    let store = test_store();
    let rows = recent_by_interface(&store, 60);
    assert!(rows.is_empty());
}

#[test]
fn test_window_excludes_old_events() {
    let mut store = test_store();
    save_delta(&mut store, "eth0", 4096, 2048);
    let now = unix_now();
    // A one-minute window ending two hours from now holds no events.
    let (rx, tx, total) = recent_totals_at(&store, 1, now + 7200);
    assert_eq!((rx, tx, total), (0, 0, 0));
    let rows = recent_by_interface_at(&store, 1, now + 7200);
    assert!(rows.is_empty());
    // A one-hour window ending now holds the event just appended.
    let (rx, tx, _) = recent_totals_at(&store, 60, now);
    assert_eq!((rx, tx), (4096, 2048));
}

#[test]
fn test_recent_by_interface_exact_sums() {
    let mut store = test_store();
    save_delta(&mut store, "eth0", 1000, 500);
    save_delta(&mut store, "wlan0", 2000, 1000);
    save_delta(&mut store, "eth0", 10, 20);
    let rows = recent_by_interface(&store, 60);
    assert_eq!(rows.len(), 2);
    assert_eq!(rows[0].interface, "wlan0");
    assert_eq!(rows[0].rx_bytes, 2000);
    assert_eq!(rows[0].tx_bytes, 1000);
    assert_eq!(rows[0].total_bytes, 3000);
    assert_eq!(rows[1].interface, "eth0");
    assert_eq!(rows[1].rx_bytes, 1010);
    assert_eq!(rows[1].tx_bytes, 520);
    assert_eq!(rows[1].total_bytes, 1530);
}

#[test]
fn test_usage_limit_zero_rows() {
    let mut store = test_store();
    save_delta(&mut store, "eth0", 77, 88);
    assert!(usage_by_day(&store, 0).is_empty());
    assert!(usage_by_hour(&store, 0).is_empty());
    assert!(usage_by_week(&store, 0).is_empty());
    assert!(usage_by_month(&store, 0).is_empty());
}

#[test]
fn test_first_sample_never_produces_delta() {
    let prev = Snapshot::new();
    let mut current = Snapshot::new();
    assert!(current.insert_sample("eth0".to_string(), 123_456, 654_321));
    let deltas = compute_deltas(&prev, &current);
    assert!(deltas.is_empty());
}

#[test]
fn test_delta_of_two_snapshots() {
    let mut prev = Snapshot::new();
    assert!(prev.insert_sample("eth0".to_string(), 1000, 500));
    let mut current = Snapshot::new();
    assert!(current.insert_sample("eth0".to_string(), 1500, 800));
    let deltas = compute_deltas(&prev, &current);
    assert_eq!(deltas.len(), 1);
    assert_eq!(deltas[0].interface, "eth0");
    assert_eq!(deltas[0].rx_delta, 500);
    assert_eq!(deltas[0].tx_delta, 300);
}

#[test]
fn test_counter_reset_yields_zero_delta() {
    let mut prev = Snapshot::new();
    assert!(prev.insert_sample("eth0".to_string(), 5_000_000, 3_000_000));
    let mut current = Snapshot::new();
    assert!(current.insert_sample("eth0".to_string(), 100, 50));
    let deltas = compute_deltas(&prev, &current);
    assert_eq!(deltas.len(), 1);
    assert_eq!(deltas[0].rx_delta, 0);
    assert_eq!(deltas[0].tx_delta, 0);
}

#[test]
fn test_disappeared_interface_yields_no_delta() {
    let mut prev = Snapshot::new();
    assert!(prev.insert_sample("eth0".to_string(), 1000, 1000));
    assert!(prev.insert_sample("wlan0".to_string(), 2000, 2000));
    let mut current = Snapshot::new();
    assert!(current.insert_sample("eth0".to_string(), 1100, 1200));
    let deltas = compute_deltas(&prev, &current);
    assert_eq!(deltas.len(), 1);
    assert_eq!(deltas[0].interface, "eth0");
    assert_eq!(deltas[0].rx_delta, 100);
    assert_eq!(deltas[0].tx_delta, 200);
}

#[test]
fn test_snapshot_rejects_duplicate_interface() {
    let mut snap = Snapshot::new();
    assert!(snap.insert_sample("eth0".to_string(), 1, 2));
    assert!(!snap.insert_sample("eth0".to_string(), 3, 4));
    let mut prev = Snapshot::new();
    assert!(prev.insert_sample("eth0".to_string(), 0, 0));
    let deltas = compute_deltas(&prev, &snap);
    assert_eq!(deltas.len(), 1);
    assert_eq!(deltas[0].rx_delta, 1);
    assert_eq!(deltas[0].tx_delta, 2);
}

#[test]
fn test_calendar_keys() {
    // 1970-01-01 00:00:00 UTC.
    assert_eq!(calendar::hour_key(0), 0);
    assert_eq!(calendar::day_key(0), 0);
    assert_eq!(calendar::month_key(0), 197001);
    // 1970-01-01 was a Thursday, before the year's first Monday: week 0.
    assert_eq!(calendar::week_key(0), 197000);
    // Hour boundaries.
    assert_eq!(calendar::hour_key(3599), 0);
    assert_eq!(calendar::hour_key(3600), 1);
    // 2024-02-29 12:00:00 UTC, a leap day.
    let leap = 19782 * 86400 + 12 * 3600;
    assert_eq!(calendar::day_key(leap), 19782);
    assert_eq!(calendar::month_key(leap), 202402);
    // 2024-03-01 00:00:00 UTC.
    assert_eq!(calendar::month_key(19783 * 86400), 202403);
    // 2023-12-31 23:59:59 to 2024-01-01: year rolls over.
    assert_eq!(calendar::month_key(19723 * 86400 - 1), 202312);
    assert_eq!(calendar::month_key(19723 * 86400), 202401);
}

#[test]
fn test_week_key_monday_boundary() {
    // 2024-01-01 was a Monday: week 1 of 2024 starts immediately.
    assert_eq!(calendar::week_key(19723 * 86400), 202401);
    // 2023-01-01 was a Sunday: it falls in week 0 of 2023.
    assert_eq!(calendar::week_key(19358 * 86400), 202300);
    // 2023-01-02, the first Monday of 2023, opens week 1.
    assert_eq!(calendar::week_key(19359 * 86400), 202301);
}
