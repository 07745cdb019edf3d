use activity_transform::models::{AfkStatus, AwAfkEvent, AwWindowEvent};
use activity_transform::transform::{
    extract_not_afk_periods, filter_period_intersect, flood_afk, flood_window,
    preprocess_active_window_events, TimePeriod, DEFAULT_PULSETIME_MS,
};
use chrono::{DateTime, Utc};

/// Base instant for the tests: 2026-01-01T10:00:00Z.
fn base_dt() -> DateTime<Utc> {
    "2026-01-01T10:00:00Z".parse().unwrap()
}

/// An instant in nanoseconds since the epoch.
fn nanos(t: DateTime<Utc>) -> i128 {
    t.timestamp() as i128 * 1_000_000_000 + t.timestamp_subsec_nanos() as i128
}

/// The base instant in nanoseconds since the epoch.
fn base_ts() -> i128 {
    nanos(base_dt())
}

/// The base instant plus `secs` seconds, in nanoseconds since the epoch.
fn at(secs: i64) -> i128 {
    nanos(base_dt() + chrono::Duration::seconds(secs))
}

/// Seconds to nanoseconds.
fn ns(secs: f64) -> i128 {
    (secs * 1_000_000_000.0).round() as i128
}

/// Nanoseconds to seconds.
fn secs(ns: i128) -> f64 {
    ns as f64 / 1_000_000_000.0
}

fn win(ts_secs: i64, dur: f64, app: &str, title: &str) -> AwWindowEvent {
    AwWindowEvent {
        timestamp: at(ts_secs),
        duration_ns: ns(dur),
        app: app.to_string(),
        title: title.to_string(),
    }
}

fn afk(ts_secs: i64, dur: f64, status: AfkStatus) -> AwAfkEvent {
    AwAfkEvent { timestamp: at(ts_secs), duration_ns: ns(dur), status }
}

// ==================== flood_window ====================

#[test]
fn flood_window_empty_input() {
    let result = flood_window(vec![], 5000);
    assert!(result.is_empty());
}

#[test]
fn flood_window_single_event() {
    let events = vec![win(0, 1.0, "Code", "main.rs")];
    let result = flood_window(events, 5000);
    assert_eq!(result.len(), 1);
    assert_eq!(secs(result[0].duration_ns), 1.0);
}

#[test]
fn flood_window_same_data_small_gap() {
    let events = vec![win(0, 1.0, "Code", "main.rs"), win(3, 1.0, "Code", "main.rs")];
    let result = flood_window(events, 5000);
    assert_eq!(result.len(), 1);
    assert!((secs(result[0].duration_ns) - 4.0).abs() < 0.01);
}

#[test]
fn flood_window_same_data_chain() {
    let events = vec![
        win(0, 1.0, "Code", "main.rs"),
        win(2, 1.0, "Code", "main.rs"),
        win(4, 1.0, "Code", "main.rs"),
        win(6, 1.0, "Code", "main.rs"),
        win(8, 1.0, "Code", "main.rs"),
    ];
    let result = flood_window(events, 5000);
    assert_eq!(result.len(), 1);
    assert!((secs(result[0].duration_ns) - 9.0).abs() < 0.01);
}

#[test]
fn flood_window_same_data_adjacent() {
    let events = vec![win(0, 2.0, "Code", "main.rs"), win(2, 3.0, "Code", "main.rs")];
    let result = flood_window(events, 5000);
    assert_eq!(result.len(), 1);
    assert!((secs(result[0].duration_ns) - 5.0).abs() < 0.01);
}

#[test]
fn flood_window_different_data_small_gap() {
    let events = vec![win(0, 1.0, "Code", "main.rs"), win(3, 1.0, "Firefox", "google.com")];
    let result = flood_window(events, 5000);
    assert_eq!(result.len(), 2);
    assert!((secs(result[0].duration_ns) - 2.0).abs() < 0.01);
    assert!((secs(result[1].duration_ns) - 2.0).abs() < 0.01);
}

#[test]
fn flood_window_different_data_large_gap() {
    let events = vec![win(0, 1.0, "Code", "main.rs"), win(10, 1.0, "Firefox", "google.com")];
    let result = flood_window(events, 5000);
    assert_eq!(result.len(), 2);
    assert!((secs(result[0].duration_ns) - 1.0).abs() < 0.01);
    assert!((secs(result[1].duration_ns) - 1.0).abs() < 0.01);
}

#[test]
fn flood_window_mixed_aab() {
    let events = vec![
        win(0, 1.0, "Code", "main.rs"),
        win(2, 1.0, "Code", "main.rs"),
        win(5, 1.0, "Firefox", "google.com"),
    ];
    let result = flood_window(events, 5000);
    assert_eq!(result.len(), 2);
    assert!((secs(result[0].duration_ns) - 4.0).abs() < 0.01);
    assert!((secs(result[1].duration_ns) - 2.0).abs() < 0.01);
}

#[test]
fn flood_window_negative_gap_same_data() {
    let events = vec![win(0, 3.0, "Code", "main.rs"), win(2, 3.0, "Code", "main.rs")];
    let result = flood_window(events, 5000);
    assert_eq!(result.len(), 1);
    assert!((secs(result[0].duration_ns) - 5.0).abs() < 0.01);
}

#[test]
fn flood_window_negative_gap_different_data() {
    let events = vec![win(0, 3.0, "Code", "main.rs"), win(2, 3.0, "Firefox", "google.com")];
    let result = flood_window(events, 5000);
    assert_eq!(result.len(), 2);
    assert!((secs(result[0].duration_ns) - 3.0).abs() < 0.01);
    assert!((secs(result[1].duration_ns) - 3.0).abs() < 0.01);
}

#[test]
fn flood_window_zero_duration_events() {
    let events = vec![win(0, 0.0, "Code", "main.rs"), win(1, 0.0, "Code", "main.rs")];
    let result = flood_window(events, 5000);
    assert!(!result.is_empty());
}

// ==================== flood_afk ====================

#[test]
fn flood_afk_merge_same_status() {
    let events = vec![afk(0, 10.0, AfkStatus::NotAfk), afk(12, 10.0, AfkStatus::NotAfk)];
    let result = flood_afk(events, 5000);
    assert_eq!(result.len(), 1);
    assert!((secs(result[0].duration_ns) - 22.0).abs() < 0.01);
}

#[test]
fn flood_afk_different_status() {
    let events = vec![afk(0, 10.0, AfkStatus::NotAfk), afk(12, 10.0, AfkStatus::Afk)];
    let result = flood_afk(events, 5000);
    assert_eq!(result.len(), 2);
    assert!((secs(result[0].duration_ns) - 11.0).abs() < 0.01);
    assert!((secs(result[1].duration_ns) - 11.0).abs() < 0.01);
}

// ==================== extract_not_afk_periods ====================

#[test]
fn extract_not_afk_all_not_afk() {
    let events = vec![afk(0, 10.0, AfkStatus::NotAfk), afk(10, 20.0, AfkStatus::NotAfk)];
    let periods = extract_not_afk_periods(&events);
    assert_eq!(periods.len(), 2);
}

#[test]
fn extract_not_afk_all_afk() {
    let events = vec![afk(0, 10.0, AfkStatus::Afk), afk(10, 20.0, AfkStatus::Afk)];
    let periods = extract_not_afk_periods(&events);
    assert!(periods.is_empty());
}

#[test]
fn extract_not_afk_mixed() {
    let events = vec![
        afk(0, 10.0, AfkStatus::NotAfk),
        afk(10, 20.0, AfkStatus::Afk),
        afk(30, 10.0, AfkStatus::NotAfk),
    ];
    let periods = extract_not_afk_periods(&events);
    assert_eq!(periods.len(), 2);
    assert_eq!(periods[0].start, base_ts());
    assert_eq!(periods[0].end, at(10));
    assert_eq!(periods[1].start, at(30));
    assert_eq!(periods[1].end, at(40));
}

// ==================== filter_period_intersect ====================

#[test]
fn filter_intersect_empty_events() {
    let periods = vec![TimePeriod { start: base_ts(), end: at(10) }];
    let result = filter_period_intersect(&[], &periods);
    assert!(result.is_empty());
}

#[test]
fn filter_intersect_empty_periods() {
    let events = vec![win(0, 5.0, "Code", "main.rs")];
    let result = filter_period_intersect(&events, &[]);
    assert!(result.is_empty());
}

#[test]
fn filter_intersect_full_overlap() {
    let events = vec![win(2, 3.0, "Code", "main.rs")];
    let periods = vec![TimePeriod { start: base_ts(), end: at(10) }];
    let result = filter_period_intersect(&events, &periods);
    assert_eq!(result.len(), 1);
    assert!((secs(result[0].duration_ns) - 3.0).abs() < 0.01);
}

#[test]
fn filter_intersect_partial_overlap_start() {
    let events = vec![win(0, 10.0, "Code", "main.rs")];
    let periods = vec![TimePeriod { start: at(5), end: at(15) }];
    let result = filter_period_intersect(&events, &periods);
    assert_eq!(result.len(), 1);
    assert!((secs(result[0].duration_ns) - 5.0).abs() < 0.01);
    assert_eq!(result[0].timestamp, at(5));
}

#[test]
fn filter_intersect_partial_overlap_end() {
    let events = vec![win(5, 10.0, "Code", "main.rs")];
    let periods = vec![TimePeriod { start: base_ts(), end: at(10) }];
    let result = filter_period_intersect(&events, &periods);
    assert_eq!(result.len(), 1);
    assert!((secs(result[0].duration_ns) - 5.0).abs() < 0.01);
}

#[test]
fn filter_intersect_event_split_two_periods() {
    let events = vec![win(0, 30.0, "Code", "main.rs")];
    let periods = vec![
        TimePeriod { start: base_ts(), end: at(10) },
        TimePeriod { start: at(20), end: at(30) },
    ];
    let result = filter_period_intersect(&events, &periods);
    assert_eq!(result.len(), 2);
    assert!((secs(result[0].duration_ns) - 10.0).abs() < 0.01);
    assert!((secs(result[1].duration_ns) - 10.0).abs() < 0.01);
}

#[test]
fn filter_intersect_no_overlap() {
    let events = vec![win(0, 5.0, "Code", "main.rs")];
    let periods = vec![TimePeriod { start: at(10), end: at(20) }];
    let result = filter_period_intersect(&events, &periods);
    assert!(result.is_empty());
}

#[test]
fn filter_intersect_multiple_events_one_period() {
    let events = vec![
        win(0, 5.0, "Code", "main.rs"),
        win(8, 5.0, "Code", "main.rs"),
        win(15, 3.0, "Firefox", "google.com"),
        win(25, 5.0, "Code", "main.rs"),
    ];
    let periods = vec![TimePeriod { start: at(10), end: at(20) }];
    let result = filter_period_intersect(&events, &periods);
    assert_eq!(result.len(), 2);
    assert!((secs(result[0].duration_ns) - 3.0).abs() < 0.01);
    assert_eq!(result[0].timestamp, at(10));
    assert!((secs(result[1].duration_ns) - 3.0).abs() < 0.01);
}

#[test]
fn filter_intersect_zero_duration_event() {
    let events = vec![win(5, 0.0, "Code", "main.rs")];
    let periods = vec![TimePeriod { start: base_ts(), end: at(10) }];
    let result = filter_period_intersect(&events, &periods);
    assert!(result.is_empty());
}

// ==================== the whole pipeline ====================

#[test]
fn realistic_scenario() {
    let mut window_events = Vec::new();
    for i in 0..600 {
        let ts = i * 2;
        window_events.push(win(ts as i64, 1.0, "Code", "main.rs"));
    }

    let afk_events = vec![
        afk(0, 300.0, AfkStatus::NotAfk),
        afk(300, 300.0, AfkStatus::Afk),
        afk(600, 600.0, AfkStatus::NotAfk),
    ];

    let (active, flooded_win, flooded_afk_result) =
        preprocess_active_window_events(window_events, afk_events, DEFAULT_PULSETIME_MS);

    assert_eq!(flooded_win.len(), 1);
    assert!((secs(flooded_win[0].duration_ns) - 1199.0).abs() < 1.0);

    assert_eq!(flooded_afk_result.len(), 3);

    assert_eq!(active.len(), 2);

    let active_total: f64 = active.iter().map(|e| secs(e.duration_ns)).sum();
    assert!((active_total - 899.0).abs() < 1.0);
}
