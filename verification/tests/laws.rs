use activity_transform::models::{AfkStatus, AwAfkEvent, AwWindowEvent};
use activity_transform::spans::TIME_LIMIT_NS;
use activity_transform::transform::{
    extract_not_afk_periods, filter_period_intersect, flood_afk, flood_window,
    preprocess_active_window_events, TimePeriod, DEFAULT_PULSETIME_MS,
};

/// A window event from `start_ms` to `end_ms` (milliseconds).
fn w(start_ms: i64, end_ms: i64, app: &str, title: &str) -> AwWindowEvent {
    AwWindowEvent {
        timestamp: start_ms as i128 * 1_000_000,
        duration_ns: (end_ms - start_ms) as i128 * 1_000_000,
        app: app.to_string(),
        title: title.to_string(),
    }
}

/// An AFK event from `start_ms` to `end_ms` (milliseconds).
fn a(start_ms: i64, end_ms: i64, status: AfkStatus) -> AwAfkEvent {
    AwAfkEvent {
        timestamp: start_ms as i128 * 1_000_000,
        duration_ns: (end_ms - start_ms) as i128 * 1_000_000,
        status,
    }
}

fn span(e: &AwWindowEvent) -> (i128, i128, String, String) {
    (e.timestamp, e.end_time(), e.app.clone(), e.title.clone())
}

fn spans(v: &[AwWindowEvent]) -> Vec<(i128, i128, String, String)> {
    v.iter().map(span).collect()
}

fn s(start_ns: i128, end_ns: i128, app: &str, title: &str) -> (i128, i128, String, String) {
    (start_ns, end_ns, app.to_string(), title.to_string())
}

/// A difference of two instants in whole milliseconds, rounded toward zero.
fn whole_ms(d_ns: i128) -> i128 {
    d_ns / 1_000_000
}

fn mixed_stream() -> Vec<AwWindowEvent> {
    vec![
        w(0, 1000, "Code", "main.rs"),
        w(1500, 2500, "Code", "main.rs"),
        w(2400, 3000, "Code", "main.rs"),
        w(4001, 5000, "Firefox", "docs"),
        w(5003, 6000, "Firefox", "mail"),
        w(12000, 13000, "Firefox", "mail"),
        w(12500, 14000, "Code", "lib.rs"),
        w(20000, 21000, "Code", "lib.rs"),
    ]
}

#[test]
fn end_time_adds_duration() {
    let e = w(1, 3, "Code", "main.rs");
    assert_eq!(e.end_time(), 3_000_000);
    let f = a(-5, 2, AfkStatus::Afk);
    assert_eq!(f.end_time(), 2_000_000);
}

#[test]
fn duplicate_copies_every_field() {
    let e = w(10, 20, "Code", "main.rs");
    assert_eq!(span(&e.duplicate()), span(&e));
    let f = a(10, 20, AfkStatus::NotAfk);
    let g = f.duplicate();
    assert_eq!((g.timestamp, g.duration_ns, g.status), (10_000_000, 10_000_000, AfkStatus::NotAfk));
}

#[test]
fn flood_split_of_odd_gap_gives_exact_half_to_the_first_event() {
    // gap of 3 ms between different data: the first event grows by 1.5 ms,
    // the second starts 1 ms earlier (half the gap, rounded down)
    let result = flood_window(vec![w(0, 1000, "Code", "a"), w(1003, 2000, "Code", "b")], 5000);
    assert_eq!(
        spans(&result),
        vec![s(0, 1_001_500_000, "Code", "a"), s(1_002_000_000, 2_000_000_000, "Code", "b")]
    );
}

#[test]
fn flood_measures_gaps_in_whole_milliseconds() {
    // 0.999 ms apart with the same data: a gap of 0 ms, so the events merge;
    // the merged length is rounded down to whole milliseconds
    let e1 = AwWindowEvent {
        timestamp: 0,
        duration_ns: 1_000_000,
        app: "Code".into(),
        title: "a".into(),
    };
    let e2 = AwWindowEvent {
        timestamp: 1_999_000,
        duration_ns: 1_700_000,
        app: "Code".into(),
        title: "a".into(),
    };
    let result = flood_window(vec![e1, e2], 5000);
    assert_eq!(spans(&result), vec![s(0, 3_000_000, "Code", "a")]);
}

#[test]
fn flood_keeps_sub_microsecond_instants() {
    // ends at 400 ns, next starts at 1 000 300 ns with other data: the gap is
    // 999 900 ns, which is 0 whole milliseconds, so nothing is split
    let e1 = AwWindowEvent { timestamp: 0, duration_ns: 400, app: "Code".into(), title: "a".into() };
    let e2 = AwWindowEvent {
        timestamp: 1_000_300,
        duration_ns: 1_000,
        app: "Firefox".into(),
        title: "b".into(),
    };
    let result = flood_window(vec![e1, e2], 5000);
    assert_eq!(spans(&result), vec![s(0, 400, "Code", "a"), s(1_000_300, 1_001_300, "Firefox", "b")]);
}

#[test]
fn flood_different_title_is_different_data() {
    let result = flood_window(vec![w(0, 1000, "Code", "a"), w(3000, 4000, "Code", "b")], 5000);
    assert_eq!(result.len(), 2);
    assert_eq!(result[0].end_time(), 2_000_000_000);
    assert_eq!(result[1].timestamp, 2_000_000_000);
}

#[test]
fn flood_gap_equal_to_pulse_is_kept() {
    let result = flood_window(vec![w(0, 1000, "Code", "a"), w(6000, 7000, "Code", "a")], 5000);
    assert_eq!(spans(&result), spans(&[w(0, 1000, "Code", "a"), w(6000, 7000, "Code", "a")]));
}

#[test]
fn flood_with_zero_pulse_only_merges_overlaps() {
    let result = flood_window(
        vec![w(0, 1000, "Code", "a"), w(1000, 2000, "Code", "a"), w(1500, 2500, "Code", "a")],
        0,
    );
    assert_eq!(spans(&result), spans(&[w(0, 1000, "Code", "a"), w(1000, 2500, "Code", "a")]));
}

#[test]
fn flood_overlap_keeps_the_later_end() {
    let result = flood_window(vec![w(0, 5000, "Code", "a"), w(1000, 2000, "Code", "a")], 5000);
    assert_eq!(spans(&result), spans(&[w(0, 5000, "Code", "a")]));
}

#[test]
fn flood_leaves_no_micro_gap() {
    let pulse = 5000;
    let result = flood_window(mixed_stream(), pulse);
    for pair in result.windows(2) {
        let gap = whole_ms(pair[1].timestamp - pair[0].end_time());
        assert!(gap <= 0 || gap >= pulse as i128);
        if pair[0].app == pair[1].app && pair[0].title == pair[1].title {
            assert!(gap >= 0 && gap >= pulse as i128);
        }
    }
}

#[test]
fn flood_is_idempotent_on_values() {
    let once = flood_window(mixed_stream(), 5000);
    let twice = flood_window(once.clone(), 5000);
    assert_eq!(spans(&once), spans(&twice));
    let afk_once = flood_afk(
        vec![
            a(0, 1000, AfkStatus::NotAfk),
            a(1203, 3000, AfkStatus::Afk),
            a(3100, 4000, AfkStatus::Afk),
            a(9000, 9500, AfkStatus::NotAfk),
        ],
        5000,
    );
    let afk_twice = flood_afk(afk_once.clone(), 5000);
    let key = |v: &[AwAfkEvent]| -> Vec<(i128, i128, AfkStatus)> {
        v.iter().map(|e| (e.timestamp, e.end_time(), e.status)).collect()
    };
    assert_eq!(key(&afk_once), key(&afk_twice));
}

#[test]
fn flood_never_grows_and_keeps_first_start_and_data() {
    let input = mixed_stream();
    let result = flood_window(input.clone(), 5000);
    assert!(result.len() <= input.len());
    assert_eq!(result[0].timestamp, input[0].timestamp);
    for e in &result {
        assert!(input.iter().any(|x| x.app == e.app && x.title == e.title));
    }
}

#[test]
fn flood_keeps_sorted_streams_sorted() {
    let input = vec![
        w(0, 1000, "Code", "a"),
        w(1503, 2500, "Code", "b"),
        w(2500, 2600, "Code", "a"),
        w(9000, 9500, "Code", "a"),
    ];
    let result = flood_window(input, 5000);
    for (i, x) in result.iter().enumerate() {
        assert!(x.timestamp <= x.end_time());
        for y in &result[i + 1..] {
            assert!(x.end_time() <= y.timestamp);
        }
    }
}

#[test]
fn flood_removes_no_activity_on_values() {
    let input = vec![
        w(0, 1000, "Code", "a"),
        w(500, 4000, "Code", "a"),
        w(500, 600, "Firefox", "b"),
        w(4200, 4300, "Code", "a"),
        w(9000, 9100, "Firefox", "b"),
        w(9050, 9060, "Code", "a"),
    ];
    let result = flood_window(input.clone(), 5000);
    for x in &input {
        assert!(result.iter().any(|y| y.app == x.app
            && y.title == x.title
            && y.timestamp <= x.timestamp
            && x.end_time() <= y.end_time()));
    }
}

#[test]
fn extract_keeps_order_and_extents() {
    let events = vec![
        a(0, 100, AfkStatus::Afk),
        a(100, 250, AfkStatus::NotAfk),
        a(250, 300, AfkStatus::Afk),
        a(300, 900, AfkStatus::NotAfk),
    ];
    let periods = extract_not_afk_periods(&events);
    assert_eq!(
        periods,
        vec![
            TimePeriod { start: 100_000_000, end: 250_000_000 },
            TimePeriod { start: 300_000_000, end: 900_000_000 },
        ]
    );
    assert!(extract_not_afk_periods(&[]).is_empty());
}

/// Every piece of every event inside every period, in order, its length
/// rounded toward zero to whole milliseconds: the direct definition that the
/// two-pointer walk meets on sorted inputs.
fn all_pieces(events: &[AwWindowEvent], periods: &[TimePeriod]) -> Vec<(i128, i128, String, String)> {
    let mut out = Vec::new();
    for e in events {
        for p in periods {
            let start = e.timestamp.max(p.start);
            let end = e.end_time().min(p.end);
            let length_ms = whole_ms(end - start);
            if length_ms > 0 {
                out.push((start, start + length_ms * 1_000_000, e.app.clone(), e.title.clone()));
            }
        }
    }
    out
}

fn period_ms(start_ms: i64, end_ms: i64) -> TimePeriod {
    TimePeriod { start: start_ms as i128 * 1_000_000, end: end_ms as i128 * 1_000_000 }
}

#[test]
fn filter_on_sorted_inputs_gives_all_pieces() {
    let events = vec![
        w(0, 3000, "Code", "a"),
        w(3000, 10000, "Firefox", "b"),
        w(12000, 12500, "Code", "a"),
        w(15000, 30000, "Code", "c"),
    ];
    let periods = vec![
        period_ms(500, 1000),
        period_ms(2000, 4000),
        period_ms(4000, 4000),
        period_ms(9000, 16000),
        period_ms(20000, 25000),
        period_ms(29000, 40000),
    ];
    let result = filter_period_intersect(&events, &periods);
    assert_eq!(spans(&result), all_pieces(&events, &periods));
    assert_eq!(result.len(), 8);
}

#[test]
fn filter_rounds_piece_lengths_down_to_whole_milliseconds() {
    let events = vec![AwWindowEvent {
        timestamp: 0,
        duration_ns: 10_000_000,
        app: "Code".into(),
        title: "a".into(),
    }];
    // overlap of 2.7 ms gives a 2 ms piece; overlap of 0.9 ms gives none
    let periods = vec![
        TimePeriod { start: 100_000, end: 2_800_000 },
        TimePeriod { start: 9_100_000, end: 20_000_000 },
    ];
    let result = filter_period_intersect(&events, &periods);
    assert_eq!(spans(&result), vec![s(100_000, 2_100_000, "Code", "a")]);
}

#[test]
fn filter_pieces_lie_inside_an_event_and_a_period() {
    // unsorted periods: the walk skips what it has passed, but every piece it
    // gives still lies inside an event and a period
    let events = vec![w(0, 30000, "Code", "a")];
    let periods = vec![period_ms(20000, 30000), period_ms(0, 10000)];
    let result = filter_period_intersect(&events, &periods);
    assert_eq!(spans(&result), vec![s(20_000_000_000, 30_000_000_000, "Code", "a")]);
    for x in &result {
        assert!(x.duration_ns > 0);
        assert!(periods.iter().any(|p| p.start <= x.timestamp && x.end_time() <= p.end));
        assert!(events.iter().any(|e| e.app == x.app
            && e.title == x.title
            && e.timestamp <= x.timestamp
            && x.end_time() <= e.end_time()));
    }
}

#[test]
fn filter_drops_empty_pieces_at_touching_bounds() {
    let events = vec![w(0, 1000, "Code", "a")];
    assert!(filter_period_intersect(&events, &[period_ms(1000, 2000)]).is_empty());
    assert!(filter_period_intersect(&events, &[period_ms(-1000, 0)]).is_empty());
}

#[test]
fn preprocess_is_the_composition_of_the_steps() {
    let window = mixed_stream();
    let afk = vec![
        a(0, 2000, AfkStatus::NotAfk),
        a(2003, 12200, AfkStatus::Afk),
        a(12200, 30000, AfkStatus::NotAfk),
    ];
    let (active, flooded_window, flooded_afk) =
        preprocess_active_window_events(window.clone(), afk.clone(), DEFAULT_PULSETIME_MS);
    assert_eq!(spans(&flooded_window), spans(&flood_window(window, DEFAULT_PULSETIME_MS)));
    let fa = flood_afk(afk, DEFAULT_PULSETIME_MS);
    let key = |v: &[AwAfkEvent]| -> Vec<(i128, i128, AfkStatus)> {
        v.iter().map(|e| (e.timestamp, e.end_time(), e.status)).collect()
    };
    assert_eq!(key(&flooded_afk), key(&fa));
    let periods = extract_not_afk_periods(&fa);
    assert_eq!(spans(&active), spans(&filter_period_intersect(&flooded_window, &periods)));
    // every active piece lies in a flooded window event and a not-AFK flooded AFK event
    for x in &active {
        assert!(x.duration_ns > 0);
        assert!(flooded_afk.iter().any(|e| e.status == AfkStatus::NotAfk
            && e.timestamp <= x.timestamp
            && x.end_time() <= e.end_time()));
    }
}

#[test]
fn extreme_instants_are_handled() {
    let lo = -TIME_LIMIT_NS / 1_000_000 * 1_000_000;
    let hi = TIME_LIMIT_NS / 1_000_000 * 1_000_000;
    let ev = |start: i128, end: i128| AwWindowEvent {
        timestamp: start,
        duration_ns: end - start,
        app: "Code".into(),
        title: "a".into(),
    };
    let result = flood_window(vec![ev(lo, hi), ev(hi, hi)], i64::MAX);
    assert_eq!(spans(&result), vec![s(lo, hi, "Code", "a")]);
    let cut = filter_period_intersect(&result, &[TimePeriod { start: lo, end: hi }]);
    assert_eq!(cut[0].duration_ns, hi - lo);
}
