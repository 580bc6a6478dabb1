use shuttlepole::model::{Arrival, Instant, TimedArrival};
use shuttlepole::render::{format_remaining, layout_lines, render_cycle, right_justify, Cell};

fn arrival(eta_seconds: i64) -> Arrival {
    Arrival {
        route_id: 1,
        stop_id: 10,
        bus_name: None,
        route_name: "Hollis".to_string(),
        arrive_time: "11:12".to_string(),
        eta_seconds,
        just_scheduled: false,
    }
}

fn timed(read_time: i64, eta_seconds: i64) -> TimedArrival {
    TimedArrival { read_time: Instant { epoch_seconds: read_time }, arrival: arrival(eta_seconds) }
}

fn cell(clock: &str, rem: &str) -> Cell {
    Cell { clock: clock.as_bytes().to_vec(), rem: rem.as_bytes().to_vec() }
}

#[test]
fn remaining_negative_is_anomaly() {
    assert_eq!(format_remaining(-5), b"now?".to_vec());
    assert_eq!(format_remaining(-1), b"now?".to_vec());
}

#[test]
fn remaining_zero_seconds() {
    assert_eq!(format_remaining(0), b"+0s".to_vec());
}

#[test]
fn remaining_under_a_minute_is_seconds() {
    assert_eq!(format_remaining(45), b"+45s".to_vec());
    assert_eq!(format_remaining(59), b"+59s".to_vec());
}

#[test]
fn remaining_from_a_minute_up_is_whole_minutes() {
    assert_eq!(format_remaining(60), b"+1m".to_vec());
    assert_eq!(format_remaining(125), b"+2m".to_vec());
    assert_eq!(format_remaining(3599), b"+59m".to_vec());
    assert_eq!(format_remaining(3600), b"+60m".to_vec());
}

#[test]
fn right_justify_pads_and_keeps_wide_input() {
    assert_eq!(right_justify(&b"abc".to_vec(), 5), b"  abc".to_vec());
    assert_eq!(right_justify(&b"abcdef".to_vec(), 5), b"abcdef".to_vec());
    assert_eq!(right_justify(&Vec::new(), 3), b"   ".to_vec());
}

#[test]
fn layout_three_entries_fills_both_lines() {
    let cells = vec![cell("11:12", "+11m"), cell("11:39", "+38m"), cell("11:59", "+58m")];
    let (line0, line1) = layout_lines(&cells, true);
    assert_eq!(line0, b" 11:12  11:39  11:59".to_vec());
    assert_eq!(line1, b". +11m   +38m   +58m".to_vec());
}

#[test]
fn layout_stops_once_budget_is_exceeded() {
    // The fourth entry would start a body already 19 wide: it is dropped.
    let cells = vec![
        cell("11:12", "+11m"),
        cell("11:39", "+38m"),
        cell("11:59", "+58m"),
        cell("23:59", "+99m"),
    ];
    let (line0, line1) = layout_lines(&cells, false);
    assert_eq!(line0, b" 11:12  11:39  11:59".to_vec());
    assert_eq!(line1, b"  +11m   +38m   +58m".to_vec());
    assert_eq!(line0.len(), 20);
    assert_eq!(line1.len(), 20);
}

#[test]
fn layout_two_entries_stays_under_budget() {
    let cells = vec![cell("11:12", "+11m"), cell("11:39", "+38m")];
    let (line0, line1) = layout_lines(&cells, false);
    assert_eq!(line0, b"        11:12  11:39".to_vec());
    assert_eq!(line1, b"         +11m   +38m".to_vec());
}

#[test]
fn layout_empty_row_gives_blank_lines() {
    let cells: Vec<Cell> = Vec::new();
    let (line0, line1) = layout_lines(&cells, false);
    assert_eq!(line0, vec![b' '; 20]);
    assert_eq!(line1, vec![b' '; 20]);
    let (_, marked) = layout_lines(&cells, true);
    assert_eq!(marked[0], b'.');
    assert_eq!(&marked[1..], &vec![b' '; 19][..]);
}

#[test]
fn rerender_differs_only_in_heartbeat() {
    let snapshot = vec![timed(1_700_000_000, 90), timed(1_700_000_000, 300)];
    let now = Instant { epoch_seconds: 1_700_000_030 };
    let (on0, on1) = render_cycle(&snapshot, now, true);
    let (off0, off1) = render_cycle(&snapshot, now, false);
    assert_eq!(on0, off0);
    assert_eq!(on1[0], b'.');
    assert_ne!(off1[0], b'.');
    assert_eq!(&on1[1..], &off1[1..]);
}

#[test]
fn render_projects_from_fetch_instant_not_eta_alone() {
    // Fetched at T0 with 90 seconds to arrival, rendered 30 seconds later:
    // 60 seconds remain, so the countdown reads "+1m".
    let t0 = 1_700_000_000;
    let snapshot = vec![timed(t0, 90)];
    let now = Instant { epoch_seconds: t0 + 30 };
    let (line0, line1) = render_cycle(&snapshot, now, false);
    assert_eq!(line0.len(), 20);
    assert_eq!(line1, b"                 +1m".to_vec());
}

#[test]
fn render_empty_snapshot_gives_blank_lines() {
    let snapshot: Vec<TimedArrival> = Vec::new();
    let now = Instant { epoch_seconds: 1_700_000_000 };
    let (line0, line1) = render_cycle(&snapshot, now, false);
    assert_eq!(line0, vec![b' '; 20]);
    assert_eq!(line1, vec![b' '; 20]);
}

#[test]
fn render_clock_line_shape() {
    let snapshot = vec![timed(1_700_000_000, 120)];
    let now = Instant { epoch_seconds: 1_700_000_000 };
    let (line0, line1) = render_cycle(&snapshot, now, false);
    assert_eq!(line0.len(), 20);
    // One five-column clock entry at the right edge: HH:MM in local time.
    assert!(line0[..15].iter().all(|&b| b == b' '));
    assert_eq!(line0[17], b':');
    assert!(line0[15].is_ascii_digit() && line0[16].is_ascii_digit());
    assert!(line0[18].is_ascii_digit() && line0[19].is_ascii_digit());
    assert_eq!(line1, b"                 +2m".to_vec());
}

#[test]
fn render_past_projection_shows_anomaly_marker() {
    let t0 = 1_700_000_000;
    let snapshot = vec![timed(t0, 10)];
    let now = Instant { epoch_seconds: t0 + 30 };
    let (_, line1) = render_cycle(&snapshot, now, false);
    assert_eq!(line1, b"                now?".to_vec());
}
