use shuttlepole::model::{Arrival, ArrivalGroup, FetchError, Instant, TimedArrival};
use shuttlepole::poll::{build_snapshot, collect_stop_arrivals, cycle_sleep_ms, sort_by_eta, SnapshotStore};

fn arrival(route_id: i64, eta_seconds: i64, just_scheduled: bool) -> Arrival {
    Arrival {
        route_id,
        stop_id: 10,
        bus_name: Some(format!("{}", route_id)),
        route_name: "Hollis".to_string(),
        arrive_time: "11:12".to_string(),
        eta_seconds,
        just_scheduled,
    }
}

fn timed(read_time: i64, route_id: i64, eta_seconds: i64, just_scheduled: bool) -> TimedArrival {
    TimedArrival {
        read_time: Instant { epoch_seconds: read_time },
        arrival: arrival(route_id, eta_seconds, just_scheduled),
    }
}

#[test]
fn sort_orders_ascending_and_keeps_ties_stable() {
    let input = vec![
        timed(0, 1, 300, false),
        timed(0, 2, 60, false),
        timed(0, 3, 300, false),
        timed(0, 4, 10, false),
    ];
    let sorted = sort_by_eta(&input);
    let keys: Vec<i64> = sorted.iter().map(|t| t.arrival.eta_seconds).collect();
    assert_eq!(keys, vec![10, 60, 300, 300]);
    // The two 300-second entries keep their input order.
    assert_eq!(sorted[2].arrival.route_id, 1);
    assert_eq!(sorted[3].arrival.route_id, 3);
}

#[test]
fn collect_flattens_stamps_and_sorts_one_stop() {
    let groups = vec![
        ArrivalGroup { route_id: 1, arrivals: vec![arrival(1, 500, false), arrival(1, 90, true)] },
        ArrivalGroup { route_id: 2, arrivals: vec![arrival(2, 30, false)] },
    ];
    let read_time = Instant { epoch_seconds: 1_700_000_000 };
    let collected = collect_stop_arrivals(&groups, read_time);
    let keys: Vec<i64> = collected.iter().map(|t| t.arrival.eta_seconds).collect();
    // Schedule-only entries are kept here; filtering happens at publish.
    assert_eq!(keys, vec![30, 90, 500]);
    assert!(collected.iter().all(|t| t.read_time == read_time));
}

#[test]
fn snapshot_is_sorted_and_free_of_schedule_only_entries() {
    let batches = vec![
        vec![timed(100, 1, 400, false), timed(100, 2, 50, true), timed(100, 3, 20, false)],
        vec![timed(130, 4, 90, false), timed(130, 5, 10, true)],
    ];
    let snapshot = build_snapshot(&batches);
    let keys: Vec<i64> = snapshot.iter().map(|t| t.arrival.eta_seconds).collect();
    assert_eq!(keys, vec![20, 90, 400]);
    assert!(snapshot.iter().all(|t| !t.arrival.just_scheduled));
    assert!(snapshot.windows(2).all(|w| w[0].arrival.eta_seconds <= w[1].arrival.eta_seconds));
}

#[test]
fn snapshot_keeps_equal_keys_in_flattened_order() {
    let batches = vec![
        vec![timed(100, 1, 60, false)],
        vec![timed(130, 2, 60, false), timed(130, 3, 60, false)],
    ];
    let snapshot = build_snapshot(&batches);
    let ids: Vec<i64> = snapshot.iter().map(|t| t.arrival.route_id).collect();
    assert_eq!(ids, vec![1, 2, 3]);
}

#[test]
fn snapshot_entries_keep_their_stops_fetch_instant() {
    let batches = vec![vec![timed(100, 1, 60, false)], vec![timed(130, 2, 30, false)]];
    let snapshot = build_snapshot(&batches);
    assert_eq!(snapshot[0].read_time, Instant { epoch_seconds: 130 });
    assert_eq!(snapshot[1].read_time, Instant { epoch_seconds: 100 });
}

#[test]
fn failed_cycle_leaves_snapshot_untouched() {
    let mut store = SnapshotStore::new();
    store.apply_cycle(Ok(vec![vec![timed(100, 1, 60, false), timed(100, 2, 30, false)]]));
    let before = store.list.clone();
    store.apply_cycle(Err(FetchError::Transport("request send: timed out".to_string())));
    assert_eq!(store.list, before);
    store.apply_cycle(Err(FetchError::BadStatus("odd response (503)".to_string())));
    assert_eq!(store.list, before);
    store.apply_cycle(Err(FetchError::Malformed("JSON parse: eof".to_string())));
    assert_eq!(store.list, before);
}

#[test]
fn successful_cycle_replaces_snapshot_wholesale() {
    let mut store = SnapshotStore::new();
    assert!(store.list.is_empty());
    store.apply_cycle(Ok(vec![vec![timed(100, 1, 60, false)]]));
    assert_eq!(store.list.len(), 1);
    store.apply_cycle(Ok(vec![vec![timed(200, 2, 120, false), timed(200, 3, 20, false)]]));
    let keys: Vec<i64> = store.list.iter().map(|t| t.arrival.eta_seconds).collect();
    assert_eq!(keys, vec![20, 120]);
}

#[test]
fn error_variants_carry_their_cause() {
    let e = FetchError::Transport("request send: refused".to_string());
    assert_eq!(e.cause().as_str(), "request send: refused");
    let e = FetchError::BadStatus("odd response (404)".to_string());
    assert_eq!(e.cause().as_str(), "odd response (404)");
    let e = FetchError::Malformed("JSON parse: bad field".to_string());
    assert_eq!(e.cause().as_str(), "JSON parse: bad field");
}

#[test]
fn backoff_is_shorter_than_the_normal_interval() {
    assert_eq!(cycle_sleep_ms(true), 5_000);
    assert_eq!(cycle_sleep_ms(false), 30_000);
}
