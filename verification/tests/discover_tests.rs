use shuttlepole::model::{Direction, Region, Route, Stop};
use shuttlepole::discover::{
    contains_id, matching_region_ids, matching_route_ids, route_name_map, select_stops,
};

fn region(id: i64, name: &str) -> Region {
    Region { id, name: name.to_string() }
}

fn route(id: i64, name: &str) -> Route {
    Route { id, display_name: format!("Route {}", name), customer_id: 86, name: name.to_string() }
}

fn stop(id: i64, name: &str, rtpi_number: i64) -> Stop {
    Stop { id, name: name.to_string(), rtpi_number }
}

fn direction(route_id: i64, name: &str, stops: Vec<Stop>) -> Direction {
    Direction { id: route_id * 10, route_id, name: name.to_string(), stops }
}

#[test]
fn regions_match_by_exact_name_only() {
    let regions = vec![
        region(1, "No Region"),
        region(2, "Somewhere"),
        region(3, "No Region"),
        region(4, "no region"),
    ];
    let ids = matching_region_ids(&regions, &"No Region".to_string());
    assert_eq!(ids, vec![1, 3]);
}

#[test]
fn no_region_matches_an_absent_name() {
    let regions = vec![region(1, "Somewhere")];
    let ids = matching_region_ids(&regions, &"No Region".to_string());
    assert!(ids.is_empty());
}

#[test]
fn routes_match_either_configured_name() {
    let routes = vec![
        route(11, "Hollis"),
        route(12, "Powell"),
        route(13, "South Hollis"),
        route(14, "Hollis Express"),
    ];
    let ids = matching_route_ids(&routes, &"Hollis".to_string(), &"South Hollis".to_string());
    assert_eq!(ids, vec![11, 13]);
}

#[test]
fn stops_match_by_rtpi_code_or_name() {
    let dirs = vec![direction(
        11,
        "Northbound",
        vec![
            stop(100, "Park Ave @ Pixar (EB)", 1111),
            stop(101, "Other", 5323),
            stop(102, "Elsewhere", 2222),
        ],
    )];
    let ids = select_stops(&dirs, 5323, &"Park Ave @ Pixar (EB)".to_string());
    assert_eq!(ids, vec![100, 101]);
}

#[test]
fn stop_worklist_is_deduplicated_in_first_seen_order() {
    let dirs = vec![
        direction(11, "Northbound", vec![stop(100, "Park", 5323), stop(101, "Other", 5323)]),
        direction(13, "Southbound", vec![stop(101, "Other", 5323), stop(100, "Park", 5323)]),
    ];
    let ids = select_stops(&dirs, 5323, &"Park Ave @ Pixar (EB)".to_string());
    assert_eq!(ids, vec![100, 101]);
}

#[test]
fn contains_id_reports_membership() {
    let ids = vec![3i64, 7, 11];
    assert!(contains_id(&ids, 7));
    assert!(!contains_id(&ids, 8));
    assert!(!contains_id(&Vec::new(), 8));
}

#[test]
fn route_names_keep_the_last_direction_per_route() {
    let dirs = vec![
        direction(11, "Northbound", vec![]),
        direction(13, "Loop", vec![]),
        direction(11, "Southbound", vec![]),
    ];
    let names = route_name_map(&dirs);
    assert_eq!(names.len(), 2);
    assert!(names.contains(&(11, "Southbound".to_string())));
    assert!(names.contains(&(13, "Loop".to_string())));
}

#[test]
fn route_names_of_no_directions_is_empty() {
    let names = route_name_map(&Vec::new());
    assert!(names.is_empty());
}
