use prahadlo::gtfs::{
    does_trip_operate, load_service_exceptions, load_stop_times, Date, ExceptionType, PlanarPoint,
    Route, Service, ServiceException, Stop, StopTime, Trip,
};
use prahadlo::network::{FeedError, Location, Network, NetworkConfig};
use prahadlo::query::QueryError;
use prahadlo::stop_groups::get_stop_group_by_name;

fn stop(id: &str, name: &str, x: i32, y: i32) -> Stop {
    Stop {
        stop_id: id.to_string(),
        stop_name: name.to_string(),
        position: PlanarPoint { x, y },
        zone_id: "P".to_string(),
        stop_url: None,
        location_type: 0,
        parent_station: None,
        wheelchair_boarding: None,
        level_id: None,
        platform_code: None,
    }
}

fn route(id: &str, short: &str) -> Route {
    Route {
        route_id: id.to_string(),
        agency_id: "99".to_string(),
        route_short_name: short.to_string(),
        route_long_name: String::new(),
        route_type: 3,
        route_url: None,
        route_color: None,
        route_text_color: None,
        is_night: false,
    }
}

fn trip(id: &str, service: &str) -> Trip {
    Trip {
        route_id: "R1".to_string(),
        service_id: service.to_string(),
        trip_id: id.to_string(),
        trip_headsign: Some("Somewhere".to_string()),
        trip_short_name: None,
        direction_id: 0,
        block_id: None,
        shape_id: None,
        wheelchair_accessible: None,
        bikes_allowed: None,
        exceptional: None,
        trip_operation_type: None,
        stop_times: Vec::new(),
    }
}

fn stop_time(trip: &str, stop: &str, seq: u32, arrival: u32, departure: u32) -> StopTime {
    StopTime {
        trip_id: trip.to_string(),
        arrival_time: arrival,
        departure_time: departure,
        stop_id: stop.to_string(),
        stop_sequence: seq,
        stop_headsign: None,
        pickup_type: 0,
        drop_off_type: 0,
    }
}

fn date(y: i32, m: u32, d: u32) -> Date {
    Date::new(y, m, d).unwrap()
}

fn service(id: &str, days: [bool; 7]) -> Service {
    Service {
        service_id: id.to_string(),
        monday: days[0],
        tuesday: days[1],
        wednesday: days[2],
        thursday: days[3],
        friday: days[4],
        saturday: days[5],
        sunday: days[6],
        start_date: date(2020, 1, 1),
        end_date: date(2020, 12, 31),
        exceptions: Vec::new(),
    }
}

fn hms(h: u32, m: u32, s: u32) -> u32 {
    3600 * h + 60 * m + s
}

const SATURDAY: [bool; 7] = [false, false, false, false, false, true, false];

fn build(stops: Vec<Stop>, mut trips: Vec<Trip>, rows: Vec<StopTime>, services: Vec<Service>) -> Network {
    load_stop_times(&mut trips, &rows).unwrap();
    Network::new(stops, vec![route("R1", "A")], trips, services, &NetworkConfig::default_config())
        .ok()
        .unwrap()
}

fn same_trip_network() -> Network {
    build(
        vec![stop("A", "A", 0, 0), stop("B", "B", 10_000, 0)],
        vec![trip("T1", "S_sat")],
        vec![
            stop_time("T1", "A", 1, hms(10, 0, 0), hms(10, 0, 0)),
            stop_time("T1", "B", 2, hms(10, 5, 0), hms(10, 5, 0)),
        ],
        vec![service("S_sat", SATURDAY)],
    )
}

fn every_edge_goes_forward(nw: &Network) -> bool {
    nw.nodes.iter().all(|u| u.edges.iter().all(|&v| nw.nodes[v].time >= u.time))
}

#[test]
fn trivial_feed_has_no_journey() {
    let nw = build(vec![stop("U50S1", "Budějovická", 0, 0)], vec![], vec![], vec![]);
    let r = nw.find_connection(
        &"Budějovická".to_string(),
        &"Budějovická".to_string(),
        &date(2020, 2, 1),
        hms(10, 0, 0),
    );
    assert!(matches!(r, Err(QueryError::NoJourney)));
}

#[test]
fn same_trip_arrives_after_transfer_time() {
    let nw = same_trip_network();
    let conn = nw
        .find_connection(&"A".to_string(), &"B".to_string(), &date(2020, 2, 1), hms(9, 55, 0))
        .ok()
        .unwrap();
    let last = conn.nodes.last().unwrap();
    assert_eq!(last.time, hms(10, 6, 0));
    assert_eq!(last.location, Location::Stop(1));
    assert_eq!(conn.nodes[0].location, Location::Stop(0));
    assert_eq!(conn.nodes[0].time, hms(10, 0, 0));
    for pair in conn.nodes.windows(2) {
        assert!(nw.nodes[pair[0].node_id].edges.contains(&pair[1].node_id));
    }
}

#[test]
fn wrong_day_has_no_journey() {
    let nw = same_trip_network();
    let r = nw.find_connection(&"A".to_string(), &"B".to_string(), &date(2020, 2, 3), hms(9, 55, 0));
    assert!(matches!(r, Err(QueryError::NoJourney)));
}

#[test]
fn walk_then_ride() {
    let nw = build(
        vec![
            stop("A", "A", 0, 0),
            stop("B", "B", 200, 100),
            stop("C", "C", 20_000, 0),
            stop("D", "D", -20_000, 0),
        ],
        vec![trip("T0", "S_sat"), trip("T1", "S_sat")],
        vec![
            stop_time("T0", "D", 1, hms(9, 50, 0), hms(9, 50, 0)),
            stop_time("T0", "A", 2, hms(10, 0, 0), hms(10, 0, 0)),
            stop_time("T1", "B", 1, hms(10, 10, 0), hms(10, 10, 0)),
            stop_time("T1", "C", 2, hms(10, 20, 0), hms(10, 20, 0)),
        ],
        vec![service("S_sat", SATURDAY)],
    );
    let conn = nw
        .find_connection(&"A".to_string(), &"C".to_string(), &date(2020, 2, 1), hms(10, 0, 0))
        .ok()
        .unwrap();
    let boarding = conn
        .nodes
        .iter()
        .position(|n| matches!(n.location, Location::Trip(1, _)))
        .unwrap();
    assert_eq!(conn.nodes[boarding].time, hms(10, 10, 0));
    assert_eq!(conn.nodes[boarding - 1].location, Location::Stop(1));
    assert_eq!(conn.nodes.last().unwrap().time, hms(10, 21, 0));
    assert_eq!(conn.nodes.last().unwrap().location, Location::Stop(2));
}

#[test]
fn name_prefix_selects_group_with_both_platforms() {
    let nw = build(
        vec![
            stop("U1N1", "Main St — North", 0, 0),
            stop("U1S1", "Main St — South", 50_000, 0),
            stop("U2Z1", "Zoo", 90_000, 0),
        ],
        vec![trip("T1", "S_sat")],
        vec![
            stop_time("T1", "U1S1", 1, hms(10, 0, 0), hms(10, 0, 0)),
            stop_time("T1", "U2Z1", 2, hms(10, 30, 0), hms(10, 30, 0)),
        ],
        vec![service("S_sat", SATURDAY)],
    );
    let g = get_stop_group_by_name(&nw.stop_groups, &"Main".to_string()).unwrap();
    let mut members = nw.stop_groups[g].stops.clone();
    members.sort();
    assert_eq!(members, vec![0, 1]);
    let conn = nw
        .find_connection(&"Main".to_string(), &"Zoo".to_string(), &date(2020, 2, 1), hms(9, 0, 0))
        .ok()
        .unwrap();
    assert_eq!(conn.nodes.last().unwrap().time, hms(10, 31, 0));
}

#[test]
fn exception_adds_a_saturday() {
    let mut services = vec![service("S", [true, true, true, true, true, false, false])];
    let rows = vec![ServiceException {
        service_id: "S".to_string(),
        date: date(2020, 2, 1),
        exception_type: ExceptionType::Added,
    }];
    assert_eq!(load_service_exceptions(&mut services, &rows), Ok(()));
    assert!(does_trip_operate(&date(2020, 2, 1), &services[0]));
    assert!(!does_trip_operate(&date(2020, 2, 8), &services[0]));
}

#[test]
fn exception_removes_a_weekday() {
    let mut services = vec![service("S", [true, true, true, true, true, false, false])];
    let rows = vec![ServiceException {
        service_id: "S".to_string(),
        date: date(2020, 2, 3),
        exception_type: ExceptionType::Removed,
    }];
    assert_eq!(load_service_exceptions(&mut services, &rows), Ok(()));
    assert!(!does_trip_operate(&date(2020, 2, 3), &services[0]));
    assert!(does_trip_operate(&date(2020, 2, 4), &services[0]));
}

#[test]
fn unknown_service_exception_is_reported() {
    let mut services = vec![service("S", SATURDAY)];
    let rows = vec![ServiceException {
        service_id: "X".to_string(),
        date: date(2020, 2, 1),
        exception_type: ExceptionType::Added,
    }];
    assert_eq!(load_service_exceptions(&mut services, &rows), Err(0));
}

#[test]
fn service_outside_its_range_does_not_run() {
    let mut s = service("S", SATURDAY);
    s.end_date = date(2020, 1, 31);
    assert!(!does_trip_operate(&date(2020, 2, 1), &s));
    assert!(does_trip_operate(&date(2020, 1, 25), &s));
}

#[test]
fn weekdays_follow_the_calendar() {
    let days = [
        (date(2020, 2, 3), 0),
        (date(2020, 2, 4), 1),
        (date(2020, 2, 5), 2),
        (date(2020, 2, 6), 3),
        (date(2020, 2, 7), 4),
        (date(2020, 2, 8), 5),
        (date(2020, 2, 9), 6),
        (date(2000, 2, 29), 1),
        (date(1999, 12, 31), 4),
    ];
    for (d, w) in days {
        let mut flags = [false; 7];
        flags[w] = true;
        let mut s = service("S", flags);
        s.start_date = date(1900, 1, 1);
        assert!(does_trip_operate(&d, &s), "{:?}", d);
        flags[w] = false;
        flags[(w + 1) % 7] = true;
        let mut s2 = service("S", flags);
        s2.start_date = date(1900, 1, 1);
        assert!(!does_trip_operate(&d, &s2), "{:?}", d);
    }
}

#[test]
fn edges_never_go_back_in_time() {
    let nw = same_trip_network();
    assert!(every_edge_goes_forward(&nw));
}

#[test]
fn long_dwell_makes_alighting_edge_go_back() {
    let nw = build(
        vec![stop("A", "A", 0, 0), stop("B", "B", 10_000, 0)],
        vec![trip("T1", "S_sat")],
        vec![
            stop_time("T1", "A", 1, hms(10, 0, 0), hms(10, 5, 0)),
            stop_time("T1", "B", 2, hms(10, 10, 0), hms(10, 10, 0)),
        ],
        vec![service("S_sat", SATURDAY)],
    );
    assert!(!every_edge_goes_forward(&nw));
}

#[test]
fn stop_chains_hold_their_nodes_in_time_order() {
    let nw = same_trip_network();
    for (s, chain) in nw.stop_node_chains.iter().enumerate() {
        for w in chain.windows(2) {
            assert!(nw.nodes[w[0]].time <= nw.nodes[w[1]].time);
        }
        let mut expected: Vec<usize> = (0..nw.nodes.len())
            .filter(|&v| nw.nodes[v].location == Location::Stop(s))
            .collect();
        let mut got = chain.clone();
        expected.sort();
        got.sort();
        assert_eq!(got, expected);
    }
}

#[test]
fn each_stop_time_gives_three_nodes() {
    let nw = same_trip_network();
    assert_eq!(nw.nodes.len(), 6);
    let aboard: Vec<usize> = (0..6).filter(|&v| matches!(nw.nodes[v].location, Location::Trip(0, _))).collect();
    assert_eq!(aboard, vec![0, 3]);
    assert_eq!(nw.nodes[2].time - nw.nodes[0].time, 60);
    assert_eq!(nw.nodes[5].time, hms(10, 6, 0));
    assert_eq!(nw.nodes[1].location, Location::Stop(0));
    assert_eq!(nw.nodes[4].location, Location::Stop(1));
}

#[test]
fn nearby_stops_get_walking_edges() {
    let nw = build(
        vec![stop("A", "A", 0, 0), stop("B", "B", 300, 0)],
        vec![trip("T1", "S_sat"), trip("T2", "S_sat")],
        vec![
            stop_time("T1", "A", 1, hms(10, 0, 0), hms(10, 0, 0)),
            stop_time("T2", "B", 1, hms(10, 4, 0), hms(10, 4, 0)),
            stop_time("T2", "B", 2, hms(10, 6, 0), hms(10, 6, 0)),
        ],
        vec![service("S_sat", SATURDAY)],
    );
    let dep_a = 1;
    let targets: Vec<u32> = nw.nodes[dep_a]
        .edges
        .iter()
        .filter(|&&v| nw.nodes[v].location == Location::Stop(1))
        .map(|&v| nw.nodes[v].time)
        .collect();
    assert_eq!(targets, vec![hms(10, 5, 0)]);
}

#[test]
fn unknown_references_fail_the_build() {
    let cfg = NetworkConfig::default_config();
    let mut trips = vec![trip("T1", "nope")];
    load_stop_times(&mut trips, &vec![]).unwrap();
    let r = Network::new(vec![stop("A", "A", 0, 0)], vec![], trips, vec![service("S", SATURDAY)], &cfg);
    assert!(matches!(r, Err(FeedError::UnknownService { trip: 0 })));

    let mut trips = vec![trip("T1", "S")];
    load_stop_times(&mut trips, &vec![stop_time("T1", "Z", 1, 0, 0)]).unwrap();
    let r = Network::new(vec![stop("A", "A", 0, 0)], vec![], trips, vec![service("S", SATURDAY)], &cfg);
    assert!(matches!(r, Err(FeedError::UnknownStop { trip: 0, stop_time: 0 })));

    let mut trips = vec![trip("T1", "S")];
    load_stop_times(&mut trips, &vec![stop_time("T1", "A", 1, u32::MAX - 10, u32::MAX - 10)]).unwrap();
    let r = Network::new(vec![stop("A", "A", 0, 0)], vec![], trips, vec![service("S", SATURDAY)], &cfg);
    assert!(matches!(r, Err(FeedError::TimeOverflow { trip: 0, stop_time: 0 })));
}

#[test]
fn no_stops_means_unknown_departure() {
    let nw = build(vec![], vec![], vec![], vec![]);
    let r = nw.find_connection(&"A".to_string(), &"B".to_string(), &date(2020, 2, 1), 0);
    assert!(matches!(r, Err(QueryError::UnknownDepartureStop)));
}

#[test]
fn stop_times_are_attached_in_sequence_order() {
    let mut trips = vec![trip("T1", "S"), trip("T2", "S")];
    let rows = vec![
        stop_time("T1", "B", 2, 20, 20),
        stop_time("T2", "C", 1, 5, 5),
        stop_time("T1", "A", 1, 10, 10),
        stop_time("T1", "C", 3, 30, 30),
    ];
    assert_eq!(load_stop_times(&mut trips, &rows), Ok(()));
    let ids: Vec<&str> = trips[0].stop_times.iter().map(|s| s.stop_id.as_str()).collect();
    assert_eq!(ids, vec!["A", "B", "C"]);
    assert_eq!(trips[1].stop_times.len(), 1);
    let bad = vec![stop_time("T9", "A", 1, 0, 0)];
    assert_eq!(load_stop_times(&mut trips, &bad), Err(0));
}

#[test]
fn lookups_by_id() {
    let nw = same_trip_network();
    assert_eq!(nw.get_stop(&"B".to_string()).unwrap().stop_name, "B");
    assert!(nw.get_stop(&"Q".to_string()).is_none());
    assert_eq!(nw.get_trip(&"T1".to_string()).unwrap().service_id, "S_sat");
    assert!(nw.get_trip(&"T2".to_string()).is_none());
    assert_eq!(nw.get_node(3).time, hms(10, 5, 0));
    let t = nw.get_trip(&"T1".to_string()).unwrap();
    assert_eq!(nw.get_trip_short_name(t), "A");
}

#[test]
fn earliest_of_two_trips_is_chosen() {
    let nw = build(
        vec![stop("A", "A", 0, 0), stop("B", "B", 10_000, 0)],
        vec![trip("Slow", "S_sat"), trip("Fast", "S_sat")],
        vec![
            stop_time("Slow", "A", 1, hms(10, 0, 0), hms(10, 0, 0)),
            stop_time("Slow", "B", 2, hms(11, 0, 0), hms(11, 0, 0)),
            stop_time("Fast", "A", 1, hms(10, 10, 0), hms(10, 10, 0)),
            stop_time("Fast", "B", 2, hms(10, 30, 0), hms(10, 30, 0)),
        ],
        vec![service("S_sat", SATURDAY)],
    );
    let conn = nw
        .find_connection(&"A".to_string(), &"B".to_string(), &date(2020, 2, 1), hms(9, 0, 0))
        .ok()
        .unwrap();
    assert_eq!(conn.nodes.last().unwrap().time, hms(10, 31, 0));
    assert!(conn.nodes.iter().any(|n| matches!(n.location, Location::Trip(1, _))));
}
