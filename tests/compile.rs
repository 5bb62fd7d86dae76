use netex_graph::calendar::local_period;
use netex_graph::error::CompileError;
use netex_graph::graph::{find_last, Graph};
use netex_graph::parser::{
    Authority, DayTypeAssignment, Line, NetexData, PointsInSequence, ScheduledStopPoint,
    ServiceJourney, StopPointInJourneyPattern, TimetabledPassingTime, UicOperatingPeriod,
};
use netex_graph::resolve::lookup_operating_period;

fn stop(id: u64, name: &str, long: f32, lat: f32) -> ScheduledStopPoint {
    ScheduledStopPoint {
        id,
        short_name: name.to_owned(),
        long_bits: long.to_bits(),
        lat_bits: lat.to_bits(),
    }
}

fn pattern(id: u64, line: u64, points: &[(u64, u64)]) -> PointsInSequence {
    PointsInSequence {
        id,
        line,
        stops: points
            .iter()
            .map(|&(id, scheduled_stop_point)| StopPointInJourneyPattern { id, scheduled_stop_point })
            .collect(),
    }
}

fn journey(pattern_ref: u64, day_type: u64, points: &[(u64, u16)]) -> ServiceJourney {
    ServiceJourney {
        passing_times: points
            .iter()
            .map(|&(p, t)| TimetabledPassingTime {
                stop_point_in_journey_pattern: p,
                arrival: t,
                departure: t + 1,
            })
            .collect(),
        day_type,
        transport_mode: "bus".to_owned(),
        pattern_ref,
    }
}

fn period(id: u64, bits: Vec<u8>) -> UicOperatingPeriod {
    UicOperatingPeriod { id, from: 220613, to: 221213, valid_day_bits: bits }
}

fn empty() -> NetexData {
    NetexData {
        scheduled_stop_points: Vec::new(),
        service_journey_patterns: Vec::new(),
        service_journeys: Vec::new(),
        operating_periods: Vec::new(),
        day_type_assignments: Vec::new(),
        lines: Vec::new(),
        authorities: Vec::new(),
    }
}

/// Stops A, B, C; a pattern A-B-C on line 7 of authority 9; two day types on
/// two periods; three journeys.
fn network() -> NetexData {
    let mut d = empty();
    d.scheduled_stop_points = vec![stop(1, "A", 0.0, 0.0), stop(2, "B", 1.0, 1.0), stop(3, "C", 2.0, 2.0)];
    d.service_journey_patterns = vec![pattern(50, 7, &[(101, 1), (102, 2), (103, 3)])];
    d.lines = vec![Line { id: 7, short_name: "L7".to_owned(), authority: 9 }];
    d.authorities = vec![Authority { id: 9, short_name: "AUTH".to_owned() }];
    d.operating_periods = vec![period(70, vec![0x7F, 0x03]), period(71, vec![0x01])];
    d.day_type_assignments = vec![
        DayTypeAssignment { operating_period: 70, day_type: 80, is_available: true },
        DayTypeAssignment { operating_period: 71, day_type: 81, is_available: true },
    ];
    d.service_journeys = vec![
        journey(50, 80, &[(101, 600), (102, 610), (103, 620)]),
        journey(50, 81, &[(101, 700), (102, 710)]),
        journey(50, 81, &[(102, 800), (103, 810)]),
    ];
    d
}

fn edge<'a>(g: &'a Graph, start: &str, end: &str) -> Vec<&'a netex_graph::graph::Edge> {
    g.edges
        .iter()
        .filter(|e| g.nodes[e.start_node].short_name == start && g.nodes[e.end_node].short_name == end)
        .collect()
}

#[test]
fn node_dedup_keeps_first_coordinates() {
    let mut a = empty();
    a.scheduled_stop_points = vec![stop(1, "CTL", 0.0, 0.0)];
    let mut b = empty();
    b.scheduled_stop_points = vec![stop(2, "CTL", 1.0, 1.0)];
    let g = Graph::from_data(&[a, b]).unwrap();
    assert_eq!(g.nodes.len(), 1);
    assert_eq!(g.nodes[0].short_name, "CTL");
    assert_eq!(f32::from_bits(g.nodes[0].long_bits), 0.0);
    assert_eq!(f32::from_bits(g.nodes[0].lat_bits), 0.0);
}

#[test]
fn nodes_numbered_in_first_seen_order() {
    let mut a = empty();
    a.scheduled_stop_points = vec![stop(1, "X", 0.0, 0.0), stop(2, "Y", 0.0, 0.0), stop(3, "X", 5.0, 5.0)];
    let mut b = empty();
    b.scheduled_stop_points = vec![stop(4, "Z", 0.0, 0.0), stop(5, "Y", 0.0, 0.0)];
    let g = Graph::from_data(&[a, b]).unwrap();
    let names: Vec<&str> = g.nodes.iter().map(|n| n.short_name.as_str()).collect();
    assert_eq!(names, vec!["X", "Y", "Z"]);
}

#[test]
fn one_edge_per_adjacent_pair() {
    let g = Graph::from_data(&[network()]).unwrap();
    assert_eq!(g.nodes.len(), 3);
    assert_eq!(g.edges.len(), 2);
    assert_eq!(edge(&g, "A", "B").len(), 1);
    assert_eq!(edge(&g, "B", "C").len(), 1);
    assert_eq!(edge(&g, "A", "C").len(), 0);
    assert_eq!(edge(&g, "B", "A").len(), 0);
}

#[test]
fn journey_records_match_windows() {
    let g = Graph::from_data(&[network()]).unwrap();
    let total: usize = g.edges.iter().map(|e| e.timetable.journeys.len()).sum();
    assert_eq!(total, 2 + 1 + 1);
    let ab = edge(&g, "A", "B")[0];
    assert_eq!(ab.timetable.journeys.len(), 2);
    let first = &ab.timetable.journeys[0];
    assert_eq!(first.departure, 601);
    assert_eq!(first.arrival, 610);
    assert_eq!(first.transport_mode, "bus");
    assert_eq!(first.line, "L7");
    assert_eq!(first.controller, "AUTH");
}

#[test]
fn local_periods_are_dense() {
    let g = Graph::from_data(&[network()]).unwrap();
    for e in &g.edges {
        let mut used: Vec<usize> = e.timetable.journeys.iter().map(|j| j.operating_period).collect();
        used.sort();
        used.dedup();
        let expected: Vec<usize> = (0..e.timetable.periods.len()).collect();
        assert_eq!(used, expected);
    }
    let ab = edge(&g, "A", "B")[0];
    assert_eq!(ab.timetable.periods.len(), 2);
    assert_eq!(ab.timetable.journeys[0].operating_period, 0);
    assert_eq!(ab.timetable.periods[0].valid_day, vec![0x7F, 0x03]);
    assert_eq!(ab.timetable.periods[1].valid_day, vec![0x01]);
    let bc = edge(&g, "B", "C")[0];
    assert_eq!(bc.timetable.periods.len(), 2);
}

#[test]
fn day_bits_round_trip_through_text() {
    let bits = NetexData::parse_day_bits("1111111011".to_owned()).unwrap();
    assert_eq!(bits, vec![0x7F, 0x03]);
    let g = Graph::from_data(&[network()]).unwrap();
    for e in &g.edges {
        for p in &e.timetable.periods {
            assert_eq!(base64::decode(&p.valid_day_bits).unwrap(), p.valid_day);
        }
    }
}

#[test]
fn local_period_encodes_day_bits() {
    let p = local_period(&period(1, vec![0x7F, 0x03]));
    assert_eq!(p.valid_day_bits, "fwM=");
    assert_eq!(p.valid_day, vec![0x7F, 0x03]);
    assert_eq!(p.from, 220613);
    assert_eq!(p.to, 221213);
}

#[test]
fn compiling_twice_gives_same_graph() {
    let g1 = Graph::from_data(&[network()]).unwrap();
    let g2 = Graph::from_data(&[network()]).unwrap();
    let names1: Vec<&String> = g1.nodes.iter().map(|n| &n.short_name).collect();
    let names2: Vec<&String> = g2.nodes.iter().map(|n| &n.short_name).collect();
    assert_eq!(names1, names2);
    let mut k1: Vec<(usize, usize, usize)> =
        g1.edges.iter().map(|e| (e.start_node, e.end_node, e.timetable.journeys.len())).collect();
    let mut k2: Vec<(usize, usize, usize)> =
        g2.edges.iter().map(|e| (e.start_node, e.end_node, e.timetable.journeys.len())).collect();
    k1.sort();
    k2.sort();
    assert_eq!(k1, k2);
}

#[test]
fn missing_calendar_assignment_aborts() {
    let mut d = network();
    d.service_journeys.push(journey(50, 99, &[(101, 900), (102, 910)]));
    assert_eq!(
        Graph::from_data(&[d]).err(),
        Some(CompileError::MissingCalendarAssignment(99))
    );
}

#[test]
fn unresolved_stop_reference_aborts() {
    let mut d = network();
    d.service_journeys.push(journey(50, 80, &[(101, 900), (555, 910)]));
    assert_eq!(
        Graph::from_data(&[d]).err(),
        Some(CompileError::UnresolvedStopReference(555))
    );
}

#[test]
fn missing_operating_period_aborts() {
    let mut d = network();
    d.day_type_assignments.push(DayTypeAssignment { operating_period: 77, day_type: 82, is_available: true });
    d.service_journeys.push(journey(50, 82, &[(101, 900), (102, 910)]));
    assert_eq!(
        Graph::from_data(&[d]).err(),
        Some(CompileError::MissingOperatingPeriod(77))
    );
}

#[test]
fn unresolved_line_reference_aborts() {
    let mut d = network();
    d.service_journeys.push(journey(51, 80, &[(101, 900), (102, 910)]));
    assert_eq!(
        Graph::from_data(&[d]).err(),
        Some(CompileError::UnresolvedLineReference(51))
    );
}

#[test]
fn later_dataset_overrides_line_name() {
    let a = network();
    let mut b = empty();
    b.lines = vec![Line { id: 7, short_name: "L7-new".to_owned(), authority: 9 }];
    let g = Graph::from_data(&[a, b]).unwrap();
    assert_eq!(edge(&g, "A", "B")[0].timetable.journeys[0].line, "L7-new");
}

#[test]
fn journeys_of_several_datasets_share_an_edge() {
    let a = network();
    let mut b = empty();
    b.scheduled_stop_points = vec![stop(11, "A", 9.0, 9.0), stop(12, "B", 9.0, 9.0)];
    b.service_journey_patterns = vec![pattern(60, 7, &[(201, 11), (202, 12)])];
    b.operating_periods = vec![period(90, vec![0xFF])];
    b.day_type_assignments = vec![DayTypeAssignment { operating_period: 90, day_type: 91, is_available: true }];
    b.service_journeys = vec![journey(60, 91, &[(201, 1000), (202, 1010)])];
    let g = Graph::from_data(&[a, b]).unwrap();
    assert_eq!(g.nodes.len(), 3);
    let ab = edge(&g, "A", "B");
    assert_eq!(ab.len(), 1);
    assert_eq!(ab[0].timetable.journeys.len(), 3);
    assert_eq!(ab[0].timetable.periods.len(), 3);
    assert_eq!(ab[0].timetable.periods[2].valid_day, vec![0xFF]);
}

#[test]
fn empty_input_gives_empty_graph() {
    let g = Graph::from_data(&[]).unwrap();
    assert!(g.nodes.is_empty());
    assert!(g.edges.is_empty());
}

#[test]
fn global_period_lookup_spans_datasets() {
    let mut a = empty();
    a.operating_periods = vec![period(1, vec![1]), period(2, vec![2])];
    let mut b = empty();
    b.operating_periods = vec![period(3, vec![3])];
    let data = vec![a, b];
    assert_eq!(lookup_operating_period(&data, 0).unwrap().id, 1);
    assert_eq!(lookup_operating_period(&data, 1).unwrap().id, 2);
    assert_eq!(lookup_operating_period(&data, 2).unwrap().id, 3);
    assert!(lookup_operating_period(&data, 3).is_none());
}

#[test]
fn last_match() {
    let keys = vec![5, 7, 5, 9];
    assert_eq!(find_last(&keys, 5), Some(2));
    assert_eq!(find_last(&keys, 9), Some(3));
    assert_eq!(find_last(&keys, 8), None);
}

#[test]
fn first_pattern_point_definition_wins() {
    let mut d = network();
    d.service_journey_patterns.push(pattern(51, 7, &[(101, 3)]));
    let g = Graph::from_data(&[d]).unwrap();
    assert_eq!(edge(&g, "A", "B").len(), 1);
    assert_eq!(edge(&g, "C", "B").len(), 0);
}

#[test]
fn later_stop_with_same_id_overrides_alias() {
    let a = network();
    let mut b = empty();
    b.scheduled_stop_points = vec![stop(1, "D", 3.0, 3.0)];
    let g = Graph::from_data(&[a, b]).unwrap();
    assert_eq!(g.nodes.len(), 4);
    assert_eq!(edge(&g, "D", "B").len(), 1);
    assert_eq!(edge(&g, "A", "B").len(), 0);
}

#[test]
fn single_passing_time_adds_no_edge() {
    let mut d = network();
    d.service_journeys = vec![journey(50, 80, &[(101, 600)])];
    let g = Graph::from_data(&[d]).unwrap();
    assert!(g.edges.is_empty());
    assert_eq!(g.nodes.len(), 3);
}

#[test]
fn journey_without_windows_still_needs_calendar() {
    let mut d = network();
    d.service_journeys.push(journey(50, 99, &[(101, 900)]));
    assert_eq!(
        Graph::from_data(&[d]).err(),
        Some(CompileError::MissingCalendarAssignment(99))
    );
}

#[test]
fn unused_pattern_stop_reference_aborts() {
    let mut d = network();
    d.service_journey_patterns.push(pattern(52, 7, &[(301, 444)]));
    assert_eq!(
        Graph::from_data(&[d]).err(),
        Some(CompileError::UnresolvedStopReference(444))
    );
}

#[test]
fn lone_passing_time_with_unknown_point_aborts() {
    let mut d = network();
    d.service_journeys.push(journey(50, 80, &[(777, 900)]));
    assert_eq!(
        Graph::from_data(&[d]).err(),
        Some(CompileError::UnresolvedStopReference(777))
    );
}
