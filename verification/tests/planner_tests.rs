use delivery_planner::error::DeliveryFailure;
use delivery_planner::geo::{
    CommandType, DeliveryCommand, DeliveryRequest, GeoCoord, StreetSegment, UNITS_PER_MILE,
};
use delivery_planner::optimizer::DeliveryOptimizer;
use delivery_planner::planner::{
    compile_commands, proceed_dir, turn_dir, CommandCompiler, DeliveryPlanner,
};
use delivery_planner::street_map::StreetMap;

fn coord(lat: f64, lon: f64) -> GeoCoord {
    GeoCoord::from(&format!("{}", lat), &format!("{}", lon))
}

fn lat_lon(c: &GeoCoord) -> (f64, f64) {
    (c.lat_text().trim().parse().unwrap(), c.lon_text().trim().parse().unwrap())
}

fn miles(a: &GeoCoord, b: &GeoCoord) -> f64 {
    let (lat1, lon1) = lat_lon(a);
    let (lat2, lon2) = lat_lon(b);
    let (lat1r, lon1r, lat2r, lon2r) =
        (lat1.to_radians(), lon1.to_radians(), lat2.to_radians(), lon2.to_radians());
    let u = ((lat2r - lat1r) / 2.0).sin();
    let v = ((lon2r - lon1r) / 2.0).sin();
    2.0 * 6371.0 * (u * u + lat1r.cos() * lat2r.cos() * v * v).sqrt().asin() / 1.609344
}

fn units(a: &GeoCoord, b: &GeoCoord) -> u64 {
    (miles(a, b) * UNITS_PER_MILE as f64).floor() as u64
}

fn bearing(a: &GeoCoord, b: &GeoCoord) -> i32 {
    let (lat1, lon1) = lat_lon(a);
    let (lat2, lon2) = lat_lon(b);
    ((lat2 - lat1).atan2(lon2 - lon1).to_degrees() * 1000.0).round() as i32
}

fn street(sm: &mut StreetMap, a: &GeoCoord, b: &GeoCoord, name: &str) {
    sm.add_street(StreetSegment::from(a, b, name, units(a, b), bearing(a, b)));
}

fn seg(name: &str, length: u64, bearing: i32) -> StreetSegment {
    StreetSegment::from(&GeoCoord::from("a", "b"), &GeoCoord::from("c", "d"), name, length, bearing)
}

fn show(c: &DeliveryCommand) -> String {
    match c.kind() {
        CommandType::Invalid => "<invalid>".to_string(),
        CommandType::Proceed => {
            format!("Proceed {} on {} for {}", c.direction(), c.street_name(), c.distance())
        },
        CommandType::Turn => format!("Turn {} on {}", c.direction(), c.street_name()),
        CommandType::Deliver => format!("Deliver {}", c.item()),
    }
}

fn shown(commands: &[DeliveryCommand]) -> Vec<String> {
    commands.iter().map(show).collect()
}

fn leg_commands(leg: Vec<StreetSegment>) -> Vec<String> {
    shown(&compile_commands(&vec![leg], &Vec::new()))
}

#[test]
fn compass_sectors() {
    assert_eq!(proceed_dir(0), "east");
    assert_eq!(proceed_dir(22_499), "east");
    assert_eq!(proceed_dir(22_500), "northeast");
    assert_eq!(proceed_dir(67_499), "northeast");
    assert_eq!(proceed_dir(67_500), "north");
    assert_eq!(proceed_dir(90_000), "north");
    assert_eq!(proceed_dir(112_500), "northwest");
    assert_eq!(proceed_dir(157_500), "west");
    assert_eq!(proceed_dir(180_000), "west");
    assert_eq!(proceed_dir(202_499), "west");
    assert_eq!(proceed_dir(202_500), "southwest");
    assert_eq!(proceed_dir(247_499), "southwest");
    assert_eq!(proceed_dir(247_501), "south");
    assert_eq!(proceed_dir(270_000), "south");
    assert_eq!(proceed_dir(292_499), "south");
    assert_eq!(proceed_dir(292_500), "southeast");
    assert_eq!(proceed_dir(337_499), "southeast");
    assert_eq!(proceed_dir(337_500), "east");
    assert_eq!(proceed_dir(359_999), "east");
}

#[test]
fn compass_gap_and_headings_outside_a_turn_count_as_east() {
    assert_eq!(proceed_dir(247_500), "east");
    assert_eq!(proceed_dir(360_000), "east");
    assert_eq!(proceed_dir(400_000), "east");
    assert_eq!(proceed_dir(-1), "east");
    assert_eq!(proceed_dir(-90_000), "east");
    assert_eq!(proceed_dir(i64::MAX), "east");
    assert_eq!(proceed_dir(i64::MIN), "east");
}

#[test]
fn turn_sides() {
    assert_eq!(turn_dir(1_001), "left");
    assert_eq!(turn_dir(90_000), "left");
    assert_eq!(turn_dir(179_999), "left");
    assert_eq!(turn_dir(180_001), "right");
    assert_eq!(turn_dir(270_000), "right");
    assert_eq!(turn_dir(358_999), "right");
}

#[test]
fn turn_has_no_side_at_the_edges() {
    assert_eq!(turn_dir(0), "");
    assert_eq!(turn_dir(1_000), "");
    assert_eq!(turn_dir(180_000), "");
    assert_eq!(turn_dir(359_000), "");
    assert_eq!(turn_dir(360_000), "");
    assert_eq!(turn_dir(-5), "");
    assert_eq!(turn_dir(500_000), "");
}

#[test]
fn one_segment_gives_one_proceed() {
    assert_eq!(leg_commands(vec![seg("Elm", 12, 90_000)]), vec!["Proceed north on Elm for 12"]);
    assert_eq!(leg_commands(vec![seg("Elm", 12, -90_000)]), vec!["Proceed south on Elm for 12"]);
}

#[test]
fn empty_leg_gives_no_command() {
    assert!(leg_commands(vec![]).is_empty());
}

#[test]
fn same_named_segments_merge_into_one_proceed() {
    let got = leg_commands(vec![seg("Elm", 12, 90_000), seg("Elm", 30, 0)]);
    assert_eq!(got, vec!["Proceed north on Elm for 42"]);
    let got = leg_commands(vec![
        seg("Elm", 1, 180_000),
        seg("Elm", 2, 90_000),
        seg("Elm", 3, 0),
        seg("Elm", u64::MAX - 6, -90_000),
    ]);
    assert_eq!(got, vec![format!("Proceed west on Elm for {}", u64::MAX)]);
}

#[test]
fn left_turn_onto_another_street() {
    let got = leg_commands(vec![seg("Elm", 10, 0), seg("Oak", 20, 90_000)]);
    assert_eq!(got, vec!["Proceed east on Elm for 10", "Turn left on Oak", "Proceed north on Oak for 20"]);
    let got = leg_commands(vec![seg("Elm", 10, 0), seg("Oak", 20, 1_001)]);
    assert_eq!(got[1], "Turn left on Oak");
    let got = leg_commands(vec![seg("Elm", 10, 0), seg("Oak", 20, 179_999)]);
    assert_eq!(got[1], "Turn left on Oak");
}

#[test]
fn right_turn_onto_another_street() {
    let got = leg_commands(vec![seg("Elm", 10, 0), seg("Oak", 20, -90_000)]);
    assert_eq!(got, vec!["Proceed east on Elm for 10", "Turn right on Oak", "Proceed south on Oak for 20"]);
    let got = leg_commands(vec![seg("Elm", 10, 0), seg("Oak", 20, -179_999)]);
    assert_eq!(got[1], "Turn right on Oak");
    let got = leg_commands(vec![seg("Elm", 10, 0), seg("Oak", 20, -1_001)]);
    assert_eq!(got[1], "Turn right on Oak");
}

#[test]
fn straight_on_gives_no_turn() {
    for b in [0, 999, -999, 1, -1] {
        let got = leg_commands(vec![seg("Elm", 10, 0), seg("Oak", 20, b)]);
        assert_eq!(got, vec!["Proceed east on Elm for 10", "Proceed east on Oak for 20"]);
    }
    let got = leg_commands(vec![seg("Elm", 10, -180_000), seg("Oak", 20, 180_000)]);
    assert_eq!(got, vec!["Proceed west on Elm for 10", "Proceed west on Oak for 20"]);
    let got = leg_commands(vec![seg("Elm", 10, 90_000), seg("Oak", 20, 90_500)]);
    assert_eq!(got, vec!["Proceed north on Elm for 10", "Proceed north on Oak for 20"]);
}

#[test]
fn turn_without_a_side_at_exactly_one_degree_and_half_a_turn() {
    let got = leg_commands(vec![seg("Elm", 10, 0), seg("Oak", 20, 1_000)]);
    assert_eq!(got, vec!["Proceed east on Elm for 10", "Turn  on Oak", "Proceed east on Oak for 20"]);
    let got = leg_commands(vec![seg("Elm", 10, 0), seg("Oak", 20, -1_000)]);
    assert_eq!(got[1], "Turn  on Oak");
    let got = leg_commands(vec![seg("Elm", 10, 0), seg("Oak", 20, 180_000)]);
    assert_eq!(got, vec!["Proceed east on Elm for 10", "Turn  on Oak", "Proceed west on Oak for 20"]);
}

#[test]
fn turn_is_measured_from_the_segment_before() {
    let got = leg_commands(vec![seg("Elm", 10, 0), seg("Elm", 5, 90_000), seg("Oak", 20, 180_000)]);
    assert_eq!(got, vec!["Proceed east on Elm for 15", "Turn left on Oak", "Proceed west on Oak for 20"]);
}

#[test]
fn back_onto_the_first_street_begins_a_new_proceed() {
    let got = leg_commands(vec![seg("Elm", 1, 0), seg("Oak", 2, 90_000), seg("Elm", 4, 0)]);
    assert_eq!(
        got,
        vec![
            "Proceed east on Elm for 1",
            "Turn left on Oak",
            "Proceed north on Oak for 2",
            "Turn right on Elm",
            "Proceed east on Elm for 4"
        ]
    );
}

#[test]
fn every_leg_begins_anew_and_ends_with_its_delivery() {
    let a = GeoCoord::from("0", "0");
    let stops = vec![DeliveryRequest::from("Book", &a), DeliveryRequest::from("Lamp", &a)];
    let legs = vec![
        vec![seg("Elm", 1, 0), seg("Elm", 2, 0)],
        vec![],
        vec![seg("Elm", 4, 180_000), seg("Oak", 8, 90_000)],
    ];
    let got = shown(&compile_commands(&legs, &stops));
    assert_eq!(
        got,
        vec![
            "Proceed east on Elm for 3",
            "Deliver Book",
            "Deliver Lamp",
            "Proceed west on Elm for 4",
            "Turn right on Oak",
            "Proceed north on Oak for 8"
        ]
    );
}

#[test]
fn more_stops_than_legs_and_more_legs_than_stops() {
    let a = GeoCoord::from("0", "0");
    let stops = vec![DeliveryRequest::from("Book", &a), DeliveryRequest::from("Lamp", &a)];
    let got = shown(&compile_commands(&vec![vec![seg("Elm", 1, 0)]], &stops));
    assert_eq!(got, vec!["Proceed east on Elm for 1", "Deliver Book"]);
    let legs = vec![vec![seg("Elm", 1, 0)], vec![seg("Elm", 2, 0)], vec![seg("Elm", 3, 0)]];
    let got = shown(&compile_commands(&legs, &stops[..1].to_vec()));
    assert_eq!(
        got,
        vec![
            "Proceed east on Elm for 1",
            "Deliver Book",
            "Proceed east on Elm for 2",
            "Proceed east on Elm for 3"
        ]
    );
    assert!(compile_commands(&Vec::new(), &stops).is_empty());
}

#[test]
fn compiler_fed_by_hand() {
    let mut c = CommandCompiler::new();
    c.segment(&seg("Elm", 1, 0));
    c.segment(&seg("Elm", 2, 0));
    c.end_leg();
    c.deliver("Book");
    c.end_leg();
    c.segment(&seg("Oak", 5, -90_000));
    let unfinished = shown(&c.finish());
    assert_eq!(unfinished, vec!["Proceed east on Elm for 3", "Deliver Book"]);
}

#[test]
fn plan_for_one_delivery_on_one_street() {
    let depot = coord(0.0, 0.0);
    let there = coord(0.0, 1.0);
    let mut sm = StreetMap::new();
    street(&mut sm, &depot, &there, "Main St");
    let d = units(&depot, &there);
    assert!((d as f64 / UNITS_PER_MILE as f64 - 69.09).abs() < 0.01);
    let planner = DeliveryPlanner::new(&sm);
    let (commands, total) = planner
        .generate_plan(depot.clone(), vec![DeliveryRequest::from("Book", &there)], &units)
        .unwrap();
    assert_eq!(
        shown(&commands),
        vec![
            format!("Proceed east on Main St for {}", d),
            "Deliver Book".to_string(),
            format!("Proceed west on Main St for {}", d),
        ]
    );
    assert_eq!(total, 2 * d as u128);
    let text: Vec<String> = commands.iter().map(|c| c.describe()).collect();
    assert_eq!(
        text,
        vec![
            "Proceed east on Main St for 69.09 miles",
            "Deliver Book",
            "Proceed west on Main St for 69.09 miles"
        ]
    );
    assert_eq!(delivery_planner::text::miles(total), "138.19");
}

#[test]
fn plan_without_deliveries() {
    let depot = coord(0.0, 0.0);
    let there = coord(0.0, 1.0);
    let mut sm = StreetMap::new();
    street(&mut sm, &depot, &there, "Main St");
    let planner = DeliveryPlanner::new(&sm);
    let (commands, total) = planner.generate_plan(depot, Vec::new(), &units).unwrap();
    assert!(commands.is_empty());
    assert_eq!(total, 0);
}

#[test]
fn plan_fails_on_a_coordinate_off_the_map() {
    let depot = coord(0.0, 0.0);
    let there = coord(0.0, 1.0);
    let nowhere = coord(5.0, 5.0);
    let mut sm = StreetMap::new();
    street(&mut sm, &depot, &there, "Main St");
    let planner = DeliveryPlanner::new(&sm);
    let stops = vec![DeliveryRequest::from("Book", &there), DeliveryRequest::from("Lamp", &nowhere)];
    let e = planner.generate_plan(depot.clone(), stops.clone(), &units).unwrap_err();
    assert_eq!(e.kind(), DeliveryFailure::BadCoord);
    let e = planner.generate_plan(nowhere, stops[..1].to_vec(), &units).unwrap_err();
    assert_eq!(e.kind(), DeliveryFailure::BadCoord);
    let e = planner.plan_legs(&depot, &stops, &units).unwrap_err();
    assert_eq!(e.kind(), DeliveryFailure::BadCoord);
}

#[test]
fn plan_fails_where_no_route_joins_the_stops() {
    let depot = coord(0.0, 0.0);
    let there = coord(0.0, 1.0);
    let island = coord(9.0, 9.0);
    let shore = coord(9.0, 9.5);
    let mut sm = StreetMap::new();
    street(&mut sm, &depot, &there, "Main St");
    street(&mut sm, &island, &shore, "Beach Rd");
    let planner = DeliveryPlanner::with_optimizer(&sm, DeliveryOptimizer::with_seed(1));
    let stops = vec![DeliveryRequest::from("Book", &there), DeliveryRequest::from("Lamp", &island)];
    let e = planner.generate_plan(depot.clone(), stops.clone(), &units).unwrap_err();
    assert_eq!(e.kind(), DeliveryFailure::NoRoute);
    let e = planner.plan_legs(&depot, &stops, &units).unwrap_err();
    assert_eq!(e.kind(), DeliveryFailure::NoRoute);
    let nowhere = coord(5.0, 5.0);
    let stops = vec![DeliveryRequest::from("Lamp", &island), DeliveryRequest::from("Book", &nowhere)];
    let e = planner.generate_plan(depot.clone(), stops.clone(), &units).unwrap_err();
    assert_eq!(e.kind(), DeliveryFailure::BadCoord);
    let e = planner.plan_legs(&depot, &stops, &units).unwrap_err();
    assert_eq!(e.kind(), DeliveryFailure::NoRoute);
}

#[test]
fn legs_in_the_order_given() {
    let depot = coord(0.0, 0.0);
    let a = coord(0.0, 1.0);
    let b = coord(1.0, 1.0);
    let mut sm = StreetMap::new();
    street(&mut sm, &depot, &a, "Main St");
    street(&mut sm, &a, &b, "High St");
    let planner = DeliveryPlanner::new(&sm);
    let stops = vec![DeliveryRequest::from("Lamp", &b), DeliveryRequest::from("Book", &a)];
    let (legs, total) = planner.plan_legs(&depot, &stops, &units).unwrap();
    let names: Vec<Vec<String>> =
        legs.iter().map(|l| l.iter().map(|s| s.name.clone()).collect()).collect();
    assert_eq!(names, vec![vec!["Main St", "High St"], vec!["High St"], vec!["Main St"]]);
    assert_eq!(total, 2 * (units(&depot, &a) as u128 + units(&a, &b) as u128));
}

#[test]
fn plan_with_turns_delivers_every_item_once() {
    let depot = coord(0.0, 0.0);
    let a = coord(0.0, 1.0);
    let b = coord(1.0, 1.0);
    let c = coord(1.0, 0.0);
    let mut sm = StreetMap::new();
    street(&mut sm, &depot, &a, "South St");
    street(&mut sm, &a, &b, "East St");
    street(&mut sm, &b, &c, "North St");
    street(&mut sm, &c, &depot, "West St");
    let stops = vec![
        DeliveryRequest::from("Book", &a),
        DeliveryRequest::from("Lamp", &b),
        DeliveryRequest::from("Vase", &c),
    ];
    let round = units(&depot, &a) as u128
        + units(&a, &b) as u128
        + units(&b, &c) as u128
        + units(&c, &depot) as u128;
    for seed in 0..5 {
        let planner = DeliveryPlanner::with_optimizer(&sm, DeliveryOptimizer::with_seed(seed));
        let (commands, total) = planner.generate_plan(depot.clone(), stops.clone(), &units).unwrap();
        let mut items: Vec<&str> =
            commands.iter().filter(|c| c.kind() == CommandType::Deliver).map(|c| c.item()).collect();
        let in_plan = items.clone();
        items.sort();
        assert_eq!(items, vec!["Book", "Lamp", "Vase"]);
        assert!(in_plan == vec!["Book", "Lamp", "Vase"] || in_plan == vec!["Vase", "Lamp", "Book"]);
        assert_eq!(total, round);
        let driven: u128 = commands
            .iter()
            .filter(|c| c.kind() == CommandType::Proceed)
            .map(|c| c.distance() as u128)
            .sum();
        assert_eq!(driven, total);
        assert_eq!(commands.iter().filter(|c| c.kind() == CommandType::Turn).count(), 0);
        assert_eq!(commands.iter().filter(|c| c.kind() == CommandType::Proceed).count(), 4);
    }
}
