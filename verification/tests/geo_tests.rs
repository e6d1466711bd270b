use delivery_planner::error::{DeliveryFailure, RouteError};
use delivery_planner::geo::{
    angle_between_2_lines, angle_of_line, CommandType, DeliveryCommand, DeliveryRequest,
    DeliveryResult, GeoCoord, StreetSegment, DEGREE, FULL_TURN, HALF_TURN, UNITS_PER_MILE,
};

fn seg(bearing: i32) -> StreetSegment {
    let a = GeoCoord::from("1", "1");
    let b = GeoCoord::from("2", "2");
    StreetSegment::from(&a, &b, "Elm", 10, bearing)
}

#[test]
fn units_are_as_documented() {
    assert_eq!(UNITS_PER_MILE, 1_000_000);
    assert_eq!(DEGREE, 1_000);
    assert_eq!(HALF_TURN, 180 * DEGREE);
    assert_eq!(FULL_TURN, 360 * DEGREE);
}

#[test]
fn default_coordinate_is_zero_zero() {
    let c = GeoCoord::new();
    assert_eq!(c.lat_text(), "0");
    assert_eq!(c.lon_text(), "0");
    assert!(c == GeoCoord::from("0", "0"));
}

#[test]
fn coordinates_are_compared_by_text() {
    let a = GeoCoord::from("34.05", "-118.25");
    let b = GeoCoord::from("34.05", "-118.25");
    let c = GeoCoord::from("34.050", "-118.25");
    let d = GeoCoord::from("34.05", "-118.250");
    assert!(a == b);
    assert!(a != c);
    assert!(a != d);
    assert!(a.clone() == a);
    assert_eq!(c.lat_text(), "34.050");
    assert_eq!(d.lon_text(), "-118.250");
}

#[test]
fn coordinates_are_ordered_by_latitude_text_then_longitude_text() {
    let a = GeoCoord::from("1", "9");
    let b = GeoCoord::from("2", "0");
    let c = GeoCoord::from("2", "1");
    assert!(a < b);
    assert!(b < c);
    assert!(GeoCoord::from("10", "0") < GeoCoord::from("9", "0"));
}

#[test]
fn default_segment_is_empty() {
    let s = StreetSegment::new();
    assert!(s.start == GeoCoord::new());
    assert!(s.end == GeoCoord::new());
    assert_eq!(s.name, "");
    assert_eq!(s.length(), 0);
    assert_eq!(s.bearing, 0);
}

#[test]
fn segment_keeps_what_it_is_given() {
    let a = GeoCoord::from("1", "2");
    let b = GeoCoord::from("3", "4");
    let s = StreetSegment::from(&a, &b, "Broadway", 1234, -45_000);
    assert!(s.start == a);
    assert!(s.end == b);
    assert_eq!(s.name, "Broadway");
    assert_eq!(s.length(), 1234);
    assert_eq!(s.length, 1234);
    assert_eq!(s.bearing, -45_000);
    let c = s.clone();
    assert_eq!(c.name, "Broadway");
    assert_eq!(c.length, 1234);
    assert_eq!(c.bearing, -45_000);
}

#[test]
fn reverse_segment_swaps_ends_and_turns_half_round() {
    let a = GeoCoord::from("1", "2");
    let b = GeoCoord::from("3", "4");
    let s = StreetSegment::from(&a, &b, "Broadway", 77, 30_000);
    let r = s.reverse_segment();
    assert!(r.start == b);
    assert!(r.end == a);
    assert_eq!(r.name, "Broadway");
    assert_eq!(r.length, 77);
    assert_eq!(r.bearing, -150_000);
}

#[test]
fn reverse_bearing_cases() {
    assert_eq!(seg(0).reverse_segment().bearing, 180_000);
    assert_eq!(seg(1).reverse_segment().bearing, -179_999);
    assert_eq!(seg(90_000).reverse_segment().bearing, -90_000);
    assert_eq!(seg(-90_000).reverse_segment().bearing, 90_000);
    assert_eq!(seg(180_000).reverse_segment().bearing, 0);
    assert_eq!(seg(-180_000).reverse_segment().bearing, 0);
    assert_eq!(seg(i32::MAX).reverse_segment().bearing, i32::MAX - 180_000);
    assert_eq!(seg(i32::MIN).reverse_segment().bearing, i32::MIN + 180_000);
}

#[test]
fn segments_are_equal_when_their_ends_are() {
    let a = GeoCoord::from("1", "2");
    let b = GeoCoord::from("3", "4");
    let s = StreetSegment::from(&a, &b, "Broadway", 77, 30_000);
    let t = StreetSegment::from(&a, &b, "Main", 5, 0);
    assert!(s == t);
    assert!(s != s.reverse_segment());
}

#[test]
fn delivery_request_keeps_item_and_place() {
    let a = GeoCoord::from("1", "2");
    let r = DeliveryRequest::from("Book", &a);
    assert_eq!(r.item, "Book");
    assert!(r.location == a);
    let c = r.clone();
    assert_eq!(c.item, "Book");
    assert!(c.location == a);
}

#[test]
fn proceed_command_fields() {
    let c = DeliveryCommand::new_proceed("north".to_string(), "Elm".to_string(), 12);
    assert_eq!(c.kind(), CommandType::Proceed);
    assert_eq!(c.direction(), "north");
    assert_eq!(c.street_name(), "Elm");
    assert_eq!(c.item(), "");
    assert_eq!(c.distance(), 12);
}

#[test]
fn turn_command_fields() {
    let c = DeliveryCommand::new_turn("left".to_string(), "Elm".to_string());
    assert_eq!(c.kind(), CommandType::Turn);
    assert_eq!(c.direction(), "left");
    assert_eq!(c.street_name(), "Elm");
    assert_eq!(c.item(), "");
    assert_eq!(c.distance(), 0);
}

#[test]
fn deliver_command_fields() {
    let c = DeliveryCommand::new_deliver("Book".to_string());
    assert_eq!(c.kind(), CommandType::Deliver);
    assert_eq!(c.direction(), "");
    assert_eq!(c.street_name(), "");
    assert_eq!(c.item(), "Book");
    assert_eq!(c.distance(), 0);
}

#[test]
fn default_command_is_invalid() {
    let c = DeliveryCommand::default();
    assert_eq!(c.kind(), CommandType::Invalid);
    assert_eq!(c.direction(), "");
    assert_eq!(c.street_name(), "");
    assert_eq!(c.item(), "");
    assert_eq!(c.distance(), 0);
}

#[test]
fn init_methods_change_only_their_fields() {
    let mut c = DeliveryCommand::new_deliver("Book".to_string());
    c.init_proceed("east".to_string(), "Elm".to_string(), 9);
    assert_eq!(c.kind(), CommandType::Proceed);
    assert_eq!(c.direction(), "east");
    assert_eq!(c.street_name(), "Elm");
    assert_eq!(c.item(), "Book");
    assert_eq!(c.distance(), 9);
    c.init_turn("right".to_string(), "Oak".to_string());
    assert_eq!(c.kind(), CommandType::Turn);
    assert_eq!(c.direction(), "right");
    assert_eq!(c.street_name(), "Oak");
    assert_eq!(c.item(), "Book");
    assert_eq!(c.distance(), 9);
    c.init_deliver("Lamp".to_string());
    assert_eq!(c.kind(), CommandType::Deliver);
    assert_eq!(c.direction(), "right");
    assert_eq!(c.street_name(), "Oak");
    assert_eq!(c.item(), "Lamp");
    assert_eq!(c.distance(), 9);
}

#[test]
fn increase_distance_adds() {
    let mut c = DeliveryCommand::new_proceed("north".to_string(), "Elm".to_string(), 12);
    c.increase_distance(30);
    assert_eq!(c.distance(), 42);
    c.increase_distance(0);
    assert_eq!(c.distance(), 42);
    c.increase_distance(u64::MAX - 42);
    assert_eq!(c.distance(), u64::MAX);
    assert_eq!(c.clone().distance(), u64::MAX);
}

#[test]
fn angle_of_line_adds_a_full_turn_to_negative_bearings() {
    assert_eq!(angle_of_line(&seg(0)), 0);
    assert_eq!(angle_of_line(&seg(90_000)), 90_000);
    assert_eq!(angle_of_line(&seg(180_000)), 180_000);
    assert_eq!(angle_of_line(&seg(-1)), 359_999);
    assert_eq!(angle_of_line(&seg(-90_000)), 270_000);
    assert_eq!(angle_of_line(&seg(-180_000)), 180_000);
}

#[test]
fn angle_between_lines_is_the_change_of_bearing() {
    assert_eq!(angle_between_2_lines(&seg(0), &seg(0)), 0);
    assert_eq!(angle_between_2_lines(&seg(0), &seg(90_000)), 90_000);
    assert_eq!(angle_between_2_lines(&seg(90_000), &seg(0)), 270_000);
    assert_eq!(angle_between_2_lines(&seg(170_000), &seg(-170_000)), 20_000);
    assert_eq!(angle_between_2_lines(&seg(-170_000), &seg(170_000)), 340_000);
    assert_eq!(angle_between_2_lines(&seg(-180_000), &seg(180_000)), 360_000);
    assert_eq!(angle_between_2_lines(&seg(180_000), &seg(-180_000)), 0);
    assert_eq!(angle_between_2_lines(&seg(0), &seg(180_000)), 180_000);
}

#[test]
fn angle_between_lines_out_of_range_bearings() {
    assert_eq!(angle_between_2_lines(&seg(-200_000), &seg(200_000)), 40_000);
    assert_eq!(angle_between_2_lines(&seg(i32::MAX), &seg(i32::MIN)), -4_294_607_295);
}

#[test]
fn delivery_results_differ() {
    assert_ne!(DeliveryResult::DeliverySuccess, DeliveryResult::NoRoute);
    assert_ne!(DeliveryResult::NoRoute, DeliveryResult::BadCoord);
}

#[test]
fn route_error_keeps_its_kind() {
    assert_eq!(RouteError::new(DeliveryFailure::BadCoord).kind(), DeliveryFailure::BadCoord);
    assert_eq!(RouteError::new(DeliveryFailure::NoRoute).kind(), DeliveryFailure::NoRoute);
    assert_eq!(RouteError::new(DeliveryFailure::Other).kind, DeliveryFailure::Other);
}

#[test]
fn route_error_messages() {
    assert_eq!(
        RouteError::new(DeliveryFailure::BadCoord).message(),
        "One or more depot/delivery coordinates are invalid."
    );
    assert_eq!(
        RouteError::new(DeliveryFailure::NoRoute).message(),
        "No route can be found to deliver all items."
    );
    assert_eq!(RouteError::new(DeliveryFailure::Other).message(), "An unknown error has occured.");
}
