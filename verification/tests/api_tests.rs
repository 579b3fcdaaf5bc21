use solari::api::{LatLng, ResponseStatus, SolariItinerary, SolariLeg, SolariResponse};

fn at(lat: i64, lon: i64, stop: Option<&str>) -> LatLng {
    LatLng { lat, lon, stop: stop.map(|s| s.to_string()) }
}

fn ride(start: i64, end: i64, from: LatLng, to: LatLng, route: &str, shape: Option<&str>) -> SolariLeg {
    SolariLeg::Transit {
        start_time: start,
        end_time: end,
        start_location: from,
        end_location: to,
        route_shape: shape.map(|s| s.to_string()),
        transit_route: Some(route.to_string()),
        transit_agency: Some("Metro".to_string()),
    }
}

fn walk(start: i64, end: i64, from: LatLng, to: LatLng) -> SolariLeg {
    SolariLeg::Transfer {
        start_time: start,
        end_time: end,
        start_location: from,
        end_location: to,
        route_shape: None,
    }
}

fn trip(legs: Vec<SolariLeg>) -> SolariItinerary {
    SolariItinerary {
        start_location: at(47_600_000_000, -122_300_000_000, None),
        end_location: at(47_700_000_000, -122_200_000_000, None),
        start_time: 1_000,
        end_time: 9_000,
        legs,
    }
}

#[test]
fn positions_coincide_within_ten_nanodegrees() {
    let a = at(47_600_000_000, -122_300_000_000, Some("A"));
    assert!(a == at(47_600_000_009, -122_300_000_009, Some("A")));
    assert!(a == at(47_599_999_991, -122_300_000_000, Some("A")));
    assert!(a != at(47_600_000_010, -122_300_000_000, Some("A")));
    assert!(a != at(47_600_000_000, -122_300_000_010, Some("A")));
    assert!(a != at(47_600_000_000, -122_300_000_000, Some("B")));
    assert!(a != at(47_600_000_000, -122_300_000_000, None));
}

#[test]
fn positions_at_the_ends_of_the_range_do_not_overflow() {
    let a = at(i64::MAX, i64::MIN, None);
    let b = at(i64::MIN, i64::MAX, None);
    assert!(a != b);
    assert!(a == a.copy());
    assert!(!a.is_valid());
    assert!(at(90_000_000_000, 180_000_000_000, None).is_valid());
    assert!(!at(90_000_000_001, 0, None).is_valid());
}

#[test]
fn itineraries_with_matching_legs_are_equal() {
    let a = at(1, 1, Some("A"));
    let b = at(2, 2, Some("B"));
    let one = trip(vec![ride(1_000, 9_000, a.copy(), b.copy(), "7", Some("shape"))]);
    let two = trip(vec![ride(1_000, 9_000, a.copy(), b.copy(), "7", Some("shape"))]);
    assert!(one == two);
}

#[test]
fn rides_that_board_one_stop_apart_are_the_same_ride() {
    let a = at(1, 1, Some("A"));
    let a2 = at(500, 500, Some("A2"));
    let b = at(2, 2, Some("B"));
    let one = trip(vec![ride(1_000, 9_000, a.copy(), b.copy(), "7", Some("x"))]);
    let two = trip(vec![ride(1_500, 9_000, a2.copy(), b.copy(), "7", Some("y"))]);
    assert!(one == two);
    let late = trip(vec![ride(1_500, 9_500, a2.copy(), b.copy(), "7", Some("y"))]);
    assert!(one != late);
}

#[test]
fn rides_between_the_same_stops_need_the_same_shape() {
    let a = at(1, 1, Some("A"));
    let b = at(2, 2, Some("B"));
    let one = trip(vec![ride(1_000, 9_000, a.copy(), b.copy(), "7", Some("x"))]);
    let two = trip(vec![ride(1_000, 9_000, a.copy(), b.copy(), "7", Some("y"))]);
    assert!(one != two);
}

#[test]
fn rides_on_other_routes_or_with_no_common_stop_differ() {
    let a = at(1, 1, Some("A"));
    let b = at(2, 2, Some("B"));
    let c = at(3_000, 3_000, Some("C"));
    let d = at(4_000, 4_000, Some("D"));
    let one = trip(vec![ride(1_000, 9_000, a.copy(), b.copy(), "7", None)]);
    assert!(one != trip(vec![ride(1_000, 9_000, a.copy(), b.copy(), "8", None)]));
    assert!(one != trip(vec![ride(1_000, 9_000, c.copy(), d.copy(), "7", None)]));
}

#[test]
fn a_ride_never_matches_a_walk() {
    let a = at(1, 1, Some("A"));
    let b = at(2, 2, Some("B"));
    let one = trip(vec![ride(1_000, 9_000, a.copy(), b.copy(), "7", None)]);
    let two = trip(vec![walk(1_000, 9_000, a.copy(), b.copy())]);
    assert!(one != two);
    assert!(two != one);
}

#[test]
fn walks_match_on_one_end_and_one_time() {
    let a = at(1, 1, Some("A"));
    let b = at(2, 2, Some("B"));
    let c = at(3_000, 3_000, Some("C"));
    let one = trip(vec![walk(1_000, 9_000, a.copy(), b.copy())]);
    assert!(one == trip(vec![walk(1_000, 8_000, a.copy(), c.copy())]));
    assert!(one != trip(vec![walk(2_000, 8_000, a.copy(), c.copy())]));
    assert!(one != trip(vec![walk(1_000, 9_000, c.copy(), c.copy())]));
}

#[test]
fn itineraries_differ_in_ends_times_or_length() {
    let a = at(1, 1, Some("A"));
    let b = at(2, 2, Some("B"));
    let one = trip(vec![walk(1_000, 9_000, a.copy(), b.copy())]);
    let mut other = trip(vec![walk(1_000, 9_000, a.copy(), b.copy())]);
    other.end_time = 9_001;
    assert!(one != other);
    let mut moved = trip(vec![walk(1_000, 9_000, a.copy(), b.copy())]);
    moved.start_location = at(0, 0, None);
    assert!(one != moved);
    let longer = trip(vec![walk(1_000, 9_000, a.copy(), b.copy()), walk(1_000, 9_000, a.copy(), b.copy())]);
    assert!(one != longer);
    assert!(trip(vec![]) == trip(vec![]));
}

#[test]
fn legs_are_equal_field_by_field() {
    let a = at(1, 1, Some("A"));
    let b = at(2, 2, Some("B"));
    assert!(ride(1, 2, a.copy(), b.copy(), "7", None) == ride(1, 2, a.copy(), b.copy(), "7", None));
    assert!(ride(1, 2, a.copy(), b.copy(), "7", None) != ride(1, 3, a.copy(), b.copy(), "7", None));
    assert!(ride(1, 2, a.copy(), b.copy(), "7", None) != ride(1, 2, a.copy(), b.copy(), "7", Some("s")));
    assert!(walk(1, 2, a.copy(), b.copy()) == walk(1, 2, a.copy(), b.copy()));
    assert!(walk(1, 2, a.copy(), b.copy()) != ride(1, 2, a.copy(), b.copy(), "7", None));
    let leg = ride(1, 2, a.copy(), b.copy(), "7", None);
    assert!(leg.is_transit());
    assert_eq!(leg.start_time(), 1);
    assert_eq!(leg.end_time(), 2);
    assert!(*leg.start_location() == a);
    assert!(*leg.end_location() == b);
}

#[test]
fn responses_compare_status_and_itineraries() {
    let a = at(1, 1, Some("A"));
    let b = at(2, 2, Some("B"));
    let ok = SolariResponse {
        status: ResponseStatus::Success,
        itineraries: vec![trip(vec![walk(1_000, 9_000, a.copy(), b.copy())])],
    };
    let same = SolariResponse {
        status: ResponseStatus::Success,
        itineraries: vec![trip(vec![walk(1_000, 9_000, a.copy(), b.copy())])],
    };
    let none = SolariResponse { status: ResponseStatus::NoRouteFound, itineraries: vec![] };
    assert!(ok == same);
    assert!(ok != none);
    assert!(none == SolariResponse { status: ResponseStatus::NoRouteFound, itineraries: vec![] });
    assert!(none != SolariResponse { status: ResponseStatus::TooLate, itineraries: vec![] });
}

#[test]
fn statuses_have_their_wire_names() {
    assert_eq!(ResponseStatus::Success.wire_name(), "ok");
    assert_eq!(ResponseStatus::NoRouteFound.wire_name(), "no_route_found");
    assert_eq!(ResponseStatus::TooEarly.wire_name(), "too_early");
    assert_eq!(ResponseStatus::TooLate.wire_name(), "too_late");
}
