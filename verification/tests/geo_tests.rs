use solari::compile::{compile, Feed};
use solari::geo::{
    arc_of, arcs_to, meters_of_arc, pick_nearest, reach, same_place, select_near, stop_places,
    stops_within, to_e7, walk_seconds, Place,
};
use solari::raptor::Foot;
use solari::timetable::{Calendar, Stop};

fn stop_at(id: u64, lat: i64, lon: i64) -> Stop {
    Stop { id, code: String::new(), name: format!("S{}", id), lat, lon, parent: None }
}

#[test]
fn arcs_are_turned_into_metres_rounded_down() {
    assert_eq!(meters_of_arc(0), 0);
    assert_eq!(meters_of_arc(-5), 0);
    assert_eq!(meters_of_arc(89), 0);
    assert_eq!(meters_of_arc(90), 1);
    assert_eq!(meters_of_arc(100_000), 1_111);
    assert_eq!(meters_of_arc(10_000_000), 111_195);
    assert_eq!(meters_of_arc(1_800_000_000), 20_015_100);
    assert_eq!(meters_of_arc(i32::MAX), 23_878_944);
}

#[test]
fn walks_take_their_time_at_1_4_metres_a_second() {
    assert_eq!(walk_seconds(0), 0);
    assert_eq!(walk_seconds(1), 1);
    assert_eq!(walk_seconds(7), 5);
    assert_eq!(walk_seconds(14), 10);
    assert_eq!(walk_seconds(15), 11);
    assert_eq!(walk_seconds(1_500), 1_072);
    assert_eq!(walk_seconds(u32::MAX), 3_067_833_783);
}

#[test]
fn a_place_is_in_reach_up_to_the_longest_walk() {
    assert_eq!(reach(100_000, 1_500), Some(794));
    assert_eq!(reach(134_898, 1_500), Some(1_071));
    assert_eq!(reach(134_899, 1_500), Some(1_072));
    assert_eq!(reach(135_000, 1_500), None);
    assert_eq!(reach(0, 0), Some(0));
    assert_eq!(reach(-1, 0), Some(0));
    assert_eq!(reach(90, 0), None);
}

#[test]
fn stops_closer_than_two_metres_are_at_the_same_place() {
    assert!(same_place(0));
    assert!(same_place(179));
    assert!(!same_place(180));
    assert!(same_place(-1));
}

#[test]
fn nanodegrees_are_cut_to_e7_towards_zero() {
    assert_eq!(to_e7(0), Some(0));
    assert_eq!(to_e7(199), Some(1));
    assert_eq!(to_e7(-199), Some(-1));
    assert_eq!(to_e7(-99), Some(0));
    assert_eq!(to_e7(180_000_000_000), Some(1_800_000_000));
    assert_eq!(to_e7(-180_000_000_000), Some(-1_800_000_000));
    assert_eq!(to_e7(180_000_000_001), None);
    assert_eq!(to_e7(i64::MIN), None);
}

#[test]
fn the_globe_gives_the_distance_between_positions() {
    // A hundredth of a degree of latitude.
    assert_eq!(arc_of(47_600_000_000, -122_300_000_000, 47_610_000_000, -122_300_000_000), Some(100_000));
    // A degree of longitude on the equator, and the same at 60 degrees north.
    assert_eq!(arc_of(0, 10_000_000_000, 0, 11_000_000_000), Some(10_000_000));
    let north = arc_of(60_000_000_000, 10_000_000_000, 60_000_000_000, 11_000_000_000).unwrap();
    assert!((4_999_000..=5_000_000).contains(&north));
    assert_eq!(arc_of(1, 2, 1, 2), Some(0));
    assert_eq!(arc_of(0, 0, 0, 180_000_000_000), Some(1_800_000_000));
    assert_eq!(arc_of(200_000_000_000, 0, 0, 0), None);
}

#[test]
fn the_stops_in_reach_are_picked_on_their_arcs() {
    let arcs = vec![Some(0), None, Some(134_899), Some(135_000), Some(-3), Some(100_000)];
    assert_eq!(
        select_near(&arcs, 1_500),
        vec![
            Foot { stop: 0, seconds: 0 },
            Foot { stop: 2, seconds: 1_072 },
            Foot { stop: 4, seconds: 0 },
            Foot { stop: 5, seconds: 794 },
        ]
    );
    assert_eq!(select_near(&arcs, 0), vec![Foot { stop: 0, seconds: 0 }, Foot { stop: 4, seconds: 0 }]);
    assert_eq!(select_near(&vec![], 1_500), vec![]);
    assert_eq!(select_near(&vec![None, None], 1_500), vec![]);
}

#[test]
fn the_place_with_the_least_arc_is_picked() {
    assert_eq!(pick_nearest(&vec![Some(5), None, Some(3), Some(3), Some(9)]), Some(2));
    assert_eq!(pick_nearest(&vec![None, Some(7)]), Some(1));
    assert_eq!(pick_nearest(&vec![None, None]), None);
    assert_eq!(pick_nearest(&vec![]), None);
    assert_eq!(pick_nearest(&vec![Some(-1), Some(-2)]), Some(1));
}

#[test]
fn arcs_are_measured_to_every_place() {
    let places = vec![
        Place { lat: 0, lon: 1_000_000_000 },
        Place { lat: 0, lon: 200_000_000_000 },
        Place { lat: 0, lon: 0 },
    ];
    assert_eq!(arcs_to(&places, 0, 0), vec![Some(10_000_000), None, Some(0)]);
    assert_eq!(arcs_to(&places, 0, 181_000_000_000), vec![None, None, None]);
    assert_eq!(stop_places(&vec![stop_at(1, 5, -7)]), vec![Place { lat: 5, lon: -7 }]);
}

#[test]
fn the_stops_within_walking_distance_are_found() {
    let feed = Feed {
        stops: vec![
            stop_at(1, 47_600_000_000, -122_300_000_000),
            stop_at(2, 47_610_000_000, -122_300_000_000),
            stop_at(3, 47_650_000_000, -122_300_000_000),
            stop_at(4, 47_600_000_000, -122_300_100_000),
        ],
        routes: vec![],
        trips: vec![],
        calendar: Calendar { start_day: 0, num_days: 1 },
    };
    let tt = compile(feed, String::new()).unwrap();
    let near = stops_within(&tt, 47_600_000_000, -122_300_000_000, 1_500);
    assert_eq!(near.len(), 3);
    assert_eq!(near[0], Foot { stop: 0, seconds: 0 });
    assert_eq!(near[1], Foot { stop: 1, seconds: 794 });
    assert_eq!(near[2].stop, 3);
    assert!(near[2].seconds >= 5 && near[2].seconds <= 6);
    assert_eq!(stops_within(&tt, 47_600_000_000, -122_300_000_000, 0), vec![Foot { stop: 0, seconds: 0 }]);
    assert_eq!(stops_within(&tt, 0, 0, 1_500), vec![]);
}
