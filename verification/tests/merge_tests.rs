use solari::compile::{compile, Feed};
use solari::merge::{
    canonical_name, concat_timetables, find_same, first_same, names_match, ConcatError,
};
use solari::timetable::{Calendar, Route, Stop, StopTime, Timetable, Trip};

fn stop(id: u64, name: &str, lat: i64, lon: i64) -> Stop {
    Stop { id, code: String::new(), name: name.to_string(), lat, lon, parent: None }
}

fn trip(id: u64, route: u32, stops: Vec<u32>, departs: u32) -> Trip {
    let times = (0..stops.len() as u32)
        .map(|i| StopTime { arrival: departs + 600 * i, departure: departs + 600 * i })
        .collect();
    Trip { id, route, headsign: String::new(), days: vec![0x7f], stops, times }
}

fn timetable(stops: Vec<Stop>, agency: &str, trips: Vec<Trip>, num_days: u16) -> Timetable {
    let feed = Feed {
        stops,
        routes: vec![Route {
            agency: agency.to_string(),
            short_name: "1".to_string(),
            long_name: String::new(),
            route_type: 3,
        }],
        trips,
        calendar: Calendar { start_day: 100, num_days },
    };
    compile(feed, String::new()).unwrap()
}

fn west() -> Timetable {
    timetable(
        vec![stop(1, "Main Street", 10_000_000_000, 20_000_000_000), stop(2, "Oak", 10_100_000_000, 20_000_000_000)],
        "West",
        vec![trip(10, 0, vec![0, 1], 3_600), trip(11, 0, vec![1, 0], 7_200)],
        7,
    )
}

fn east() -> Timetable {
    timetable(
        vec![
            stop(5, "Pine", 10_200_000_000, 20_000_000_000),
            stop(6, "main street ", 10_000_000_050, 20_000_000_050),
            stop(7, "Oak", 10_100_000_000, 20_000_000_000),
            stop(8, "Oak", 10_100_500_000, 20_000_000_000),
            stop(9, "Oaks", 10_100_000_000, 20_000_000_000),
        ],
        "East",
        vec![trip(20, 0, vec![1, 2], 1_800), trip(21, 0, vec![0, 3, 4], 900)],
        7,
    )
}

#[test]
fn stops_of_one_name_at_one_place_become_one() {
    let merged = concat_timetables(&vec![west(), east()], "tiles".to_string()).unwrap();
    let tt = &merged.timetable;
    assert!(tt.check());
    let names: Vec<&str> = tt.stops.iter().map(|s| s.name.as_str()).collect();
    assert_eq!(names, vec!["Main Street", "Oak", "Pine", "Oak", "Oaks"]);
    assert_eq!(merged.stop_maps, vec![vec![0, 1], vec![2, 0, 1, 3, 4]]);
    assert_eq!(tt.stops[0].id, 1);
    assert_eq!(tt.valhalla_tiles, "tiles");
    assert_eq!(tt.calendar, Calendar { start_day: 100, num_days: 7 });
    assert!(tt.transfers.iter().all(|l| l.is_empty()));
}

#[test]
fn routes_and_trips_are_gathered_and_moved() {
    let merged = concat_timetables(&vec![west(), east()], String::new()).unwrap();
    let tt = &merged.timetable;
    let agencies: Vec<&str> = tt.routes.iter().map(|r| r.agency.as_str()).collect();
    assert_eq!(agencies, vec!["West", "East"]);
    let moved: Vec<(u64, u32, Vec<u32>)> =
        tt.trips.iter().map(|t| (t.id, t.route, t.stops.clone())).collect();
    assert_eq!(
        moved,
        vec![
            (10, 0, vec![0, 1]),
            (11, 0, vec![1, 0]),
            (20, 1, vec![0, 1]),
            (21, 1, vec![2, 3, 4]),
        ]
    );
    assert_eq!(tt.trips[2].times[0].departure, 1_800);
}

#[test]
fn trips_of_two_feeds_share_a_pattern_by_departure() {
    let merged = concat_timetables(&vec![west(), east()], String::new()).unwrap();
    let patterns: Vec<(Vec<u32>, u32, Vec<u32>)> = merged
        .timetable
        .patterns
        .iter()
        .map(|p| (p.stops.clone(), p.lane, p.trips.clone()))
        .collect();
    assert_eq!(
        patterns,
        vec![
            (vec![2, 3, 4], 0, vec![3]),
            (vec![0, 1], 0, vec![2, 0]),
            (vec![1, 0], 0, vec![1]),
        ]
    );
}

#[test]
fn timetables_over_other_days_are_not_merged() {
    let other = timetable(vec![stop(1, "A", 0, 0), stop(2, "B", 0, 1)], "X", vec![], 8);
    assert_eq!(
        concat_timetables(&vec![west(), other], String::new()).err(),
        Some(ConcatError::CalendarMismatch)
    );
    assert_eq!(
        concat_timetables(&vec![], String::new()).err(),
        Some(ConcatError::NoTimetables)
    );
    let alone = concat_timetables(&vec![west()], String::new()).unwrap();
    assert_eq!(alone.stop_maps, vec![vec![0, 1]]);
    assert_eq!(alone.timetable.trips.len(), 2);
}

#[test]
fn a_stop_is_found_again_by_name_and_place() {
    let stops = vec![
        stop(1, "Oak", 10_000_000_000, 20_000_000_000),
        stop(2, "Pine", 10_000_000_000, 20_000_000_000),
        stop(3, "oak", 10_000_000_000, 20_000_000_000),
    ];
    assert_eq!(first_same(&stops, "OAK", &vec![Some(500), Some(0), Some(179)]), Some(2));
    assert_eq!(first_same(&stops, "OAK", &vec![Some(179), Some(0), Some(0)]), Some(0));
    assert_eq!(first_same(&stops, "OAK", &vec![Some(180), None, Some(180)]), None);
    assert_eq!(first_same(&stops, "Elm", &vec![Some(0), Some(0), Some(0)]), None);
    assert_eq!(first_same(&vec![], "Oak", &vec![]), None);
    assert_eq!(find_same(&stops, &stop(9, " O a k ", 10_000_000_100, 20_000_000_000)), Some(0));
    assert_eq!(find_same(&stops, &stop(9, "Oak", 10_001_000_000, 20_000_000_000)), None);
    assert_eq!(find_same(&stops, &stop(9, "Pine", 10_000_000_000, 20_000_000_000)), Some(1));
}

#[test]
fn names_match_but_for_blanks_and_capitals() {
    assert_eq!(canonical_name("  Main  Street\t"), b"mainstreet".to_vec());
    assert_eq!(canonical_name("ÄB c"), "Äbc".as_bytes().to_vec());
    assert_eq!(canonical_name(""), Vec::<u8>::new());
    assert!(names_match("Main Street", "main street"));
    assert!(names_match("MAIN STREET", " mainstreet "));
    assert!(!names_match("Main Street", "Main St"));
    assert!(!names_match("Oak", "Oaks"));
    assert!(names_match("", " \n"));
}
