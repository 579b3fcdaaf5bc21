use solari::compile::{compile, copy_trip, without_short_trips, Feed};
use solari::patterns::{build_patterns, check_trips, BuildError};
use solari::timetable::{
    runs_no_later, same_stops, Calendar, Route, Stop, StopTime, Timetable, Trip,
};

fn timed(id: u64, stops: Vec<u32>, times: Vec<(u32, u32)>) -> Trip {
    Trip {
        id,
        route: 0,
        headsign: String::new(),
        days: vec![0xff],
        stops,
        times: times.into_iter().map(|(arrival, departure)| StopTime { arrival, departure }).collect(),
    }
}

fn feed(trips: Vec<Trip>) -> Feed {
    Feed {
        stops: (0..4u64)
            .map(|i| Stop {
                id: i,
                code: String::new(),
                name: format!("S{}", i),
                lat: i as i64 * 1_000_000,
                lon: 0,
                parent: None,
            })
            .collect(),
        routes: vec![Route {
            agency: "A".to_string(),
            short_name: "1".to_string(),
            long_name: "One".to_string(),
            route_type: 3,
        }],
        trips,
        calendar: Calendar { start_day: 0, num_days: 8 },
    }
}

fn keys(tt: &Timetable) -> Vec<(Vec<u32>, u32, Vec<u32>)> {
    tt.patterns.iter().map(|p| (p.stops.clone(), p.lane, p.trips.clone())).collect()
}

#[test]
fn trips_with_the_same_stops_share_a_pattern_by_departure() {
    let trips = vec![
        timed(1, vec![0, 1, 2], vec![(900, 900), (1000, 1010), (1100, 1100)]),
        timed(2, vec![0, 1, 2], vec![(100, 100), (200, 210), (300, 300)]),
        timed(3, vec![2, 1, 0], vec![(100, 100), (200, 210), (300, 300)]),
        timed(4, vec![0, 1, 2], vec![(500, 500), (600, 610), (700, 700)]),
    ];
    let patterns = build_patterns(&trips).unwrap();
    let got: Vec<(Vec<u32>, u32, Vec<u32>)> =
        patterns.iter().map(|p| (p.stops.clone(), p.lane, p.trips.clone())).collect();
    assert_eq!(
        got,
        vec![(vec![0, 1, 2], 0, vec![1, 3, 0]), (vec![2, 1, 0], 0, vec![2])]
    );
}

#[test]
fn trips_that_leave_together_stand_in_feed_order() {
    let trips = vec![
        timed(1, vec![0, 1], vec![(100, 100), (200, 200)]),
        timed(2, vec![0, 1], vec![(100, 100), (200, 200)]),
    ];
    let patterns = build_patterns(&trips).unwrap();
    assert_eq!(patterns.len(), 1);
    assert_eq!(patterns[0].trips, vec![0, 1]);
}

#[test]
fn a_trip_that_overtakes_gets_a_lane_of_its_own() {
    let trips = vec![
        timed(1, vec![0, 1], vec![(1200, 1200), (3000, 3000)]),
        timed(2, vec![0, 1], vec![(1500, 1500), (2000, 2000)]),
        timed(3, vec![0, 1], vec![(1800, 1800), (3300, 3300)]),
        timed(4, vec![0, 1], vec![(1900, 1900), (2500, 2500)]),
    ];
    let patterns = build_patterns(&trips).unwrap();
    let got: Vec<(u32, Vec<u32>)> = patterns.iter().map(|p| (p.lane, p.trips.clone())).collect();
    assert_eq!(got, vec![(0, vec![0, 2]), (1, vec![1, 3])]);
}

#[test]
fn no_two_patterns_share_stops_and_lane() {
    let trips = vec![
        timed(1, vec![0, 1], vec![(1200, 1200), (3000, 3000)]),
        timed(2, vec![0, 1], vec![(1500, 1500), (2000, 2000)]),
        timed(3, vec![0, 1], vec![(1600, 1600), (1700, 1700)]),
        timed(4, vec![1, 0], vec![(1600, 1600), (1700, 1700)]),
        timed(5, vec![0, 1, 2], vec![(10, 10), (20, 20), (30, 30)]),
    ];
    let patterns = build_patterns(&trips).unwrap();
    assert_eq!(patterns.len(), 5);
    for a in 0..patterns.len() {
        for b in 0..patterns.len() {
            if a != b {
                assert!(
                    patterns[a].stops != patterns[b].stops || patterns[a].lane != patterns[b].lane
                );
            }
        }
    }
    let mut seen: Vec<u32> = patterns.iter().flat_map(|p| p.trips.clone()).collect();
    seen.sort();
    assert_eq!(seen, vec![0, 1, 2, 3, 4]);
}

#[test]
fn within_a_pattern_no_trip_overtakes_another() {
    let trips = vec![
        timed(1, vec![0, 1, 2], vec![(100, 110), (300, 300), (900, 900)]),
        timed(2, vec![0, 1, 2], vec![(120, 130), (200, 250), (400, 400)]),
        timed(3, vec![0, 1, 2], vec![(140, 150), (310, 320), (950, 950)]),
        timed(4, vec![0, 1, 2], vec![(160, 170), (260, 270), (500, 500)]),
        timed(5, vec![0, 1, 2], vec![(90, 95), (500, 500), (990, 990)]),
    ];
    let patterns = build_patterns(&trips).unwrap();
    for p in &patterns {
        for t1 in 0..p.trips.len() {
            for t2 in t1 + 1..p.trips.len() {
                let a = &trips[p.trips[t1] as usize].times;
                let b = &trips[p.trips[t2] as usize].times;
                for i in 0..a.len() {
                    for j in i + 1..a.len() {
                        if a[i].departure <= b[i].departure {
                            assert!(a[j].arrival <= b[j].arrival);
                        }
                    }
                }
            }
        }
    }
}

#[test]
fn a_malformed_trip_is_reported_by_its_index() {
    let good = timed(1, vec![0, 1], vec![(100, 100), (200, 200)]);
    let one_stop = timed(2, vec![0], vec![(100, 100)]);
    let backwards = timed(3, vec![0, 1], vec![(100, 100), (50, 60)]);
    let leaves_early = timed(4, vec![0, 1], vec![(100, 90), (200, 200)]);
    let uneven = timed(5, vec![0, 1, 2], vec![(100, 100), (200, 200)]);
    assert!(good.is_valid());
    assert!(!one_stop.is_valid());
    assert!(!backwards.is_valid());
    assert!(!leaves_early.is_valid());
    assert!(!uneven.is_valid());
    assert_eq!(
        build_patterns(&vec![good.clone(), one_stop.clone()]).err(),
        Some(BuildError::BadTrip { index: 1 })
    );
    assert_eq!(
        build_patterns(&vec![backwards, good.clone(), one_stop]).err(),
        Some(BuildError::BadTrip { index: 0 })
    );
    assert_eq!(check_trips(&vec![good.clone(), uneven]), Err(BuildError::BadTrip { index: 1 }));
    assert_eq!(check_trips(&vec![good]), Ok(()));
    assert_eq!(build_patterns(&vec![]).unwrap().len(), 0);
}

#[test]
fn a_feed_is_compiled_into_a_timetable_without_walks() {
    let tt = compile(
        feed(vec![
            timed(1, vec![0, 1], vec![(900, 900), (1000, 1010)]),
            timed(2, vec![0, 1], vec![(100, 100), (200, 210)]),
        ]),
        "tiles/here".to_string(),
    )
    .unwrap();
    assert!(tt.check());
    assert_eq!(keys(&tt), vec![(vec![0, 1], 0, vec![1, 0])]);
    assert_eq!(tt.transfers, vec![vec![], vec![], vec![], vec![]]);
    assert_eq!(tt.valhalla_tiles, "tiles/here");
    assert_eq!(tt.stop_count(), 4);
    assert_eq!(tt.times_at(0, 0, 1), StopTime { arrival: 200, departure: 210 });
    assert!(tt.runs_on(0, 0, 3));
    assert!(!tt.runs_on(0, 0, 8));
}

#[test]
fn a_feed_with_a_fault_is_not_compiled() {
    let good = timed(1, vec![0, 1], vec![(100, 100), (200, 200)]);
    let mut off_globe = feed(vec![good.clone()]);
    off_globe.stops[2].lat = 90_000_000_001;
    assert_eq!(compile(off_globe, String::new()).err(), Some(BuildError::BadStops));
    let unknown_stop = feed(vec![good.clone(), timed(2, vec![0, 4], vec![(1, 1), (2, 2)])]);
    assert_eq!(
        compile(unknown_stop, String::new()).err(),
        Some(BuildError::BadReference { index: 1 })
    );
    let unknown_route = feed(vec![Trip { route: 1, ..good.clone() }]);
    assert_eq!(
        compile(unknown_route, String::new()).err(),
        Some(BuildError::BadReference { index: 0 })
    );
    let wrong_days = feed(vec![Trip { days: vec![0xff, 0x01], ..good.clone() }]);
    assert_eq!(
        compile(wrong_days, String::new()).err(),
        Some(BuildError::BadReference { index: 0 })
    );
    let bad_times = feed(vec![good, timed(2, vec![0, 1], vec![(5, 1), (2, 2)])]);
    assert_eq!(compile(bad_times, String::new()).err(), Some(BuildError::BadTrip { index: 1 }));
}

#[test]
fn a_timetable_that_breaks_a_rule_fails_its_check() {
    let base = || {
        compile(
            feed(vec![
                timed(1, vec![0, 1], vec![(100, 100), (200, 200)]),
                timed(2, vec![0, 1], vec![(150, 150), (250, 250)]),
            ]),
            String::new(),
        )
        .unwrap()
    };
    assert!(base().check());
    let mut swapped = base();
    swapped.patterns[0].trips = vec![1, 0];
    assert!(!swapped.check());
    let mut empty_pattern = base();
    empty_pattern.patterns[0].trips = vec![];
    assert!(!empty_pattern.check());
    let mut other_stops = base();
    other_stops.patterns[0].stops = vec![1, 0];
    assert!(!other_stops.check());
    let mut missing_table = base();
    missing_table.transfers.pop();
    assert!(!missing_table.check());
    let mut no_routes = base();
    no_routes.routes.clear();
    assert!(!no_routes.check());
}

#[test]
fn trips_that_go_nowhere_are_left_out() {
    let trips = vec![
        timed(1, vec![], vec![]),
        timed(2, vec![0, 1], vec![(1, 1), (2, 2)]),
        timed(3, vec![0], vec![(1, 1)]),
        timed(4, vec![2, 1, 0], vec![(1, 1), (2, 2), (3, 3)]),
    ];
    let kept = without_short_trips(&trips);
    let ids: Vec<u64> = kept.iter().map(|t| t.id).collect();
    assert_eq!(ids, vec![2, 4]);
    assert_eq!(kept[1].stops, vec![2, 1, 0]);
    assert_eq!(kept[1].times, trips[3].times);
    assert!(without_short_trips(&vec![]).is_empty());
    let copy = copy_trip(&trips[3]);
    assert_eq!(format!("{:?}", copy), format!("{:?}", trips[3]));
}

#[test]
fn stop_sequences_and_times_are_compared() {
    assert!(same_stops(&vec![1, 2, 3], &vec![1, 2, 3]));
    assert!(!same_stops(&vec![1, 2, 3], &vec![1, 2]));
    assert!(!same_stops(&vec![1, 2, 3], &vec![1, 2, 4]));
    let a = vec![StopTime { arrival: 1, departure: 2 }, StopTime { arrival: 5, departure: 6 }];
    let b = vec![StopTime { arrival: 1, departure: 3 }, StopTime { arrival: 5, departure: 6 }];
    assert!(runs_no_later(&a, &b));
    assert!(!runs_no_later(&b, &a));
    assert!(runs_no_later(&a, &a));
    assert!(!runs_no_later(&a, &vec![]));
}
