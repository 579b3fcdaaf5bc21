use solari::api::{LatLng, ResponseStatus, SolariLeg};
use solari::compile::{compile, Feed};
use solari::merge::concat_timetables;
use solari::raptor::{search, Foot, UNREACHED};
use solari::route::{
    keep_nearest, locate, pareto_front, route, route_between, Moment, Query, Time,
};
use solari::timetable::{Calendar, Route, Stop, StopTime, Timetable, Trip};

const START_DAY: i32 = 19_000;
const NOON_DAY_ONE: u32 = 19_001 * 86_400 + 12 * 3_600;

fn stop(id: u64, name: &str, lat: i64, lon: i64) -> Stop {
    Stop { id, code: format!("C{}", id), name: name.to_string(), lat, lon, parent: None }
}

fn line(agency: &str, name: &str) -> Route {
    Route {
        agency: agency.to_string(),
        short_name: name.to_string(),
        long_name: format!("Line {}", name),
        route_type: 3,
    }
}

fn trip(id: u64, route: u32, stops: Vec<u32>, departs: u32, leg_seconds: u32) -> Trip {
    let mut times = Vec::new();
    for i in 0..stops.len() as u32 {
        let t = departs + i * leg_seconds;
        times.push(StopTime { arrival: t, departure: t });
    }
    Trip { id, route, headsign: "Downtown".to_string(), days: vec![0x7f], stops, times }
}

fn hm(h: u32, m: u32) -> u32 {
    h * 3_600 + m * 60
}

fn one_line() -> Timetable {
    let feed = Feed {
        stops: vec![
            stop(1, "Alder", 47_600_000_000, -122_300_000_000),
            stop(2, "Birch", 47_640_000_000, -122_300_000_000),
        ],
        routes: vec![line("Metro", "10")],
        trips: vec![
            trip(100, 0, vec![0, 1], hm(12, 20), 780),
            trip(101, 0, vec![0, 1], hm(11, 50), 780),
            trip(102, 0, vec![0, 1], hm(12, 5), 780),
        ],
        calendar: Calendar { start_day: START_DAY, num_days: 7 },
    };
    compile(feed, "tiles".to_string()).unwrap()
}

fn two_lines() -> Timetable {
    let feed = Feed {
        stops: vec![
            stop(1, "Alder", 47_600_000_000, -122_300_000_000),
            stop(2, "Cross East", 47_640_000_000, -122_300_000_000),
            stop(3, "Cross West", 47_640_000_000, -122_300_500_000),
            stop(4, "Dogwood", 47_640_000_000, -122_400_000_000),
        ],
        routes: vec![line("Metro", "1"), line("Metro", "2")],
        trips: vec![
            trip(100, 0, vec![0, 1], hm(12, 5), 600),
            trip(200, 1, vec![2, 3], hm(12, 10), 900),
            trip(201, 1, vec![2, 3], hm(12, 30), 900),
        ],
        calendar: Calendar { start_day: START_DAY, num_days: 7 },
    };
    let tt = compile(feed, "tiles".to_string()).unwrap();
    tt.with_transfers(&vec![
        vec![],
        vec![Foot { stop: 2, seconds: 60 }],
        vec![Foot { stop: 1, seconds: 60 }],
        vec![],
    ])
}

fn query(start_time: u32) -> Query {
    Query {
        start_time: Time::from_epoch_seconds(start_time),
        from: LatLng { lat: 47_600_100_000, lon: -122_300_100_000, stop: None },
        to: LatLng { lat: 47_640_100_000, lon: -122_300_100_000, stop: None },
        max_walk_m: None,
        max_itineraries: None,
        max_access_stops: None,
        max_egress_stops: None,
        max_rounds: None,
    }
}

fn kinds(legs: &Vec<SolariLeg>) -> Vec<bool> {
    legs.iter().map(|l| l.is_transit()).collect()
}

fn assert_contiguous(legs: &Vec<SolariLeg>) {
    for i in 0..legs.len() - 1 {
        assert!(legs[i].end_time() <= legs[i + 1].start_time());
        let end = legs[i].end_location();
        let start = legs[i + 1].start_location();
        assert_eq!(end.lat, start.lat);
        assert_eq!(end.lon, start.lon);
        assert_eq!(end.stop, start.stop);
    }
}

#[test]
fn direct_ride_takes_the_next_trip() {
    let tt = one_line();
    let access = vec![Foot { stop: 0, seconds: 120 }];
    let egress = vec![Foot { stop: 1, seconds: 120 }];
    let answer = route(&tt, &query(NOON_DAY_ONE), &access, &egress);
    assert_eq!(answer.status, ResponseStatus::Success);
    assert_eq!(answer.itineraries.len(), 1);
    let it = &answer.itineraries[0];
    assert_eq!(kinds(&it.legs), vec![false, true, false]);
    let day = 19_001i64 * 86_400;
    assert_eq!(it.start_time, (day + 12 * 3_600) * 1_000);
    assert_eq!(it.legs[0].end_time(), (day + 12 * 3_600 + 120) * 1_000);
    assert_eq!(it.legs[1].start_time(), (day + 12 * 3_600 + 5 * 60) * 1_000);
    assert_eq!(it.legs[1].end_time(), (day + 12 * 3_600 + 18 * 60) * 1_000);
    assert_eq!(it.end_time, (day + 12 * 3_600 + 20 * 60) * 1_000);
    assert_eq!(it.end_time - it.start_time, 20 * 60 * 1_000);
    match &it.legs[1] {
        SolariLeg::Transit { transit_route, transit_agency, start_location, end_location, .. } => {
            assert_eq!(transit_route.as_deref(), Some("10"));
            assert_eq!(transit_agency.as_deref(), Some("Metro"));
            assert_eq!(start_location.stop.as_deref(), Some("Alder"));
            assert_eq!(end_location.stop.as_deref(), Some("Birch"));
        },
        _ => panic!("the second leg is a ride"),
    }
    assert_contiguous(&it.legs);
}

#[test]
fn a_query_between_positions_walks_as_the_crow_flies() {
    let tt = one_line();
    let answer = route_between(&tt, &query(NOON_DAY_ONE));
    assert_eq!(answer.status, ResponseStatus::Success);
    let it = &answer.itineraries[0];
    assert_eq!(kinds(&it.legs), vec![false, true, false]);
    // Both ends lie 13 metres from their stops: a walk of ten seconds.
    let day = 19_001i64 * 86_400;
    assert_eq!(it.legs[0].end_time(), (day + 12 * 3_600 + 10) * 1_000);
    assert_eq!(it.legs[1].start_time(), (day + 12 * 3_600 + 5 * 60) * 1_000);
    assert_eq!(it.end_time, (day + 12 * 3_600 + 18 * 60 + 10) * 1_000);
    let mut far = query(NOON_DAY_ONE);
    far.from = LatLng { lat: 10_000_000_000, lon: 10_000_000_000, stop: None };
    assert_eq!(route_between(&tt, &far).status, ResponseStatus::NoRouteFound);
    let mut short = query(NOON_DAY_ONE);
    short.max_walk_m = Some(5);
    assert_eq!(route_between(&tt, &short).status, ResponseStatus::NoRouteFound);
}

#[test]
fn one_transfer_rides_walks_and_rides() {
    let tt = two_lines();
    let access = vec![Foot { stop: 0, seconds: 60 }];
    let egress = vec![Foot { stop: 3, seconds: 30 }];
    let answer = route(&tt, &query(NOON_DAY_ONE), &access, &egress);
    assert_eq!(answer.status, ResponseStatus::Success);
    assert_eq!(answer.itineraries.len(), 1);
    let it = &answer.itineraries[0];
    assert_eq!(kinds(&it.legs), vec![false, true, false, true, false]);
    let day = 19_001i64 * 86_400;
    // 12:05 to 12:15 on line 1, a walk of a minute, 12:30 to 12:45 on line 2.
    assert_eq!(it.legs[1].end_time(), (day + 12 * 3_600 + 15 * 60) * 1_000);
    assert_eq!(it.legs[2].start_time(), (day + 12 * 3_600 + 15 * 60) * 1_000);
    assert_eq!(it.legs[2].end_time(), (day + 12 * 3_600 + 16 * 60) * 1_000);
    assert_eq!(it.legs[3].start_time(), (day + 12 * 3_600 + 30 * 60) * 1_000);
    assert_eq!(it.end_time, (day + 12 * 3_600 + 45 * 60 + 30) * 1_000);
    assert_contiguous(&it.legs);
}

#[test]
fn a_query_before_the_calendar_is_too_early() {
    let tt = one_line();
    let access = vec![Foot { stop: 0, seconds: 120 }];
    let egress = vec![Foot { stop: 1, seconds: 120 }];
    let start = (START_DAY as u32 - 1) * 86_400 + 12 * 3_600;
    let answer = route(&tt, &query(start), &access, &egress);
    assert_eq!(answer.status, ResponseStatus::TooEarly);
    assert!(answer.itineraries.is_empty());
    let last_second = START_DAY as u32 * 86_400 - 1;
    assert_eq!(route(&tt, &query(last_second), &access, &egress).status, ResponseStatus::TooEarly);
}

#[test]
fn a_query_after_the_calendar_is_too_late() {
    let tt = one_line();
    let access = vec![Foot { stop: 0, seconds: 120 }];
    let egress = vec![Foot { stop: 1, seconds: 120 }];
    let start = (START_DAY as u32 + 7 + 1) * 86_400;
    let answer = route(&tt, &query(start), &access, &egress);
    assert_eq!(answer.status, ResponseStatus::TooLate);
    assert!(answer.itineraries.is_empty());
    let first_after = (START_DAY as u32 + 7) * 86_400;
    assert_eq!(route(&tt, &query(first_after), &access, &egress).status, ResponseStatus::TooLate);
    let last_within = first_after - 1;
    assert_eq!(
        route(&tt, &query(last_within), &access, &egress).status,
        ResponseStatus::NoRouteFound
    );
}

#[test]
fn an_origin_without_a_stop_nearby_finds_no_route() {
    let tt = one_line();
    let egress = vec![Foot { stop: 1, seconds: 120 }];
    let answer = route(&tt, &query(NOON_DAY_ONE), &vec![], &egress);
    assert_eq!(answer.status, ResponseStatus::NoRouteFound);
    assert!(answer.itineraries.is_empty());
    let beyond = vec![Foot { stop: 9, seconds: 10 }];
    assert_eq!(
        route(&tt, &query(NOON_DAY_ONE), &beyond, &egress).status,
        ResponseStatus::NoRouteFound
    );
    let access = vec![Foot { stop: 0, seconds: 120 }];
    assert_eq!(
        route(&tt, &query(NOON_DAY_ONE), &access, &vec![]).status,
        ResponseStatus::NoRouteFound
    );
}

#[test]
fn merged_feeds_route_across_both_agencies() {
    let north = compile(
        Feed {
            stops: vec![
                stop(1, "Alder", 47_600_000_000, -122_300_000_000),
                stop(2, "Central Station", 47_640_000_000, -122_300_000_000),
            ],
            routes: vec![line("North Transit", "N1")],
            trips: vec![trip(100, 0, vec![0, 1], hm(12, 5), 600)],
            calendar: Calendar { start_day: START_DAY, num_days: 7 },
        },
        "tiles".to_string(),
    )
    .unwrap();
    let south = compile(
        Feed {
            stops: vec![
                stop(7, "central  station", 47_640_000_001, -122_300_000_001),
                stop(8, "Elm", 47_700_000_000, -122_300_000_000),
            ],
            routes: vec![line("South Transit", "S9")],
            trips: vec![trip(900, 0, vec![0, 1], hm(12, 20), 900)],
            calendar: Calendar { start_day: START_DAY, num_days: 7 },
        },
        "tiles".to_string(),
    )
    .unwrap();
    let merged = concat_timetables(&vec![north, south], "tiles".to_string()).unwrap();
    assert_eq!(merged.timetable.stops.len(), 3);
    assert_eq!(merged.stop_maps, vec![vec![0, 1], vec![1, 2]]);
    let access = vec![Foot { stop: 0, seconds: 60 }];
    let egress = vec![Foot { stop: 2, seconds: 60 }];
    let answer = route(&merged.timetable, &query(NOON_DAY_ONE), &access, &egress);
    assert_eq!(answer.status, ResponseStatus::Success);
    let it = &answer.itineraries[0];
    assert_eq!(kinds(&it.legs), vec![false, true, true, false]);
    let agencies: Vec<Option<String>> = it
        .legs
        .iter()
        .filter_map(|l| match l {
            SolariLeg::Transit { transit_agency, .. } => Some(transit_agency.clone()),
            _ => None,
        })
        .collect();
    assert_eq!(
        agencies,
        vec![Some("North Transit".to_string()), Some("South Transit".to_string())]
    );
    assert_contiguous(&it.legs);
}

#[test]
fn best_times_never_rise_from_round_to_round() {
    let tt = two_lines();
    let access = vec![Foot { stop: 0, seconds: 60 }];
    let found = search(&tt, 1, hm(12, 0), &access, 4);
    assert!(found.reached.len() >= 3);
    for s in 0..4 {
        let mut best = UNREACHED;
        for k in 0..found.reached.len() {
            let after = best.min(found.reached[k][s].time);
            assert!(after <= best);
            best = after;
        }
        assert_eq!(best, found.best[s]);
    }
    assert_eq!(found.best, vec![hm(12, 1), hm(12, 15), hm(12, 16), hm(12, 45)]);
}

#[test]
fn the_search_stops_when_a_round_labels_nothing() {
    let tt = one_line();
    let access = vec![Foot { stop: 0, seconds: 120 }];
    let found = search(&tt, 1, hm(12, 0), &access, 4);
    // Round 1 reaches Birch; round 2 labels nothing; no round 3 is run.
    assert_eq!(found.reached.len(), 3);
    assert!(found.reached[2].iter().all(|l| l.time == UNREACHED));
}

#[test]
fn no_itinerary_rides_more_than_the_rounds_allow() {
    let tt = two_lines();
    let access = vec![Foot { stop: 0, seconds: 60 }];
    let egress = vec![Foot { stop: 3, seconds: 30 }];
    let mut q = query(NOON_DAY_ONE);
    q.max_rounds = Some(1);
    let answer = route(&tt, &q, &access, &egress);
    assert_eq!(answer.status, ResponseStatus::NoRouteFound);
    q.max_rounds = Some(2);
    let answer = route(&tt, &q, &access, &egress);
    assert_eq!(answer.status, ResponseStatus::Success);
    for it in &answer.itineraries {
        assert!(it.legs.iter().filter(|l| l.is_transit()).count() <= 2);
    }
    q.max_itineraries = Some(0);
    assert_eq!(route(&tt, &q, &access, &egress).status, ResponseStatus::NoRouteFound);
}

#[test]
fn a_trip_that_does_not_run_on_the_day_is_not_taken() {
    let feed = Feed {
        stops: vec![stop(1, "Alder", 0, 0), stop(2, "Birch", 1_000_000, 0)],
        routes: vec![line("Metro", "10")],
        trips: vec![
            Trip { days: vec![0b0000_0001], ..trip(100, 0, vec![0, 1], hm(12, 5), 600) },
            Trip { days: vec![0b0000_0010], ..trip(101, 0, vec![0, 1], hm(12, 20), 600) },
        ],
        calendar: Calendar { start_day: START_DAY, num_days: 7 },
    };
    let tt = compile(feed, "tiles".to_string()).unwrap();
    let access = vec![Foot { stop: 0, seconds: 0 }];
    let found = search(&tt, 1, hm(12, 0), &access, 2);
    assert_eq!(found.best[1], hm(12, 30));
    let found = search(&tt, 0, hm(12, 0), &access, 2);
    assert_eq!(found.best[1], hm(12, 15));
    let found = search(&tt, 2, hm(12, 0), &access, 2);
    assert_eq!(found.best[1], UNREACHED);
}

#[test]
fn moments_are_located_in_the_calendar() {
    let cal = Calendar { start_day: 10, num_days: 2 };
    assert_eq!(locate(&cal, 10 * 86_400 - 1), Moment::Early);
    assert_eq!(locate(&cal, 10 * 86_400), Moment::Within { day: 0, second: 0 });
    assert_eq!(locate(&cal, 11 * 86_400 + 5), Moment::Within { day: 1, second: 5 });
    assert_eq!(locate(&cal, 12 * 86_400 - 1), Moment::Within { day: 1, second: 86_399 });
    assert_eq!(locate(&cal, 12 * 86_400), Moment::Late);
    let before_epoch = Calendar { start_day: -3, num_days: 3 };
    assert_eq!(locate(&before_epoch, 0), Moment::Late);
    let straddling = Calendar { start_day: -1, num_days: 3 };
    assert_eq!(locate(&straddling, 0), Moment::Within { day: 1, second: 0 });
}

#[test]
fn the_nearest_stops_are_kept_shortest_walk_first() {
    let cands = vec![
        Foot { stop: 0, seconds: 50 },
        Foot { stop: 1, seconds: 10 },
        Foot { stop: 2, seconds: 30 },
        Foot { stop: 3, seconds: 10 },
        Foot { stop: 4, seconds: 70 },
    ];
    assert_eq!(
        keep_nearest(&cands, 3),
        vec![
            Foot { stop: 1, seconds: 10 },
            Foot { stop: 3, seconds: 10 },
            Foot { stop: 2, seconds: 30 }
        ]
    );
    assert_eq!(keep_nearest(&cands, 0), vec![]);
    assert_eq!(keep_nearest(&cands, 9).len(), 5);
    assert_eq!(keep_nearest(&vec![], 3), vec![]);
}

#[test]
fn the_front_holds_the_arrivals_that_nothing_beats() {
    let tt = two_lines();
    let access = vec![Foot { stop: 0, seconds: 60 }];
    let found = search(&tt, 1, hm(12, 0), &access, 4);
    let egress = vec![Foot { stop: 1, seconds: 3_600 }, Foot { stop: 3, seconds: 30 }];
    let front = pareto_front(&found.reached, &egress);
    assert_eq!(front.len(), 2);
    assert_eq!((front[0].round, front[0].stop, front[0].total), (2, 3, (hm(12, 45) + 30) as u64));
    assert_eq!((front[1].round, front[1].stop, front[1].total), (1, 1, (hm(13, 15)) as u64));
    let slow = vec![Foot { stop: 1, seconds: 30 }, Foot { stop: 3, seconds: 7_200 }];
    let front = pareto_front(&found.reached, &slow);
    assert_eq!(front.len(), 1);
    assert_eq!((front[0].round, front[0].stop), (1, 1));
}
