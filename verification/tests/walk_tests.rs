use solari::compile::{compile, Feed};
use solari::raptor::Foot;
use solari::timetable::{Calendar, Route, Stop, StopTime, Trip};
use solari::geo::{nearest_place, Place};
use solari::walks::{graph_candidates, retime, stop_nodes, walk_times, Edge, RoadGraph, FAR};

fn graph(n: usize, roads: &[(u32, u32, u32)]) -> RoadGraph {
    let mut edges = vec![vec![]; n];
    for &(from, to, seconds) in roads {
        edges[from as usize].push(Edge { to, seconds });
        edges[to as usize].push(Edge { to: from, seconds });
    }
    RoadGraph { edges }
}

#[test]
fn walking_times_are_those_of_the_shortest_walks() {
    let g = graph(
        6,
        &[(0, 1, 100), (1, 2, 100), (0, 2, 500), (2, 3, 50), (3, 4, 1_000), (0, 4, 1_100)],
    );
    assert!(g.check());
    assert_eq!(walk_times(&g, 0, 1_200), vec![0, 100, 200, 250, 1_100, FAR]);
    assert_eq!(walk_times(&g, 0, 249), vec![0, 100, 200, FAR, FAR, FAR]);
    assert_eq!(walk_times(&g, 0, 0), vec![0, FAR, FAR, FAR, FAR, FAR]);
    assert_eq!(walk_times(&g, 3, 300), vec![250, 150, 50, 0, FAR, FAR]);
    assert_eq!(walk_times(&g, 5, 1_200), vec![FAR, FAR, FAR, FAR, FAR, 0]);
}

#[test]
fn one_way_streets_and_standing_still_are_walked() {
    let g = RoadGraph {
        edges: vec![
            vec![Edge { to: 1, seconds: 0 }, Edge { to: 0, seconds: 5 }],
            vec![Edge { to: 2, seconds: 7 }],
            vec![Edge { to: 1, seconds: 0 }],
        ],
    };
    assert_eq!(walk_times(&g, 0, 100), vec![0, 0, 7]);
    assert_eq!(walk_times(&g, 2, 100), vec![FAR, 0, 0]);
    let long = RoadGraph { edges: vec![vec![Edge { to: 1, seconds: u32::MAX }], vec![]] };
    assert_eq!(walk_times(&long, 0, u32::MAX - 1), vec![0, FAR]);
}

#[test]
fn a_road_that_leads_nowhere_is_no_road() {
    let broken = RoadGraph { edges: vec![vec![Edge { to: 1, seconds: 1 }]] };
    assert!(!broken.check());
    assert!(RoadGraph { edges: vec![] }.check());
}

#[test]
fn candidates_get_the_times_of_the_road() {
    let near = vec![
        Foot { stop: 0, seconds: 10 },
        Foot { stop: 1, seconds: 20 },
        Foot { stop: 2, seconds: 30 },
        Foot { stop: 7, seconds: 40 },
    ];
    let nodes = vec![4, 5, 1];
    let times = vec![0, 90, FAR, FAR, 300, FAR];
    assert_eq!(
        retime(&near, &nodes, &times),
        vec![Foot { stop: 0, seconds: 300 }, Foot { stop: 2, seconds: 90 }]
    );
    assert_eq!(retime(&vec![], &nodes, &times), vec![]);
    assert_eq!(retime(&near, &vec![9, 9, 9], &times), vec![]);
}

#[test]
fn the_nearest_node_is_found() {
    let places = vec![
        Place { lat: 47_600_000_000, lon: -122_300_000_000 },
        Place { lat: 47_610_000_000, lon: -122_300_000_000 },
        Place { lat: 200_000_000_000, lon: 0 },
    ];
    assert_eq!(nearest_place(&places, 47_609_000_000, -122_300_000_000), Some(1));
    assert_eq!(nearest_place(&places, 47_601_000_000, -122_300_000_000), Some(0));
    assert_eq!(nearest_place(&places, 0, -122_300_000_000), Some(0));
    assert_eq!(nearest_place(&places, 300_000_000_000, 0), None);
    assert_eq!(nearest_place(&vec![], 0, 0), None);
    assert_eq!(nearest_place(&vec![places[2]], 0, 0), None);
}

#[test]
fn walks_between_stops_follow_the_road() {
    let stop = |id: u64, lat: i64| Stop {
        id,
        code: String::new(),
        name: String::new(),
        lat,
        lon: 0,
        parent: None,
    };
    let feed = Feed {
        stops: vec![stop(0, 0), stop(1, 1_000_000), stop(2, 2_000_000), stop(3, 90_000_000)],
        routes: vec![],
        trips: vec![],
        calendar: Calendar { start_day: 0, num_days: 1 },
    };
    let tt = compile(feed, String::new()).unwrap();
    // Nodes at the first three stops; the road from 0 to 1 takes a detour by node 3.
    let places = vec![
        Place { lat: 0, lon: 0 },
        Place { lat: 1_000_000, lon: 0 },
        Place { lat: 2_000_000, lon: 0 },
        Place { lat: 500_000, lon: 5_000_000 },
    ];
    let g = graph(4, &[(0, 3, 400), (3, 1, 400), (1, 2, 90)]);
    let nodes = stop_nodes(&tt, &places);
    assert_eq!(nodes, vec![0, 1, 2, 2]);
    let walks = graph_candidates(&tt, &g, &nodes, 1_500);
    assert_eq!(
        walks[0],
        vec![
            Foot { stop: 0, seconds: 0 },
            Foot { stop: 1, seconds: 800 },
            Foot { stop: 2, seconds: 890 }
        ]
    );
    assert_eq!(
        walks[2],
        vec![
            Foot { stop: 0, seconds: 890 },
            Foot { stop: 1, seconds: 90 },
            Foot { stop: 2, seconds: 0 }
        ]
    );
    assert_eq!(walks[3], vec![Foot { stop: 3, seconds: 0 }]);
    let table = tt.with_transfers(&walks).transfers;
    assert_eq!(table[0].len(), 2);
    assert_eq!((table[0][0].to, table[0][0].seconds), (1, 800));
    assert!(table[3].is_empty());
}

#[test]
fn each_stop_knows_the_patterns_that_call_at_it() {
    let stop = |id: u64| Stop {
        id,
        code: String::new(),
        name: String::new(),
        lat: 0,
        lon: 0,
        parent: None,
    };
    let trip = |stops: Vec<u32>| Trip {
        id: 1,
        route: 0,
        headsign: String::new(),
        days: vec![1],
        times: (0..stops.len() as u32).map(|i| StopTime { arrival: i, departure: i }).collect(),
        stops,
    };
    let feed = Feed {
        stops: vec![stop(0), stop(1), stop(2), stop(3)],
        routes: vec![Route {
            agency: String::new(),
            short_name: String::new(),
            long_name: String::new(),
            route_type: 0,
        }],
        trips: vec![trip(vec![0, 1, 2]), trip(vec![2, 1]), trip(vec![1, 2, 1])],
        calendar: Calendar { start_day: 0, num_days: 1 },
    };
    let tt = compile(feed, String::new()).unwrap();
    let stops: Vec<Vec<u32>> = tt.patterns.iter().map(|p| p.stops.clone()).collect();
    assert_eq!(stops, vec![vec![0, 1, 2], vec![2, 1], vec![1, 2, 1]]);
    assert_eq!(
        tt.stop_patterns(),
        vec![
            vec![(0, 0)],
            vec![(0, 1), (1, 1), (2, 0), (2, 2)],
            vec![(0, 2), (1, 0), (2, 1)],
            vec![],
        ]
    );
}
