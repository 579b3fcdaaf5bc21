use solari::assemble::{assemble, chosen_days, covered_days, name_of_agency, FeedError};
use solari::compile::compile;
use solari::feed::{
    build_index, find_exception, find_pattern, look_up, service_days, service_runs, weekday,
    AgencyRow, ExceptionRow, RouteRow, ServiceRow, StopTimeRow, TripRow,
};
use solari::fields::{
    digits_only, parse_date, parse_degrees, parse_time, parse_uint, stable_id, ten_to,
};
use solari::dates::Date;
use solari::gtfs::{
    field, find_column, read_rows, read_stop_times, read_stops, read_table, FeedFile, FeedFiles,
    ReadError,
};
use solari::timetable::{Calendar, Stop, StopTime};

fn b(s: &str) -> Vec<u8> {
    s.as_bytes().to_vec()
}

#[test]
fn numbers_are_read_digit_by_digit() {
    assert_eq!(parse_uint(&b("0")), Some(0));
    assert_eq!(parse_uint(&b("007")), Some(7));
    assert_eq!(parse_uint(&b("18446744073709551615")), Some(u64::MAX));
    assert_eq!(parse_uint(&b("18446744073709551616")), None);
    assert_eq!(parse_uint(&b("99999999999999999999999")), None);
    assert_eq!(parse_uint(&b("")), None);
    assert_eq!(parse_uint(&b("12a")), None);
    assert_eq!(parse_uint(&b("-1")), None);
    assert_eq!(parse_uint(&b(" 1")), None);
    assert!(digits_only(&b("a123b"), 1, 4));
    assert!(!digits_only(&b("a123b"), 0, 4));
    assert!(digits_only(&b("abc"), 1, 1));
    assert_eq!(ten_to(0), 1);
    assert_eq!(ten_to(9), 1_000_000_000);
}

#[test]
fn times_may_pass_midnight() {
    assert_eq!(parse_time(&b("00:00:00")), Some(0));
    assert_eq!(parse_time(&b("8:05:07")), Some(8 * 3_600 + 5 * 60 + 7));
    assert_eq!(parse_time(&b("12:05:00")), Some(43_500));
    assert_eq!(parse_time(&b("25:30:00")), Some(91_800));
    assert_eq!(parse_time(&b("1193046:28:15")), Some(u32::MAX));
    assert_eq!(parse_time(&b("1193046:28:16")), None);
    assert_eq!(parse_time(&b("12:60:00")), None);
    assert_eq!(parse_time(&b("12:00:60")), None);
    assert_eq!(parse_time(&b("12:5:00")), None);
    assert_eq!(parse_time(&b(":05:00")), None);
    assert_eq!(parse_time(&b("12:05")), None);
    assert_eq!(parse_time(&b("12-05-00")), None);
    assert_eq!(parse_time(&b("")), None);
    assert_eq!(parse_time(&b("99999999999999999999:00:00")), None);
}

#[test]
fn dates_have_eight_digits() {
    assert_eq!(parse_date(&b("20240229")), Some(Date { year: 2024, month: 2, day: 29 }));
    assert_eq!(parse_date(&b("00010101")), Some(Date { year: 1, month: 1, day: 1 }));
    assert_eq!(parse_date(&b("20241399")), Some(Date { year: 2024, month: 13, day: 99 }));
    assert_eq!(parse_date(&b("2024-02-29")), None);
    assert_eq!(parse_date(&b("2024022")), None);
    assert_eq!(parse_date(&b("2024022x")), None);
}

#[test]
fn angles_are_read_as_nanodegrees() {
    assert_eq!(parse_degrees(&b("47.6")), Some(47_600_000_000));
    assert_eq!(parse_degrees(&b("-122.300001")), Some(-122_300_001_000));
    assert_eq!(parse_degrees(&b("+0.000000001")), Some(1));
    assert_eq!(parse_degrees(&b("0.0000000019")), Some(1));
    assert_eq!(parse_degrees(&b("180")), Some(180_000_000_000));
    assert_eq!(parse_degrees(&b("-180.")), Some(-180_000_000_000));
    assert_eq!(parse_degrees(&b("180.000000001")), None);
    assert_eq!(parse_degrees(&b("0")), Some(0));
    assert_eq!(parse_degrees(&b("-0.5")), Some(-500_000_000));
    assert_eq!(parse_degrees(&b("1234.5")), None);
    assert_eq!(parse_degrees(&b(".5")), None);
    assert_eq!(parse_degrees(&b("")), None);
    assert_eq!(parse_degrees(&b("-")), None);
    assert_eq!(parse_degrees(&b("1.2.3")), None);
    assert_eq!(parse_degrees(&b("1e5")), None);
    assert_eq!(parse_degrees(&b("12.34x")), None);
}

#[test]
fn ids_are_hashed_to_64_bits() {
    assert_eq!(stable_id(&b("")), 0xcbf2_9ce4_8422_2325);
    assert_eq!(stable_id(&b("a")), 0xaf63_dc4c_8601_ec8c);
    assert_eq!(stable_id(&b("foobar")), 0x8594_4171_f739_67e8);
    assert_ne!(stable_id(&b("stop_1")), stable_id(&b("stop_2")));
}

#[test]
fn days_of_the_week_count_from_monday() {
    assert_eq!(weekday(0), 3);
    assert_eq!(weekday(4), 0);
    assert_eq!(weekday(-1), 2);
    assert_eq!(weekday(-4), 6);
    assert_eq!(weekday(19_000), 5);
    assert_eq!(weekday(i32::MAX), (i32::MAX as i64 + 3).rem_euclid(7) as u8);
    assert_eq!(weekday(i32::MIN), (i32::MIN as i64 + 3).rem_euclid(7) as u8);
}

fn weekdays_only() -> ServiceRow {
    ServiceRow { id: 1, weekdays: 0b001_1111, first_day: 19_000, last_day: 19_013 }
}

#[test]
fn a_service_runs_by_pattern_and_exceptions() {
    let services = vec![weekdays_only()];
    let exceptions = vec![
        ExceptionRow { service: 1, day: 19_000, added: true },
        ExceptionRow { service: 1, day: 19_002, added: false },
        ExceptionRow { service: 2, day: 19_003, added: true },
        ExceptionRow { service: 1, day: 19_020, added: true },
    ];
    // 19000 is a Saturday.
    assert!(service_runs(&services, &exceptions, 1, 19_000));
    assert!(!service_runs(&services, &exceptions, 1, 19_001));
    assert!(!service_runs(&services, &exceptions, 1, 19_002));
    assert!(service_runs(&services, &exceptions, 1, 19_003));
    assert!(service_runs(&services, &exceptions, 2, 19_003));
    assert!(!service_runs(&services, &exceptions, 2, 19_004));
    assert!(!service_runs(&services, &exceptions, 1, 19_014));
    assert!(service_runs(&services, &exceptions, 1, 19_020));
    assert!(!service_runs(&services, &exceptions, 3, 19_003));
    assert_eq!(find_exception(&exceptions, 1, 19_002), Some(false));
    assert_eq!(find_exception(&exceptions, 1, 19_001), None);
    assert_eq!(find_pattern(&services, 1), Some(weekdays_only()));
    assert_eq!(find_pattern(&services, 9), None);
}

#[test]
fn the_days_of_a_service_are_packed_into_bits() {
    let services = vec![weekdays_only()];
    let exceptions = vec![ExceptionRow { service: 1, day: 19_000, added: true }];
    let cal = Calendar { start_day: 19_000, num_days: 10 };
    // Sat (added), Sun, Mon..Fri, Sat, Sun, Mon.
    assert_eq!(service_days(&services, &exceptions, 1, &cal), vec![0b0111_1101, 0b0000_0010]);
    let none = Calendar { start_day: 19_000, num_days: 0 };
    assert_eq!(service_days(&services, &exceptions, 1, &none), Vec::<u8>::new());
    let edge = Calendar { start_day: i32::MAX, num_days: 3 };
    let late = vec![ExceptionRow { service: 1, day: i32::MAX, added: true }];
    assert_eq!(service_days(&services, &late, 1, &edge), vec![0b0000_0001]);
}

#[test]
fn services_cover_their_days() {
    assert_eq!(covered_days(&vec![]), Calendar { start_day: 0, num_days: 0 });
    assert_eq!(covered_days(&vec![weekdays_only()]), Calendar { start_day: 19_000, num_days: 14 });
    let more = vec![
        weekdays_only(),
        ServiceRow { id: 2, weekdays: 1, first_day: 18_990, last_day: 19_005 },
        ServiceRow { id: 3, weekdays: 1, first_day: 19_010, last_day: 19_030 },
    ];
    assert_eq!(covered_days(&more), Calendar { start_day: 18_990, num_days: 41 });
    let long = vec![ServiceRow { id: 1, weekdays: 1, first_day: 0, last_day: 100_000 }];
    assert_eq!(covered_days(&long), Calendar { start_day: 0, num_days: u16::MAX });
    let backwards = vec![ServiceRow { id: 1, weekdays: 1, first_day: 10, last_day: 5 }];
    assert_eq!(covered_days(&backwards), Calendar { start_day: 10, num_days: 0 });
}

#[test]
fn the_days_to_compile_for_are_chosen() {
    let covered = Calendar { start_day: 19_000, num_days: 14 };
    assert_eq!(chosen_days(covered, None, None), covered);
    assert_eq!(chosen_days(covered, Some(19_004), None), Calendar { start_day: 19_004, num_days: 10 });
    assert_eq!(chosen_days(covered, Some(19_014), None), Calendar { start_day: 19_014, num_days: 0 });
    assert_eq!(chosen_days(covered, Some(20_000), None), Calendar { start_day: 20_000, num_days: 0 });
    assert_eq!(chosen_days(covered, Some(18_990), Some(7)), Calendar { start_day: 18_990, num_days: 7 });
    assert_eq!(chosen_days(covered, None, Some(3)), Calendar { start_day: 19_000, num_days: 3 });
    assert_eq!(
        chosen_days(covered, Some(i32::MIN), None),
        Calendar { start_day: i32::MIN, num_days: u16::MAX }
    );
}

#[test]
fn ids_are_looked_up_by_their_last_place() {
    let ids = vec![5, 9, 5, 7];
    let index = build_index(&ids);
    assert_eq!(look_up(&index, &ids, 5), Some(2));
    assert_eq!(look_up(&index, &ids, 9), Some(1));
    assert_eq!(look_up(&index, &ids, 7), Some(3));
    assert_eq!(look_up(&index, &ids, 1), None);
}

fn plain_stop(id: u64) -> Stop {
    Stop { id, code: String::new(), name: format!("S{}", id), lat: 0, lon: id as i64, parent: None }
}

fn call(trip: u64, stop: u64, sequence: u32, at: u32) -> StopTimeRow {
    StopTimeRow { trip, stop, sequence, arrival: at, departure: at + 30 }
}

fn route_row(id: u64, agency: u64) -> RouteRow {
    RouteRow { id, agency, short_name: format!("R{}", id), long_name: String::new(), route_type: 3 }
}

fn trip_row(id: u64, route: u64) -> TripRow {
    TripRow { id, route, service: 1, headsign: format!("to {}", id) }
}

#[test]
fn rows_are_put_together_into_a_feed() {
    let agencies = vec![
        AgencyRow { id: 70, name: "Metro".to_string() },
        AgencyRow { id: 71, name: "Rail".to_string() },
    ];
    let routes = vec![route_row(10, 71), route_row(11, 99)];
    let trips = vec![trip_row(100, 11), trip_row(101, 10)];
    let calls = vec![
        call(101, 3, 1, 1_000),
        call(100, 1, 5, 500),
        call(101, 2, 2, 2_000),
        call(100, 3, 9, 900),
        call(101, 1, 7, 3_000),
    ];
    let cal = Calendar { start_day: 19_000, num_days: 10 };
    let feed = assemble(
        vec![plain_stop(1), plain_stop(2), plain_stop(3)],
        &agencies,
        &routes,
        &trips,
        &calls,
        &vec![weekdays_only()],
        &vec![],
        cal,
    )
    .unwrap();
    assert_eq!(feed.routes[0].agency, "Rail");
    assert_eq!(feed.routes[1].agency, "Metro");
    assert_eq!(feed.routes[1].short_name, "R11");
    assert_eq!(feed.trips[0].route, 1);
    assert_eq!(feed.trips[1].route, 0);
    assert_eq!(feed.trips[0].stops, vec![0, 2]);
    assert_eq!(feed.trips[1].stops, vec![2, 1, 0]);
    assert_eq!(
        feed.trips[0].times,
        vec![StopTime { arrival: 500, departure: 530 }, StopTime { arrival: 900, departure: 930 }]
    );
    assert_eq!(feed.trips[1].days, vec![0b0111_1100, 0b0000_0010]);
    assert_eq!(feed.trips[1].headsign, "to 101");
    assert_eq!(feed.calendar, cal);
    let tt = compile(feed, String::new()).unwrap();
    assert_eq!(tt.patterns.len(), 2);
    assert_eq!(name_of_agency(&vec![], 1), "");
}

#[test]
fn rows_that_do_not_fit_give_their_first_fault() {
    let put = |routes: &Vec<RouteRow>, trips: &Vec<TripRow>, calls: &Vec<StopTimeRow>| {
        assemble(
            vec![plain_stop(1), plain_stop(2)],
            &vec![],
            routes,
            trips,
            calls,
            &vec![],
            &vec![],
            Calendar { start_day: 0, num_days: 1 },
        )
        .err()
    };
    let routes = vec![route_row(10, 0)];
    let trips = vec![trip_row(100, 10), trip_row(101, 12), trip_row(102, 13)];
    assert_eq!(put(&routes, &trips, &vec![]), Some(FeedError::UnknownRoute { trip: 1 }));
    let trips = vec![trip_row(100, 10)];
    assert_eq!(
        put(&routes, &trips, &vec![call(100, 1, 1, 10), call(7, 1, 1, 10), call(100, 9, 2, 20)]),
        Some(FeedError::UnknownTrip { call: 1 })
    );
    assert_eq!(
        put(&routes, &trips, &vec![call(100, 1, 1, 10), call(100, 9, 2, 20)]),
        Some(FeedError::UnknownStop { call: 1 })
    );
    assert_eq!(
        put(&routes, &trips, &vec![call(100, 1, 2, 10), call(100, 2, 2, 20)]),
        Some(FeedError::Unordered { call: 1 })
    );
    assert_eq!(
        put(&routes, &trips, &vec![call(100, 1, 0, 10), call(100, 2, 1, 20), call(100, 1, 0, 30)]),
        Some(FeedError::Unordered { call: 2 })
    );
    assert_eq!(put(&routes, &trips, &vec![call(100, 1, 0, 10), call(100, 2, 1, 20)]), None);
}

#[test]
fn a_later_trip_of_the_same_id_takes_the_calls() {
    let feed = assemble(
        vec![plain_stop(1), plain_stop(2)],
        &vec![],
        &vec![route_row(10, 0)],
        &vec![trip_row(100, 10), trip_row(100, 10)],
        &vec![call(100, 1, 1, 10), call(100, 2, 2, 20)],
        &vec![],
        &vec![],
        Calendar { start_day: 0, num_days: 1 },
    )
    .unwrap();
    assert!(feed.trips[0].stops.is_empty());
    assert_eq!(feed.trips[1].stops, vec![0, 1]);
}

#[test]
fn tables_are_read_from_comma_separated_text() {
    let table = read_table(&b("\u{feff}stop_id,stop_name,stop_lat\n1,\"Main, North\",47.5\n2,\"a \"\"b\"\"\",1\r\n3\n")).unwrap();
    assert_eq!(table.header, vec![b("stop_id"), b("stop_name"), b("stop_lat")]);
    assert_eq!(table.rows.len(), 3);
    assert_eq!(table.rows[0], vec![b("1"), b("Main, North"), b("47.5")]);
    assert_eq!(table.rows[1], vec![b("2"), b("a \"b\""), b("1")]);
    assert_eq!(table.rows[2], vec![b("3")]);
    assert_eq!(find_column(&table.header, "stop_name"), Some(1));
    assert_eq!(find_column(&table.header, "stop_lon"), None);
    assert_eq!(field(&table.header, &table.rows[0], "stop_name"), b("Main, North"));
    assert_eq!(field(&table.header, &table.rows[2], "stop_name"), b(""));
    assert_eq!(field(&table.header, &table.rows[0], "nothing"), b(""));
    assert!(read_table(&b("")).is_none());
    let only_names = read_table(&b("a,b\n")).unwrap();
    assert!(only_names.rows.is_empty());
}

#[test]
fn stops_are_read_from_their_table() {
    let table = read_table(&b(
        "stop_id,stop_code,stop_name,stop_lat,stop_lon,parent_station\nA,a1,Alder,47.6,-122.3,\nB,,Birch,-33.9,151.2,A\n",
    ))
    .unwrap();
    let stops = read_stops(&table).unwrap();
    assert_eq!(stops.len(), 2);
    assert_eq!(stops[0].id, stable_id(&b("A")));
    assert_eq!(stops[0].code, "a1");
    assert_eq!(stops[0].name, "Alder");
    assert_eq!((stops[0].lat, stops[0].lon), (47_600_000_000, -122_300_000_000));
    assert_eq!(stops[0].parent, None);
    assert_eq!(stops[1].parent, Some(stable_id(&b("A"))));
    let bad = read_table(&b("stop_id,stop_name,stop_lat,stop_lon\nA,Alder,47.6,-122.3\nB,Birch,91,0\n")).unwrap();
    assert_eq!(read_stops(&bad).err(), Some(1));
    let no_coordinates = read_table(&b("stop_id,stop_name\nA,Alder\n")).unwrap();
    assert_eq!(read_stops(&no_coordinates).err(), Some(0));
    let mut not_text = b("stop_id,stop_name,stop_lat,stop_lon\nA,");
    not_text.extend_from_slice(&[0xff, 0xfe]);
    not_text.extend_from_slice(b",1,1\n");
    assert_eq!(read_stops(&read_table(&not_text).unwrap()).err(), Some(0));
}

#[test]
fn calls_take_a_missing_time_from_the_other() {
    let table = read_table(&b(
        "trip_id,arrival_time,departure_time,stop_id,stop_sequence\nT,08:00:00,08:01:00,A,1\nT,,08:10:00,B,2\nT,08:20:00,,C,3\nT,,,D,4\n",
    ))
    .unwrap();
    assert_eq!(read_stop_times(&table).err(), Some(3));
    let table = read_table(&b(
        "trip_id,arrival_time,departure_time,stop_id,stop_sequence\nT,08:00:00,08:01:00,A,1\nT,,08:10:00,B,2\nT,08:20:00,,C,3\n",
    ))
    .unwrap();
    let calls = read_stop_times(&table).unwrap();
    assert_eq!((calls[0].arrival, calls[0].departure, calls[0].sequence), (28_800, 28_860, 1));
    assert_eq!((calls[1].arrival, calls[1].departure), (29_400, 29_400));
    assert_eq!((calls[2].arrival, calls[2].departure), (30_000, 30_000));
    assert_eq!(calls[1].stop, stable_id(&b("B")));
    assert_eq!(calls[1].trip, stable_id(&b("T")));
}

fn files() -> FeedFiles {
    FeedFiles {
        stops: b("stop_id,stop_name,stop_lat,stop_lon\nA,Alder,47.6,-122.3\nB,Birch,47.64,-122.3\n"),
        agency: b("agency_id,agency_name\nM,Metro\n"),
        routes: b("route_id,agency_id,route_short_name,route_long_name,route_type\n10,M,10,Tenth,3\n"),
        trips: b("route_id,service_id,trip_id,trip_headsign\n10,WK,t1,Birch\n10,WK,t2,Birch\n"),
        stop_times: b("trip_id,arrival_time,departure_time,stop_id,stop_sequence\nt1,12:05:00,12:05:00,A,1\nt1,12:18:00,12:18:00,B,2\nt2,12:20:00,12:20:00,A,1\nt2,12:33:00,12:33:00,B,2\n"),
        calendar: b("service_id,monday,tuesday,wednesday,thursday,friday,saturday,sunday,start_date,end_date\nWK,1,1,1,1,1,0,0,20220108,20220114\n"),
        calendar_dates: b("service_id,date,exception_type\nWK,20220109,1\nWK,20220110,2\n"),
    }
}

#[test]
fn a_feed_is_read_from_its_files() {
    let rows = read_rows(&files()).unwrap();
    assert_eq!(rows.stops.len(), 2);
    assert_eq!(rows.agencies[0].name, "Metro");
    assert_eq!(rows.routes[0].route_type, 3);
    assert_eq!(rows.trips.len(), 2);
    assert_eq!(rows.calls.len(), 4);
    assert_eq!(
        rows.services,
        vec![ServiceRow {
            id: stable_id(&b("WK")),
            weekdays: 0b001_1111,
            first_day: 19_000,
            last_day: 19_006
        }]
    );
    assert_eq!(
        rows.exceptions,
        vec![
            ExceptionRow { service: stable_id(&b("WK")), day: 19_001, added: true },
            ExceptionRow { service: stable_id(&b("WK")), day: 19_002, added: false },
        ]
    );
    let cal = covered_days(&rows.services);
    assert_eq!(cal, Calendar { start_day: 19_000, num_days: 7 });
    let feed = assemble(
        rows.stops,
        &rows.agencies,
        &rows.routes,
        &rows.trips,
        &rows.calls,
        &rows.services,
        &rows.exceptions,
        cal,
    )
    .unwrap();
    // Sat, Sun (added), Mon (removed), Tue, Wed, Thu, Fri.
    assert_eq!(feed.trips[0].days, vec![0b0111_1010]);
    assert_eq!(feed.routes[0].agency, "Metro");
    let tt = compile(feed, "tiles".to_string()).unwrap();
    assert_eq!(tt.patterns.len(), 1);
    assert_eq!(tt.patterns[0].trips, vec![0, 1]);
}

#[test]
fn files_that_cannot_be_read_give_their_fault() {
    let mut no_stops = files();
    no_stops.stops.clear();
    assert_eq!(read_rows(&no_stops).err(), Some(ReadError::NoTable { file: FeedFile::Stops }));
    let mut no_agency = files();
    no_agency.agency.clear();
    no_agency.calendar.clear();
    no_agency.calendar_dates.clear();
    let rows = read_rows(&no_agency).unwrap();
    assert!(rows.agencies.is_empty() && rows.services.is_empty() && rows.exceptions.is_empty());
    let mut bad_date = files();
    bad_date.calendar_dates = b("service_id,date,exception_type\nWK,20220109,1\nWK,20220230,2\n");
    assert_eq!(
        read_rows(&bad_date).err(),
        Some(ReadError::BadRow { file: FeedFile::CalendarDates, row: 1 })
    );
    let mut bad_kind = files();
    bad_kind.calendar_dates = b("service_id,date,exception_type\nWK,20220109,3\n");
    assert_eq!(
        read_rows(&bad_kind).err(),
        Some(ReadError::BadRow { file: FeedFile::CalendarDates, row: 0 })
    );
    let mut bad_type = files();
    bad_type.routes = b("route_id,route_short_name,route_long_name,route_type\n10,10,Tenth,70000\n");
    assert_eq!(
        read_rows(&bad_type).err(),
        Some(ReadError::BadRow { file: FeedFile::Routes, row: 0 })
    );
    let mut bad_time = files();
    bad_time.stop_times = b("trip_id,arrival_time,departure_time,stop_id,stop_sequence\nt1,12:05,12:05:00,A,1\n");
    assert_eq!(
        read_rows(&bad_time).err(),
        Some(ReadError::BadRow { file: FeedFile::StopTimes, row: 0 })
    );
}
