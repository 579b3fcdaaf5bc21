//! Puts the rows of a feed together into its tables.

use crate::compile::Feed;
use crate::feed::{
    build_index, index_for, indexes, lemma_index_for, look_up, runs_on, service_days, AgencyRow,
    ExceptionRow, RouteRow, ServiceRow, StopTimeRow, TripRow,
};
use crate::timetable::{bitmap_len, day_bit, Calendar, Route, Stop, StopTime, Trip};
use std::collections::HashMap;
use vstd::prelude::*;

verus! {

/// Why the rows of a feed do not fit together.
#[derive(Debug, Clone, Copy, PartialEq, Eq, Structural)]
pub enum FeedError {
    /// The feed holds more stops or routes than a 32-bit index can number.
    TooLarge,
    /// The trip at this row belongs to a route that the feed does not hold.
    UnknownRoute { trip: usize },
    /// The call at this row belongs to a trip that the feed does not hold.
    UnknownTrip { call: usize },
    /// The call at this row is at a stop that the feed does not hold.
    UnknownStop { call: usize },
    /// The call at this row does not come later in its trip than the call
    /// before it.
    Unordered { call: usize },
}

/// The row that a fault names.
pub open spec fn row_of(e: FeedError) -> int {
    match e {
        FeedError::TooLarge => 0,
        FeedError::UnknownRoute { trip } => trip as int,
        FeedError::UnknownTrip { call } => call as int,
        FeedError::UnknownStop { call } => call as int,
        FeedError::Unordered { call } => call as int,
    }
}

/// The ids of the stops.
pub open spec fn stop_ids(stops: Seq<Stop>) -> Seq<u64> {
    Seq::new(stops.len(), |i: int| stops[i].id)
}

/// The ids of the agencies.
pub open spec fn agency_ids(rows: Seq<AgencyRow>) -> Seq<u64> {
    Seq::new(rows.len(), |i: int| rows[i].id)
}

/// The ids of the routes.
pub open spec fn route_ids(rows: Seq<RouteRow>) -> Seq<u64> {
    Seq::new(rows.len(), |i: int| rows[i].id)
}

/// The ids of the trips.
pub open spec fn trip_ids(rows: Seq<TripRow>) -> Seq<u64> {
    Seq::new(rows.len(), |i: int| rows[i].id)
}

/// The name of the agency of a route: that of the last agency with the id
/// that the route names; where there is none, that of the first agency of
/// the feed; in a feed without agencies, no name.
pub open spec fn agency_name(rows: Seq<AgencyRow>, id: u64) -> Seq<char> {
    match index_for(agency_ids(rows), id) {
        Some(i) => rows[i].name@,
        None => if rows.len() > 0 {
            rows[0].name@
        } else {
            Seq::empty()
        },
    }
}

/// Computes [`agency_name`].
pub fn name_of_agency(rows: &Vec<AgencyRow>, id: u64) -> (r: String)
    ensures
        r@ == agency_name(rows@, id),
{
    let ghost ids = agency_ids(rows@);
    let mut found: Option<usize> = None;
    let mut i: usize = 0;
    assert(ids.take(0) =~= Seq::<u64>::empty());
    while i < rows.len()
        invariant
            i <= rows@.len(),
            ids == agency_ids(rows@),
            found matches Some(k) ==> k < i,
            index_for(ids.take(i as int), id) == match found {
                Some(k) => Some(k as int),
                None => None,
            },
        decreases rows@.len() - i,
    {
        proof {
            assert(ids.take(i + 1).drop_last() =~= ids.take(i as int));
            assert(ids.take(i + 1).last() == rows@[i as int].id);
        }
        if rows[i].id == id {
            found = Some(i);
        }
        i += 1;
    }
    assert(ids.take(rows@.len() as int) =~= ids);
    match found {
        Some(k) => rows[k].name.clone(),
        None => if rows.len() > 0 {
            rows[0].name.clone()
        } else {
            String::new()
        },
    }
}

/// The routes of a feed, each under the name of its agency.
pub fn route_table(agencies: &Vec<AgencyRow>, rows: &Vec<RouteRow>) -> (routes: Vec<Route>)
    ensures
        routes@.len() == rows@.len(),
        forall|i: int|
            0 <= i < rows@.len() ==> {
                &&& (#[trigger] routes@[i]).agency@ == agency_name(agencies@, rows@[i].agency)
                &&& routes@[i].short_name@ == rows@[i].short_name@
                &&& routes@[i].long_name@ == rows@[i].long_name@
                &&& routes@[i].route_type == rows@[i].route_type
            },
{
    let mut routes: Vec<Route> = Vec::new();
    let mut i: usize = 0;
    while i < rows.len()
        invariant
            i <= rows@.len(),
            routes@.len() == i,
            forall|k: int|
                0 <= k < i ==> {
                    &&& (#[trigger] routes@[k]).agency@ == agency_name(agencies@, rows@[k].agency)
                    &&& routes@[k].short_name@ == rows@[k].short_name@
                    &&& routes@[k].long_name@ == rows@[k].long_name@
                    &&& routes@[k].route_type == rows@[k].route_type
                },
        decreases rows@.len() - i,
    {
        routes.push(
            Route {
                agency: name_of_agency(agencies, rows[i].agency),
                short_name: rows[i].short_name.clone(),
                long_name: rows[i].long_name.clone(),
                route_type: rows[i].route_type,
            },
        );
        i += 1;
    }
    routes
}

/// The calls of a trip among the rows, in the order of the rows.
pub open spec fn calls_of(rows: Seq<StopTimeRow>, trip: u64) -> Seq<StopTimeRow>
    decreases rows.len(),
{
    if rows.len() == 0 {
        Seq::empty()
    } else if rows.last().trip == trip {
        calls_of(rows.drop_last(), trip).push(rows.last())
    } else {
        calls_of(rows.drop_last(), trip)
    }
}

/// What is wrong with the call at row `k`, if anything: its trip or its
/// stop is not of the feed, or it does not come later in its trip than the
/// call of that trip before it.
pub open spec fn call_fault(
    rows: Seq<StopTimeRow>,
    trips: Seq<u64>,
    stops: Seq<u64>,
    k: int,
) -> Option<FeedError> {
    let before = calls_of(rows.take(k), rows[k].trip);
    if index_for(trips, rows[k].trip) is None {
        Some(FeedError::UnknownTrip { call: k as usize })
    } else if index_for(stops, rows[k].stop) is None {
        Some(FeedError::UnknownStop { call: k as usize })
    } else if before.len() > 0 && before.last().sequence >= rows[k].sequence {
        Some(FeedError::Unordered { call: k as usize })
    } else {
        None
    }
}

/// The places of the stops of the calls.
pub open spec fn places_of(calls: Seq<StopTimeRow>, stops: Seq<u64>) -> Seq<u32> {
    Seq::new(calls.len(), |j: int| index_for(stops, calls[j].stop).unwrap() as u32)
}

/// The times of the calls.
pub open spec fn times_of(calls: Seq<StopTimeRow>) -> Seq<StopTime> {
    Seq::new(
        calls.len(),
        |j: int| StopTime { arrival: calls[j].arrival, departure: calls[j].departure },
    )
}

/// The calls that the trip at row `x` gets: those of its id, where it is
/// the last trip of that id; none where a later trip has the id.
pub open spec fn own_calls(rows: Seq<StopTimeRow>, trips: Seq<u64>, x: int) -> Seq<StopTimeRow> {
    if index_for(trips, trips[x]) == Some(x) {
        calls_of(rows, trips[x])
    } else {
        Seq::empty()
    }
}

/// The trips hold the calls of the first `upto` rows.
pub open spec fn calls_filled(
    rows: Seq<StopTimeRow>,
    trips: Seq<u64>,
    stops: Seq<u64>,
    filled: Seq<Trip>,
    upto: int,
) -> bool {
    &&& filled.len() == trips.len()
    &&& forall|x: int|
        0 <= x < trips.len() ==> (#[trigger] filled[x]).stops@ == places_of(
            own_calls(rows.take(upto), trips, x),
            stops,
        ) && filled[x].times@ == times_of(own_calls(rows.take(upto), trips, x))
}

/// One more row that is not of the trip leaves the calls of the trip as
/// they were; one that is of the trip is its last call.
pub proof fn lemma_calls_step(rows: Seq<StopTimeRow>, k: int, trip: u64)
    requires
        0 <= k < rows.len(),
    ensures
        calls_of(rows.take(k + 1), trip) == if rows[k].trip == trip {
            calls_of(rows.take(k), trip).push(rows[k])
        } else {
            calls_of(rows.take(k), trip)
        },
{
    assert(rows.take(k + 1).drop_last() =~= rows.take(k));
    assert(rows.take(k + 1).last() == rows[k]);
}

/// Gives each trip its calls. The trips come without calls; each row is
/// looked at in turn, and the first row with a fault ends the work.
#[verifier::rlimit(50)]
pub fn fill_calls(
    rows: &Vec<StopTimeRow>,
    trip_rows: &Vec<u64>,
    stop_rows: &Vec<u64>,
    trips: &mut Vec<Trip>,
) -> (r: Result<(), FeedError>)
    requires
        stop_rows@.len() <= u32::MAX,
        old(trips)@.len() == trip_rows@.len(),
        forall|x: int|
            0 <= x < old(trips)@.len() ==> (#[trigger] old(trips)@[x]).stops@.len() == 0 && old(
                trips,
            )@[x].times@.len() == 0,
    ensures
        final(trips)@.len() == old(trips)@.len(),
        forall|x: int|
            0 <= x < old(trips)@.len() ==> (#[trigger] final(trips)@[x]).id == old(trips)@[x].id
                && final(trips)@[x].route == old(trips)@[x].route && final(trips)@[x].headsign
                == old(trips)@[x].headsign && final(trips)@[x].days == old(trips)@[x].days,
        r is Ok ==> calls_filled(rows@, trip_rows@, stop_rows@, final(trips)@, rows@.len() as int)
            && forall|k: int|
            0 <= k < rows@.len() ==> #[trigger] call_fault(rows@, trip_rows@, stop_rows@, k) is None,
        r matches Err(e) ==> 0 <= row_of(e) < rows@.len() && call_fault(
            rows@,
            trip_rows@,
            stop_rows@,
            row_of(e),
        ) == Some(e) && forall|j: int|
            0 <= j < row_of(e) ==> #[trigger] call_fault(rows@, trip_rows@, stop_rows@, j) is None,
{
    let trip_index = build_index(trip_rows);
    let stop_index = build_index(stop_rows);
    let mut last_seq: Vec<u32> = Vec::new();
    let mut x: usize = 0;
    while x < trip_rows.len()
        invariant
            x <= trip_rows@.len(),
            last_seq@.len() == x,
        decreases trip_rows@.len() - x,
    {
        last_seq.push(0);
        x += 1;
    }
    let mut i: usize = 0;
    proof {
        assert(rows@.take(0) =~= Seq::<StopTimeRow>::empty());
        assert forall|x: int| 0 <= x < trip_rows@.len() implies (#[trigger] trips@[x]).stops@
            == places_of(own_calls(rows@.take(0), trip_rows@, x), stop_rows@) && trips@[x].times@
            == times_of(own_calls(rows@.take(0), trip_rows@, x)) by {
            assert(trips@[x].stops@ =~= places_of(
                own_calls(rows@.take(0), trip_rows@, x),
                stop_rows@,
            ));
            assert(trips@[x].times@ =~= times_of(own_calls(rows@.take(0), trip_rows@, x)));
        }
    }
    while i < rows.len()
        invariant
            i <= rows@.len(),
            stop_rows@.len() <= u32::MAX,
            indexes(trip_index@, trip_rows@),
            indexes(stop_index@, stop_rows@),
            trips@.len() == old(trips)@.len(),
            trips@.len() == trip_rows@.len(),
            forall|x: int|
                0 <= x < old(trips)@.len() ==> (#[trigger] trips@[x]).id == old(trips)@[x].id
                    && trips@[x].route == old(trips)@[x].route && trips@[x].headsign == old(
                    trips,
                )@[x].headsign && trips@[x].days == old(trips)@[x].days,
            calls_filled(rows@, trip_rows@, stop_rows@, trips@, i as int),
            last_seq@.len() == trip_rows@.len(),
            forall|x: int|
                0 <= x < trip_rows@.len() && own_calls(rows@.take(i as int), trip_rows@, x).len() > 0
                    ==> (#[trigger] last_seq@[x]) == own_calls(
                    rows@.take(i as int),
                    trip_rows@,
                    x,
                ).last().sequence,
            forall|k: int|
                0 <= k < i ==> #[trigger] call_fault(rows@, trip_rows@, stop_rows@, k) is None,
        decreases rows@.len() - i,
    {
        let row = rows[i];
        let ghost before = calls_of(rows@.take(i as int), row.trip);
        let t = match look_up(&trip_index, trip_rows, row.trip) {
            Some(t) => t,
            None => {
                return Err(FeedError::UnknownTrip { call: i });
            },
        };
        let s = match look_up(&stop_index, stop_rows, row.stop) {
            Some(s) => s,
            None => {
                return Err(FeedError::UnknownStop { call: i });
            },
        };
        proof {
            lemma_index_for(trip_rows@, row.trip);
            assert(own_calls(rows@.take(i as int), trip_rows@, t as int) == before);
            assert(trips@[t as int].times@ == times_of(before));
        }
        let seen = trips[t].times.len();
        assert(seen == before.len());
        if seen > 0 && last_seq[t] >= row.sequence {
            return Err(FeedError::Unordered { call: i });
        }
        let ghost old_trips = trips@;
        let ghost old_seq = last_seq@;
        last_seq[t] = row.sequence;
        trips[t].stops.push(s as u32);
        trips[t].times.push(StopTime { arrival: row.arrival, departure: row.departure });
        proof {
            assert(call_fault(rows@, trip_rows@, stop_rows@, i as int) is None);
            assert forall|x: int| 0 <= x < trip_rows@.len() implies (#[trigger] trips@[x]).stops@
                == places_of(own_calls(rows@.take(i + 1), trip_rows@, x), stop_rows@)
                && trips@[x].times@ == times_of(own_calls(rows@.take(i + 1), trip_rows@, x)) by {
                lemma_calls_step(rows@, i as int, trip_rows@[x]);
                let was = own_calls(rows@.take(i as int), trip_rows@, x);
                let now = own_calls(rows@.take(i + 1), trip_rows@, x);
                assert(old_trips[x].stops@ == places_of(was, stop_rows@));
                assert(old_trips[x].times@ == times_of(was));
                if x == t {
                    assert(now == was.push(row));
                    assert(trips@[x].stops@ =~= places_of(now, stop_rows@));
                    assert(trips@[x].times@ =~= times_of(now));
                } else {
                    assert(trips@[x] == old_trips[x]);
                    if index_for(trip_rows@, trip_rows@[x]) == Some(x) {
                        assert(trip_rows@[x] != row.trip);
                    }
                    assert(now == was);
                }
            }
            assert forall|x: int|
                0 <= x < trip_rows@.len() && own_calls(rows@.take(i + 1), trip_rows@, x).len()
                    > 0 implies (#[trigger] last_seq@[x]) == own_calls(
                rows@.take(i + 1),
                trip_rows@,
                x,
            ).last().sequence by {
                lemma_calls_step(rows@, i as int, trip_rows@[x]);
                let was = own_calls(rows@.take(i as int), trip_rows@, x);
                if x == t {
                    assert(own_calls(rows@.take(i + 1), trip_rows@, x) == was.push(row));
                } else {
                    if index_for(trip_rows@, trip_rows@[x]) == Some(x) {
                        assert(trip_rows@[x] != row.trip);
                    }
                    assert(last_seq@[x] == old_seq[x]);
                }
            }
        }
        i += 1;
    }
    Ok(())
}

/// The ids of the stops, as a list.
pub fn list_stop_ids(stops: &Vec<Stop>) -> (ids: Vec<u64>)
    ensures
        ids@ == stop_ids(stops@),
{
    let mut ids: Vec<u64> = Vec::new();
    let mut i: usize = 0;
    while i < stops.len()
        invariant
            i <= stops@.len(),
            ids@.len() == i,
            forall|k: int| 0 <= k < i ==> ids@[k] == stops@[k].id,
        decreases stops@.len() - i,
    {
        ids.push(stops[i].id);
        i += 1;
    }
    assert(ids@ =~= stop_ids(stops@));
    ids
}

/// The ids of the routes, as a list.
pub fn list_route_ids(rows: &Vec<RouteRow>) -> (ids: Vec<u64>)
    ensures
        ids@ == route_ids(rows@),
{
    let mut ids: Vec<u64> = Vec::new();
    let mut i: usize = 0;
    while i < rows.len()
        invariant
            i <= rows@.len(),
            ids@.len() == i,
            forall|k: int| 0 <= k < i ==> ids@[k] == rows@[k].id,
        decreases rows@.len() - i,
    {
        ids.push(rows[i].id);
        i += 1;
    }
    assert(ids@ =~= route_ids(rows@));
    ids
}

/// The ids of the trips, as a list.
pub fn list_trip_ids(rows: &Vec<TripRow>) -> (ids: Vec<u64>)
    ensures
        ids@ == trip_ids(rows@),
{
    let mut ids: Vec<u64> = Vec::new();
    let mut i: usize = 0;
    while i < rows.len()
        invariant
            i <= rows@.len(),
            ids@.len() == i,
            forall|k: int| 0 <= k < i ==> ids@[k] == rows@[k].id,
        decreases rows@.len() - i,
    {
        ids.push(rows[i].id);
        i += 1;
    }
    assert(ids@ =~= trip_ids(rows@));
    ids
}

/// The trip is the trip of the row, without its calls: its id and its
/// headsign, the place of its route among the routes, and one bit for each
/// day of the calendar on which its service runs.
pub open spec fn trip_of_row(
    row: TripRow,
    routes: Seq<u64>,
    services: Seq<ServiceRow>,
    exceptions: Seq<ExceptionRow>,
    cal: Calendar,
    trip: Trip,
) -> bool {
    &&& trip.id == row.id
    &&& trip.headsign@ == row.headsign@
    &&& index_for(routes, row.route) == Some(trip.route as int)
    &&& trip.days@.len() == bitmap_len(cal.num_days as int)
    &&& forall|d: u16|
        d < cal.num_days ==> #[trigger] day_bit(trip.days@, d) == runs_on(
            services,
            exceptions,
            row.service,
            cal.start_day + d,
        )
}

/// The trips of the rows, each without its calls; the first row whose
/// route the feed does not hold ends the work.
pub fn trip_table(
    rows: &Vec<TripRow>,
    routes: &Vec<u64>,
    services: &Vec<ServiceRow>,
    exceptions: &Vec<ExceptionRow>,
    cal: &Calendar,
) -> (r: Result<Vec<Trip>, FeedError>)
    requires
        routes@.len() <= u32::MAX,
    ensures
        r matches Ok(trips) ==> trips@.len() == rows@.len() && forall|x: int|
            0 <= x < rows@.len() ==> trip_of_row(
                rows@[x],
                routes@,
                services@,
                exceptions@,
                *cal,
                #[trigger] trips@[x],
            ) && trips@[x].stops@.len() == 0 && trips@[x].times@.len() == 0,
        r matches Err(e) ==> e matches FeedError::UnknownRoute { trip } && trip < rows@.len()
            && index_for(routes@, rows@[trip as int].route) is None && forall|y: int|
            0 <= y < trip ==> index_for(routes@, (#[trigger] rows@[y]).route) is Some,
{
    let index = build_index(routes);
    let mut trips: Vec<Trip> = Vec::new();
    let mut x: usize = 0;
    while x < rows.len()
        invariant
            x <= rows@.len(),
            routes@.len() <= u32::MAX,
            indexes(index@, routes@),
            trips@.len() == x,
            forall|y: int|
                0 <= y < x ==> trip_of_row(
                    rows@[y],
                    routes@,
                    services@,
                    exceptions@,
                    *cal,
                    #[trigger] trips@[y],
                ) && trips@[y].stops@.len() == 0 && trips@[y].times@.len() == 0,
            forall|y: int| 0 <= y < x ==> index_for(routes@, (#[trigger] rows@[y]).route) is Some,
        decreases rows@.len() - x,
    {
        let route = match look_up(&index, routes, rows[x].route) {
            Some(route) => route,
            None => {
                return Err(FeedError::UnknownRoute { trip: x });
            },
        };
        let days = service_days(services, exceptions, rows[x].service, cal);
        trips.push(
            Trip {
                id: rows[x].id,
                route: route as u32,
                headsign: rows[x].headsign.clone(),
                days,
                stops: Vec::new(),
                times: Vec::new(),
            },
        );
        x += 1;
    }
    Ok(trips)
}

/// What is wrong with the rows of a feed, if anything: first their number,
/// then the routes of the trips, then the calls.
pub open spec fn rows_fault(
    stops: Seq<Stop>,
    routes: Seq<RouteRow>,
    trips: Seq<TripRow>,
    calls: Seq<StopTimeRow>,
    e: FeedError,
) -> bool {
    let known = forall|x: int|
        0 <= x < trips.len() ==> index_for(route_ids(routes), (#[trigger] trips[x]).route) is Some;
    let fit = stops.len() <= u32::MAX && routes.len() <= u32::MAX;
    match e {
        FeedError::TooLarge => !fit,
        FeedError::UnknownRoute { trip } => fit && trip < trips.len() && index_for(
            route_ids(routes),
            trips[trip as int].route,
        ) is None && forall|y: int|
            0 <= y < trip ==> index_for(route_ids(routes), (#[trigger] trips[y]).route) is Some,
        _ => fit && known && 0 <= row_of(e) < calls.len() && call_fault(
            calls,
            trip_ids(trips),
            stop_ids(stops),
            row_of(e),
        ) == Some(e) && forall|j: int|
            0 <= j < row_of(e) ==> #[trigger] call_fault(calls, trip_ids(trips), stop_ids(stops), j)
                is None,
    }
}

/// The feed holds the rows put together: the stops as they are, the
/// routes under the names of their agencies, and the trips with their
/// routes, their days and their calls.
pub open spec fn assembled(
    stops: Seq<Stop>,
    agencies: Seq<AgencyRow>,
    routes: Seq<RouteRow>,
    trips: Seq<TripRow>,
    calls: Seq<StopTimeRow>,
    services: Seq<ServiceRow>,
    exceptions: Seq<ExceptionRow>,
    cal: Calendar,
    feed: Feed,
) -> bool {
    &&& feed.stops@ == stops
    &&& feed.calendar == cal
    &&& feed.routes@.len() == routes.len()
    &&& forall|i: int|
        0 <= i < routes.len() ==> {
            &&& (#[trigger] feed.routes@[i]).agency@ == agency_name(agencies, routes[i].agency)
            &&& feed.routes@[i].short_name@ == routes[i].short_name@
            &&& feed.routes@[i].long_name@ == routes[i].long_name@
            &&& feed.routes@[i].route_type == routes[i].route_type
        }
    &&& feed.trips@.len() == trips.len()
    &&& forall|x: int|
        0 <= x < trips.len() ==> {
            &&& trip_of_row(
                trips[x],
                route_ids(routes),
                services,
                exceptions,
                cal,
                #[trigger] feed.trips@[x],
            )
            &&& feed.trips@[x].stops@ == places_of(
                own_calls(calls, trip_ids(trips), x),
                stop_ids(stops),
            )
            &&& feed.trips@[x].times@ == times_of(own_calls(calls, trip_ids(trips), x))
        }
}

/// Puts the rows of a feed together into its tables, for the days of
/// `cal`.
///
/// Each route gets the name of its agency. Each trip gets the place of its
/// route, one bit for each day of the calendar on which its service runs,
/// and its calls in the order of the rows, each at the place of its stop.
/// Where several stops, routes or trips share an id, the last of them is
/// meant. Rows that do not fit together give the first of their faults.
#[verifier::rlimit(50)]
pub fn assemble(
    stops: Vec<Stop>,
    agencies: &Vec<AgencyRow>,
    routes: &Vec<RouteRow>,
    trips: &Vec<TripRow>,
    calls: &Vec<StopTimeRow>,
    services: &Vec<ServiceRow>,
    exceptions: &Vec<ExceptionRow>,
    cal: Calendar,
) -> (r: Result<Feed, FeedError>)
    ensures
        r matches Ok(feed) ==> assembled(
            stops@,
            agencies@,
            routes@,
            trips@,
            calls@,
            services@,
            exceptions@,
            cal,
            feed,
        ) && forall|e: FeedError| !rows_fault(stops@, routes@, trips@, calls@, e),
        r matches Err(e) ==> rows_fault(stops@, routes@, trips@, calls@, e),
{
    if stops.len() > u32::MAX as usize || routes.len() > u32::MAX as usize {
        return Err(FeedError::TooLarge);
    }
    let route_list = list_route_ids(routes);
    let trip_list = list_trip_ids(trips);
    let stop_list = list_stop_ids(&stops);
    let mut table = match trip_table(trips, &route_list, services, exceptions, &cal) {
        Ok(table) => table,
        Err(e) => {
            return Err(e);
        },
    };
    let ghost bare = table@;
    proof {
        assert forall|x: int| 0 <= x < trips@.len() implies index_for(
            route_ids(routes@),
            (#[trigger] trips@[x]).route,
        ) is Some by {
            assert(trip_of_row(trips@[x], route_list@, services@, exceptions@, cal, bare[x]));
        }
    }
    match fill_calls(calls, &trip_list, &stop_list, &mut table) {
        Ok(_) => {},
        Err(e) => {
            return Err(e);
        },
    }
    let feed = Feed { stops, routes: route_table(agencies, routes), trips: table, calendar: cal };
    proof {
        assert(calls@.take(calls@.len() as int) =~= calls@);
        assert forall|x: int| 0 <= x < trips@.len() implies trip_of_row(
            trips@[x],
            route_ids(routes@),
            services@,
            exceptions@,
            cal,
            #[trigger] feed.trips@[x],
        ) by {
            assert(trip_of_row(
                trips@[x],
                route_ids(routes@),
                services@,
                exceptions@,
                cal,
                bare[x],
            ));
            assert(feed.trips@[x].days == bare[x].days);
        }
        assert forall|e: FeedError| !rows_fault(stops@, routes@, trips@, calls@, e) by {
            match e {
                FeedError::UnknownRoute { trip } => {
                    if trip < trips@.len() {
                        assert(trip_of_row(
                            trips@[trip as int],
                            route_ids(routes@),
                            services@,
                            exceptions@,
                            cal,
                            bare[trip as int],
                        ));
                    }
                },
                _ => {},
            }
        }
    }
    Ok(feed)
}

/// The days that the weekly patterns of the services cover together: from
/// the first day of the earliest to the last day of the latest, and no more
/// than 65535 days. Without services, no day.
pub fn covered_days(services: &Vec<ServiceRow>) -> (cal: Calendar)
    ensures
        services@.len() == 0 ==> cal == (Calendar { start_day: 0, num_days: 0 }),
        services@.len() > 0 ==> {
            &&& forall|i: int| 0 <= i < services@.len() ==> cal.start_day <= (#[trigger] services@[i]).first_day
            &&& exists|i: int| 0 <= i < services@.len() && cal.start_day == (#[trigger] services@[i]).first_day
            &&& forall|i: int|
                0 <= i < services@.len() ==> (#[trigger] services@[i]).last_day < cal.start_day
                    + cal.num_days || cal.num_days == u16::MAX
            &&& cal.num_days > 0 ==> cal.num_days == u16::MAX || exists|i: int|
                0 <= i < services@.len() && (#[trigger] services@[i]).last_day == cal.start_day
                    + cal.num_days - 1
        },
{
    if services.len() == 0 {
        return Calendar { start_day: 0, num_days: 0 };
    }
    let mut first = services[0].first_day;
    let mut last = services[0].last_day;
    let mut i: usize = 1;
    while i < services.len()
        invariant
            1 <= i <= services@.len(),
            forall|k: int| 0 <= k < i ==> first <= (#[trigger] services@[k]).first_day,
            exists|k: int| 0 <= k < i && first == (#[trigger] services@[k]).first_day,
            forall|k: int| 0 <= k < i ==> (#[trigger] services@[k]).last_day <= last,
            exists|k: int| 0 <= k < i && last == (#[trigger] services@[k]).last_day,
        decreases services@.len() - i,
    {
        if services[i].first_day < first {
            first = services[i].first_day;
        }
        if services[i].last_day > last {
            last = services[i].last_day;
        }
        i += 1;
    }
    let span: i64 = last as i64 - first as i64 + 1;
    let num_days: u16 = if span <= 0 {
        0
    } else if span >= u16::MAX as i64 {
        u16::MAX
    } else {
        span as u16
    };
    Calendar { start_day: first, num_days }
}

/// The days from `start_day` to the end of the covered days: none where
/// the covered days end before, and no more than 65535.
pub open spec fn days_left(covered: Calendar, start_day: i32) -> u16 {
    let left = covered.start_day + covered.num_days - start_day;
    if left <= 0 {
        0
    } else if left >= u16::MAX {
        u16::MAX
    } else {
        left as u16
    }
}

/// The days to compile a feed for: from the day that the caller names, or
/// else from the first covered day; for as many days as the caller names, or
/// else up to the end of the covered days.
pub fn chosen_days(covered: Calendar, start_day: Option<i32>, num_days: Option<u16>) -> (cal:
    Calendar)
    ensures
        cal.start_day == match start_day {
            Some(day) => day,
            None => covered.start_day,
        },
        cal.num_days == match num_days {
            Some(n) => n,
            None => days_left(covered, cal.start_day),
        },
{
    let first = match start_day {
        Some(day) => day,
        None => covered.start_day,
    };
    let count = match num_days {
        Some(n) => n,
        None => {
            let left: i64 = covered.start_day as i64 + covered.num_days as i64 - first as i64;
            if left <= 0 {
                0
            } else if left >= u16::MAX as i64 {
                u16::MAX
            } else {
                left as u16
            }
        },
    };
    Calendar { start_day: first, num_days: count }
}

} // verus!
