//! Compiles a feed into a timetable.

use crate::patterns::{all_valid, build_patterns, patterns_of, BuildError};
use crate::timetable::{
    check_stops, check_trip_fits, stops_ok, trip_fits, Calendar, Route, Stop, Timetable, Transfer,
    Trip,
};
use vstd::prelude::*;

verus! {

/// The tables of one feed: its stops, its routes, its trips with the stops
/// they call at, and the days that the trips' bitmaps cover.
#[derive(Debug, Clone)]
pub struct Feed {
    pub stops: Vec<Stop>,
    pub routes: Vec<Route>,
    pub trips: Vec<Trip>,
    pub calendar: Calendar,
}

impl Feed {
    /// Every trip before `upto` is [`trip_fits`].
    pub open spec fn fits_upto(&self, upto: int) -> bool {
        forall|x: int|
            0 <= x < upto ==> trip_fits(
                #[trigger] self.trips@[x],
                self.stops@.len() as int,
                self.routes@.len() as int,
                self.calendar.num_days as int,
            )
    }

    /// What [`compile`] reports of the feed, if it reports anything: the
    /// stops are looked at first, then the times of the trips, then their
    /// number, then what they refer to.
    pub open spec fn fault(&self, e: BuildError) -> bool {
        match e {
            BuildError::BadStops => !stops_ok(self.stops@),
            BuildError::BadTrip { index } => stops_ok(self.stops@) && index < self.trips@.len()
                && !self.trips@[index as int].valid() && forall|x: int|
                0 <= x < index ==> (#[trigger] self.trips@[x]).valid(),
            BuildError::TooManyTrips => stops_ok(self.stops@) && all_valid(self.trips@)
                && self.trips@.len() > u32::MAX,
            BuildError::BadReference { index } => stops_ok(self.stops@) && all_valid(self.trips@)
                && self.trips@.len() <= u32::MAX && index < self.trips@.len() && !trip_fits(
                self.trips@[index as int],
                self.stops@.len() as int,
                self.routes@.len() as int,
                self.calendar.num_days as int,
            ) && self.fits_upto(index as int),
        }
    }

    /// The feed can be compiled.
    pub open spec fn sound(&self) -> bool {
        &&& stops_ok(self.stops@)
        &&& all_valid(self.trips@)
        &&& self.trips@.len() <= u32::MAX
        &&& self.fits_upto(self.trips@.len() as int)
    }
}

/// A table of walks that holds no walk.
pub fn no_transfers(n_stops: usize) -> (table: Vec<Vec<Transfer>>)
    ensures
        table@.len() == n_stops,
        forall|s: int| 0 <= s < n_stops ==> (#[trigger] table@[s])@.len() == 0,
{
    let mut table: Vec<Vec<Transfer>> = Vec::new();
    let mut s: usize = 0;
    while s < n_stops
        invariant
            s <= n_stops,
            table@.len() == s,
            forall|x: int| 0 <= x < s ==> (#[trigger] table@[x])@.len() == 0,
        decreases n_stops - s,
    {
        table.push(Vec::new());
        s += 1;
    }
    table
}

/// Compiles a feed into a timetable for the road tiles at `valhalla_tiles`.
///
/// A feed that is [`Feed::sound`] gives a well-formed timetable that holds
/// the stops, routes and trips of the feed, the patterns that
/// [`patterns_of`] describes, and no walk. Any other feed gives the first of
/// its faults, in the order of [`Feed::fault`].
pub fn compile(feed: Feed, valhalla_tiles: String) -> (r: Result<Timetable, BuildError>)
    ensures
        r is Ok <==> feed.sound(),
        r matches Ok(tt) ==> {
            &&& tt.wf()
            &&& patterns_of(tt.trips@, tt.patterns@)
            &&& tt.stops == feed.stops
            &&& tt.routes == feed.routes
            &&& tt.trips == feed.trips
            &&& tt.calendar == feed.calendar
            &&& tt.valhalla_tiles == valhalla_tiles
            &&& forall|s: int| 0 <= s < tt.transfers@.len() ==> (#[trigger] tt.transfers@[s])@.len() == 0
        },
        r matches Err(e) ==> feed.fault(e),
{
    if !check_stops(&feed.stops) {
        return Err(BuildError::BadStops);
    }
    let patterns = match build_patterns(&feed.trips) {
        Ok(patterns) => patterns,
        Err(e) => {
            return Err(e);
        },
    };
    let mut x: usize = 0;
    while x < feed.trips.len()
        invariant
            x <= feed.trips@.len(),
            stops_ok(feed.stops@),
            all_valid(feed.trips@),
            feed.trips@.len() <= u32::MAX,
            feed.fits_upto(x as int),
        decreases feed.trips@.len() - x,
    {
        if !check_trip_fits(
            &feed.trips[x],
            feed.stops.len(),
            feed.routes.len(),
            feed.calendar.num_days,
        ) {
            return Err(BuildError::BadReference { index: x });
        }
        x += 1;
    }
    let transfers = no_transfers(feed.stops.len());
    Ok(
        Timetable {
            stops: feed.stops,
            routes: feed.routes,
            trips: feed.trips,
            patterns,
            transfers,
            calendar: feed.calendar,
            valhalla_tiles,
        },
    )
}

/// A copy of a trip.
pub fn copy_trip(trip: &Trip) -> (r: Trip)
    ensures
        r@ == trip@,
{
    let days = trip.days.clone();
    let stops = trip.stops.clone();
    let times = trip.times.clone();
    assert(days@ =~= trip.days@);
    assert(stops@ =~= trip.stops@);
    assert(times@ =~= trip.times@);
    Trip { id: trip.id, route: trip.route, headsign: trip.headsign.clone(), days, stops, times }
}

/// The trips that call at two stops or more, in their order.
pub open spec fn long_trips(trips: Seq<Trip>) -> Seq<crate::view::TripView>
    decreases trips.len(),
{
    if trips.len() == 0 {
        Seq::empty()
    } else if trips.last().stops@.len() >= 2 {
        long_trips(trips.drop_last()).push(trips.last()@)
    } else {
        long_trips(trips.drop_last())
    }
}

/// Leaves out the trips that call at fewer than two stops: a trip without
/// calls goes nowhere.
pub fn without_short_trips(trips: &Vec<Trip>) -> (kept: Vec<Trip>)
    ensures
        kept@.map_values(|t: Trip| t@) == long_trips(trips@),
{
    let mut kept: Vec<Trip> = Vec::new();
    let mut i: usize = 0;
    assert(trips@.take(0) =~= Seq::<Trip>::empty());
    assert(kept@.map_values(|t: Trip| t@) =~= long_trips(trips@.take(0)));
    while i < trips.len()
        invariant
            i <= trips@.len(),
            kept@.map_values(|t: Trip| t@) == long_trips(trips@.take(i as int)),
        decreases trips@.len() - i,
    {
        let ghost before = kept@.map_values(|t: Trip| t@);
        proof {
            assert(trips@.take(i + 1).drop_last() =~= trips@.take(i as int));
            assert(trips@.take(i + 1).last() == trips@[i as int]);
        }
        if trips[i].stops.len() >= 2 {
            let copy = copy_trip(&trips[i]);
            kept.push(copy);
            assert(kept@.map_values(|t: Trip| t@) =~= before.push(trips@[i as int]@));
        }
        i += 1;
    }
    assert(trips@.take(trips@.len() as int) =~= trips@);
    kept
}

} // verus!
