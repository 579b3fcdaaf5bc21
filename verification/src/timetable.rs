//! The data model of a compiled timetable.

use crate::patterns::{all_valid, departs_before, pattern_ok};
use vstd::prelude::*;

verus! {

/// No stored transfer takes longer than this many seconds on foot.
pub const MAX_TRANSFER_SECONDS: u32 = 1200;

/// When a vehicle reaches a stop and when it leaves again, in seconds since
/// the local midnight that starts the service day. Values of a day and more
/// stand for service that runs past midnight.
#[derive(Debug, Clone, Copy, PartialEq, Eq, Structural)]
pub struct StopTime {
    pub arrival: u32,
    pub departure: u32,
}

/// A trip as a feed describes it: the stops it calls at, in order, and its
/// time at each of them.
#[derive(Debug, Clone)]
pub struct Trip {
    pub id: u64,
    pub route: u32,
    pub headsign: String,
    /// One bit per day of the compiled window, lowest bit first.
    pub days: Vec<u8>,
    pub stops: Vec<u32>,
    pub times: Vec<StopTime>,
}

/// The times of one trip never run backwards: at each stop the vehicle
/// leaves no earlier than it arrives, and it reaches the next stop no earlier
/// than it left the last.
pub open spec fn times_ordered(times: Seq<StopTime>) -> bool {
    &&& forall|i: int| 0 <= i < times.len() ==> (#[trigger] times[i]).arrival <= times[i].departure
    &&& forall|i: int|
        0 <= i < times.len() - 1 ==> (#[trigger] times[i]).departure <= times[i + 1].arrival
}

/// Along a trip whose times never run backwards, a vehicle reaches a later
/// stop no earlier than it left an earlier one.
pub proof fn lemma_times_ordered(times: Seq<StopTime>, b: int, a: int)
    requires
        times_ordered(times),
        0 <= b < a < times.len(),
    ensures
        times[b].departure <= times[a].arrival,
    decreases a - b,
{
    if b + 1 < a {
        lemma_times_ordered(times, b + 1, a);
        assert(times[b].departure <= times[b + 1].arrival);
        assert(times[b + 1].arrival <= times[b + 1].departure);
    } else {
        assert(times[b].departure <= times[b + 1].arrival);
    }
}

/// The first trip is at every stop no later than the second, on arrival and
/// on departure.
pub open spec fn no_later(a: Seq<StopTime>, b: Seq<StopTime>) -> bool {
    &&& a.len() == b.len()
    &&& forall|i: int|
        0 <= i < a.len() ==> (#[trigger] a[i]).arrival <= b[i].arrival && a[i].departure
            <= b[i].departure
}

impl Trip {
    /// At least two stops and no more than a 32-bit index can number, one
    /// time per stop, and times that never run backwards.
    pub open spec fn valid(&self) -> bool {
        &&& self.stops@.len() == self.times@.len()
        &&& 2 <= self.stops@.len() <= u32::MAX
        &&& times_ordered(self.times@)
    }

    /// Decides [`Trip::valid`].
    pub fn is_valid(&self) -> (r: bool)
        ensures
            r == self.valid(),
    {
        let n = self.times.len();
        if self.stops.len() != n || n < 2 || n > u32::MAX as usize {
            return false;
        }
        let mut i: usize = 0;
        while i < n
            invariant
                i <= n,
                n == self.times@.len(),
                forall|j: int|
                    0 <= j < i ==> (#[trigger] self.times@[j]).arrival <= self.times@[j].departure,
                forall|j: int|
                    0 <= j < i && j < n - 1 ==> (#[trigger] self.times@[j]).departure
                        <= self.times@[j + 1].arrival,
            decreases n - i,
        {
            if self.times[i].arrival > self.times[i].departure {
                return false;
            }
            if i + 1 < n && self.times[i].departure > self.times[i + 1].arrival {
                return false;
            }
            i += 1;
        }
        true
    }
}

/// Decides [`no_later`].
pub fn runs_no_later(a: &Vec<StopTime>, b: &Vec<StopTime>) -> (r: bool)
    ensures
        r == no_later(a@, b@),
{
    let n = a.len();
    if b.len() != n {
        return false;
    }
    let mut i: usize = 0;
    while i < n
        invariant
            i <= n,
            n == a@.len(),
            n == b@.len(),
            forall|j: int|
                0 <= j < i ==> (#[trigger] a@[j]).arrival <= b@[j].arrival && a@[j].departure
                    <= b@[j].departure,
        decreases n - i,
    {
        if a[i].arrival > b[i].arrival || a[i].departure > b[i].departure {
            return false;
        }
        i += 1;
    }
    true
}

/// Decides whether two stop sequences are the same.
pub fn same_stops(a: &Vec<u32>, b: &Vec<u32>) -> (r: bool)
    ensures
        r == (a@ == b@),
{
    let n = a.len();
    if b.len() != n {
        return false;
    }
    let mut i: usize = 0;
    while i < n
        invariant
            i <= n,
            n == a@.len(),
            n == b@.len(),
            forall|j: int| 0 <= j < i ==> a@[j] == b@[j],
        decreases n - i,
    {
        if a[i] != b[i] {
            return false;
        }
        i += 1;
    }
    assert(a@ =~= b@);
    true
}

/// A route pattern: the trips that call at the same stops in the same
/// order. `lane` tells apart patterns of one stop sequence that had to be
/// split because their trips overtake each other. `trips` are indices into
/// the trip table, in the order in which the trips run.
#[derive(Debug, Clone)]
pub struct Pattern {
    pub stops: Vec<u32>,
    pub lane: u32,
    pub trips: Vec<u32>,
}

/// A place where vehicles call. The position is in whole nanodegrees.
#[derive(Debug, Clone)]
pub struct Stop {
    pub id: u64,
    pub code: String,
    pub name: String,
    pub lat: i64,
    pub lon: i64,
    pub parent: Option<u64>,
}

impl Stop {
    /// Latitude within [-90, 90] degrees and longitude within [-180, 180].
    pub open spec fn on_globe(&self) -> bool {
        &&& -90_000_000_000 <= self.lat <= 90_000_000_000
        &&& -180_000_000_000 <= self.lon <= 180_000_000_000
    }

    /// Decides [`Stop::on_globe`].
    pub fn is_on_globe(&self) -> (r: bool)
        ensures
            r == self.on_globe(),
    {
        -90_000_000_000 <= self.lat && self.lat <= 90_000_000_000 && -180_000_000_000 <= self.lon
            && self.lon <= 180_000_000_000
    }
}

/// A line of an agency, as riders know it.
#[derive(Debug, Clone)]
pub struct Route {
    pub agency: String,
    pub short_name: String,
    pub long_name: String,
    pub route_type: u16,
}

/// A walk from the stop that owns the list to the stop `to`.
#[derive(Debug, Clone, Copy, PartialEq, Eq, Structural)]
pub struct Transfer {
    pub to: u32,
    pub seconds: u32,
}

/// The days that a timetable covers: `num_days` days from the day that lies
/// `start_day` days after 1 January 1970.
#[derive(Debug, Clone, Copy, PartialEq, Eq, Structural)]
pub struct Calendar {
    pub start_day: i32,
    pub num_days: u16,
}

/// How many bytes hold one bit for each of `num_days` days.
pub open spec fn bitmap_len(num_days: int) -> int {
    (num_days + 7) / 8
}

/// Whether the bit of day `day` is set in a bitmap of days.
pub open spec fn day_bit(days: Seq<u8>, day: u16) -> bool {
    day / 8 < days.len() && (days[(day / 8) as int] >> ((day % 8) as u8)) & 1u8 == 1u8
}

impl Trip {
    /// Whether the trip runs on day `day` of the window.
    pub fn runs_on(&self, day: u16) -> (r: bool)
        ensures
            r == day_bit(self.days@, day),
    {
        let at = (day / 8) as usize;
        at < self.days.len() && (self.days[at] >> ((day % 8) as u8)) & 1u8 == 1u8
    }
}

/// The walks out of one stop lead to other stops of the table, take no
/// longer than [`MAX_TRANSFER_SECONDS`], and stand by rising duration.
pub open spec fn transfers_ok(list: Seq<Transfer>, from: int, n_stops: int) -> bool {
    &&& forall|j: int|
        0 <= j < list.len() ==> (#[trigger] list[j]).to < n_stops && list[j].to != from
            && list[j].seconds <= MAX_TRANSFER_SECONDS
    &&& forall|j: int, k: int|
        0 <= j <= k < list.len() ==> (#[trigger] list[j]).seconds <= (#[trigger] list[k]).seconds
}

/// 32 bits number the stops, and each stop lies on the globe.
pub open spec fn stops_ok(stops: Seq<Stop>) -> bool {
    &&& stops.len() <= u32::MAX
    &&& forall|s: int| 0 <= s < stops.len() ==> (#[trigger] stops[s]).on_globe()
}

/// The trip calls at stops of the table, belongs to a route of the table,
/// and has one bit for each day of the calendar.
pub open spec fn trip_fits(trip: Trip, n_stops: int, n_routes: int, num_days: int) -> bool {
    &&& forall|i: int| 0 <= i < trip.stops@.len() ==> (#[trigger] trip.stops@[i]) < n_stops
    &&& trip.route < n_routes
    &&& trip.days@.len() == bitmap_len(num_days)
}

/// 32 bits number the trips, and each trip is [`Trip::valid`] and
/// [`trip_fits`].
pub open spec fn trips_ok(trips: Seq<Trip>, n_stops: int, n_routes: int, num_days: int) -> bool {
    &&& trips.len() <= u32::MAX
    &&& all_valid(trips)
    &&& forall|x: int|
        0 <= x < trips.len() ==> trip_fits(#[trigger] trips[x], n_stops, n_routes, num_days)
}

/// 32 bits number the patterns, and each pattern is [`pattern_ok`].
pub open spec fn patterns_ok(trips: Seq<Trip>, patterns: Seq<Pattern>) -> bool {
    &&& patterns.len() <= u32::MAX
    &&& forall|p: int| 0 <= p < patterns.len() ==> pattern_ok(trips, #[trigger] patterns[p])
}

/// Each stop has its list of walks, and each list is [`transfers_ok`].
pub open spec fn table_ok(table: Seq<Vec<Transfer>>, n_stops: int) -> bool {
    &&& table.len() == n_stops
    &&& forall|s: int| 0 <= s < table.len() ==> transfers_ok((#[trigger] table[s])@, s, n_stops)
}

/// Decides [`stops_ok`].
pub fn check_stops(stops: &Vec<Stop>) -> (r: bool)
    ensures
        r == stops_ok(stops@),
{
    if stops.len() > u32::MAX as usize {
        return false;
    }
    let mut s: usize = 0;
    while s < stops.len()
        invariant
            s <= stops@.len(),
            forall|x: int| 0 <= x < s ==> (#[trigger] stops@[x]).on_globe(),
        decreases stops@.len() - s,
    {
        if !stops[s].is_on_globe() {
            return false;
        }
        s += 1;
    }
    true
}

/// Decides [`trip_fits`].
pub fn check_trip_fits(trip: &Trip, n_stops: usize, n_routes: usize, num_days: u16) -> (r: bool)
    ensures
        r == trip_fits(*trip, n_stops as int, n_routes as int, num_days as int),
{
    if trip.route as usize >= n_routes || trip.days.len() != (num_days as usize + 7) / 8 {
        return false;
    }
    let mut i: usize = 0;
    while i < trip.stops.len()
        invariant
            i <= trip.stops@.len(),
            forall|k: int| 0 <= k < i ==> (#[trigger] trip.stops@[k]) < n_stops,
        decreases trip.stops@.len() - i,
    {
        if trip.stops[i] as usize >= n_stops {
            return false;
        }
        i += 1;
    }
    true
}

/// Decides [`trips_ok`].
pub fn check_trips_ok(trips: &Vec<Trip>, n_stops: usize, n_routes: usize, num_days: u16) -> (r:
    bool)
    ensures
        r == trips_ok(trips@, n_stops as int, n_routes as int, num_days as int),
{
    if trips.len() > u32::MAX as usize {
        return false;
    }
    let mut x: usize = 0;
    while x < trips.len()
        invariant
            x <= trips@.len(),
            forall|k: int| 0 <= k < x ==> (#[trigger] trips@[k]).valid(),
            forall|k: int|
                0 <= k < x ==> trip_fits(
                    #[trigger] trips@[k],
                    n_stops as int,
                    n_routes as int,
                    num_days as int,
                ),
        decreases trips@.len() - x,
    {
        if !trips[x].is_valid() || !check_trip_fits(&trips[x], n_stops, n_routes, num_days) {
            return false;
        }
        x += 1;
    }
    true
}

/// Decides [`pattern_ok`] over trips that are all valid.
pub fn check_pattern(trips: &Vec<Trip>, pat: &Pattern) -> (r: bool)
    requires
        all_valid(trips@),
    ensures
        r == pattern_ok(trips@, *pat),
{
    let m = pat.trips.len();
    if m < 1 || m > trips.len() {
        return false;
    }
    let mut j: usize = 0;
    while j < m
        invariant
            j <= m,
            m == pat.trips@.len(),
            1 <= m <= trips@.len(),
            all_valid(trips@),
            forall|k: int|
                0 <= k < j ==> (#[trigger] pat.trips@[k]) < trips@.len()
                    && trips@[pat.trips@[k] as int].stops@ == pat.stops@,
            forall|k: int|
                0 <= k < j - 1 ==> departs_before(
                    trips@,
                    #[trigger] pat.trips@[k] as int,
                    pat.trips@[k + 1] as int,
                ) && no_later(
                    trips@[pat.trips@[k] as int].times@,
                    trips@[pat.trips@[k + 1] as int].times@,
                ),
        decreases m - j,
    {
        let x = pat.trips[j] as usize;
        if x >= trips.len() || !same_stops(&trips[x].stops, &pat.stops) {
            return false;
        }
        if j > 0 {
            let w = pat.trips[j - 1] as usize;
            assert(trips@[w as int].valid() && trips@[x as int].valid());
            let before = trips[w].times[0].departure;
            let here = trips[x].times[0].departure;
            let in_order = before < here || (before == here && w < x);
            if !in_order || !runs_no_later(&trips[w].times, &trips[x].times) {
                assert(!(departs_before(
                    trips@,
                    pat.trips@[j - 1] as int,
                    pat.trips@[(j - 1) + 1] as int,
                ) && no_later(
                    trips@[pat.trips@[j - 1] as int].times@,
                    trips@[pat.trips@[(j - 1) + 1] as int].times@,
                )));
                return false;
            }
        }
        j += 1;
    }
    true
}

/// Decides [`patterns_ok`] over trips that are all valid.
pub fn check_patterns(trips: &Vec<Trip>, patterns: &Vec<Pattern>) -> (r: bool)
    requires
        all_valid(trips@),
    ensures
        r == patterns_ok(trips@, patterns@),
{
    if patterns.len() > u32::MAX as usize {
        return false;
    }
    let mut p: usize = 0;
    while p < patterns.len()
        invariant
            p <= patterns@.len(),
            all_valid(trips@),
            forall|k: int| 0 <= k < p ==> pattern_ok(trips@, #[trigger] patterns@[k]),
        decreases patterns@.len() - p,
    {
        if !check_pattern(trips, &patterns[p]) {
            return false;
        }
        p += 1;
    }
    true
}

/// Decides [`transfers_ok`].
pub fn check_transfers(list: &Vec<Transfer>, from: usize, n_stops: usize) -> (r: bool)
    ensures
        r == transfers_ok(list@, from as int, n_stops as int),
{
    let mut j: usize = 0;
    while j < list.len()
        invariant
            j <= list@.len(),
            forall|k: int|
                0 <= k < j ==> (#[trigger] list@[k]).to < n_stops && list@[k].to != from
                    && list@[k].seconds <= MAX_TRANSFER_SECONDS,
            forall|a: int, b: int|
                0 <= a <= b < j ==> (#[trigger] list@[a]).seconds <= (#[trigger] list@[b]).seconds,
        decreases list@.len() - j,
    {
        let t = list[j];
        if t.to as usize >= n_stops || t.to as usize == from || t.seconds > MAX_TRANSFER_SECONDS {
            return false;
        }
        if j > 0 && list[j - 1].seconds > t.seconds {
            assert(!(list@[j - 1].seconds <= list@[j as int].seconds));
            return false;
        }
        proof {
            assert forall|a: int, b: int| 0 <= a <= b < j + 1 implies (#[trigger] list@[a]).seconds
                <= (#[trigger] list@[b]).seconds by {
                if b == j && a < j {
                    assert(list@[a].seconds <= list@[j - 1].seconds);
                }
            }
        }
        j += 1;
    }
    true
}

/// Decides [`table_ok`].
pub fn check_table(table: &Vec<Vec<Transfer>>, n_stops: usize) -> (r: bool)
    ensures
        r == table_ok(table@, n_stops as int),
{
    if table.len() != n_stops {
        return false;
    }
    let mut s: usize = 0;
    while s < table.len()
        invariant
            s <= table@.len(),
            table@.len() == n_stops,
            forall|x: int|
                0 <= x < s ==> transfers_ok((#[trigger] table@[x])@, x, n_stops as int),
        decreases table@.len() - s,
    {
        if !check_transfers(&table[s], s, n_stops) {
            return false;
        }
        s += 1;
    }
    true
}

/// A compiled timetable: the stops, the routes, the trips grouped into
/// patterns, and for each stop the walks to stops nearby.
#[derive(Debug, Clone)]
pub struct Timetable {
    pub stops: Vec<Stop>,
    pub routes: Vec<Route>,
    pub trips: Vec<Trip>,
    pub patterns: Vec<Pattern>,
    pub transfers: Vec<Vec<Transfer>>,
    pub calendar: Calendar,
    pub valhalla_tiles: String,
}

impl Timetable {
    /// The invariant of a compiled timetable.
    pub open spec fn wf(&self) -> bool {
        &&& stops_ok(self.stops@)
        &&& trips_ok(
            self.trips@,
            self.stops@.len() as int,
            self.routes@.len() as int,
            self.calendar.num_days as int,
        )
        &&& patterns_ok(self.trips@, self.patterns@)
        &&& table_ok(self.transfers@, self.stops@.len() as int)
    }

    /// The trip at place `t` of pattern `p`.
    pub open spec fn trip(&self, p: int, t: int) -> Trip {
        self.trips@[self.patterns@[p].trips@[t] as int]
    }

    /// The stop at position `i` of pattern `p`.
    pub open spec fn stop_at(&self, p: int, i: int) -> int {
        self.patterns@[p].stops@[i] as int
    }

    /// When the trip at place `t` of pattern `p` reaches position `i`.
    pub open spec fn arrival(&self, p: int, t: int, i: int) -> int {
        self.trip(p, t).times@[i].arrival as int
    }

    /// When the trip at place `t` of pattern `p` leaves position `i`.
    pub open spec fn departure(&self, p: int, t: int, i: int) -> int {
        self.trip(p, t).times@[i].departure as int
    }

    /// `p`, `t` and `i` name a trip of a pattern and a position on it.
    pub open spec fn on_pattern(&self, p: int, t: int, i: int) -> bool {
        &&& 0 <= p < self.patterns@.len()
        &&& 0 <= t < self.patterns@[p].trips@.len()
        &&& 0 <= i < self.patterns@[p].stops@.len()
    }

    /// In a well-formed timetable every pattern has a trip and at least two
    /// stops, and 32 bits number the trips and the stops of a pattern.
    pub proof fn lemma_pattern_shape(&self, p: int)
        requires
            self.wf(),
            0 <= p < self.patterns@.len(),
        ensures
            1 <= self.patterns@[p].trips@.len() <= u32::MAX,
            2 <= self.patterns@[p].stops@.len() <= u32::MAX,
    {
        assert(pattern_ok(self.trips@, self.patterns@[p]));
        let x = self.patterns@[p].trips@[0];
        assert(self.trips@[x as int].valid());
    }

    /// In a well-formed timetable every trip of a pattern has one time for
    /// each of the pattern's stops, and these stops are stops of the table.
    pub proof fn lemma_on_pattern(&self, p: int, t: int, i: int)
        requires
            self.wf(),
            self.on_pattern(p, t, i),
        ensures
            self.patterns@[p].trips@[t] < self.trips@.len(),
            self.trip(p, t).valid(),
            self.trip(p, t).stops@ == self.patterns@[p].stops@,
            self.trip(p, t).times@.len() == self.patterns@[p].stops@.len(),
            0 <= self.stop_at(p, i) < self.stops@.len(),
    {
        assert(pattern_ok(self.trips@, self.patterns@[p]));
        let x = self.patterns@[p].trips@[t];
        assert(self.trips@[x as int].valid());
        assert(trip_fits(
            self.trips@[x as int],
            self.stops@.len() as int,
            self.routes@.len() as int,
            self.calendar.num_days as int,
        ));
        assert(self.trips@[x as int].stops@[i] < self.stops@.len());
    }

    /// Of two trips of one pattern the one that stands first is at no stop
    /// later than the other.
    pub proof fn lemma_in_step(&self, p: int, t1: int, t2: int, i: int)
        requires
            self.wf(),
            self.on_pattern(p, t1, i),
            self.on_pattern(p, t2, i),
            t1 <= t2,
        ensures
            self.arrival(p, t1, i) <= self.arrival(p, t2, i),
            self.departure(p, t1, i) <= self.departure(p, t2, i),
    {
        self.lemma_on_pattern(p, t1, i);
        self.lemma_on_pattern(p, t2, i);
        crate::patterns::lemma_pattern_in_step(self.trips@, self.patterns@[p], t1, t2);
        let a = self.trip(p, t1).times@;
        assert(a[i].arrival <= self.trip(p, t2).times@[i].arrival);
    }

    /// Decides [`Timetable::wf`].
    pub fn check(&self) -> (r: bool)
        ensures
            r == self.wf(),
    {
        check_stops(&self.stops) && check_trips_ok(
            &self.trips,
            self.stops.len(),
            self.routes.len(),
            self.calendar.num_days,
        ) && check_patterns(&self.trips, &self.patterns) && check_table(
            &self.transfers,
            self.stops.len(),
        )
    }

    /// For each stop the patterns that call at it, each with the position
    /// of the call: the pair `(p, i)` stands in the list of stop `s` exactly
    /// where `s` is the stop at position `i` of pattern `p`. The lists go by
    /// pattern and position.
    #[verifier::rlimit(50)]
    pub fn stop_patterns(&self) -> (index: Vec<Vec<(u32, u32)>>)
        requires
            self.wf(),
        ensures
            index@.len() == self.stops@.len(),
            forall|s: int, k: int|
                0 <= s < index@.len() && 0 <= k < index@[s]@.len() ==> {
                    let (p, i) = #[trigger] index@[s]@[k];
                    p < self.patterns@.len() && i < self.patterns@[p as int].stops@.len()
                        && self.stop_at(p as int, i as int) == s
                },
            forall|p: int, i: int|
                0 <= p < self.patterns@.len() && 0 <= i < self.patterns@[p].stops@.len()
                    ==> index@[#[trigger] self.stop_at(p, i)]@.contains((p as u32, i as u32)),
            forall|s: int, j: int, k: int|
                0 <= s < index@.len() && 0 <= j < k < index@[s]@.len() ==> (#[trigger] index@[s]@[j]).0
                    < (#[trigger] index@[s]@[k]).0 || (index@[s]@[j].0 == index@[s]@[k].0
                    && index@[s]@[j].1 < index@[s]@[k].1),
    {
        let n = self.stops.len();
        let mut index: Vec<Vec<(u32, u32)>> = Vec::new();
        let mut s: usize = 0;
        while s < n
            invariant
                s <= n,
                index@.len() == s,
                forall|x: int| 0 <= x < s ==> (#[trigger] index@[x])@.len() == 0,
            decreases n - s,
        {
            index.push(Vec::new());
            s += 1;
        }
        let mut p: usize = 0;
        while p < self.patterns.len()
            invariant
                self.wf(),
                n == self.stops@.len(),
                p <= self.patterns@.len(),
                index@.len() == n,
                forall|s: int, k: int|
                    0 <= s < n && 0 <= k < index@[s]@.len() ==> {
                        let (q, i) = #[trigger] index@[s]@[k];
                        q < p && i < self.patterns@[q as int].stops@.len() && self.stop_at(
                            q as int,
                            i as int,
                        ) == s
                    },
                forall|q: int, i: int|
                    0 <= q < p && 0 <= i < self.patterns@[q].stops@.len() ==> index@[#[trigger] self.stop_at(
                        q,
                        i,
                    )]@.contains((q as u32, i as u32)),
                forall|s: int, j: int, k: int|
                    0 <= s < n && 0 <= j < k < index@[s]@.len() ==> (#[trigger] index@[s]@[j]).0 < (
                    #[trigger] index@[s]@[k]).0 || (index@[s]@[j].0 == index@[s]@[k].0
                        && index@[s]@[j].1 < index@[s]@[k].1),
            decreases self.patterns@.len() - p,
        {
            proof {
                self.lemma_pattern_shape(p as int);
            }
            let len = self.patterns[p].stops.len();
            let mut i: usize = 0;
            while i < len
                invariant
                    self.wf(),
                    n == self.stops@.len(),
                    p < self.patterns@.len(),
                    self.patterns@.len() <= u32::MAX,
                    len == self.patterns@[p as int].stops@.len(),
                    len <= u32::MAX,
                    1 <= self.patterns@[p as int].trips@.len(),
                    i <= len,
                    index@.len() == n,
                    forall|s: int, k: int|
                        0 <= s < n && 0 <= k < index@[s]@.len() ==> {
                            let (q, a) = #[trigger] index@[s]@[k];
                            (q < p || (q == p && a < i)) && a < self.patterns@[q as int].stops@.len()
                                && self.stop_at(q as int, a as int) == s
                        },
                    forall|q: int, a: int|
                        (0 <= q < p && 0 <= a < self.patterns@[q].stops@.len()) || (q == p && 0 <= a
                            < i) ==> index@[#[trigger] self.stop_at(q, a)]@.contains(
                            (q as u32, a as u32),
                        ),
                    forall|s: int, j: int, k: int|
                        0 <= s < n && 0 <= j < k < index@[s]@.len() ==> (#[trigger] index@[s]@[j]).0
                            < (#[trigger] index@[s]@[k]).0 || (index@[s]@[j].0 == index@[s]@[k].0
                            && index@[s]@[j].1 < index@[s]@[k].1),
                decreases len - i,
            {
                proof {
                    self.lemma_on_pattern(p as int, 0, i as int);
                }
                let s = self.patterns[p].stops[i] as usize;
                let ghost before = index@;
                index[s].push((p as u32, i as u32));
                proof {
                    assert forall|x: int, k: int| 0 <= x < n && 0 <= k < index@[x]@.len() implies {
                        let (q, a) = #[trigger] index@[x]@[k];
                        (q < p || (q == p && a < i + 1)) && a < self.patterns@[q as int].stops@.len()
                            && self.stop_at(q as int, a as int) == x
                    } by {
                        if x == s {
                            if k < before[x]@.len() {
                                assert(index@[x]@[k] == before[x]@[k]);
                            }
                        } else {
                            assert(index@[x] == before[x]);
                        }
                    }
                    assert forall|q: int, a: int|
                        (0 <= q < p && 0 <= a < self.patterns@[q].stops@.len()) || (q == p && 0 <= a
                            < i + 1) implies index@[#[trigger] self.stop_at(q, a)]@.contains(
                        (q as u32, a as u32),
                    ) by {
                        let x = self.stop_at(q, a);
                        if q == p && a == i {
                            assert(index@[x]@[before[x]@.len() as int] == (q as u32, a as u32));
                        } else {
                            self.lemma_pattern_shape(q);
                            self.lemma_on_pattern(q, 0, a);
                            assert(before[x]@.contains((q as u32, a as u32)));
                            let k = choose|k: int|
                                0 <= k < before[x]@.len() && before[x]@[k] == (q as u32, a as u32);
                            if x == s {
                                assert(index@[x]@[k] == before[x]@[k]);
                            } else {
                                assert(index@[x] == before[x]);
                            }
                        }
                    }
                    assert forall|x: int, j: int, k: int|
                        0 <= x < n && 0 <= j < k < index@[x]@.len() implies (
                    #[trigger] index@[x]@[j]).0 < (#[trigger] index@[x]@[k]).0 || (index@[x]@[j].0
                        == index@[x]@[k].0 && index@[x]@[j].1 < index@[x]@[k].1) by {
                        if x == s {
                            assert(index@[x]@[j] == before[x]@[j]);
                            if k < before[x]@.len() {
                                assert(index@[x]@[k] == before[x]@[k]);
                            }
                        } else {
                            assert(index@[x] == before[x]);
                        }
                    }
                }
                i += 1;
            }
            p += 1;
        }
        index
    }

    /// The number of stops.
    pub fn stop_count(&self) -> (n: usize)
        ensures
            n == self.stops@.len(),
    {
        self.stops.len()
    }

    /// The times of the trip at place `t` of pattern `p` at position `i`.
    pub fn times_at(&self, p: usize, t: usize, i: usize) -> (r: StopTime)
        requires
            self.wf(),
            self.on_pattern(p as int, t as int, i as int),
        ensures
            r.arrival == self.arrival(p as int, t as int, i as int),
            r.departure == self.departure(p as int, t as int, i as int),
    {
        proof {
            self.lemma_on_pattern(p as int, t as int, i as int);
        }
        self.trips[self.patterns[p].trips[t] as usize].times[i]
    }

    /// Whether the trip at place `t` of pattern `p` runs on day `day`.
    pub fn runs_on(&self, p: usize, t: usize, day: u16) -> (r: bool)
        requires
            self.wf(),
            self.on_pattern(p as int, t as int, 0),
        ensures
            r == day_bit(self.trip(p as int, t as int).days@, day),
    {
        proof {
            self.lemma_on_pattern(p as int, t as int, 0);
        }
        self.trips[self.patterns[p].trips[t] as usize].runs_on(day)
    }
}

} // verus!
