//! The mathematical content of a timetable.

use crate::patterns::{all_valid, departs_before, pattern_ok};
use crate::timetable::{
    no_later, patterns_ok, stops_ok, table_ok, transfers_ok, trip_fits, trips_ok, Calendar, Pattern,
    Route, Stop, StopTime, Timetable, Transfer, Trip,
};
use vstd::prelude::*;

verus! {

/// The mathematical content of a [`Stop`].
pub struct StopView {
    pub id: u64,
    pub code: Seq<char>,
    pub name: Seq<char>,
    pub lat: i64,
    pub lon: i64,
    pub parent: Option<u64>,
}

/// The mathematical content of a [`Route`].
pub struct RouteView {
    pub agency: Seq<char>,
    pub short_name: Seq<char>,
    pub long_name: Seq<char>,
    pub route_type: u16,
}

/// The mathematical content of a [`Trip`].
pub struct TripView {
    pub id: u64,
    pub route: u32,
    pub headsign: Seq<char>,
    pub days: Seq<u8>,
    pub stops: Seq<u32>,
    pub times: Seq<StopTime>,
}

/// The mathematical content of a [`Pattern`].
pub struct PatternView {
    pub stops: Seq<u32>,
    pub lane: u32,
    pub trips: Seq<u32>,
}

/// The mathematical content of a [`Timetable`].
pub struct TimetableView {
    pub stops: Seq<StopView>,
    pub routes: Seq<RouteView>,
    pub trips: Seq<TripView>,
    pub patterns: Seq<PatternView>,
    pub transfers: Seq<Seq<Transfer>>,
    pub calendar: Calendar,
    pub valhalla_tiles: Seq<char>,
}

impl View for Stop {
    type V = StopView;

    open spec fn view(&self) -> StopView {
        StopView {
            id: self.id,
            code: self.code@,
            name: self.name@,
            lat: self.lat,
            lon: self.lon,
            parent: self.parent,
        }
    }
}

impl View for Route {
    type V = RouteView;

    open spec fn view(&self) -> RouteView {
        RouteView {
            agency: self.agency@,
            short_name: self.short_name@,
            long_name: self.long_name@,
            route_type: self.route_type,
        }
    }
}

impl View for Trip {
    type V = TripView;

    open spec fn view(&self) -> TripView {
        TripView {
            id: self.id,
            route: self.route,
            headsign: self.headsign@,
            days: self.days@,
            stops: self.stops@,
            times: self.times@,
        }
    }
}

impl View for Pattern {
    type V = PatternView;

    open spec fn view(&self) -> PatternView {
        PatternView { stops: self.stops@, lane: self.lane, trips: self.trips@ }
    }
}

impl View for Timetable {
    type V = TimetableView;

    open spec fn view(&self) -> TimetableView {
        TimetableView {
            stops: self.stops@.map_values(|s: Stop| s@),
            routes: self.routes@.map_values(|r: Route| r@),
            trips: self.trips@.map_values(|t: Trip| t@),
            patterns: self.patterns@.map_values(|p: Pattern| p@),
            transfers: self.transfers@.map_values(|l: Vec<Transfer>| l@),
            calendar: self.calendar,
            valhalla_tiles: self.valhalla_tiles@,
        }
    }
}

/// What equal content means table by table.
pub proof fn lemma_same_view(a: &Timetable, b: &Timetable)
    requires
        a@ == b@,
    ensures
        a.stops@.len() == b.stops@.len(),
        a.routes@.len() == b.routes@.len(),
        a.trips@.len() == b.trips@.len(),
        a.patterns@.len() == b.patterns@.len(),
        a.transfers@.len() == b.transfers@.len(),
        a.calendar == b.calendar,
        forall|i: int| 0 <= i < a.stops@.len() ==> (#[trigger] a.stops@[i])@ == b.stops@[i]@,
        forall|i: int| 0 <= i < a.trips@.len() ==> (#[trigger] a.trips@[i])@ == b.trips@[i]@,
        forall|i: int| 0 <= i < a.patterns@.len() ==> (#[trigger] a.patterns@[i])@ == b.patterns@[i]@,
        forall|i: int| 0 <= i < a.transfers@.len() ==> (#[trigger] a.transfers@[i])@ == b.transfers@[i]@,
{
    assert(a@.stops.len() == a.stops@.len() && b@.stops.len() == b.stops@.len());
    assert(a@.routes.len() == a.routes@.len() && b@.routes.len() == b.routes@.len());
    assert(a@.trips.len() == a.trips@.len() && b@.trips.len() == b.trips@.len());
    assert(a@.patterns.len() == a.patterns@.len() && b@.patterns.len() == b.patterns@.len());
    assert(a@.transfers.len() == a.transfers@.len() && b@.transfers.len() == b.transfers@.len());
    assert forall|i: int| 0 <= i < a.stops@.len() implies (#[trigger] a.stops@[i])@ == b.stops@[i]@ by {
        assert(a@.stops[i] == a.stops@[i]@ && b@.stops[i] == b.stops@[i]@);
    }
    assert forall|i: int| 0 <= i < a.trips@.len() implies (#[trigger] a.trips@[i])@ == b.trips@[i]@ by {
        assert(a@.trips[i] == a.trips@[i]@ && b@.trips[i] == b.trips@[i]@);
    }
    assert forall|i: int| 0 <= i < a.patterns@.len() implies (#[trigger] a.patterns@[i])@
        == b.patterns@[i]@ by {
        assert(a@.patterns[i] == a.patterns@[i]@ && b@.patterns[i] == b.patterns@[i]@);
    }
    assert forall|i: int| 0 <= i < a.transfers@.len() implies (#[trigger] a.transfers@[i])@
        == b.transfers@[i]@ by {
        assert(a@.transfers[i] == a.transfers@[i]@ && b@.transfers[i] == b.transfers@[i]@);
    }
}

/// Trips with equal times and stops are valid together.
pub proof fn lemma_trips_valid_by_view(a: Seq<Trip>, b: Seq<Trip>)
    requires
        a.len() == b.len(),
        forall|i: int| 0 <= i < a.len() ==> (#[trigger] a[i])@ == b[i]@,
        all_valid(a),
    ensures
        all_valid(b),
{
    assert forall|x: int| 0 <= x < b.len() implies (#[trigger] b[x]).valid() by {
        assert(a[x]@ == b[x]@);
        assert(a[x].valid());
        assert(a[x].times@ == b[x].times@);
        assert(a[x].stops@ == b[x].stops@);
    }
}

/// A pattern over trips with equal content is well-formed together with
/// one of equal content.
pub proof fn lemma_pattern_ok_by_view(a: Seq<Trip>, b: Seq<Trip>, p: Pattern, q: Pattern)
    requires
        a.len() == b.len(),
        forall|i: int| 0 <= i < a.len() ==> (#[trigger] a[i])@ == b[i]@,
        p@ == q@,
        pattern_ok(a, p),
    ensures
        pattern_ok(b, q),
{
    assert(p.trips@ == q.trips@ && p.stops@ == q.stops@);
    assert forall|j: int| 0 <= j < q.trips@.len() implies (#[trigger] q.trips@[j]) < b.len()
        && b[q.trips@[j] as int].stops@ == q.stops@ by {
        let x = p.trips@[j] as int;
        assert(a[x]@ == b[x]@);
        assert(a[x].stops@ == b[x].stops@);
    }
    assert forall|j: int| 0 <= j < q.trips@.len() - 1 implies departs_before(
        b,
        #[trigger] q.trips@[j] as int,
        q.trips@[j + 1] as int,
    ) && no_later(b[q.trips@[j] as int].times@, b[q.trips@[j + 1] as int].times@) by {
        let x = p.trips@[j] as int;
        let y = p.trips@[j + 1] as int;
        assert(p.trips@[j + 1] < a.len());
        assert(a[x]@ == b[x]@ && a[y]@ == b[y]@);
        assert(a[x].times@ == b[x].times@ && a[y].times@ == b[y].times@);
        assert(departs_before(a, x, y));
    }
}

/// Well-formedness looks only at the content: of two timetables with equal
/// content, one is well-formed where the other is.
#[verifier::rlimit(50)]
pub proof fn lemma_wf_by_view(a: &Timetable, b: &Timetable)
    requires
        a@ == b@,
        a.wf(),
    ensures
        b.wf(),
{
    lemma_same_view(a, b);
    let n = b.stops@.len() as int;
    assert(stops_ok(b.stops@)) by {
        assert forall|s: int| 0 <= s < b.stops@.len() implies (#[trigger] b.stops@[s]).on_globe() by {
            assert(a.stops@[s]@ == b.stops@[s]@);
            assert(a.stops@[s].on_globe());
        }
    }
    lemma_trips_valid_by_view(a.trips@, b.trips@);
    assert(trips_ok(b.trips@, n, b.routes@.len() as int, b.calendar.num_days as int)) by {
        assert forall|x: int| 0 <= x < b.trips@.len() implies trip_fits(
            #[trigger] b.trips@[x],
            n,
            b.routes@.len() as int,
            b.calendar.num_days as int,
        ) by {
            assert(a.trips@[x]@ == b.trips@[x]@);
            assert(trip_fits(
                a.trips@[x],
                n,
                a.routes@.len() as int,
                a.calendar.num_days as int,
            ));
            assert(a.trips@[x].stops@ == b.trips@[x].stops@);
            assert(a.trips@[x].days@ == b.trips@[x].days@);
        }
    }
    assert(patterns_ok(b.trips@, b.patterns@)) by {
        assert forall|p: int| 0 <= p < b.patterns@.len() implies pattern_ok(
            b.trips@,
            #[trigger] b.patterns@[p],
        ) by {
            assert(a.patterns@[p]@ == b.patterns@[p]@);
            assert(pattern_ok(a.trips@, a.patterns@[p]));
            lemma_pattern_ok_by_view(a.trips@, b.trips@, a.patterns@[p], b.patterns@[p]);
        }
    }
    assert(table_ok(b.transfers@, n)) by {
        assert forall|s: int| 0 <= s < b.transfers@.len() implies transfers_ok(
            (#[trigger] b.transfers@[s])@,
            s,
            n,
        ) by {
            assert(a.transfers@[s]@ == b.transfers@[s]@);
            assert(transfers_ok(a.transfers@[s]@, s, n));
        }
    }
}

} // verus!
