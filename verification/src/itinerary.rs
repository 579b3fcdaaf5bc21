//! Itineraries written from journeys.

use crate::api::{
    transit_count, ItineraryView, LatLng, LatLngView, LegView, SolariItinerary, SolariLeg,
};
use crate::journey::{hop_true, hops_chained, ride_count, Hop, Journey};
use crate::raptor::Foot;
use crate::timetable::{Route, Timetable};
use vstd::prelude::*;

verus! {

/// The largest distance from the Unix epoch, in seconds, of a midnight that
/// starts a service day.
pub const MAX_DAY_START: i64 = 0x1_0000_0000_0000;

/// The moment `second` seconds after the midnight at `base` seconds since
/// the Unix epoch, in milliseconds since the Unix epoch.
pub open spec fn millis(base: int, second: int) -> int {
    (base + second) * 1000
}

/// Computes [`millis`].
pub fn millis_at(base: i64, second: u64) -> (r: i64)
    requires
        -MAX_DAY_START <= base <= MAX_DAY_START,
        second <= 0x4_0000_0000,
    ensures
        r == millis(base as int, second as int),
{
    (base + second as i64) * 1000
}

/// Where stop `s` lies, under the stop's name.
pub open spec fn stop_position(tt: &Timetable, s: int) -> LatLngView {
    LatLngView {
        lat: tt.stops@[s].lat as int,
        lon: tt.stops@[s].lon as int,
        stop: Some(tt.stops@[s].name@),
    }
}

/// Computes [`stop_position`].
pub fn stop_location(tt: &Timetable, s: usize) -> (r: LatLng)
    requires
        s < tt.stops@.len(),
    ensures
        r@ == stop_position(tt, s as int),
{
    LatLng { lat: tt.stops[s].lat, lon: tt.stops[s].lon, stop: Some(tt.stops[s].name.clone()) }
}

/// The route of the trip that a ride follows.
pub open spec fn hop_route(tt: &Timetable, h: Hop) -> Route {
    tt.routes@[tt.trip(h.pattern as int, h.trip as int).route as int]
}

/// The leg that stands for a hop: a ride becomes a transit leg under the
/// short name of its route and the name of the agency, a walk becomes a
/// transfer leg. Neither carries a shape.
pub open spec fn hop_leg(tt: &Timetable, base: int, h: Hop) -> LegView {
    if h.ride {
        LegView::Transit {
            start_time: millis(base, h.depart as int),
            end_time: millis(base, h.arrive as int),
            start_location: stop_position(tt, h.from as int),
            end_location: stop_position(tt, h.to as int),
            route_shape: None,
            transit_route: Some(hop_route(tt, h).short_name@),
            transit_agency: Some(hop_route(tt, h).agency@),
        }
    } else {
        LegView::Transfer {
            start_time: millis(base, h.depart as int),
            end_time: millis(base, h.arrive as int),
            start_location: stop_position(tt, h.from as int),
            end_location: stop_position(tt, h.to as int),
            route_shape: None,
        }
    }
}

/// The walk from the origin to the first stop of the journey.
pub open spec fn access_leg(tt: &Timetable, base: int, start: u32, from: LatLngView, j: Journey) -> LegView {
    LegView::Transfer {
        start_time: millis(base, start as int),
        end_time: millis(base, start + j.access_seconds),
        start_location: from,
        end_location: stop_position(tt, j.first_stop as int),
        route_shape: None,
    }
}

/// The walk from the last stop of the journey to the destination.
pub open spec fn egress_leg(
    tt: &Timetable,
    base: int,
    start: u32,
    to: LatLngView,
    j: Journey,
    egress_seconds: u32,
) -> LegView {
    LegView::Transfer {
        start_time: millis(base, j.arrival(start)),
        end_time: millis(base, j.arrival(start) + egress_seconds),
        start_location: stop_position(tt, j.last_stop() as int),
        end_location: to,
        route_shape: None,
    }
}

/// The legs that stand for the hops.
pub open spec fn hop_legs(tt: &Timetable, base: int, hops: Seq<Hop>) -> Seq<LegView> {
    Seq::new(hops.len(), |i: int| hop_leg(tt, base, hops[i]))
}

/// The itinerary of a journey from `from` to `to` that starts `start`
/// seconds after the midnight at `base`: the walk to the first stop, one
/// leg for each hop, and the walk to the destination.
pub open spec fn itinerary_of(
    tt: &Timetable,
    base: int,
    start: u32,
    from: LatLngView,
    to: LatLngView,
    j: Journey,
    egress_seconds: u32,
) -> ItineraryView {
    ItineraryView {
        start_location: from,
        end_location: to,
        start_time: millis(base, start as int),
        end_time: millis(base, j.arrival(start) + egress_seconds),
        legs: seq![access_leg(tt, base, start, from, j)] + hop_legs(tt, base, j.hops@) + seq![
            egress_leg(tt, base, start, to, j, egress_seconds),
        ],
    }
}

/// The leg that stands for a hop.
fn leg_of(tt: &Timetable, day: u16, base: i64, h: Hop) -> (leg: SolariLeg)
    requires
        tt.wf(),
        hop_true(tt, day, h),
        -MAX_DAY_START <= base <= MAX_DAY_START,
    ensures
        leg@ == hop_leg(tt, base as int, h),
{
    let start_time = millis_at(base, h.depart as u64);
    let end_time = millis_at(base, h.arrive as u64);
    let start_location = stop_location(tt, h.from as usize);
    let end_location = stop_location(tt, h.to as usize);
    if h.ride {
        proof {
            let (b, a) = choose|b: int, a: int|
                #![trigger tt.stop_at(h.pattern as int, b), tt.stop_at(h.pattern as int, a)]
                tt.on_pattern(h.pattern as int, h.trip as int, b) && b < a;
            tt.lemma_on_pattern(h.pattern as int, h.trip as int, b);
        }
        let x = tt.patterns[h.pattern as usize].trips[h.trip as usize] as usize;
        let route = &tt.routes[tt.trips[x].route as usize];
        SolariLeg::Transit {
            start_time,
            end_time,
            start_location,
            end_location,
            route_shape: None,
            transit_route: Some(route.short_name.clone()),
            transit_agency: Some(route.agency.clone()),
        }
    } else {
        SolariLeg::Transfer { start_time, end_time, start_location, end_location, route_shape: None }
    }
}

/// Writes the itinerary of a journey that ends with a walk of
/// `egress_seconds` to the destination.
#[verifier::rlimit(50)]
pub fn itinerary(
    tt: &Timetable,
    day: u16,
    base: i64,
    start: u32,
    access: &Vec<Foot>,
    from: &LatLng,
    to: &LatLng,
    j: &Journey,
    egress_seconds: u32,
) -> (it: SolariItinerary)
    requires
        tt.wf(),
        j.valid(tt, day, start, access@),
        -MAX_DAY_START <= base <= MAX_DAY_START,
    ensures
        it@ == itinerary_of(tt, base as int, start, from@, to@, *j, egress_seconds),
{
    let ghost b = base as int;
    let first = j.first_stop as usize;
    let n = j.hops.len();
    let mut legs: Vec<SolariLeg> = Vec::new();
    legs.push(
        SolariLeg::Transfer {
            start_time: millis_at(base, start as u64),
            end_time: millis_at(base, start as u64 + j.access_seconds as u64),
            start_location: from.copy(),
            end_location: stop_location(tt, first),
            route_shape: None,
        },
    );
    let ghost head = seq![access_leg(tt, b, start, from@, *j)];
    assert(legs@.map_values(|l: SolariLeg| l@) =~= head + hop_legs(tt, b, j.hops@.take(0)));
    let mut i: usize = 0;
    while i < n
        invariant
            tt.wf(),
            i <= n,
            n == j.hops@.len(),
            b == base,
            -MAX_DAY_START <= base <= MAX_DAY_START,
            hops_chained(tt, day, j.hops@),
            head == seq![access_leg(tt, b, start, from@, *j)],
            legs@.map_values(|l: SolariLeg| l@) == head + hop_legs(tt, b, j.hops@.take(i as int)),
        decreases n - i,
    {
        let ghost before = legs@.map_values(|l: SolariLeg| l@);
        let leg = leg_of(tt, day, base, j.hops[i]);
        legs.push(leg);
        assert(legs@.map_values(|l: SolariLeg| l@) =~= before.push(leg@));
        assert(before.push(leg@) =~= head + hop_legs(tt, b, j.hops@.take(i + 1)));
        i += 1;
    }
    assert(j.hops@.take(n as int) =~= j.hops@);
    let (last, arrive): (usize, u64) = if n == 0 {
        (first, start as u64 + j.access_seconds as u64)
    } else {
        (j.hops[n - 1].to as usize, j.hops[n - 1].arrive as u64)
    };
    proof {
        if n > 0 {
            assert(hop_true(tt, day, j.hops@[n - 1]));
        }
    }
    let end_time = millis_at(base, arrive + egress_seconds as u64);
    let ghost before = legs@.map_values(|l: SolariLeg| l@);
    legs.push(
        SolariLeg::Transfer {
            start_time: millis_at(base, arrive),
            end_time,
            start_location: stop_location(tt, last),
            end_location: to.copy(),
            route_shape: None,
        },
    );
    assert(legs@.map_values(|l: SolariLeg| l@) =~= before.push(
        egress_leg(tt, b, start, to@, *j, egress_seconds),
    ));
    let it = SolariItinerary {
        start_location: from.copy(),
        end_location: to.copy(),
        start_time: millis_at(base, start as u64),
        end_time,
        legs,
    };
    assert(it@.legs =~= itinerary_of(tt, b, start, from@, to@, *j, egress_seconds).legs);
    it
}

/// The legs of the hops hold as many rides as the hops.
pub proof fn lemma_hop_legs_rides(tt: &Timetable, base: int, hops: Seq<Hop>)
    ensures
        transit_count(hop_legs(tt, base, hops)) == ride_count(hops),
    decreases hops.len(),
{
    if hops.len() > 0 {
        lemma_hop_legs_rides(tt, base, hops.drop_last());
        assert(hop_legs(tt, base, hops).drop_last() =~= hop_legs(tt, base, hops.drop_last()));
    }
}

/// A walk in front of legs adds no ride.
pub proof fn lemma_walk_in_front(walk: LegView, legs: Seq<LegView>)
    requires
        !walk.is_transit(),
    ensures
        transit_count(seq![walk] + legs) == transit_count(legs),
    decreases legs.len(),
{
    let all = seq![walk] + legs;
    if legs.len() == 0 {
        assert(all.drop_last() =~= Seq::<LegView>::empty());
        assert(transit_count(all.drop_last()) == 0);
        assert(all.last() == walk);
        assert(transit_count(legs) == 0);
    } else {
        lemma_walk_in_front(walk, legs.drop_last());
        assert(all.drop_last() =~= seq![walk] + legs.drop_last());
        assert(all.last() == legs.last());
    }
}

/// Round bound: an itinerary holds exactly as many transit legs as its
/// journey holds rides.
pub proof fn lemma_itinerary_rides(
    tt: &Timetable,
    base: int,
    start: u32,
    from: LatLngView,
    to: LatLngView,
    j: Journey,
    egress_seconds: u32,
)
    ensures
        itinerary_of(tt, base, start, from, to, j, egress_seconds).transit_legs() == ride_count(
            j.hops@,
        ),
{
    let first = access_leg(tt, base, start, from, j);
    let last = egress_leg(tt, base, start, to, j, egress_seconds);
    let middle = hop_legs(tt, base, j.hops@);
    let legs = seq![first] + middle + seq![last];
    lemma_hop_legs_rides(tt, base, j.hops@);
    lemma_walk_in_front(first, middle);
    assert(legs.drop_last() =~= seq![first] + middle);
    assert(legs.last() == last);
}

/// Itinerary contiguity: in the itinerary of a journey that can be
/// travelled, each leg ends no later than the next one starts, and where
/// the next one starts. The first leg starts at the start of the query.
#[verifier::rlimit(50)]
pub proof fn lemma_itinerary_contiguous(
    tt: &Timetable,
    day: u16,
    base: int,
    start: u32,
    access: Seq<Foot>,
    from: LatLngView,
    to: LatLngView,
    j: Journey,
    egress_seconds: u32,
)
    requires
        j.valid(tt, day, start, access),
    ensures
        itinerary_of(tt, base, start, from, to, j, egress_seconds).contiguous(),
        itinerary_of(tt, base, start, from, to, j, egress_seconds).legs[0].start_time()
            == itinerary_of(tt, base, start, from, to, j, egress_seconds).start_time,
        itinerary_of(tt, base, start, from, to, j, egress_seconds).legs.last().end_time()
            == itinerary_of(tt, base, start, from, to, j, egress_seconds).end_time,
{
    let it = itinerary_of(tt, base, start, from, to, j, egress_seconds);
    let hops = j.hops@;
    let n = hops.len() as int;
    assert(it.legs.len() == n + 2);
    assert(it.legs[0] == access_leg(tt, base, start, from, j));
    assert(it.legs[n + 1] == egress_leg(tt, base, start, to, j, egress_seconds));
    assert forall|i: int| 1 <= i <= n implies #[trigger] it.legs[i] == hop_leg(tt, base, hops[i - 1]) by {}
    assert forall|i: int| 0 <= i < it.legs.len() - 1 implies (#[trigger] it.legs[i]).end_time()
        <= it.legs[i + 1].start_time() && it.legs[i].end_location() == it.legs[i
        + 1].start_location() by {
        if i >= 1 {
            assert(it.legs[i] == hop_leg(tt, base, hops[i - 1]));
            assert(hop_true(tt, day, hops[i - 1]));
        }
        if i + 1 <= n {
            assert(it.legs[i + 1] == hop_leg(tt, base, hops[i]));
            assert(hop_true(tt, day, hops[i]));
        }
        if 1 <= i && i + 1 <= n {
            assert(hops[i - 1].to == hops[(i - 1) + 1].from && hops[i - 1].arrive <= hops[(i - 1)
                + 1].depart);
        }
    }
}

} // verus!
