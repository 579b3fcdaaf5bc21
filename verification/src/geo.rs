//! Distances on the globe, and the stops within walking distance.

use crate::raptor::Foot;
use crate::timetable::{Stop, Timetable};
use vstd::prelude::*;

verus! {

/// A position in whole nanodegrees.
#[derive(Debug, Clone, Copy, PartialEq, Eq, Structural)]
pub struct Place {
    pub lat: i64,
    pub lon: i64,
}

/// Whether an angle in nanodegrees is of no more than 180 degrees either
/// way.
pub open spec fn half_turn(angle: i64) -> bool {
    -180_000_000_000 <= angle <= 180_000_000_000
}

/// The metres of one degree of a great circle.
pub const METERS_PER_DEGREE: u64 = 111_195;

/// The arcs below which two stops lie at the same place, about two metres,
/// in units of 10^-7 degrees.
pub const SAME_PLACE_ARC: i32 = 180;

/// The great-circle distance between two positions, all angles in units of
/// 10^-7 degrees.
///
/// Calls `s2::latlng::LatLng::distance` on the two positions, which it makes
/// with `Angle::from(E7(..))`, and rounds the result with `E7::from`. The
/// distance is computed in floating point: nothing is claimed of it.
#[verifier::external_body]
fn arc_between(lat_a: i32, lon_a: i32, lat_b: i32, lon_b: i32) -> i32 {
    let a = s2::latlng::LatLng::new(
        s2::s1::Angle::from(s2::s1::E7(lat_a)),
        s2::s1::Angle::from(s2::s1::E7(lon_a)),
    );
    let b = s2::latlng::LatLng::new(
        s2::s1::Angle::from(s2::s1::E7(lat_b)),
        s2::s1::Angle::from(s2::s1::E7(lon_b)),
    );
    s2::s1::E7::from(a.distance(&b)).0
}

/// An angle of whole nanodegrees in units of 10^-7 degrees, rounded towards
/// zero.
pub open spec fn e7_of(nanodegrees: i64) -> int {
    if nanodegrees >= 0 {
        nanodegrees / 100
    } else {
        -((-nanodegrees) / 100)
    }
}

/// Computes [`e7_of`] for an angle of no more than 180 degrees either way;
/// a larger angle has no such value.
pub fn to_e7(nanodegrees: i64) -> (r: Option<i32>)
    ensures
        r is Some <==> -180_000_000_000 <= nanodegrees <= 180_000_000_000,
        r matches Some(a) ==> a == e7_of(nanodegrees),
{
    if nanodegrees < -180_000_000_000 || nanodegrees > 180_000_000_000 {
        None
    } else if nanodegrees >= 0 {
        Some((nanodegrees / 100) as i32)
    } else {
        Some((-((-nanodegrees) / 100)) as i32)
    }
}

/// The metres of an arc in units of 10^-7 degrees, rounded down. An arc
/// below zero counts as no distance.
pub open spec fn meters_of(arc: i32) -> int {
    if arc <= 0 {
        0
    } else {
        arc * METERS_PER_DEGREE as int / 10_000_000
    }
}

/// Computes [`meters_of`].
pub fn meters_of_arc(arc: i32) -> (r: u32)
    ensures
        r == meters_of(arc),
{
    if arc <= 0 {
        0
    } else {
        let m: u64 = arc as u64 * METERS_PER_DEGREE / 10_000_000;
        assert(m <= 0x7fff_ffff) by (nonlinear_arith)
            requires
                m == (arc as u64 * METERS_PER_DEGREE) / 10_000_000,
                METERS_PER_DEGREE == 111_195,
                0 < arc <= 0x7fff_ffff,
        ;
        m as u32
    }
}

/// The seconds that a walk of so many metres takes at 1.4 metres a second,
/// rounded up.
pub open spec fn seconds_on_foot(meters: u32) -> int {
    (meters * 10 + 13) / 14
}

/// Computes [`seconds_on_foot`].
pub fn walk_seconds(meters: u32) -> (r: u32)
    ensures
        r == seconds_on_foot(meters),
{
    ((meters as u64 * 10 + 13) / 14) as u32
}

/// The walk to a place that lies `arc` away, for a traveller who walks no
/// further than `max_walk_m` metres.
pub open spec fn reach_of(arc: i32, max_walk_m: u32) -> Option<u32> {
    if meters_of(arc) <= max_walk_m {
        Some(seconds_on_foot(meters_of(arc) as u32) as u32)
    } else {
        None
    }
}

/// Decides whether a place that lies `arc` away, in units of 10^-7 degrees,
/// is within `max_walk_m` metres, and how many seconds the walk takes.
pub fn reach(arc: i32, max_walk_m: u32) -> (r: Option<u32>)
    ensures
        r == reach_of(arc, max_walk_m),
{
    let meters = meters_of_arc(arc);
    if meters <= max_walk_m {
        Some(walk_seconds(meters))
    } else {
        None
    }
}

/// Decides whether two places that lie `arc` apart, in units of 10^-7
/// degrees, are the same place: less than [`SAME_PLACE_ARC`] apart.
pub fn same_place(arc: i32) -> (r: bool)
    ensures
        r == (arc < SAME_PLACE_ARC),
{
    arc < SAME_PLACE_ARC
}

/// The arc between two positions in whole nanodegrees, in units of 10^-7
/// degrees; none where an angle is more than 180 degrees either way.
pub fn arc_of(lat_a: i64, lon_a: i64, lat_b: i64, lon_b: i64) -> (r: Option<i32>)
    ensures
        r is Some <==> half_turn(lat_a) && half_turn(lon_a) && half_turn(lat_b) && half_turn(lon_b),
{
    match (to_e7(lat_a), to_e7(lon_a), to_e7(lat_b), to_e7(lon_b)) {
        (Some(a), Some(b), Some(c), Some(d)) => Some(arc_between(a, b, c, d)),
        _ => None,
    }
}

/// The arcs were measured from a position to each of the places: there is
/// one arc for each place, none where the position or the place has an angle
/// of more than 180 degrees.
pub open spec fn measured(places: Seq<Place>, lat: i64, lon: i64, arcs: Seq<Option<i32>>) -> bool {
    &&& arcs.len() == places.len()
    &&& forall|i: int|
        0 <= i < arcs.len() ==> ((#[trigger] arcs[i]) is Some <==> half_turn(lat) && half_turn(lon)
            && half_turn(places[i].lat) && half_turn(places[i].lon))
}

/// Measures the arcs from a position to each of the places. The arcs are
/// computed in floating point, so the contract says only what holds of every
/// outcome.
pub fn arcs_to(places: &Vec<Place>, lat: i64, lon: i64) -> (arcs: Vec<Option<i32>>)
    ensures
        measured(places@, lat, lon, arcs@),
{
    let mut arcs: Vec<Option<i32>> = Vec::new();
    let mut i: usize = 0;
    while i < places.len()
        invariant
            i <= places@.len(),
            arcs@.len() == i,
            forall|k: int|
                0 <= k < i ==> ((#[trigger] arcs@[k]) is Some <==> half_turn(lat) && half_turn(lon)
                    && half_turn(places@[k].lat) && half_turn(places@[k].lon)),
        decreases places@.len() - i,
    {
        arcs.push(arc_of(lat, lon, places[i].lat, places[i].lon));
        i += 1;
    }
    arcs
}

/// The positions of the stops.
pub open spec fn places_of(stops: Seq<Stop>) -> Seq<Place> {
    Seq::new(stops.len(), |s: int| Place { lat: stops[s].lat, lon: stops[s].lon })
}

/// Lists the positions of the stops.
pub fn stop_places(stops: &Vec<Stop>) -> (places: Vec<Place>)
    ensures
        places@ == places_of(stops@),
{
    let mut places: Vec<Place> = Vec::new();
    let mut s: usize = 0;
    while s < stops.len()
        invariant
            s <= stops@.len(),
            places@.len() == s,
            forall|k: int|
                0 <= k < s ==> #[trigger] places@[k] == (Place {
                    lat: stops@[k].lat,
                    lon: stops@[k].lon,
                }),
        decreases stops@.len() - s,
    {
        places.push(Place { lat: stops[s].lat, lon: stops[s].lon });
        s += 1;
    }
    assert(places@ =~= places_of(stops@));
    places
}

/// The places within reach, given the arc to each: each place whose arc
/// is within `max_walk_m` metres by [`reach_of`], by rising index, with the
/// seconds that the walk takes.
pub open spec fn near_of(arcs: Seq<Option<i32>>, max_walk_m: u32) -> Seq<Foot>
    decreases arcs.len(),
{
    if arcs.len() == 0 {
        Seq::empty()
    } else {
        let rest = near_of(arcs.drop_last(), max_walk_m);
        match arcs.last() {
            Some(arc) => match reach_of(arc, max_walk_m) {
                Some(seconds) => if arcs.len() - 1 <= u32::MAX {
                    rest.push(Foot { stop: (arcs.len() - 1) as u32, seconds })
                } else {
                    rest
                },
                None => rest,
            },
            None => rest,
        }
    }
}

/// The places within reach have places of the list, each once and by
/// rising index, and none is further than the walk allows.
pub proof fn lemma_near_of(arcs: Seq<Option<i32>>, max_walk_m: u32)
    ensures
        forall|i: int|
            0 <= i < near_of(arcs, max_walk_m).len() ==> (#[trigger] near_of(arcs, max_walk_m)[i]).stop
                < arcs.len() && near_of(arcs, max_walk_m)[i].seconds <= seconds_on_foot(max_walk_m),
        forall|i: int, j: int|
            0 <= i < j < near_of(arcs, max_walk_m).len() ==> (#[trigger] near_of(
                arcs,
                max_walk_m,
            )[i]).stop < (#[trigger] near_of(arcs, max_walk_m)[j]).stop,
    decreases arcs.len(),
{
    if arcs.len() > 0 {
        lemma_near_of(arcs.drop_last(), max_walk_m);
        let rest = near_of(arcs.drop_last(), max_walk_m);
        let all = near_of(arcs, max_walk_m);
        if all.len() > rest.len() {
            let arc = arcs.last().unwrap();
            let seconds = reach_of(arc, max_walk_m).unwrap();
            assert(seconds <= seconds_on_foot(max_walk_m)) by (nonlinear_arith)
                requires
                    seconds == seconds_on_foot(meters_of(arc) as u32),
                    0 <= meters_of(arc) <= max_walk_m,
            ;
            assert forall|i: int| 0 <= i < all.len() implies (#[trigger] all[i]).stop < arcs.len()
                && all[i].seconds <= seconds_on_foot(max_walk_m) by {
                if i < rest.len() {
                    assert(all[i] == rest[i]);
                }
            }
            assert forall|i: int, j: int| 0 <= i < j < all.len() implies (#[trigger] all[i]).stop < (
            #[trigger] all[j]).stop by {
                assert(all[i] == rest[i]);
                if j < rest.len() {
                    assert(all[j] == rest[j]);
                }
            }
        }
    }
}

/// Computes [`near_of`].
pub fn select_near(arcs: &Vec<Option<i32>>, max_walk_m: u32) -> (near: Vec<Foot>)
    ensures
        near@ == near_of(arcs@, max_walk_m),
{
    let mut near: Vec<Foot> = Vec::new();
    let mut s: usize = 0;
    assert(arcs@.take(0) =~= Seq::<Option<i32>>::empty());
    while s < arcs.len()
        invariant
            s <= arcs@.len(),
            near@ == near_of(arcs@.take(s as int), max_walk_m),
        decreases arcs@.len() - s,
    {
        proof {
            assert(arcs@.take(s + 1).drop_last() =~= arcs@.take(s as int));
            assert(arcs@.take(s + 1).last() == arcs@[s as int]);
        }
        match arcs[s] {
            Some(arc) => match reach(arc, max_walk_m) {
                Some(seconds) => {
                    if s <= u32::MAX as usize {
                        near.push(Foot { stop: s as u32, seconds });
                    }
                },
                None => {},
            },
            None => {},
        }
        s += 1;
    }
    assert(arcs@.take(arcs@.len() as int) =~= arcs@);
    near
}

/// The stops of the list are stops of the table, each is named once, by
/// rising index, and none is further than a walk of `max_walk_m` metres.
pub open spec fn within_walk(tt: &Timetable, max_walk_m: u32, near: Seq<Foot>) -> bool {
    &&& forall|i: int|
        0 <= i < near.len() ==> (#[trigger] near[i]).stop < tt.stops@.len() && near[i].seconds
            <= seconds_on_foot(max_walk_m)
    &&& forall|i: int, j: int|
        0 <= i < j < near.len() ==> (#[trigger] near[i]).stop < (#[trigger] near[j]).stop
}

/// The stops within `max_walk_m` metres of a position in whole nanodegrees,
/// by rising index, each with the seconds that the walk to it takes: the
/// stops that [`near_of`] picks on the arcs that the globe gives.
///
/// The arcs are computed in floating point, so the contract names no arc:
/// it says that the stops are picked on arcs that were measured to the
/// stops, whatever they came to.
pub fn stops_within(tt: &Timetable, lat: i64, lon: i64, max_walk_m: u32) -> (near: Vec<Foot>)
    ensures
        exists|arcs: Seq<Option<i32>>|
            measured(places_of(tt.stops@), lat, lon, arcs) && near@ == #[trigger] near_of(
                arcs,
                max_walk_m,
            ),
        within_walk(tt, max_walk_m, near@),
{
    let places = stop_places(&tt.stops);
    let arcs = arcs_to(&places, lat, lon);
    proof {
        lemma_near_of(arcs@, max_walk_m);
    }
    select_near(&arcs, max_walk_m)
}

/// The place with the least arc, given the arc to each: the first of the
/// places with an arc that no other arc undercuts; none where no place has
/// an arc.
pub open spec fn least_at(arcs: Seq<Option<i32>>) -> Option<int>
    decreases arcs.len(),
{
    if arcs.len() == 0 {
        None
    } else {
        let rest = least_at(arcs.drop_last());
        match (arcs.last(), rest) {
            (Some(arc), Some(k)) => if arc < arcs[k].unwrap() {
                Some(arcs.len() - 1)
            } else {
                Some(k)
            },
            (Some(arc), None) => Some(arcs.len() - 1),
            (None, _) => rest,
        }
    }
}

/// The place that [`least_at`] gives has an arc, and some place is given
/// wherever a place has an arc.
pub proof fn lemma_least_at(arcs: Seq<Option<i32>>)
    ensures
        least_at(arcs) matches Some(k) ==> 0 <= k < arcs.len() && arcs[k] is Some,
        least_at(arcs) is Some <==> exists|i: int| 0 <= i < arcs.len() && (#[trigger] arcs[i]) is Some,
    decreases arcs.len(),
{
    if arcs.len() > 0 {
        let front = arcs.drop_last();
        lemma_least_at(front);
        if least_at(front) is Some {
            let k = least_at(front).unwrap();
            assert(front[k] == arcs[k]);
        }
        if arcs.last() is Some {
            assert(arcs[arcs.len() - 1] is Some);
        } else if exists|i: int| 0 <= i < arcs.len() && (#[trigger] arcs[i]) is Some {
            let i = choose|i: int| 0 <= i < arcs.len() && (#[trigger] arcs[i]) is Some;
            assert(front[i] is Some);
        }
        if exists|i: int| 0 <= i < front.len() && (#[trigger] front[i]) is Some {
            let i = choose|i: int| 0 <= i < front.len() && (#[trigger] front[i]) is Some;
            assert(arcs[i] is Some);
        }
    }
}

/// Computes [`least_at`].
pub fn pick_nearest(arcs: &Vec<Option<i32>>) -> (r: Option<usize>)
    ensures
        least_at(arcs@) == match r {
            Some(k) => Some(k as int),
            None => None,
        },
        r matches Some(k) ==> k < arcs@.len() && arcs@[k as int] is Some,
{
    let mut found: Option<usize> = None;
    let mut i: usize = 0;
    assert(arcs@.take(0) =~= Seq::<Option<i32>>::empty());
    while i < arcs.len()
        invariant
            i <= arcs@.len(),
            found matches Some(k) ==> k < i && arcs@[k as int] is Some,
            least_at(arcs@.take(i as int)) == match found {
                Some(k) => Some(k as int),
                None => None,
            },
        decreases arcs@.len() - i,
    {
        proof {
            assert(arcs@.take(i + 1).drop_last() =~= arcs@.take(i as int));
            assert(arcs@.take(i + 1).last() == arcs@[i as int]);
            if found is Some {
                assert(arcs@.take(i + 1)[found.unwrap() as int] == arcs@[found.unwrap() as int]);
            }
        }
        match (arcs[i], found) {
            (Some(arc), Some(k)) => {
                let least = match arcs[k] {
                    Some(least) => least,
                    None => 0,
                };
                if arc < least {
                    found = Some(i);
                }
            },
            (Some(_), None) => {
                found = Some(i);
            },
            (None, _) => {},
        }
        i += 1;
    }
    assert(arcs@.take(arcs@.len() as int) =~= arcs@);
    found
}

/// The place of the list that lies next to a position in whole
/// nanodegrees: the place that [`least_at`] picks on the arcs that the globe
/// gives; none where no arc can be measured, the position or every place
/// having an angle of more than 180 degrees.
///
/// The arcs are computed in floating point, so the contract names no arc:
/// it says that the place is picked on arcs that were measured to the
/// places, whatever they came to.
pub fn nearest_place(places: &Vec<Place>, lat: i64, lon: i64) -> (r: Option<usize>)
    ensures
        exists|arcs: Seq<Option<i32>>|
            measured(places@, lat, lon, arcs) && #[trigger] least_at(arcs) == match r {
                Some(k) => Some(k as int),
                None => None,
            },
        r matches Some(i) ==> i < places@.len() && half_turn(places@[i as int].lat) && half_turn(
            places@[i as int].lon,
        ),
        r is Some <==> half_turn(lat) && half_turn(lon) && exists|i: int|
            0 <= i < places@.len() && half_turn((#[trigger] places@[i]).lat) && half_turn(
                places@[i].lon,
            ),
{
    let arcs = arcs_to(places, lat, lon);
    let r = pick_nearest(&arcs);
    proof {
        lemma_least_at(arcs@);
        if exists|i: int|
            0 <= i < places@.len() && half_turn((#[trigger] places@[i]).lat) && half_turn(
                places@[i].lon,
            ) {
            let i = choose|i: int|
                0 <= i < places@.len() && half_turn((#[trigger] places@[i]).lat) && half_turn(
                    places@[i].lon,
                );
            if half_turn(lat) && half_turn(lon) {
                assert(arcs@[i] is Some);
            }
        }
        if r is Some {
            let k = r.unwrap() as int;
            assert(arcs@[k] is Some);
            assert(half_turn(places@[k].lat));
        }
    }
    r
}

} // verus!
