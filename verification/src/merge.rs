//! Merges the timetables of several feeds into one.

use crate::compile::{compile, Feed};
use crate::geo::{arcs_to, measured, places_of, same_place, stop_places, SAME_PLACE_ARC};
use crate::patterns::{all_valid, patterns_of, BuildError};
use crate::timetable::{stops_ok, trip_fits, Calendar, Route, Stop, Timetable, Trip};
use vstd::prelude::*;
use vstd::utf8::encode_utf8;

verus! {

/// Whether a byte is a blank of ASCII.
pub open spec fn is_blank(b: u8) -> bool {
    b == 32 || 9 <= b <= 13
}

/// A capital letter of ASCII as the small one; any other byte as it is.
pub open spec fn lowered(b: u8) -> u8 {
    if 65 <= b <= 90 {
        (b + 32) as u8
    } else {
        b
    }
}

/// The bytes of a name without blanks and without capitals.
pub open spec fn canonical(bytes: Seq<u8>) -> Seq<u8>
    decreases bytes.len(),
{
    if bytes.len() == 0 {
        Seq::empty()
    } else if is_blank(bytes.last()) {
        canonical(bytes.drop_last())
    } else {
        canonical(bytes.drop_last()).push(lowered(bytes.last()))
    }
}

/// Two names are the same but for blanks and capitals of ASCII.
pub open spec fn same_name(a: Seq<char>, b: Seq<char>) -> bool {
    canonical(encode_utf8(a)) == canonical(encode_utf8(b))
}

/// Computes [`canonical`] of the bytes of a name.
pub fn canonical_name(name: &str) -> (out: Vec<u8>)
    ensures
        out@ == canonical(encode_utf8(name@)),
{
    let bytes = name.as_bytes();
    let mut out: Vec<u8> = Vec::new();
    let mut i: usize = 0;
    assert(bytes@.take(0) =~= Seq::<u8>::empty());
    while i < bytes.len()
        invariant
            i <= bytes@.len(),
            out@ == canonical(bytes@.take(i as int)),
        decreases bytes@.len() - i,
    {
        let b = bytes[i];
        proof {
            assert(bytes@.take(i + 1).drop_last() =~= bytes@.take(i as int));
            assert(bytes@.take(i + 1).last() == b);
        }
        if !(b == 32 || (9 <= b && b <= 13)) {
            if 65 <= b && b <= 90 {
                out.push(b + 32);
            } else {
                out.push(b);
            }
        }
        i += 1;
    }
    assert(bytes@.take(bytes@.len() as int) =~= bytes@);
    out
}

/// Decides [`same_name`].
pub fn names_match(a: &str, b: &str) -> (r: bool)
    ensures
        r == same_name(a@, b@),
{
    let x = canonical_name(a);
    let y = canonical_name(b);
    if x.len() != y.len() {
        return false;
    }
    let mut i: usize = 0;
    while i < x.len()
        invariant
            i <= x@.len(),
            x@.len() == y@.len(),
            x@ == canonical(encode_utf8(a@)),
            y@ == canonical(encode_utf8(b@)),
            forall|k: int| 0 <= k < i ==> x@[k] == y@[k],
        decreases x@.len() - i,
    {
        if x[i] != y[i] {
            return false;
        }
        i += 1;
    }
    assert(x@ =~= y@);
    true
}

/// A copy of a stop.
pub fn copy_stop(stop: &Stop) -> (r: Stop)
    ensures
        r@ == stop@,
{
    Stop {
        id: stop.id,
        code: stop.code.clone(),
        name: stop.name.clone(),
        lat: stop.lat,
        lon: stop.lon,
        parent: stop.parent,
    }
}

/// A copy of a route.
pub fn copy_route(route: &Route) -> (r: Route)
    ensures
        r@ == route@,
{
    Route {
        agency: route.agency.clone(),
        short_name: route.short_name.clone(),
        long_name: route.long_name.clone(),
        route_type: route.route_type,
    }
}

/// Whether an arc was measured and is less than [`SAME_PLACE_ARC`].
pub open spec fn near_enough(arc: Option<i32>) -> bool {
    match arc {
        Some(a) => a < SAME_PLACE_ARC,
        None => false,
    }
}

/// The stop at which a stop is found again, given the arc from it to
/// each stop: the first stop that has its name, but for blanks and capitals,
/// and lies less than [`SAME_PLACE_ARC`] away.
pub open spec fn same_at(stops: Seq<Stop>, name: Seq<char>, arcs: Seq<Option<i32>>) -> Option<int>
    decreases stops.len(),
{
    if stops.len() == 0 {
        None
    } else {
        match same_at(stops.drop_last(), name, arcs) {
            Some(u) => Some(u),
            None => if same_name(stops.last().name@, name) && near_enough(arcs[stops.len() - 1]) {
                Some(stops.len() - 1)
            } else {
                None
            },
        }
    }
}

/// The stop that [`same_at`] gives is a stop of the list and has the name.
pub proof fn lemma_same_at(stops: Seq<Stop>, name: Seq<char>, arcs: Seq<Option<i32>>)
    ensures
        same_at(stops, name, arcs) matches Some(u) ==> 0 <= u < stops.len() && same_name(
            stops[u].name@,
            name,
        ),
    decreases stops.len(),
{
    if stops.len() > 0 {
        lemma_same_at(stops.drop_last(), name, arcs);
        if same_at(stops.drop_last(), name, arcs) is Some {
            let u = same_at(stops.drop_last(), name, arcs).unwrap();
            assert(stops.drop_last()[u] == stops[u]);
        }
    }
}

/// Computes [`same_at`].
pub fn first_same(stops: &Vec<Stop>, name: &str, arcs: &Vec<Option<i32>>) -> (r: Option<usize>)
    requires
        arcs@.len() == stops@.len(),
    ensures
        same_at(stops@, name@, arcs@) == match r {
            Some(u) => Some(u as int),
            None => None,
        },
        r matches Some(u) ==> u < stops@.len() && same_name(stops@[u as int].name@, name@),
{
    let mut u: usize = 0;
    assert(stops@.take(0) =~= Seq::<Stop>::empty());
    while u < stops.len()
        invariant
            u <= stops@.len(),
            arcs@.len() == stops@.len(),
            same_at(stops@.take(u as int), name@, arcs@) is None,
        decreases stops@.len() - u,
    {
        proof {
            assert(stops@.take(u + 1).drop_last() =~= stops@.take(u as int));
            assert(stops@.take(u + 1).last() == stops@[u as int]);
        }
        if names_match(stops[u].name.as_str(), name) {
            match arcs[u] {
                Some(arc) => {
                    if same_place(arc) {
                        proof {
                            lemma_same_kept(stops@, name@, arcs@, u + 1);
                        }
                        return Some(u);
                    }
                },
                None => {},
            }
        }
        u += 1;
    }
    assert(stops@.take(stops@.len() as int) =~= stops@);
    None
}

/// A stop found among the first stops is the stop found among all.
pub proof fn lemma_same_kept(stops: Seq<Stop>, name: Seq<char>, arcs: Seq<Option<i32>>, upto: int)
    requires
        0 <= upto <= stops.len(),
        same_at(stops.take(upto), name, arcs) is Some,
    ensures
        same_at(stops, name, arcs) == same_at(stops.take(upto), name, arcs),
    decreases stops.len() - upto,
{
    if upto < stops.len() {
        assert(stops.take(upto + 1).drop_last() =~= stops.take(upto));
        lemma_same_kept(stops, name, arcs, upto + 1);
    } else {
        assert(stops.take(upto) =~= stops);
    }
}

/// The first of the stops that has the name of `stop`, but for blanks and
/// capitals, and lies at the same place: the stop that [`same_at`] picks on
/// the arcs that the globe gives.
///
/// The arcs are computed in floating point, so the contract names no arc:
/// it says that the stop is picked on arcs that were measured to the stops,
/// whatever they came to.
pub fn find_same(stops: &Vec<Stop>, stop: &Stop) -> (r: Option<usize>)
    ensures
        exists|arcs: Seq<Option<i32>>|
            measured(places_of(stops@), stop.lat, stop.lon, arcs) && #[trigger] same_at(
                stops@,
                stop.name@,
                arcs,
            ) == match r {
                Some(u) => Some(u as int),
                None => None,
            },
        r matches Some(u) ==> u < stops@.len() && same_name(stops@[u as int].name@, stop.name@),
{
    let places = stop_places(stops);
    let arcs = arcs_to(&places, stop.lat, stop.lon);
    first_same(stops, stop.name.as_str(), &arcs)
}

/// `map` sends each stop of a feed to a stop of the merged table that has
/// its name, but for blanks and capitals.
pub open spec fn sends(feed: Seq<Stop>, stops: Seq<Stop>, map: Seq<u32>) -> bool {
    &&& map.len() == feed.len()
    &&& forall|s: int|
        0 <= s < feed.len() ==> (#[trigger] map[s]) < stops.len() && same_name(
            stops[map[s] as int].name@,
            feed[s].name@,
        )
}

/// The merged stop `u` is a stop of the feed, sent to `u`.
pub open spec fn taken_from(feed: Seq<Stop>, stops: Seq<Stop>, map: Seq<u32>, u: int) -> bool {
    exists|s: int| 0 <= s < feed.len() && #[trigger] map[s] == u && stops[u]@ == feed[s]@
}

/// Adds the stops of a feed to the merged table: a stop that
/// [`find_same`] finds in the table is sent there, any other is added at the
/// end. None where the table would outgrow a 32-bit index.
#[verifier::rlimit(50)]
pub fn merge_feed(stops: &mut Vec<Stop>, feed: &Vec<Stop>) -> (r: Option<Vec<u32>>)
    requires
        old(stops)@.len() <= u32::MAX,
    ensures
        old(stops)@.is_prefix_of(final(stops)@),
        final(stops)@.len() <= u32::MAX,
        final(stops)@.len() <= old(stops)@.len() + feed@.len(),
        r matches Some(map) ==> sends(feed@, final(stops)@, map@) && forall|u: int|
            old(stops)@.len() <= u < final(stops)@.len() ==> #[trigger] taken_from(
                feed@,
                final(stops)@,
                map@,
                u,
            ),
        r is None ==> old(stops)@.len() + feed@.len() > u32::MAX,
{
    let mut map: Vec<u32> = Vec::new();
    let mut s: usize = 0;
    while s < feed.len()
        invariant
            s <= feed@.len(),
            old(stops)@.is_prefix_of(stops@),
            stops@.len() <= u32::MAX,
            stops@.len() <= old(stops)@.len() + s,
            sends(feed@.take(s as int), stops@, map@),
            forall|u: int|
                old(stops)@.len() <= u < stops@.len() ==> #[trigger] taken_from(
                    feed@.take(s as int),
                    stops@,
                    map@,
                    u,
                ),
        decreases feed@.len() - s,
    {
        let ghost before = stops@;
        let ghost old_map = map@;
        let ghost seen = feed@.take(s as int);
        let ghost next = feed@.take(s + 1);
        let to = match find_same(stops, &feed[s]) {
            Some(u) => u,
            None => {
                if stops.len() >= u32::MAX as usize {
                    return None;
                }
                stops.push(copy_stop(&feed[s]));
                stops.len() - 1
            },
        };
        map.push(to as u32);
        proof {
            assert(before.is_prefix_of(stops@));
            assert forall|k: int| 0 <= k < next.len() implies (#[trigger] map@[k]) < stops@.len()
                && same_name(stops@[map@[k] as int].name@, next[k].name@) by {
                if k < s {
                    assert(map@[k] == old_map[k]);
                    assert(seen[k] == next[k]);
                    assert(stops@[old_map[k] as int] == before[old_map[k] as int]);
                } else {
                    assert(stops@[to as int]@.name == stops@[to as int].name@);
                }
            }
            assert forall|u: int| old(stops)@.len() <= u < stops@.len() implies #[trigger] taken_from(
                next,
                stops@,
                map@,
                u,
            ) by {
                if u < before.len() {
                    assert(taken_from(seen, before, old_map, u));
                    let w = choose|w: int|
                        0 <= w < seen.len() && #[trigger] old_map[w] == u && before[u]@ == seen[w]@;
                    assert(map@[w] == u && next[w] == seen[w]);
                    assert(stops@[u] == before[u]);
                } else {
                    assert(map@[s as int] == u);
                    assert(next[s as int] == feed@[s as int]);
                }
            }
        }
        s += 1;
    }
    assert(feed@.take(feed@.len() as int) =~= feed@);
    Some(map)
}

/// How many routes the timetables before `f` hold.
pub open spec fn routes_before(tts: Seq<Timetable>, f: int) -> int
    decreases f,
{
    if f <= 0 {
        0
    } else {
        routes_before(tts, f - 1) + tts[f - 1].routes@.len()
    }
}

/// How many trips the timetables before `f` hold.
pub open spec fn trips_before(tts: Seq<Timetable>, f: int) -> int
    decreases f,
{
    if f <= 0 {
        0
    } else {
        trips_before(tts, f - 1) + tts[f - 1].trips@.len()
    }
}

/// How many stops the timetables before `f` hold.
pub open spec fn stops_before(tts: Seq<Timetable>, f: int) -> int
    decreases f,
{
    if f <= 0 {
        0
    } else {
        stops_before(tts, f - 1) + tts[f - 1].stops@.len()
    }
}

/// The counts grow with the number of timetables counted.
pub proof fn lemma_before_grows(tts: Seq<Timetable>, f: int, g: int)
    requires
        0 <= f <= g,
    ensures
        0 <= routes_before(tts, f) <= routes_before(tts, g),
        0 <= trips_before(tts, f) <= trips_before(tts, g),
        0 <= stops_before(tts, f) <= stops_before(tts, g),
    decreases g,
{
    if f < g {
        lemma_before_grows(tts, f, g - 1);
    } else if f > 0 {
        lemma_before_grows(tts, f - 1, f - 1);
        lemma_before_grows(tts, 0, f - 1);
    }
}

/// What was sent stays sent when the merged table grows.
pub proof fn lemma_sends_kept(feed: Seq<Stop>, a: Seq<Stop>, b: Seq<Stop>, map: Seq<u32>)
    requires
        a.is_prefix_of(b),
        sends(feed, a, map),
    ensures
        sends(feed, b, map),
        forall|u: int| 0 <= u < a.len() && taken_from(feed, a, map, u) ==> taken_from(feed, b, map, u),
{
    assert forall|s: int| 0 <= s < feed.len() implies (#[trigger] map[s]) < b.len() && same_name(
        b[map[s] as int].name@,
        feed[s].name@,
    ) by {
        assert(b[map[s] as int] == a[map[s] as int]);
    }
    assert forall|u: int| 0 <= u < a.len() && taken_from(feed, a, map, u) implies taken_from(
        feed,
        b,
        map,
        u,
    ) by {
        let w = choose|w: int| 0 <= w < feed.len() && #[trigger] map[w] == u && a[u]@ == feed[w]@;
        assert(b[u] == a[u]);
        assert(map[w] == u);
    }
}

/// The merged stop `u` is a stop of one of the first `upto` timetables,
/// sent to `u`.
pub open spec fn taken_upto(
    tts: Seq<Timetable>,
    stops: Seq<Stop>,
    maps: Seq<Vec<u32>>,
    u: int,
    upto: int,
) -> bool {
    exists|f: int|
        0 <= f < upto && #[trigger] taken_from(tts[f].stops@, stops, maps[f]@, u)
}

/// The stops of the first `upto` timetables are merged into `stops`:
/// `maps[f]` sends each stop of timetable `f` to a merged stop of its name,
/// and each merged stop is a stop of one of the timetables, sent to itself.
pub open spec fn stops_merged(
    tts: Seq<Timetable>,
    stops: Seq<Stop>,
    maps: Seq<Vec<u32>>,
    upto: int,
) -> bool {
    &&& maps.len() == upto
    &&& forall|f: int| 0 <= f < upto ==> sends(tts[f].stops@, stops, (#[trigger] maps[f])@)
    &&& forall|u: int| 0 <= u < stops.len() ==> #[trigger] taken_upto(tts, stops, maps, u, upto)
}

/// Merges the stops of all timetables; none where their number outgrows a
/// 32-bit index.
#[verifier::rlimit(50)]
pub fn merge_stops(tts: &Vec<Timetable>) -> (r: Option<(Vec<Stop>, Vec<Vec<u32>>)>)
    ensures
        r matches Some((stops, maps)) ==> stops@.len() <= u32::MAX && stops@.len()
            <= stops_before(tts@, tts@.len() as int) && stops_merged(
            tts@,
            stops@,
            maps@,
            tts@.len() as int,
        ),
        r is None ==> stops_before(tts@, tts@.len() as int) > u32::MAX,
{
    let mut stops: Vec<Stop> = Vec::new();
    let mut maps: Vec<Vec<u32>> = Vec::new();
    let mut f: usize = 0;
    while f < tts.len()
        invariant
            f <= tts@.len(),
            stops@.len() <= u32::MAX,
            stops@.len() <= stops_before(tts@, f as int),
            stops_merged(tts@, stops@, maps@, f as int),
        decreases tts@.len() - f,
    {
        let ghost before = stops@;
        let ghost old_maps = maps@;
        match merge_feed(&mut stops, &tts[f].stops) {
            Some(map) => {
                maps.push(map);
            },
            None => {
                proof {
                    lemma_before_grows(tts@, f + 1, tts@.len() as int);
                }
                return None;
            },
        }
        proof {
            let after = stops@;
            assert forall|g: int| 0 <= g < f + 1 implies sends(
                tts@[g].stops@,
                after,
                (#[trigger] maps@[g])@,
            ) by {
                if g < f {
                    assert(maps@[g] == old_maps[g]);
                    lemma_sends_kept(tts@[g].stops@, before, after, old_maps[g]@);
                }
            }
            assert forall|u: int| 0 <= u < after.len() implies #[trigger] taken_upto(
                tts@,
                after,
                maps@,
                u,
                f + 1,
            ) by {
                if u < before.len() {
                    assert(taken_upto(tts@, before, old_maps, u, f as int));
                    let g = choose|g: int|
                        0 <= g < f && #[trigger] taken_from(tts@[g].stops@, before, old_maps[g]@, u);
                    assert(maps@[g] == old_maps[g]);
                    lemma_sends_kept(tts@[g].stops@, before, after, old_maps[g]@);
                    assert(taken_from(tts@[g].stops@, after, maps@[g]@, u));
                } else {
                    assert(taken_from(tts@[f as int].stops@, after, maps@[f as int]@, u));
                }
            }
        }
        f += 1;
    }
    Some((stops, maps))
}

/// The routes of all timetables, one timetable after the other.
pub open spec fn routes_gathered(tts: Seq<Timetable>, routes: Seq<Route>, upto: int) -> bool {
    &&& routes.len() == routes_before(tts, upto)
    &&& forall|f: int, r: int|
        0 <= f < upto && 0 <= r < tts[f].routes@.len() ==> routes[routes_before(tts, f) + r]@ == (
        #[trigger] tts[f].routes@[r])@
}

/// Gathers the routes of all timetables.
pub fn gather_routes(tts: &Vec<Timetable>) -> (routes: Vec<Route>)
    ensures
        routes_gathered(tts@, routes@, tts@.len() as int),
{
    let mut routes: Vec<Route> = Vec::new();
    let mut f: usize = 0;
    while f < tts.len()
        invariant
            f <= tts@.len(),
            routes_gathered(tts@, routes@, f as int),
        decreases tts@.len() - f,
    {
        let ghost before = routes@;
        let mut r: usize = 0;
        while r < tts[f as usize].routes.len()
            invariant
                f < tts@.len(),
                r <= tts@[f as int].routes@.len(),
                before.is_prefix_of(routes@),
                before.len() == routes_before(tts@, f as int),
                routes@.len() == before.len() + r,
                forall|k: int|
                    0 <= k < r ==> routes@[before.len() + k]@ == (#[trigger] tts@[f as int].routes@[k])@,
            decreases tts@[f as int].routes@.len() - r,
        {
            routes.push(copy_route(&tts[f].routes[r]));
            r += 1;
        }
        proof {
            assert forall|g: int, k: int|
                0 <= g < f + 1 && 0 <= k < tts@[g].routes@.len() implies routes@[routes_before(
                tts@,
                g,
            ) + k]@ == (#[trigger] tts@[g].routes@[k])@ by {
                if g < f {
                    lemma_before_grows(tts@, g + 1, f as int);
                    lemma_before_grows(tts@, 0, g);
                    assert(routes_before(tts@, g + 1) == routes_before(tts@, g)
                        + tts@[g].routes@.len());
                    assert(before[routes_before(tts@, g) + k]@ == tts@[g].routes@[k]@);
                    assert(routes@[routes_before(tts@, g) + k] == before[routes_before(tts@, g) + k]);
                }
            }
        }
        f += 1;
    }
    routes
}

/// The trip `r` is the trip `t` in the merged table: its stops are sent
/// through `map`, its route lies `route_base` further on, and all else is as
/// it was.
pub open spec fn moved(t: Trip, map: Seq<u32>, route_base: int, r: Trip) -> bool {
    &&& r.id == t.id
    &&& r.route == t.route + route_base
    &&& r.headsign@ == t.headsign@
    &&& r.days@ == t.days@
    &&& r.times@ == t.times@
    &&& r.stops@.len() == t.stops@.len()
    &&& forall|i: int|
        0 <= i < t.stops@.len() ==> (#[trigger] r.stops@[i]) == map[t.stops@[i] as int]
}

/// Moves a trip into the merged table.
pub fn move_trip(t: &Trip, map: &Vec<u32>, route_base: u32) -> (r: Trip)
    requires
        forall|i: int| 0 <= i < t.stops@.len() ==> (#[trigger] t.stops@[i]) < map@.len(),
        t.route + route_base <= u32::MAX,
    ensures
        moved(*t, map@, route_base as int, r),
{
    let mut stops: Vec<u32> = Vec::new();
    let mut i: usize = 0;
    while i < t.stops.len()
        invariant
            i <= t.stops@.len(),
            stops@.len() == i,
            forall|k: int| 0 <= k < t.stops@.len() ==> (#[trigger] t.stops@[k]) < map@.len(),
            forall|k: int| 0 <= k < i ==> (#[trigger] stops@[k]) == map@[t.stops@[k] as int],
        decreases t.stops@.len() - i,
    {
        stops.push(map[t.stops[i] as usize]);
        i += 1;
    }
    let days = t.days.clone();
    let times = t.times.clone();
    assert(days@ =~= t.days@);
    assert(times@ =~= t.times@);
    Trip {
        id: t.id,
        route: t.route + route_base,
        headsign: t.headsign.clone(),
        days,
        stops,
        times,
    }
}

/// The trips of the first `upto` timetables, one timetable after the
/// other, each [`moved`] into the merged table.
pub open spec fn trips_gathered(
    tts: Seq<Timetable>,
    maps: Seq<Vec<u32>>,
    trips: Seq<Trip>,
    upto: int,
) -> bool {
    &&& trips.len() == trips_before(tts, upto)
    &&& forall|f: int, x: int|
        0 <= f < upto && 0 <= x < tts[f].trips@.len() ==> moved(
            #[trigger] tts[f].trips@[x],
            maps[f]@,
            routes_before(tts, f),
            trips[trips_before(tts, f) + x],
        )
}

/// Gathers the trips of all timetables.
#[verifier::rlimit(50)]
pub fn gather_trips(tts: &Vec<Timetable>, maps: &Vec<Vec<u32>>) -> (trips: Vec<Trip>)
    requires
        forall|f: int| 0 <= f < tts@.len() ==> (#[trigger] tts@[f]).wf(),
        maps@.len() == tts@.len(),
        forall|f: int|
            0 <= f < tts@.len() ==> (#[trigger] maps@[f])@.len() == tts@[f].stops@.len(),
        routes_before(tts@, tts@.len() as int) <= u32::MAX,
    ensures
        trips_gathered(tts@, maps@, trips@, tts@.len() as int),
{
    let mut trips: Vec<Trip> = Vec::new();
    let mut route_base: u32 = 0;
    let mut f: usize = 0;
    while f < tts.len()
        invariant
            f <= tts@.len(),
            forall|g: int| 0 <= g < tts@.len() ==> (#[trigger] tts@[g]).wf(),
            maps@.len() == tts@.len(),
            forall|g: int|
                0 <= g < tts@.len() ==> (#[trigger] maps@[g])@.len() == tts@[g].stops@.len(),
            routes_before(tts@, tts@.len() as int) <= u32::MAX,
            route_base == routes_before(tts@, f as int),
            trips_gathered(tts@, maps@, trips@, f as int),
        decreases tts@.len() - f,
    {
        let ghost before = trips@;
        let tt = &tts[f];
        proof {
            lemma_before_grows(tts@, f + 1, tts@.len() as int);
            assert(tt.wf());
            assert(maps@[f as int]@.len() == tt.stops@.len());
        }
        let mut x: usize = 0;
        while x < tt.trips.len()
            invariant
                f < tts@.len(),
                tt == tts@[f as int],
                tt.wf(),
                maps@.len() == tts@.len(),
                maps@[f as int]@.len() == tt.stops@.len(),
                x <= tt.trips@.len(),
                route_base + tt.routes@.len() <= u32::MAX,
                before.is_prefix_of(trips@),
                trips@.len() == before.len() + x,
                forall|k: int|
                    0 <= k < x ==> moved(
                        #[trigger] tt.trips@[k],
                        maps@[f as int]@,
                        route_base as int,
                        trips@[before.len() + k],
                    ),
            decreases tt.trips@.len() - x,
        {
            proof {
                assert(trip_fits(
                    tt.trips@[x as int],
                    tt.stops@.len() as int,
                    tt.routes@.len() as int,
                    tt.calendar.num_days as int,
                ));
            }
            let ghost so_far = trips@;
            trips.push(move_trip(&tt.trips[x], &maps[f], route_base));
            proof {
                assert forall|k: int| 0 <= k < x + 1 implies moved(
                    #[trigger] tt.trips@[k],
                    maps@[f as int]@,
                    route_base as int,
                    trips@[before.len() + k],
                ) by {
                    if k < x {
                        assert(trips@[before.len() + k] == so_far[before.len() + k]);
                    }
                }
            }
            x += 1;
        }
        proof {
            assert forall|g: int, k: int|
                0 <= g < f + 1 && 0 <= k < tts@[g].trips@.len() implies moved(
                #[trigger] tts@[g].trips@[k],
                maps@[g]@,
                routes_before(tts@, g),
                trips@[trips_before(tts@, g) + k],
            ) by {
                if g < f {
                    lemma_before_grows(tts@, g + 1, f as int);
                    lemma_before_grows(tts@, 0, g);
                    assert(trips_before(tts@, g + 1) == trips_before(tts@, g)
                        + tts@[g].trips@.len());
                    assert(moved(
                        tts@[g].trips@[k],
                        maps@[g]@,
                        routes_before(tts@, g),
                        before[trips_before(tts@, g) + k],
                    ));
                    assert(trips@[trips_before(tts@, g) + k] == before[trips_before(tts@, g) + k]);
                }
            }
        }
        route_base = route_base + tt.routes.len() as u32;
        f += 1;
    }
    trips
}

/// Why timetables cannot be merged.
#[derive(Debug, Clone, Copy, PartialEq, Eq, Structural)]
pub enum ConcatError {
    /// There is no timetable to merge.
    NoTimetables,
    /// The timetables do not all cover the same days.
    CalendarMismatch,
    /// The merged timetable would hold more stops, routes or trips than a
    /// 32-bit index can number.
    TooLarge,
}

/// A merged timetable, and for each timetable that went into it the table
/// that sends its stops to the merged stops.
#[derive(Debug, Clone)]
pub struct Merged {
    pub timetable: Timetable,
    pub stop_maps: Vec<Vec<u32>>,
}

/// All timetables cover the days of the first.
pub open spec fn same_window(tts: Seq<Timetable>) -> bool {
    forall|f: int| 0 <= f < tts.len() ==> (#[trigger] tts[f]).calendar == tts[0].calendar
}

/// 32 bits number all stops, all routes and all trips of the timetables
/// together.
pub open spec fn fits(tts: Seq<Timetable>) -> bool {
    &&& stops_before(tts, tts.len() as int) <= u32::MAX
    &&& routes_before(tts, tts.len() as int) <= u32::MAX
    &&& trips_before(tts, tts.len() as int) <= u32::MAX
}

/// What a merged timetable is: a well-formed timetable over the days of
/// the first timetable, with the merged stops, the routes and the moved
/// trips of all timetables, the patterns of these trips, and no walk.
pub open spec fn merged_of(tts: Seq<Timetable>, m: &Merged, tiles: Seq<char>) -> bool {
    let n = tts.len() as int;
    &&& m.timetable.wf()
    &&& patterns_of(m.timetable.trips@, m.timetable.patterns@)
    &&& m.timetable.calendar == tts[0].calendar
    &&& m.timetable.valhalla_tiles@ == tiles
    &&& m.timetable.stops@.len() <= stops_before(tts, n)
    &&& stops_merged(tts, m.timetable.stops@, m.stop_maps@, n)
    &&& routes_gathered(tts, m.timetable.routes@, n)
    &&& trips_gathered(tts, m.stop_maps@, m.timetable.trips@, n)
    &&& forall|s: int|
        0 <= s < m.timetable.transfers@.len() ==> (#[trigger] m.timetable.transfers@[s])@.len() == 0
}

/// Decides [`same_window`].
pub fn covers_same_days(tts: &Vec<Timetable>) -> (r: bool)
    ensures
        r == same_window(tts@),
{
    let mut f: usize = 1;
    while f < tts.len()
        invariant
            1 <= f,
            forall|g: int| 0 <= g < f && g < tts@.len() ==> (#[trigger] tts@[g]).calendar == tts@[0].calendar,
        decreases tts@.len() - f,
    {
        if !(tts[f].calendar.start_day == tts[0].calendar.start_day && tts[f].calendar.num_days
            == tts[0].calendar.num_days) {
            return false;
        }
        f += 1;
    }
    true
}

/// Decides whether 32 bits number all routes and all trips of the
/// timetables together.
pub fn counts_fit(tts: &Vec<Timetable>) -> (r: bool)
    ensures
        r == (routes_before(tts@, tts@.len() as int) <= u32::MAX && trips_before(
            tts@,
            tts@.len() as int,
        ) <= u32::MAX),
{
    let mut routes: u64 = 0;
    let mut trips: u64 = 0;
    let mut f: usize = 0;
    while f < tts.len()
        invariant
            f <= tts@.len(),
            routes == routes_before(tts@, f as int),
            trips == trips_before(tts@, f as int),
            routes <= u32::MAX,
            trips <= u32::MAX,
        decreases tts@.len() - f,
    {
        let more_routes = tts[f].routes.len();
        let more_trips = tts[f].trips.len();
        if more_routes as u64 > u32::MAX as u64 - routes || more_trips as u64 > u32::MAX as u64
            - trips {
            proof {
                lemma_before_grows(tts@, f + 1, tts@.len() as int);
            }
            return false;
        }
        routes = routes + more_routes as u64;
        trips = trips + more_trips as u64;
        f += 1;
    }
    true
}

/// The gathered tables of well-formed timetables over the same days make
/// a feed that can be compiled.
#[verifier::rlimit(50)]
pub proof fn lemma_feed_sound(
    tts: Seq<Timetable>,
    maps: Seq<Vec<u32>>,
    feed: Feed,
)
    requires
        tts.len() > 0,
        forall|f: int| 0 <= f < tts.len() ==> (#[trigger] tts[f]).wf(),
        same_window(tts),
        feed.calendar == tts[0].calendar,
        feed.stops@.len() <= u32::MAX,
        feed.trips@.len() <= u32::MAX,
        stops_merged(tts, feed.stops@, maps, tts.len() as int),
        routes_gathered(tts, feed.routes@, tts.len() as int),
        trips_gathered(tts, maps, feed.trips@, tts.len() as int),
    ensures
        feed.sound(),
{
    let n = tts.len() as int;
    assert forall|u: int| 0 <= u < feed.stops@.len() implies (#[trigger] feed.stops@[u]).on_globe() by {
        assert(taken_upto(tts, feed.stops@, maps, u, n));
        let f = choose|f: int|
            0 <= f < n && #[trigger] taken_from(tts[f].stops@, feed.stops@, maps[f]@, u);
        let s = choose|s: int|
            0 <= s < tts[f].stops@.len() && #[trigger] maps[f]@[s] == u && feed.stops@[u]@
                == tts[f].stops@[s]@;
        assert(tts[f].wf());
        assert(tts[f].stops@[s].on_globe());
    }
    assert forall|y: int| 0 <= y < feed.trips@.len() implies (#[trigger] feed.trips@[y]).valid()
        && trip_fits(
        feed.trips@[y],
        feed.stops@.len() as int,
        feed.routes@.len() as int,
        feed.calendar.num_days as int,
    ) by {
        lemma_trip_source(tts, y, n);
        let f = choose|f: int|
            0 <= f < n && #[trigger] trips_before(tts, f) <= y < trips_before(tts, f)
                + tts[f].trips@.len();
        let x = y - trips_before(tts, f);
        let t = tts[f].trips@[x];
        let r = feed.trips@[y];
        assert(moved(t, maps[f]@, routes_before(tts, f), r));
        assert(tts[f].wf());
        assert(t.valid());
        assert(trip_fits(
            t,
            tts[f].stops@.len() as int,
            tts[f].routes@.len() as int,
            tts[f].calendar.num_days as int,
        ));
        assert(sends(tts[f].stops@, feed.stops@, maps[f]@));
        assert forall|i: int| 0 <= i < r.stops@.len() implies (#[trigger] r.stops@[i])
            < feed.stops@.len() by {
            assert(t.stops@[i] < tts[f].stops@.len());
            assert(maps[f]@[t.stops@[i] as int] < feed.stops@.len());
        }
        lemma_before_grows(tts, f + 1, n);
        assert(routes_before(tts, f + 1) == routes_before(tts, f) + tts[f].routes@.len());
        assert(tts[f].calendar == tts[0].calendar);
    }
}

/// Every trip of the gathered table comes from one of the timetables.
pub proof fn lemma_trip_source(tts: Seq<Timetable>, y: int, upto: int)
    requires
        0 <= upto,
        0 <= y < trips_before(tts, upto),
    ensures
        exists|f: int|
            0 <= f < upto && #[trigger] trips_before(tts, f) <= y < trips_before(tts, f)
                + tts[f].trips@.len(),
    decreases upto,
{
    if upto > 0 {
        if y < trips_before(tts, upto - 1) {
            lemma_trip_source(tts, y, upto - 1);
        } else {
            assert(trips_before(tts, upto - 1) <= y < trips_before(tts, upto - 1) + tts[upto
                - 1].trips@.len());
        }
    }
}

/// Merges the timetables of several feeds into one timetable for the road
/// tiles at `valhalla_tiles`.
///
/// Stops of one name, but for blanks and capitals, that lie at the same
/// place become one stop. The routes are gathered, the trips are moved onto
/// the merged stops and gathered, and the patterns are built anew over all
/// trips, so that trips of different feeds that call at the same merged
/// stops share a pattern. The walks are left out: they are found for the
/// merged stops afterwards.
#[verifier::rlimit(50)]
pub fn concat_timetables(tts: &Vec<Timetable>, valhalla_tiles: String) -> (r: Result<Merged, ConcatError>)
    requires
        forall|f: int| 0 <= f < tts@.len() ==> (#[trigger] tts@[f]).wf(),
    ensures
        tts@.len() == 0 <==> r matches Err(ConcatError::NoTimetables),
        tts@.len() > 0 && !same_window(tts@) <==> r matches Err(ConcatError::CalendarMismatch),
        r matches Err(ConcatError::TooLarge) ==> !fits(tts@),
        tts@.len() > 0 && same_window(tts@) && fits(tts@) ==> r is Ok,
        r matches Ok(m) ==> merged_of(tts@, &m, valhalla_tiles@),
{
    if tts.len() == 0 {
        return Err(ConcatError::NoTimetables);
    }
    if !covers_same_days(tts) {
        return Err(ConcatError::CalendarMismatch);
    }
    if !counts_fit(tts) {
        return Err(ConcatError::TooLarge);
    }
    let (stops, stop_maps) = match merge_stops(tts) {
        Some(merged) => merged,
        None => {
            return Err(ConcatError::TooLarge);
        },
    };
    proof {
        assert forall|f: int| 0 <= f < tts@.len() implies (#[trigger] stop_maps@[f])@.len()
            == tts@[f].stops@.len() by {
            assert(sends(tts@[f].stops@, stops@, stop_maps@[f]@));
        }
    }
    let routes = gather_routes(tts);
    let trips = gather_trips(tts, &stop_maps);
    let calendar = tts[0].calendar;
    let feed = Feed { stops, routes, trips, calendar };
    proof {
        lemma_feed_sound(tts@, stop_maps@, feed);
    }
    match compile(feed, valhalla_tiles) {
        Ok(timetable) => Ok(Merged { timetable, stop_maps }),
        Err(_) => Err(ConcatError::TooLarge),
    }
}

} // verus!
