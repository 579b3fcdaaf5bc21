//! Groups the trips of a feed into route patterns.

use crate::timetable::{no_later, runs_no_later, same_stops, Pattern, StopTime, Trip};
use vstd::prelude::*;

verus! {

/// Why a feed could not be compiled.
#[derive(Debug, Clone, Copy, PartialEq, Eq, Structural)]
pub enum BuildError {
    /// The trip at this index has fewer than two stops, not one time per
    /// stop, or times that run backwards.
    BadTrip { index: usize },
    /// The feed holds more trips than a 32-bit index can number.
    TooManyTrips,
    /// The feed holds more stops than a 32-bit index can number, or a stop
    /// that lies off the globe.
    BadStops,
    /// The trip at this index calls at a stop or belongs to a route that
    /// the feed does not hold, or its days do not match the calendar.
    BadReference { index: usize },
}

/// Every trip of the feed is [`Trip::valid`].
pub open spec fn all_valid(s: Seq<Trip>) -> bool {
    forall|x: int| 0 <= x < s.len() ==> (#[trigger] s[x]).valid()
}

/// When trip `x` leaves its first stop.
pub open spec fn first_departure(s: Seq<Trip>, x: int) -> int {
    s[x].times@[0].departure as int
}

/// Trip `x` leaves its first stop before trip `y`; of two trips that leave
/// together the one that comes first in the feed counts as the earlier.
pub open spec fn departs_before(s: Seq<Trip>, x: int, y: int) -> bool {
    first_departure(s, x) < first_departure(s, y) || (first_departure(s, x) == first_departure(s, y)
        && x < y)
}

/// Trip `x` stands somewhere in `order`.
pub open spec fn listed(order: Seq<u32>, x: int) -> bool {
    exists|a: int| 0 <= a < order.len() && #[trigger] order[a] == x
}

/// `order` lists each of the first `n` trips of the feed once, by
/// [`departs_before`].
pub open spec fn is_departure_order(s: Seq<Trip>, order: Seq<u32>, n: int) -> bool {
    &&& order.len() == n
    &&& forall|a: int| 0 <= a < n ==> (#[trigger] order[a]) < n
    &&& forall|a: int, b: int|
        0 <= a < b < n ==> departs_before(s, #[trigger] order[a] as int, #[trigger] order[b] as int)
    &&& forall|x: int| 0 <= x < n ==> #[trigger] listed(order, x)
}

/// Orders the trips of the feed by [`departs_before`].
fn departure_order(s: &Vec<Trip>) -> (order: Vec<u32>)
    requires
        all_valid(s@),
        s@.len() <= u32::MAX,
    ensures
        is_departure_order(s@, order@, s@.len() as int),
{
    let n = s.len();
    let mut order: Vec<u32> = Vec::new();
    let mut i: usize = 0;
    while i < n
        invariant
            i <= n,
            n == s@.len(),
            n <= u32::MAX,
            all_valid(s@),
            is_departure_order(s@, order@, i as int),
        decreases n - i,
    {
        let key = s[i].times[0].departure;
        let mut pos: usize = i;
        while pos > 0 && s[order[pos - 1] as usize].times[0].departure > key
            invariant
                pos <= i,
                i < n,
                n == s@.len(),
                all_valid(s@),
                is_departure_order(s@, order@, i as int),
                key == first_departure(s@, i as int),
                forall|a: int| pos <= a < i ==> departs_before(s@, i as int, #[trigger] order@[a] as int),
            decreases pos,
        {
            pos -= 1;
        }
        let ghost before = order@;
        order.insert(pos, i as u32);
        proof {
            let after = order@;
            assert forall|a: int, b: int| 0 <= a < b < i + 1 implies departs_before(
                s@,
                #[trigger] after[a] as int,
                #[trigger] after[b] as int,
            ) by {
                if a < pos && b == pos {
                    assert(after[a] == before[a]);
                    if pos > 0 {
                        assert(departs_before(s@, before[a] as int, before[pos - 1] as int) || a
                            == pos - 1);
                    }
                } else if a == pos {
                    assert(after[b] == before[b - 1]);
                } else if b < pos {
                    assert(after[a] == before[a] && after[b] == before[b]);
                } else if a < pos {
                    assert(after[a] == before[a] && after[b] == before[b - 1]);
                } else {
                    assert(after[a] == before[a - 1] && after[b] == before[b - 1]);
                }
            }
            assert forall|x: int| 0 <= x < i + 1 implies #[trigger] listed(after, x) by {
                if x == i {
                    assert(after[pos as int] == x);
                } else {
                    assert(listed(before, x));
                    let a0 = choose|a: int| 0 <= a < i && #[trigger] before[a] == x;
                    if a0 < pos {
                        assert(after[a0] == x);
                    } else {
                        assert(after[a0 + 1] == x);
                    }
                }
            }
        }
        i += 1;
    }
    order
}

/// The trip at place `j` of pattern `p`.
pub open spec fn trip_at(ps: Seq<Pattern>, p: int, j: int) -> int {
    ps[p].trips@[j] as int
}

/// The pattern holds at least one trip; each of its trips is a trip of the
/// feed that calls at the pattern's stops; and of two neighbours the first
/// leaves earlier and is at no stop later than the second.
pub open spec fn pattern_ok(s: Seq<Trip>, pat: Pattern) -> bool {
    &&& 1 <= pat.trips@.len() <= s.len()
    &&& forall|j: int|
        0 <= j < pat.trips@.len() ==> (#[trigger] pat.trips@[j]) < s.len() && s[pat.trips@[j] as int].stops@
            == pat.stops@
    &&& forall|j: int|
        0 <= j < pat.trips@.len() - 1 ==> departs_before(
            s,
            #[trigger] pat.trips@[j] as int,
            pat.trips@[j + 1] as int,
        ) && no_later(s[pat.trips@[j] as int].times@, s[pat.trips@[j + 1] as int].times@)
}

/// How many of the first `p` patterns have the stop sequence `stops`.
pub open spec fn lanes_before(ps: Seq<Pattern>, stops: Seq<u32>, p: int) -> nat
    decreases p,
{
    if p <= 0 {
        0
    } else {
        lanes_before(ps, stops, p - 1) + if ps[p - 1].stops@ == stops {
            1nat
        } else {
            0nat
        }
    }
}

/// Trip `x` is a trip of some pattern.
pub open spec fn placed(ps: Seq<Pattern>, x: int) -> bool {
    exists|p: int, j: int|
        0 <= p < ps.len() && 0 <= j < ps[p].trips@.len() && #[trigger] trip_at(ps, p, j) == x
}

/// No trip stands at two places.
pub open spec fn placed_once(ps: Seq<Pattern>) -> bool {
    forall|p: int, j: int, q: int, k: int|
        0 <= p < ps.len() && 0 <= j < ps[p].trips@.len() && 0 <= q < ps.len() && 0 <= k
            < ps[q].trips@.len() && (p != q || j != k) ==> #[trigger] trip_at(ps, p, j)
            != #[trigger] trip_at(ps, q, k)
}

/// Trip `x` cannot join the pattern: one of the pattern's trips leaves
/// before `x` and is yet later than `x` at some stop.
pub open spec fn blocked(s: Seq<Trip>, pat: Pattern, x: int) -> bool {
    exists|k: int|
        0 <= k < pat.trips@.len() && departs_before(s, #[trigger] pat.trips@[k] as int, x)
            && !no_later(s[pat.trips@[k] as int].times@, s[x].times@)
}

/// A trip stands in a later pattern of its stop sequence only where every
/// earlier pattern of that sequence is [`blocked`] for it.
pub open spec fn first_fit(s: Seq<Trip>, ps: Seq<Pattern>) -> bool {
    forall|q: int, p: int, j: int|
        0 <= q < p < ps.len() && ps[q].stops@ == ps[p].stops@ && 0 <= j < ps[p].trips@.len()
            ==> #[trigger] blocked(s, ps[q], trip_at(ps, p, j))
}

/// Each pattern's lane is the number of earlier patterns with its stops.
pub open spec fn lanes_counted(ps: Seq<Pattern>) -> bool {
    forall|p: int|
        0 <= p < ps.len() ==> (#[trigger] ps[p]).lane == lanes_before(ps, ps[p].stops@, p)
}

/// The patterns hold exactly the trips `order[0..i]`.
pub open spec fn patterns_upto(s: Seq<Trip>, order: Seq<u32>, ps: Seq<Pattern>, i: int) -> bool {
    &&& ps.len() <= i
    &&& forall|p: int| 0 <= p < ps.len() ==> pattern_ok(s, #[trigger] ps[p])
    &&& forall|p: int| 0 <= p < ps.len() ==> (#[trigger] ps[p]).trips@.len() <= i
    &&& forall|p: int, j: int|
        0 <= p < ps.len() && 0 <= j < ps[p].trips@.len() ==> listed(
            order.subrange(0, i),
            #[trigger] trip_at(ps, p, j),
        )
    &&& forall|k: int| 0 <= k < i ==> placed(ps, #[trigger] order[k] as int)
    &&& placed_once(ps)
    &&& lanes_counted(ps)
    &&& first_fit(s, ps)
}

/// What [`build_patterns`] makes of a feed.
///
/// Every trip of the feed stands in exactly one pattern, among trips with
/// its own stop sequence. Within a pattern the trips run in the order in
/// which they leave the first stop, and none overtakes another. Patterns of
/// one stop sequence are numbered by `lane` from 0 in the order of the
/// list, and a trip stands in the first of them that it can join without
/// overtaking or being overtaken by a trip that leaves before it.
pub open spec fn patterns_of(s: Seq<Trip>, ps: Seq<Pattern>) -> bool {
    &&& ps.len() <= s.len()
    &&& forall|p: int| 0 <= p < ps.len() ==> pattern_ok(s, #[trigger] ps[p])
    &&& forall|x: int| 0 <= x < s.len() ==> #[trigger] placed(ps, x)
    &&& placed_once(ps)
    &&& lanes_counted(ps)
    &&& first_fit(s, ps)
}

/// The count of lanes looks only at the stops of the patterns before `p`.
pub proof fn lemma_lanes_before_same(a: Seq<Pattern>, b: Seq<Pattern>, stops: Seq<u32>, p: int)
    requires
        p <= a.len(),
        p <= b.len(),
        forall|r: int| 0 <= r < p ==> (#[trigger] a[r]).stops@ == b[r].stops@,
    ensures
        lanes_before(a, stops, p) == lanes_before(b, stops, p),
    decreases p,
{
    if p > 0 {
        lemma_lanes_before_same(a, b, stops, p - 1);
        assert(a[p - 1].stops@ == b[p - 1].stops@);
    }
}

/// The count of lanes never exceeds the number of patterns counted.
pub proof fn lemma_lanes_before_bound(ps: Seq<Pattern>, stops: Seq<u32>, p: int)
    requires
        0 <= p,
    ensures
        lanes_before(ps, stops, p) <= p,
    decreases p,
{
    if p > 0 {
        lemma_lanes_before_bound(ps, stops, p - 1);
    }
}

/// The count of lanes grows with the number of patterns counted.
pub proof fn lemma_lanes_before_grows(ps: Seq<Pattern>, stops: Seq<u32>, p: int, q: int)
    requires
        0 <= p <= q,
    ensures
        lanes_before(ps, stops, p) <= lanes_before(ps, stops, q),
    decreases q - p,
{
    if p < q {
        lemma_lanes_before_grows(ps, stops, p, q - 1);
    }
}

/// Finds the first pattern with the stops of trip `x` whose last trip is at
/// no stop later than `x`, and counts the patterns with these stops that
/// come before it. Where there is none, the place is the end of the list.
fn find_lane(s: &Vec<Trip>, patterns: &Vec<Pattern>, x: usize) -> (r: (usize, u32))
    requires
        x < s@.len(),
        patterns@.len() <= u32::MAX,
        forall|p: int| 0 <= p < patterns@.len() ==> pattern_ok(s@, #[trigger] patterns@[p]),
    ensures
        r.0 <= patterns@.len(),
        r.1 == lanes_before(patterns@, s@[x as int].stops@, r.0 as int),
        r.0 < patterns@.len() ==> patterns@[r.0 as int].stops@ == s@[x as int].stops@ && no_later(
            s@[patterns@[r.0 as int].trips@.last() as int].times@,
            s@[x as int].times@,
        ),
        forall|q: int|
            0 <= q < r.0 && (#[trigger] patterns@[q]).stops@ == s@[x as int].stops@ ==> !no_later(
                s@[patterns@[q].trips@.last() as int].times@,
                s@[x as int].times@,
            ),
{
    let mut q: usize = 0;
    let mut lane: u32 = 0;
    while q < patterns.len()
        invariant
            q <= patterns@.len(),
            x < s@.len(),
            patterns@.len() <= u32::MAX,
            forall|p: int| 0 <= p < patterns@.len() ==> pattern_ok(s@, #[trigger] patterns@[p]),
            lane == lanes_before(patterns@, s@[x as int].stops@, q as int),
            forall|r: int|
                0 <= r < q && (#[trigger] patterns@[r]).stops@ == s@[x as int].stops@ ==> !no_later(
                    s@[patterns@[r].trips@.last() as int].times@,
                    s@[x as int].times@,
                ),
        decreases patterns@.len() - q,
    {
        assert(pattern_ok(s@, patterns@[q as int]));
        if same_stops(&patterns[q].stops, &s[x].stops) {
            let last = patterns[q].trips[patterns[q].trips.len() - 1];
            if runs_no_later(&s[last as usize].times, &s[x].times) {
                return (q, lane);
            }
            proof {
                lemma_lanes_before_bound(patterns@, s@[x as int].stops@, q as int);
            }
            lane += 1;
        }
        q += 1;
    }
    (q, lane)
}

/// Checks every trip of the feed; the first that is not
/// [`Trip::valid`] is reported.
pub fn check_trips(s: &Vec<Trip>) -> (r: Result<(), BuildError>)
    ensures
        r is Ok <==> all_valid(s@),
        r matches Err(e) ==> e matches BuildError::BadTrip { index } && index < s@.len()
            && !s@[index as int].valid() && forall|x: int|
            0 <= x < index ==> (#[trigger] s@[x]).valid(),
{
    let mut i: usize = 0;
    while i < s.len()
        invariant
            i <= s@.len(),
            forall|x: int| 0 <= x < i ==> (#[trigger] s@[x]).valid(),
        decreases s@.len() - i,
    {
        if !s[i].is_valid() {
            return Err(BuildError::BadTrip { index: i });
        }
        i += 1;
    }
    Ok(())
}

/// Groups the trips of a feed into route patterns.
///
/// Fails on the first trip that is not [`Trip::valid`], and on a feed
/// of more than `u32::MAX` trips. Otherwise the patterns are as
/// [`patterns_of`] says.
#[verifier::rlimit(50)]
pub fn build_patterns(s: &Vec<Trip>) -> (r: Result<Vec<Pattern>, BuildError>)
    ensures
        r is Ok <==> all_valid(s@) && s@.len() <= u32::MAX,
        r matches Ok(ps) ==> patterns_of(s@, ps@),
        r matches Err(e) ==> match e {
            BuildError::BadTrip { index } => index < s@.len() && !s@[index as int].valid()
                && forall|x: int| 0 <= x < index ==> (#[trigger] s@[x]).valid(),
            BuildError::TooManyTrips => all_valid(s@),
            _ => false,
        },
{
    match check_trips(s) {
        Err(e) => {
            return Err(e);
        },
        Ok(_) => {},
    }
    if s.len() > u32::MAX as usize {
        return Err(BuildError::TooManyTrips);
    }
    let order = departure_order(s);
    let n = s.len();
    let mut patterns: Vec<Pattern> = Vec::new();
    let mut i: usize = 0;
    while i < n
        invariant
            i <= n,
            n == s@.len(),
            n <= u32::MAX,
            all_valid(s@),
            is_departure_order(s@, order@, n as int),
            patterns_upto(s@, order@, patterns@, i as int),
        decreases n - i,
    {
        let x = order[i] as usize;
        let (q, lane) = find_lane(s, &patterns, x);
        let ghost old_ps = patterns@;
        let ghost prefix = order@.subrange(0, i as int);
        let ghost next = order@.subrange(0, i + 1);
        proof {
            assert(next[i as int] == x);
            assert forall|t: int| listed(prefix, t) implies listed(next, t) && departs_before(
                s@,
                t,
                x as int,
            ) by {
                let a = choose|a: int| 0 <= a < prefix.len() && #[trigger] prefix[a] == t;
                assert(next[a] == t);
                assert(departs_before(s@, order@[a] as int, order@[i as int] as int));
            }
        }
        if q < patterns.len() {
            patterns[q].trips.push(x as u32);
            proof {
                let ps = patterns@;
                let m = old_ps[q as int].trips@.len() as int;
                assert(pattern_ok(s@, old_ps[q as int]));
                assert(listed(prefix, trip_at(old_ps, q as int, m - 1)));
                assert forall|p: int, j: int|
                    0 <= p < ps.len() && 0 <= j < ps[p].trips@.len() && !(p == q && j == m) implies trip_at(
                    ps,
                    p,
                    j,
                ) == trip_at(old_ps, p, j) by {
                    if p != q {
                        assert(ps[p] == old_ps[p]);
                    }
                }
                assert(trip_at(ps, q as int, m) == x);
                assert forall|p: int| 0 <= p < ps.len() implies pattern_ok(s@, #[trigger] ps[p]) by {
                    assert(pattern_ok(s@, old_ps[p]));
                    if p == q {
                        assert forall|j: int| 0 <= j < ps[p].trips@.len() implies (
                        #[trigger] ps[p].trips@[j]) < s@.len() && s@[ps[p].trips@[j] as int].stops@
                            == ps[p].stops@ by {
                            if j < m {
                                assert(ps[p].trips@[j] == old_ps[p].trips@[j]);
                            }
                        }
                        assert forall|j: int| 0 <= j < ps[p].trips@.len() - 1 implies departs_before(
                            s@,
                            #[trigger] ps[p].trips@[j] as int,
                            ps[p].trips@[j + 1] as int,
                        ) && no_later(
                            s@[ps[p].trips@[j] as int].times@,
                            s@[ps[p].trips@[j + 1] as int].times@,
                        ) by {
                            assert(ps[p].trips@[j] == old_ps[p].trips@[j]);
                            if j < m - 1 {
                                assert(ps[p].trips@[j + 1] == old_ps[p].trips@[j + 1]);
                            }
                        }
                    } else {
                        assert(ps[p] == old_ps[p]);
                    }
                }
                assert forall|p: int, j: int|
                    0 <= p < ps.len() && 0 <= j < ps[p].trips@.len() implies listed(
                    next,
                    #[trigger] trip_at(ps, p, j),
                ) by {
                    if !(p == q && j == m) {
                        assert(listed(prefix, trip_at(old_ps, p, j)));
                    }
                }
                assert forall|k: int| 0 <= k < i + 1 implies placed(ps, #[trigger] order@[k] as int) by {
                    if k < i {
                        assert(placed(old_ps, order@[k] as int));
                        let (p, j) = choose|p: int, j: int|
                            0 <= p < old_ps.len() && 0 <= j < old_ps[p].trips@.len()
                                && #[trigger] trip_at(old_ps, p, j) == order@[k] as int;
                        assert(trip_at(ps, p, j) == order@[k] as int);
                    } else {
                        assert(trip_at(ps, q as int, m) == order@[k] as int);
                    }
                }
                assert(placed_once(ps)) by {
                    assert forall|p: int, j: int, r: int, k: int|
                        0 <= p < ps.len() && 0 <= j < ps[p].trips@.len() && 0 <= r < ps.len() && 0
                            <= k < ps[r].trips@.len() && (p != r || j != k) implies #[trigger] trip_at(
                        ps,
                        p,
                        j,
                    ) != #[trigger] trip_at(ps, r, k) by {
                        if p == q && j == m {
                            assert(listed(prefix, trip_at(old_ps, r, k)));
                        } else if r == q && k == m {
                            assert(listed(prefix, trip_at(old_ps, p, j)));
                        } else {
                            assert(trip_at(old_ps, p, j) != trip_at(old_ps, r, k));
                        }
                    }
                }
                assert(lanes_counted(ps)) by {
                    assert forall|p: int| 0 <= p < ps.len() implies (#[trigger] ps[p]).lane
                        == lanes_before(ps, ps[p].stops@, p) by {
                        assert(old_ps[p].lane == lanes_before(old_ps, old_ps[p].stops@, p));
                        assert forall|r: int| 0 <= r < p implies (#[trigger] ps[r]).stops@
                            == old_ps[r].stops@ by {
                            if r != q {
                                assert(ps[r] == old_ps[r]);
                            }
                        }
                        lemma_lanes_before_same(ps, old_ps, ps[p].stops@, p);
                        if p != q {
                            assert(ps[p] == old_ps[p]);
                        }
                    }
                }
                assert(first_fit(s@, ps)) by {
                    assert forall|r: int, p: int, j: int|
                        0 <= r < p < ps.len() && ps[r].stops@ == ps[p].stops@ && 0 <= j
                            < ps[p].trips@.len() implies #[trigger] blocked(
                        s@,
                        ps[r],
                        trip_at(ps, p, j),
                    ) by {
                        if p == q && j == m {
                            assert(ps[r] == old_ps[r]);
                            assert(pattern_ok(s@, old_ps[r]));
                            let k = old_ps[r].trips@.len() - 1;
                            assert(listed(prefix, trip_at(old_ps, r, k)));
                            assert(old_ps[r].trips@.last() == old_ps[r].trips@[k]);
                        } else {
                            if r != q {
                                assert(ps[r] == old_ps[r]);
                            }
                            if p != q {
                                assert(ps[p] == old_ps[p]);
                            }
                            assert(blocked(s@, old_ps[r], trip_at(old_ps, p, j)));
                            let k = choose|k: int|
                                0 <= k < old_ps[r].trips@.len() && departs_before(
                                    s@,
                                    #[trigger] old_ps[r].trips@[k] as int,
                                    trip_at(old_ps, p, j),
                                ) && !no_later(
                                    s@[old_ps[r].trips@[k] as int].times@,
                                    s@[trip_at(old_ps, p, j)].times@,
                                );
                            assert(ps[r].trips@[k] == old_ps[r].trips@[k]);
                        }
                    }
                }
            }
        } else {
            let stops = s[x].stops.clone();
            assert(stops@ == s@[x as int].stops@);
            let mut trips: Vec<u32> = Vec::new();
            trips.push(x as u32);
            patterns.push(Pattern { stops, lane, trips });
            proof {
                let ps = patterns@;
                let last = old_ps.len() as int;
                assert forall|p: int, j: int|
                    0 <= p < old_ps.len() && 0 <= j < ps[p].trips@.len() implies trip_at(ps, p, j)
                    == trip_at(old_ps, p, j) by {
                    assert(ps[p] == old_ps[p]);
                }
                assert(trip_at(ps, last, 0) == x);
                assert forall|p: int| 0 <= p < ps.len() implies pattern_ok(s@, #[trigger] ps[p]) by {
                    if p < last {
                        assert(ps[p] == old_ps[p]);
                        assert(pattern_ok(s@, old_ps[p]));
                    }
                }
                assert forall|p: int, j: int|
                    0 <= p < ps.len() && 0 <= j < ps[p].trips@.len() implies listed(
                    next,
                    #[trigger] trip_at(ps, p, j),
                ) by {
                    if p < last {
                        assert(ps[p] == old_ps[p]);
                        assert(listed(prefix, trip_at(old_ps, p, j)));
                    }
                }
                assert forall|k: int| 0 <= k < i + 1 implies placed(ps, #[trigger] order@[k] as int) by {
                    if k < i {
                        assert(placed(old_ps, order@[k] as int));
                        let (p, j) = choose|p: int, j: int|
                            0 <= p < old_ps.len() && 0 <= j < old_ps[p].trips@.len()
                                && #[trigger] trip_at(old_ps, p, j) == order@[k] as int;
                        assert(ps[p] == old_ps[p]);
                        assert(trip_at(ps, p, j) == order@[k] as int);
                    } else {
                        assert(trip_at(ps, last, 0) == order@[k] as int);
                    }
                }
                assert(placed_once(ps)) by {
                    assert forall|p: int, j: int, r: int, k: int|
                        0 <= p < ps.len() && 0 <= j < ps[p].trips@.len() && 0 <= r < ps.len() && 0
                            <= k < ps[r].trips@.len() && (p != r || j != k) implies #[trigger] trip_at(
                        ps,
                        p,
                        j,
                    ) != #[trigger] trip_at(ps, r, k) by {
                        if p == last {
                            assert(ps[r] == old_ps[r]);
                            assert(listed(prefix, trip_at(old_ps, r, k)));
                        } else if r == last {
                            assert(ps[p] == old_ps[p]);
                            assert(listed(prefix, trip_at(old_ps, p, j)));
                        } else {
                            assert(ps[p] == old_ps[p] && ps[r] == old_ps[r]);
                            assert(trip_at(old_ps, p, j) != trip_at(old_ps, r, k));
                        }
                    }
                }
                assert(lanes_counted(ps)) by {
                    assert forall|p: int| 0 <= p < ps.len() implies (#[trigger] ps[p]).lane
                        == lanes_before(ps, ps[p].stops@, p) by {
                        assert forall|r: int| 0 <= r < p implies (#[trigger] ps[r]).stops@
                            == old_ps[r].stops@ by {
                            assert(ps[r] == old_ps[r]);
                        }
                        lemma_lanes_before_same(ps, old_ps, ps[p].stops@, p);
                        if p < last {
                            assert(ps[p] == old_ps[p]);
                            assert(old_ps[p].lane == lanes_before(old_ps, old_ps[p].stops@, p));
                        }
                    }
                }
                assert(first_fit(s@, ps)) by {
                    assert forall|r: int, p: int, j: int|
                        0 <= r < p < ps.len() && ps[r].stops@ == ps[p].stops@ && 0 <= j
                            < ps[p].trips@.len() implies #[trigger] blocked(
                        s@,
                        ps[r],
                        trip_at(ps, p, j),
                    ) by {
                        assert(ps[r] == old_ps[r]);
                        if p == last {
                            assert(pattern_ok(s@, old_ps[r]));
                            let k = old_ps[r].trips@.len() - 1;
                            assert(listed(prefix, trip_at(old_ps, r, k)));
                            assert(old_ps[r].trips@.last() == old_ps[r].trips@[k]);
                        } else {
                            assert(ps[p] == old_ps[p]);
                            assert(blocked(s@, old_ps[r], trip_at(old_ps, p, j)));
                        }
                    }
                }
            }
        }
        i += 1;
    }
    proof {
        let ps = patterns@;
        assert(order@.subrange(0, n as int) =~= order@);
        assert forall|x: int| 0 <= x < s@.len() implies #[trigger] placed(ps, x) by {
            assert(listed(order@, x));
            let a = choose|a: int| 0 <= a < order@.len() && #[trigger] order@[a] == x;
            assert(placed(ps, order@[a] as int));
        }
    }
    Ok(patterns)
}

/// Of two trips of one pattern, the one that stands first is at no stop
/// later than the other.
pub proof fn lemma_pattern_in_step(s: Seq<Trip>, pat: Pattern, j1: int, j2: int)
    requires
        pattern_ok(s, pat),
        0 <= j1 <= j2 < pat.trips@.len(),
    ensures
        no_later(s[pat.trips@[j1] as int].times@, s[pat.trips@[j2] as int].times@),
    decreases j2 - j1,
{
    let a = s[pat.trips@[j1] as int].times@;
    if j1 < j2 {
        lemma_pattern_in_step(s, pat, j1, j2 - 1);
        let b = s[pat.trips@[j2 - 1] as int].times@;
        let c = s[pat.trips@[j2] as int].times@;
        assert(departs_before(s, pat.trips@[j2 - 1] as int, pat.trips@[(j2 - 1) + 1] as int));
        assert(no_later(b, c));
        assert forall|i: int| 0 <= i < a.len() implies (#[trigger] a[i]).arrival <= c[i].arrival
            && a[i].departure <= c[i].departure by {
            assert(a[i].arrival <= b[i].arrival && b[i].arrival <= c[i].arrival);
        }
    } else {
        assert(no_later(a, a));
    }
}

/// No overtaking: where within a pattern one trip stands before another and
/// leaves some stop no later, it reaches every later stop no later.
pub proof fn lemma_no_overtaking(
    s: Seq<Trip>,
    ps: Seq<Pattern>,
    p: int,
    t1: int,
    t2: int,
    i: int,
    j: int,
)
    requires
        all_valid(s),
        patterns_of(s, ps),
        0 <= p < ps.len(),
        0 <= t1 < t2 < ps[p].trips@.len(),
        0 <= i < j < ps[p].stops@.len(),
    ensures
        s[trip_at(ps, p, t1)].times@.len() == ps[p].stops@.len(),
        s[trip_at(ps, p, t2)].times@.len() == ps[p].stops@.len(),
        s[trip_at(ps, p, t1)].times@[i].departure <= s[trip_at(ps, p, t2)].times@[i].departure
            ==> s[trip_at(ps, p, t1)].times@[j].arrival <= s[trip_at(ps, p, t2)].times@[j].arrival,
{
    assert(pattern_ok(s, ps[p]));
    lemma_pattern_in_step(s, ps[p], t1, t2);
    let x1 = ps[p].trips@[t1];
    let x2 = ps[p].trips@[t2];
    assert(s[x1 as int].valid() && s[x2 as int].valid());
    let a = s[x1 as int].times@;
    assert(a[j].arrival <= s[x2 as int].times@[j].arrival);
}

/// Pattern uniqueness: no two patterns have both the same stops and the
/// same lane.
pub proof fn lemma_pattern_keys_unique(s: Seq<Trip>, ps: Seq<Pattern>, p: int, q: int)
    requires
        patterns_of(s, ps),
        0 <= p < ps.len(),
        0 <= q < ps.len(),
        p != q,
    ensures
        !(ps[p].stops@ == ps[q].stops@ && ps[p].lane == ps[q].lane),
{
    let (lo, hi) = if p < q {
        (p, q)
    } else {
        (q, p)
    };
    if ps[p].stops@ == ps[q].stops@ {
        let stops = ps[p].stops@;
        assert(ps[lo].lane == lanes_before(ps, stops, lo));
        assert(ps[hi].lane == lanes_before(ps, stops, hi));
        lemma_lanes_before_grows(ps, stops, lo + 1, hi);
        assert(lanes_before(ps, stops, lo + 1) == lanes_before(ps, stops, lo) + 1);
    }
}

} // verus!
