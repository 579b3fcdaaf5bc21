//! Answers a routing query from a compiled timetable.

use crate::api::{ItineraryView, LatLng, ResponseStatus, SolariItinerary, SolariResponse};
use crate::geo::{stops_within, within_walk};
use crate::itinerary::{
    itinerary, itinerary_of, lemma_itinerary_contiguous, lemma_itinerary_rides, MAX_DAY_START,
};
use crate::journey::{ride_count, trace, Journey};
use crate::raptor::{
    labels_true, lemma_search_labels, lemma_unreached_without_access, search, Foot, Label, Search,
    UNREACHED,
};
use crate::timetable::{Calendar, Timetable};
use vstd::prelude::*;

verus! {

/// The seconds of a day.
pub const SECONDS_PER_DAY: i64 = 86_400;

/// Where a moment lies relative to the days of a calendar.
#[derive(Debug, Clone, Copy, PartialEq, Eq, Structural)]
pub enum Moment {
    /// Before the first day.
    Early,
    /// After the last day.
    Late,
    /// On day `day` of the calendar, `second` seconds after its midnight.
    Within { day: u16, second: u32 },
}

/// The first second of the calendar, in seconds since the Unix epoch.
pub open spec fn window_start(cal: Calendar) -> int {
    cal.start_day * SECONDS_PER_DAY
}

/// The first second after the calendar, in seconds since the Unix epoch.
pub open spec fn window_end(cal: Calendar) -> int {
    (cal.start_day + cal.num_days) * SECONDS_PER_DAY
}

/// Where the moment `time`, in seconds since the Unix epoch, lies relative
/// to the days of the calendar.
pub open spec fn moment_of(cal: Calendar, time: u32) -> Moment {
    if time < window_start(cal) {
        Moment::Early
    } else if time >= window_end(cal) {
        Moment::Late
    } else {
        Moment::Within {
            day: ((time - window_start(cal)) / SECONDS_PER_DAY as int) as u16,
            second: ((time - window_start(cal)) % SECONDS_PER_DAY as int) as u32,
        }
    }
}

/// Finds the day of the calendar on which `time` lies, and the second of
/// that day. `time` is in seconds since the Unix epoch.
pub fn locate(cal: &Calendar, time: u32) -> (r: Moment)
    ensures
        r == moment_of(*cal, time),
        r matches Moment::Within { day, second } ==> day < cal.num_days && second < SECONDS_PER_DAY
            && window_start(*cal) + day * SECONDS_PER_DAY + second == time,
{
    let first: i64 = cal.start_day as i64 * SECONDS_PER_DAY;
    let end: i64 = first + cal.num_days as i64 * SECONDS_PER_DAY;
    let at: i64 = time as i64;
    if at < first {
        Moment::Early
    } else if at >= end {
        Moment::Late
    } else {
        let into: i64 = at - first;
        let day: i64 = into / SECONDS_PER_DAY;
        let second: i64 = into % SECONDS_PER_DAY;
        assert(into == day * SECONDS_PER_DAY + second) by (nonlinear_arith)
            requires
                day == into / SECONDS_PER_DAY,
                second == into % SECONDS_PER_DAY,
        ;
        assert(day < cal.num_days) by (nonlinear_arith)
            requires
                0 <= into < cal.num_days * SECONDS_PER_DAY,
                day == into / SECONDS_PER_DAY,
        ;
        Moment::Within { day: day as u16, second: second as u32 }
    }
}

/// `chosen` holds candidates of `cands`, each taken from its own place:
/// `chosen[i]` is `cands[places[i]]`, and no place is used twice.
pub open spec fn picked(cands: Seq<Foot>, chosen: Seq<Foot>, places: Seq<int>) -> bool {
    &&& places.len() == chosen.len()
    &&& forall|i: int|
        0 <= i < chosen.len() ==> 0 <= (#[trigger] places[i]) < cands.len() && chosen[i]
            == cands[places[i]]
    &&& forall|i: int, j: int|
        0 <= i < j < chosen.len() ==> (#[trigger] places[i]) != (#[trigger] places[j])
}

/// `chosen` is sorted by the length of the walk, every candidate among the
/// first `upto` that was not picked walks no shorter than each that was, and
/// none was left out while fewer than `limit` were picked.
pub open spec fn nearest_upto(
    cands: Seq<Foot>,
    chosen: Seq<Foot>,
    places: Seq<int>,
    upto: int,
    limit: int,
) -> bool {
    &&& picked(cands, chosen, places)
    &&& chosen.len() < limit ==> forall|k: int| 0 <= k < upto ==> #[trigger] places.contains(k)
    &&& forall|i: int| 0 <= i < places.len() ==> (#[trigger] places[i]) < upto
    &&& forall|i: int, j: int|
        0 <= i < j < chosen.len() ==> (#[trigger] chosen[i]).seconds <= (#[trigger] chosen[j]).seconds
    &&& forall|j: int, i: int|
        0 <= j < upto && !places.contains(j) && 0 <= i < chosen.len() ==> (#[trigger] chosen[i]).seconds
            <= (#[trigger] cands[j]).seconds
}

/// `chosen` holds the `limit` candidates with the shortest walks, or all
/// candidates where there are no more than `limit`, shortest walk first.
pub open spec fn nearest_of(cands: Seq<Foot>, chosen: Seq<Foot>, limit: int) -> bool {
    &&& chosen.len() == if cands.len() < limit {
        cands.len() as int
    } else {
        limit
    }
    &&& exists|places: Seq<int>| nearest_upto(cands, chosen, places, cands.len() as int, limit)
}

/// Keeps the `limit` candidates with the shortest walks, shortest first.
/// Of two candidates with equally long walks the one that stands first in
/// `cands` comes first.
#[verifier::rlimit(50)]
pub fn keep_nearest(cands: &Vec<Foot>, limit: usize) -> (chosen: Vec<Foot>)
    ensures
        nearest_of(cands@, chosen@, limit as int),
{
    let mut chosen: Vec<Foot> = Vec::new();
    let ghost mut places: Seq<int> = Seq::empty();
    let mut j: usize = 0;
    while j < cands.len()
        invariant
            j <= cands@.len(),
            chosen@.len() == if j < limit {
                j as int
            } else {
                limit as int
            },
            nearest_upto(cands@, chosen@, places, j as int, limit as int),
        decreases cands@.len() - j,
    {
        let c = cands[j];
        let mut pos: usize = chosen.len();
        while pos > 0 && chosen[pos - 1].seconds > c.seconds
            invariant
                pos <= chosen@.len(),
                forall|i: int| pos <= i < chosen@.len() ==> c.seconds < (#[trigger] chosen@[i]).seconds,
            decreases pos,
        {
            pos -= 1;
        }
        let ghost old_chosen = chosen@;
        let ghost old_places = places;
        if pos < limit {
            chosen.insert(pos, c);
            proof {
                places = places.insert(pos as int, j as int);
                lemma_nearest_insert(
                    cands@,
                    old_chosen,
                    old_places,
                    j as int,
                    pos as int,
                    limit as int,
                );
            }
            if chosen.len() > limit {
                let ghost full = chosen@;
                let ghost full_places = places;
                chosen.pop();
                proof {
                    places = places.drop_last();
                    lemma_nearest_drop(cands@, full, full_places, j + 1, limit as int);
                }
            }
        } else {
            proof {
                lemma_nearest_skip(cands@, old_chosen, old_places, j as int, limit as int);
            }
        }
        j += 1;
    }
    chosen
}

/// A candidate that walks no shorter than each one picked may be passed
/// over.
pub proof fn lemma_nearest_skip(
    cands: Seq<Foot>,
    chosen: Seq<Foot>,
    places: Seq<int>,
    j: int,
    limit: int,
)
    requires
        0 <= j < cands.len(),
        chosen.len() >= limit,
        nearest_upto(cands, chosen, places, j, limit),
        forall|i: int| 0 <= i < chosen.len() ==> (#[trigger] chosen[i]).seconds <= cands[j].seconds,
    ensures
        nearest_upto(cands, chosen, places, j + 1, limit),
{
    assert forall|k: int, i: int|
        0 <= k < j + 1 && !places.contains(k) && 0 <= i < chosen.len() implies (
    #[trigger] chosen[i]).seconds <= (#[trigger] cands[k]).seconds by {
        if k < j {
            assert(chosen[i].seconds <= cands[k].seconds);
        }
    }
}

/// Candidate `j` may be put at place `pos` of the picked ones where those
/// before `pos` walk no longer and those from `pos` on walk longer.
#[verifier::rlimit(50)]
pub proof fn lemma_nearest_insert(
    cands: Seq<Foot>,
    chosen: Seq<Foot>,
    places: Seq<int>,
    j: int,
    pos: int,
    limit: int,
)
    requires
        0 <= j < cands.len(),
        0 <= pos <= chosen.len(),
        pos < limit,
        nearest_upto(cands, chosen, places, j, limit),
        forall|i: int| pos <= i < chosen.len() ==> cands[j].seconds < (#[trigger] chosen[i]).seconds,
        pos > 0 ==> chosen[pos - 1].seconds <= cands[j].seconds,
    ensures
        nearest_upto(cands, chosen.insert(pos, cands[j]), places.insert(pos, j), j + 1, limit),
{
    let picks = chosen.insert(pos, cands[j]);
    let moved = places.insert(pos, j);
    assert(moved[pos] == j);
    assert forall|k: int| 0 <= k < j && places.contains(k) implies moved.contains(k) by {
        let w = choose|w: int| 0 <= w < places.len() && places[w] == k;
        if w < pos {
            assert(moved[w] == k);
        } else {
            assert(moved[w + 1] == k);
        }
    }
    if picks.len() < limit {
        assert forall|k: int| 0 <= k < j + 1 implies #[trigger] moved.contains(k) by {
            if k < j {
                assert(places.contains(k));
            }
        }
    }
    assert forall|i: int| 0 <= i < picks.len() implies 0 <= (#[trigger] moved[i]) < cands.len() && picks[i]
        == cands[moved[i]] && moved[i] < j + 1 by {
        if i < pos {
            assert(moved[i] == places[i]);
        } else if i > pos {
            assert(moved[i] == places[i - 1]);
        }
    }
    assert forall|i: int, k: int| 0 <= i < k < picks.len() implies (#[trigger] moved[i]) != (
    #[trigger] moved[k]) && picks[i].seconds <= picks[k].seconds by {
        let oi = if i < pos {
            i
        } else {
            i - 1
        };
        let ok = if k < pos {
            k
        } else {
            k - 1
        };
        if i != pos {
            assert(moved[i] == places[oi] && picks[i] == chosen[oi]);
        }
        if k != pos {
            assert(moved[k] == places[ok] && picks[k] == chosen[ok]);
        }
        if i != pos && k != pos {
            assert(places[oi] != places[ok]);
            assert(chosen[oi].seconds <= chosen[ok].seconds);
        } else if k == pos {
            if pos > 0 {
                assert(chosen[oi].seconds <= chosen[pos - 1].seconds || oi == pos - 1);
            }
        }
    }
    assert forall|k: int, i: int|
        0 <= k < j + 1 && !moved.contains(k) && 0 <= i < picks.len() implies (#[trigger] picks[i]).seconds <= (
    #[trigger] cands[k]).seconds by {
        assert(k != j);
        assert(!places.contains(k));
        if i < pos {
            assert(picks[i] == chosen[i]);
            assert(chosen[i].seconds <= cands[k].seconds);
        } else if i > pos {
            assert(picks[i] == chosen[i - 1]);
            assert(chosen[i - 1].seconds <= cands[k].seconds);
        } else {
            if pos < chosen.len() {
                assert(chosen[pos].seconds <= cands[k].seconds);
            } else {
                assert(chosen.len() < limit);
                assert(places.contains(k));
            }
        }
    }
}

/// The picked candidate with the longest walk may be let go.
pub proof fn lemma_nearest_drop(
    cands: Seq<Foot>,
    chosen: Seq<Foot>,
    places: Seq<int>,
    upto: int,
    limit: int,
)
    requires
        chosen.len() > 0,
        chosen.len() > limit,
        nearest_upto(cands, chosen, places, upto, limit),
    ensures
        nearest_upto(cands, chosen.drop_last(), places.drop_last(), upto, limit),
{
    let picks = chosen.drop_last();
    let moved = places.drop_last();
    let last = chosen.len() - 1;
    assert forall|k: int, i: int|
        0 <= k < upto && !moved.contains(k) && 0 <= i < picks.len() implies (#[trigger] picks[i]).seconds <= (
    #[trigger] cands[k]).seconds by {
        assert(picks[i] == chosen[i]);
        if places.contains(k) {
            let w = choose|w: int| 0 <= w < places.len() && places[w] == k;
            if w < last {
                assert(moved[w] == k);
            }
            assert(chosen[i].seconds <= chosen[last].seconds);
        } else {
            assert(chosen[i].seconds <= cands[k].seconds);
        }
    }
    assert forall|i: int| 0 <= i < picks.len() implies 0 <= (#[trigger] moved[i]) < cands.len() && picks[i]
        == cands[moved[i]] && moved[i] < upto by {
        assert(moved[i] == places[i]);
    }
    assert forall|i: int, k: int| 0 <= i < k < picks.len() implies (#[trigger] moved[i]) != (
    #[trigger] moved[k]) && picks[i].seconds <= picks[k].seconds by {
        assert(moved[i] == places[i] && moved[k] == places[k]);
        assert(picks[i] == chosen[i] && picks[k] == chosen[k]);
    }
}

/// An arrival at the destination: the walk from stop `stop`, reached in
/// round `round`, ends `total` seconds after the midnight of the service
/// day.
#[derive(Debug, Clone, Copy, PartialEq, Eq, Structural)]
pub struct Arrival {
    pub round: usize,
    pub stop: u32,
    pub egress_seconds: u32,
    pub total: u64,
}

/// The walk `e` to the destination starts at a stop that `labels` reached.
pub open spec fn lands(labels: Seq<Label>, egress: Seq<Foot>, e: int) -> bool {
    &&& 0 <= e < egress.len()
    &&& egress[e].stop < labels.len()
    &&& labels[egress[e].stop as int].time < UNREACHED
}

/// When the walk `e` to the destination ends.
pub open spec fn landing(labels: Seq<Label>, egress: Seq<Foot>, e: int) -> int {
    labels[egress[e].stop as int].time + egress[e].seconds
}

/// The walk to the destination that ends first, among those that start at
/// a stop that `labels` reached, and the time at which it ends. Of two that
/// end together the one that stands first in `egress` is taken.
pub fn best_egress(labels: &Vec<Label>, egress: &Vec<Foot>) -> (r: Option<(usize, u64)>)
    ensures
        r matches Some((e, total)) ==> lands(labels@, egress@, e as int) && total == landing(
            labels@,
            egress@,
            e as int,
        ),
        forall|x: int|
            #[trigger] lands(labels@, egress@, x) ==> (r matches Some((e, total)) && total
                <= landing(labels@, egress@, x)),
{
    let mut found: Option<(usize, u64)> = None;
    let mut e: usize = 0;
    while e < egress.len()
        invariant
            e <= egress@.len(),
            found matches Some((f, total)) ==> lands(labels@, egress@, f as int) && total
                == landing(labels@, egress@, f as int),
            forall|x: int|
                0 <= x < e && #[trigger] lands(labels@, egress@, x) ==> (found matches Some(
                    (f, total),
                ) && total <= landing(labels@, egress@, x)),
        decreases egress@.len() - e,
    {
        let foot = egress[e];
        if (foot.stop as usize) < labels.len() && labels[foot.stop as usize].time < UNREACHED {
            let total: u64 = labels[foot.stop as usize].time as u64 + foot.seconds as u64;
            let better = match found {
                Some((_, least)) => total < least,
                None => true,
            };
            if better {
                found = Some((e, total));
            }
        }
        e += 1;
    }
    found
}

/// The arrival is what the labels and the walks to the destination give.
pub open spec fn arrival_true(reached: Seq<Vec<Label>>, egress: Seq<Foot>, a: Arrival) -> bool {
    &&& 1 <= a.round < reached.len()
    &&& exists|e: int|
        #[trigger] lands(reached[a.round as int]@, egress, e) && egress[e] == (Foot {
            stop: a.stop,
            seconds: a.egress_seconds,
        }) && a.total == landing(reached[a.round as int]@, egress, e)
}

/// Each arrival of the front is a true arrival of a round before `rounds`.
pub open spec fn front_true(
    reached: Seq<Vec<Label>>,
    egress: Seq<Foot>,
    front: Seq<Arrival>,
    rounds: int,
) -> bool {
    forall|i: int|
        0 <= i < front.len() ==> arrival_true(reached, egress, #[trigger] front[i]) && front[i].round
            < rounds
}

/// The front stands earliest first, and a later arrival takes fewer rides.
pub open spec fn front_ordered(front: Seq<Arrival>) -> bool {
    forall|i: int, j: int|
        0 <= i < j < front.len() ==> (#[trigger] front[i]).total < (#[trigger] front[j]).total
            && front[i].round > front[j].round
}

/// Whatever way there is to reach the destination in a round from 1 to
/// before `rounds`, an arrival of the front is no later and takes no more
/// rides, and the first of the front is no later.
pub open spec fn front_covers(
    reached: Seq<Vec<Label>>,
    egress: Seq<Foot>,
    front: Seq<Arrival>,
    rounds: int,
) -> bool {
    forall|k: int, e: int|
        1 <= k < rounds && #[trigger] lands(reached[k]@, egress, e) ==> front.len() > 0
            && front[0].total <= landing(reached[k]@, egress, e) && exists|i: int|
            0 <= i < front.len() && (#[trigger] front[i]).round <= k && front[i].total <= landing(
                reached[k]@,
                egress,
                e,
            )
}

/// The arrivals worth offering, earliest first: each is a true arrival, a
/// later one takes fewer rides, and whatever way there is to reach the
/// destination after at least one ride, one of them is no later and takes
/// no more rides.
pub open spec fn front_of(
    reached: Seq<Vec<Label>>,
    egress: Seq<Foot>,
    front: Seq<Arrival>,
    rounds: int,
) -> bool {
    &&& front_true(reached, egress, front, rounds)
    &&& front_ordered(front)
    &&& front_covers(reached, egress, front, rounds)
}

/// Picks, among the ways to reach the destination after at least one ride,
/// those that no other way beats both in time and in the number of rides.
#[verifier::rlimit(50)]
pub fn pareto_front(reached: &Vec<Vec<Label>>, egress: &Vec<Foot>) -> (front: Vec<Arrival>)
    ensures
        front_of(reached@, egress@, front@, reached@.len() as int),
{
    let mut front: Vec<Arrival> = Vec::new();
    let mut k: usize = 1;
    while k < reached.len()
        invariant
            1 <= k,
            k <= reached@.len() || reached@.len() == 0,
            front_of(reached@, egress@, front@, k as int),
        decreases reached@.len() - k,
    {
        let ghost old_front = front@;
        match best_egress(&reached[k], egress) {
            Some((e, total)) => {
                if front.len() == 0 || total < front[0].total {
                    let arrival = Arrival {
                        round: k,
                        stop: egress[e].stop,
                        egress_seconds: egress[e].seconds,
                        total,
                    };
                    front.insert(0, arrival);
                    proof {
                        lemma_front_grows(reached@, egress@, old_front, arrival, k as int);
                    }
                } else {
                    proof {
                        lemma_front_stays(reached@, egress@, old_front, k as int);
                    }
                }
            },
            None => {
                proof {
                    lemma_front_stays(reached@, egress@, old_front, k as int);
                }
            },
        }
        k += 1;
    }
    front
}

/// A round whose every arrival is no earlier than the earliest one known
/// adds nothing to the front.
pub proof fn lemma_front_stays(
    reached: Seq<Vec<Label>>,
    egress: Seq<Foot>,
    front: Seq<Arrival>,
    k: int,
)
    requires
        1 <= k < reached.len(),
        front_of(reached, egress, front, k),
        forall|e: int|
            #[trigger] lands(reached[k]@, egress, e) ==> front.len() > 0 && front[0].total
                <= landing(reached[k]@, egress, e),
    ensures
        front_of(reached, egress, front, k + 1),
{
    assert forall|r: int, e: int|
        1 <= r < k + 1 && #[trigger] lands(reached[r]@, egress, e) implies front.len() > 0
        && front[0].total <= landing(reached[r]@, egress, e) && exists|i: int|
        0 <= i < front.len() && (#[trigger] front[i]).round <= r && front[i].total <= landing(
            reached[r]@,
            egress,
            e,
        ) by {
        if r == k {
            assert(arrival_true(reached, egress, front[0]));
            assert(front[0].round <= r);
        }
    }
}

/// An arrival that is earlier and takes more rides than each of the front
/// can stand first in it.
pub proof fn lemma_front_ordered_grows(front: Seq<Arrival>, a: Arrival)
    requires
        front_ordered(front),
        front.len() > 0 ==> a.total < front[0].total,
        forall|i: int| 0 <= i < front.len() ==> (#[trigger] front[i]).round < a.round,
    ensures
        front_ordered(front.insert(0, a)),
{
    let f2 = front.insert(0, a);
    assert forall|i: int, j: int| 0 <= i < j < f2.len() implies (#[trigger] f2[i]).total < (
    #[trigger] f2[j]).total && f2[i].round > f2[j].round by {
        assert(f2[j] == front[j - 1]);
        if i > 0 {
            assert(f2[i] == front[i - 1]);
        } else {
            assert(f2[i] == a);
            if j > 1 {
                assert(front[0].total < front[j - 1].total);
            }
        }
    }
}

/// The earliest arrival of round `k` put first keeps the front covering.
#[verifier::rlimit(50)]
pub proof fn lemma_front_covers_grows(
    reached: Seq<Vec<Label>>,
    egress: Seq<Foot>,
    front: Seq<Arrival>,
    a: Arrival,
    k: int,
)
    requires
        1 <= k < reached.len(),
        front_covers(reached, egress, front, k),
        a.round == k,
        front.len() > 0 ==> a.total < front[0].total,
        forall|e: int|
            #[trigger] lands(reached[k]@, egress, e) ==> a.total <= landing(reached[k]@, egress, e),
    ensures
        front_covers(reached, egress, front.insert(0, a), k + 1),
{
    let f2 = front.insert(0, a);
    assert(f2[0] == a);
    assert forall|r: int, e: int|
        1 <= r < k + 1 && #[trigger] lands(reached[r]@, egress, e) implies f2.len() > 0
        && f2[0].total <= landing(reached[r]@, egress, e) && exists|i: int|
        0 <= i < f2.len() && (#[trigger] f2[i]).round <= r && f2[i].total <= landing(
            reached[r]@,
            egress,
            e,
        ) by {
        if r == k {
            assert(f2[0].round <= r);
        } else {
            let i = choose|i: int|
                0 <= i < front.len() && (#[trigger] front[i]).round <= r && front[i].total
                    <= landing(reached[r]@, egress, e);
            assert(f2[i + 1] == front[i]);
            assert(f2[i + 1].round <= r);
        }
    }
}

/// A true arrival of round `k` put first keeps the arrivals of the front
/// true.
pub proof fn lemma_front_true_grows(
    reached: Seq<Vec<Label>>,
    egress: Seq<Foot>,
    front: Seq<Arrival>,
    a: Arrival,
    k: int,
)
    requires
        front_true(reached, egress, front, k),
        a.round == k,
        arrival_true(reached, egress, a),
    ensures
        front_true(reached, egress, front.insert(0, a), k + 1),
{
    let f2 = front.insert(0, a);
    assert forall|i: int| 0 <= i < f2.len() implies arrival_true(reached, egress, #[trigger] f2[i])
        && f2[i].round < k + 1 by {
        if i > 0 {
            assert(f2[i] == front[i - 1]);
        }
    }
}

/// The earliest arrival of a round that betters the earliest one known
/// joins the front as its first.
#[verifier::rlimit(50)]
pub proof fn lemma_front_grows(
    reached: Seq<Vec<Label>>,
    egress: Seq<Foot>,
    front: Seq<Arrival>,
    a: Arrival,
    k: int,
)
    requires
        1 <= k < reached.len(),
        front_of(reached, egress, front, k),
        a.round == k,
        arrival_true(reached, egress, a),
        front.len() > 0 ==> a.total < front[0].total,
        forall|e: int|
            #[trigger] lands(reached[k]@, egress, e) ==> a.total <= landing(reached[k]@, egress, e),
    ensures
        front_of(reached, egress, front.insert(0, a), k + 1),
{
    assert forall|i: int| 0 <= i < front.len() implies (#[trigger] front[i]).round < a.round by {
        assert(arrival_true(reached, egress, front[i]) && front[i].round < k);
    }
    lemma_front_ordered_grows(front, a);
    lemma_front_covers_grows(reached, egress, front, a, k);
    lemma_front_true_grows(reached, egress, front, a, k);
}

/// How many itineraries a query returns at most where it sets no limit.
pub const DEFAULT_MAX_ITINERARIES: u32 = 1000;

/// How many stops near the origin a query considers where it sets no limit.
pub const DEFAULT_MAX_ACCESS_STOPS: u32 = 6;

/// How many stops near the destination a query considers where it sets no
/// limit.
pub const DEFAULT_MAX_EGRESS_STOPS: u32 = 4;

/// How many vehicles a journey rides at most where the query sets no limit.
pub const DEFAULT_MAX_ROUNDS: u32 = 4;

/// How far, in metres, a traveller walks to or from a stop where the query
/// sets no limit.
pub const DEFAULT_MAX_WALK_METERS: u32 = 1500;

/// A moment in seconds since the Unix epoch.
#[derive(Debug, Clone, Copy, PartialEq, Eq, Structural)]
pub struct Time {
    pub epoch_seconds: u32,
}

impl Time {
    /// The moment that lies so many seconds after the Unix epoch.
    pub fn from_epoch_seconds(seconds: u32) -> (t: Time)
        ensures
            t.epoch_seconds == seconds,
    {
        Time { epoch_seconds: seconds }
    }

    /// The seconds from the Unix epoch to the moment.
    pub fn epoch_seconds(&self) -> (seconds: u32)
        ensures
            seconds == self.epoch_seconds,
    {
        self.epoch_seconds
    }
}

/// A routing query: when to start, from where to where, the longest walk
/// to or from a stop in metres, and the bounds of the search.
#[derive(Debug, Clone)]
pub struct Query {
    pub start_time: Time,
    pub from: LatLng,
    pub to: LatLng,
    pub max_walk_m: Option<u32>,
    pub max_itineraries: Option<u32>,
    pub max_access_stops: Option<u32>,
    pub max_egress_stops: Option<u32>,
    pub max_rounds: Option<u32>,
}

/// The bound that a query sets, or the default.
pub open spec fn bound_or(given: Option<u32>, default: u32) -> u32 {
    match given {
        Some(b) => b,
        None => default,
    }
}

/// Computes [`bound_or`].
pub fn bound(given: Option<u32>, default: u32) -> (r: u32)
    ensures
        r == bound_or(given, default),
{
    match given {
        Some(b) => b,
        None => default,
    }
}

/// The midnight that starts day `day` of the calendar, in seconds since the
/// Unix epoch.
pub open spec fn day_start(cal: Calendar, day: u16) -> int {
    window_start(cal) + day * SECONDS_PER_DAY
}

/// The itinerary is that of a journey that can be travelled on day `day`
/// from `second` on: it starts with one of the walks of `access`, rides at
/// least one vehicle and no more than the query allows, and ends with one of
/// the walks of `egress`.
pub open spec fn offered(
    tt: &Timetable,
    q: &Query,
    access: Seq<Foot>,
    egress: Seq<Foot>,
    day: u16,
    second: u32,
    it: ItineraryView,
) -> bool {
    exists|j: Journey, e: int|
        #![trigger j.valid(tt, day, second, access), egress[e]]
        {
            &&& j.valid(tt, day, second, access)
            &&& 0 <= e < egress.len()
            &&& egress[e].stop == j.last_stop()
            &&& 1 <= ride_count(j.hops@) <= bound_or(q.max_rounds, DEFAULT_MAX_ROUNDS)
            &&& it == itinerary_of(
                tt,
                day_start(tt.calendar, day),
                second,
                q.from@,
                q.to@,
                j,
                egress[e].seconds,
            )
        }
}

/// What holds of the itineraries of an answer within the calendar.
pub open spec fn answers(
    tt: &Timetable,
    q: &Query,
    access: Seq<Foot>,
    egress: Seq<Foot>,
    day: u16,
    second: u32,
    its: Seq<SolariItinerary>,
) -> bool {
    &&& its.len() <= bound_or(q.max_itineraries, DEFAULT_MAX_ITINERARIES)
    &&& forall|i: int|
        0 <= i < its.len() ==> {
            &&& offered(tt, q, access, egress, day, second, (#[trigger] its[i])@)
            &&& its[i]@.contiguous()
            &&& 1 <= its[i]@.transit_legs() <= bound_or(q.max_rounds, DEFAULT_MAX_ROUNDS)
            &&& its[i]@.start_time == q.start_time.epoch_seconds * 1000
        }
    &&& forall|i: int, k: int|
        0 <= i < k < its.len() ==> (#[trigger] its[i])@.end_time < (#[trigger] its[k])@.end_time
            && its[i]@.transit_legs() > its[k]@.transit_legs()
}

/// The itinerary is written of the journey that the labels hold for an
/// arrival: the journey can be travelled from the stops `near`, ends at
/// the stop of the arrival in time for its walk to the destination, and
/// rides as many vehicles as the round of the arrival says.
pub open spec fn written_for(
    tt: &Timetable,
    q: &Query,
    day: u16,
    second: u32,
    near: Seq<Foot>,
    a: Arrival,
    it: ItineraryView,
) -> bool {
    exists|j: Journey|
        {
            &&& #[trigger] j.valid(tt, day, second, near)
            &&& j.last_stop() == a.stop
            &&& j.arrival(second) + a.egress_seconds == a.total
            &&& ride_count(j.hops@) == a.round
            &&& it == itinerary_of(
                tt,
                day_start(tt.calendar, day),
                second,
                q.from@,
                q.to@,
                j,
                a.egress_seconds,
            )
        }
}

/// How the itineraries of an answer come about: the nearest stops of
/// `access` and of `egress` are kept, the search runs from the former, the
/// arrivals that nothing beats are picked from its labels, and the
/// itineraries are written of the earliest of them, up to the limit of
/// the query.
pub open spec fn searched(
    tt: &Timetable,
    q: &Query,
    access: Seq<Foot>,
    egress: Seq<Foot>,
    day: u16,
    second: u32,
    near: Seq<Foot>,
    far: Seq<Foot>,
    found: Search,
    front: Seq<Arrival>,
    its: Seq<SolariItinerary>,
) -> bool {
    let rounds = bound_or(q.max_rounds, DEFAULT_MAX_ROUNDS);
    &&& nearest_of(access, near, bound_or(q.max_access_stops, DEFAULT_MAX_ACCESS_STOPS) as int)
    &&& nearest_of(egress, far, bound_or(q.max_egress_stops, DEFAULT_MAX_EGRESS_STOPS) as int)
    &&& found.wf(tt, day, second, near)
    &&& found.rounds() <= rounds
    &&& found.rounds() < rounds ==> forall|s: int|
        0 <= s < tt.stops@.len() ==> (#[trigger] found.reached@.last()@[s]).time == UNREACHED
    &&& front_of(found.reached@, far, front, found.reached@.len() as int)
    &&& its.len() == if front.len() < bound_or(q.max_itineraries, DEFAULT_MAX_ITINERARIES) {
        front.len() as int
    } else {
        bound_or(q.max_itineraries, DEFAULT_MAX_ITINERARIES) as int
    }
    &&& forall|i: int|
        0 <= i < its.len() ==> written_for(tt, q, day, second, near, front[i], (#[trigger] its[i])@)
}

/// A journey that starts with one of the walks picked from `access` starts
/// with a walk of `access`.
pub proof fn lemma_valid_wider(
    tt: &Timetable,
    day: u16,
    start: u32,
    near: Seq<Foot>,
    access: Seq<Foot>,
    j: Journey,
)
    requires
        j.valid(tt, day, start, near),
        forall|i: int| 0 <= i < near.len() ==> access.contains(#[trigger] near[i]),
    ensures
        j.valid(tt, day, start, access),
{
    let i = choose|i: int|
        0 <= i < near.len() && (#[trigger] near[i]) == (Foot {
            stop: j.first_stop,
            seconds: j.access_seconds,
        });
    assert(access.contains(near[i]));
    let k = choose|k: int| 0 <= k < access.len() && access[k] == near[i];
    assert(access[k] == Foot { stop: j.first_stop, seconds: j.access_seconds });
}

/// The candidates kept by [`nearest_of`] are candidates.
pub proof fn lemma_nearest_within(cands: Seq<Foot>, chosen: Seq<Foot>, limit: int)
    requires
        nearest_of(cands, chosen, limit),
    ensures
        forall|i: int| 0 <= i < chosen.len() ==> cands.contains(#[trigger] chosen[i]),
{
    let places = choose|places: Seq<int>|
        nearest_upto(cands, chosen, places, cands.len() as int, limit);
    assert forall|i: int| 0 <= i < chosen.len() implies cands.contains(#[trigger] chosen[i]) by {
        assert(chosen[i] == cands[places[i]]);
    }
}

/// Writes the itineraries of the first `count` arrivals of the front.
#[verifier::rlimit(50)]
fn write_itineraries(
    tt: &Timetable,
    q: &Query,
    found: &Search,
    day: u16,
    second: u32,
    near: &Vec<Foot>,
    far: &Vec<Foot>,
    front: &Vec<Arrival>,
    access: &Vec<Foot>,
    egress: &Vec<Foot>,
) -> (its: Vec<SolariItinerary>)
    requires
        tt.wf(),
        moment_of(tt.calendar, q.start_time.epoch_seconds) == (Moment::Within { day, second }),
        labels_true(tt, day, second, near@, found.rode@, found.reached@),
        found.reached@.len() - 1 <= bound_or(q.max_rounds, DEFAULT_MAX_ROUNDS),
        front_true(found.reached@, far@, front@, found.reached@.len() as int),
        front_ordered(front@),
        front@.len() <= bound_or(q.max_itineraries, DEFAULT_MAX_ITINERARIES),
        forall|i: int| 0 <= i < near@.len() ==> access@.contains(#[trigger] near@[i]),
        forall|i: int| 0 <= i < far@.len() ==> egress@.contains(#[trigger] far@[i]),
    ensures
        its@.len() == front@.len(),
        answers(tt, q, access@, egress@, day, second, its@),
        forall|i: int|
            0 <= i < its@.len() ==> written_for(
                tt,
                q,
                day,
                second,
                near@,
                front@[i],
                (#[trigger] its@[i])@,
            ),
{
    let cal = tt.calendar;
    let base: i64 = cal.start_day as i64 * SECONDS_PER_DAY + day as i64 * SECONDS_PER_DAY;
    let mut its: Vec<SolariItinerary> = Vec::new();
    let mut i: usize = 0;
    while i < front.len()
        invariant
            tt.wf(),
            cal == tt.calendar,
            base == day_start(cal, day),
            -MAX_DAY_START <= base <= MAX_DAY_START,
            moment_of(cal, q.start_time.epoch_seconds) == (Moment::Within { day, second }),
            labels_true(tt, day, second, near@, found.rode@, found.reached@),
            found.reached@.len() - 1 <= bound_or(q.max_rounds, DEFAULT_MAX_ROUNDS),
            front_true(found.reached@, far@, front@, found.reached@.len() as int),
            front_ordered(front@),
            front@.len() <= bound_or(q.max_itineraries, DEFAULT_MAX_ITINERARIES),
            forall|x: int| 0 <= x < near@.len() ==> access@.contains(#[trigger] near@[x]),
            forall|x: int| 0 <= x < far@.len() ==> egress@.contains(#[trigger] far@[x]),
            i <= front@.len(),
            its@.len() == i,
            forall|x: int|
                0 <= x < i ==> {
                    &&& offered(tt, q, access@, egress@, day, second, (#[trigger] its@[x])@)
                    &&& its@[x]@.contiguous()
                    &&& its@[x]@.transit_legs() == front@[x].round
                    &&& its@[x]@.end_time == (base + front@[x].total) * 1000
                    &&& its@[x]@.start_time == q.start_time.epoch_seconds * 1000
                },
            forall|x: int|
                0 <= x < i ==> written_for(
                    tt,
                    q,
                    day,
                    second,
                    near@,
                    front@[x],
                    (#[trigger] its@[x])@,
                ),
        decreases front@.len() - i,
    {
        let a = front[i];
        proof {
            assert(arrival_true(found.reached@, far@, front@[i as int]));
            assert(found.reached@[a.round as int]@.len() == tt.stops@.len());
        }
        let j = trace(tt, found, day, second, near, a.round, a.stop as usize);
        let it = itinerary(tt, day, base, second, near, &q.from, &q.to, &j, a.egress_seconds);
        proof {
            let e = choose|e: int|
                #[trigger] lands(found.reached@[a.round as int]@, far@, e) && far@[e] == (Foot {
                    stop: a.stop,
                    seconds: a.egress_seconds,
                }) && a.total == landing(found.reached@[a.round as int]@, far@, e);
            assert(egress@.contains(far@[e]));
            let e2 = choose|e2: int| 0 <= e2 < egress@.len() && egress@[e2] == far@[e];
            lemma_valid_wider(tt, day, second, near@, access@, j);
            lemma_itinerary_rides(tt, base as int, second, q.from@, q.to@, j, a.egress_seconds);
            lemma_itinerary_contiguous(
                tt,
                day,
                base as int,
                second,
                near@,
                q.from@,
                q.to@,
                j,
                a.egress_seconds,
            );
            assert(j.valid(tt, day, second, access@) && egress@[e2].stop == j.last_stop());
            assert(offered(tt, q, access@, egress@, day, second, it@));
            assert(written_for(tt, q, day, second, near@, a, it@));
        }
        its.push(it);
        i += 1;
    }
    proof {
        assert forall|x: int, k: int| 0 <= x < k < its@.len() implies (#[trigger] its@[x])@.end_time
            < (#[trigger] its@[k])@.end_time && its@[x]@.transit_legs()
            > its@[k]@.transit_legs() by {
            assert(front@[x].total < front@[k].total && front@[x].round > front@[k].round);
        }
        assert forall|x: int| 0 <= x < its@.len() implies 1 <= (#[trigger] its@[x])@.transit_legs()
            <= bound_or(q.max_rounds, DEFAULT_MAX_ROUNDS) by {
            assert(arrival_true(found.reached@, far@, front@[x]));
        }
    }
    its
}

/// The itineraries of a query that starts on day `day` of the calendar,
/// `second` seconds after midnight.
#[verifier::rlimit(50)]
fn plan(
    tt: &Timetable,
    q: &Query,
    access: &Vec<Foot>,
    egress: &Vec<Foot>,
    day: u16,
    second: u32,
) -> (its: Vec<SolariItinerary>)
    requires
        tt.wf(),
        moment_of(tt.calendar, q.start_time.epoch_seconds) == (Moment::Within { day, second }),
    ensures
        answers(tt, q, access@, egress@, day, second, its@),
        exists|near: Seq<Foot>, far: Seq<Foot>, found: Search, front: Seq<Arrival>|
            #[trigger] searched(tt, q, access@, egress@, day, second, near, far, found, front, its@),
        (forall|j: int| 0 <= j < access@.len() ==> (#[trigger] access@[j]).stop >= tt.stops@.len())
            ==> its@.len() == 0,
        egress@.len() == 0 ==> its@.len() == 0,
{
    let near = keep_nearest(access, bound(q.max_access_stops, DEFAULT_MAX_ACCESS_STOPS) as usize);
    let far = keep_nearest(egress, bound(q.max_egress_stops, DEFAULT_MAX_EGRESS_STOPS) as usize);
    let rounds = bound(q.max_rounds, DEFAULT_MAX_ROUNDS) as usize;
    let found = search(tt, day, second, &near, rounds);
    proof {
        lemma_search_labels(&found, tt, day, second, near@);
    }
    let mut front = pareto_front(&found.reached, &far);
    let ghost whole = front@;
    front.truncate(bound(q.max_itineraries, DEFAULT_MAX_ITINERARIES) as usize);
    proof {
        lemma_nearest_within(
            access@,
            near@,
            bound_or(q.max_access_stops, DEFAULT_MAX_ACCESS_STOPS) as int,
        );
        lemma_nearest_within(
            egress@,
            far@,
            bound_or(q.max_egress_stops, DEFAULT_MAX_EGRESS_STOPS) as int,
        );
        assert forall|i: int| 0 <= i < front@.len() implies front@[i] == whole[i] by {}
        lemma_front_cut(found.reached@, far@, whole, front@);
        if forall|j: int| 0 <= j < access@.len() ==> (#[trigger] access@[j]).stop >= tt.stops@.len() {
            assert forall|j: int| 0 <= j < near@.len() implies (#[trigger] near@[j]).stop
                >= tt.stops@.len() by {
                assert(access@.contains(near@[j]));
            }
            lemma_unreached_without_access(tt, day, second, near@, found.rode@, found.reached@);
            lemma_front_of_nothing(tt, found.reached@, far@, whole);
        }
        if egress@.len() == 0 {
            if whole.len() > 0 {
                assert(arrival_true(found.reached@, far@, whole[0]));
            }
        }
    }
    let its = write_itineraries(tt, q, &found, day, second, &near, &far, &front, access, egress);
    proof {
        assert forall|i: int| 0 <= i < its@.len() implies written_for(
            tt,
            q,
            day,
            second,
            near@,
            whole[i],
            (#[trigger] its@[i])@,
        ) by {
            assert(front@[i] == whole[i]);
        }
        assert(searched(tt, q, access@, egress@, day, second, near@, far@, found, whole, its@));
    }
    its
}

/// The first arrivals of a front are true and ordered as the whole is.
pub proof fn lemma_front_cut(
    reached: Seq<Vec<Label>>,
    egress: Seq<Foot>,
    whole: Seq<Arrival>,
    cut: Seq<Arrival>,
)
    requires
        front_of(reached, egress, whole, reached.len() as int),
        cut.len() <= whole.len(),
        forall|i: int| 0 <= i < cut.len() ==> cut[i] == whole[i],
    ensures
        front_true(reached, egress, cut, reached.len() as int),
        front_ordered(cut),
{
    assert forall|i: int| 0 <= i < cut.len() implies arrival_true(reached, egress, #[trigger] cut[i])
        && cut[i].round < reached.len() by {
        assert(arrival_true(reached, egress, whole[i]));
    }
    assert forall|i: int, j: int| 0 <= i < j < cut.len() implies (#[trigger] cut[i]).total < (
    #[trigger] cut[j]).total && cut[i].round > cut[j].round by {
        assert(whole[i].total < whole[j].total && whole[i].round > whole[j].round);
    }
}

/// Where no stop has a label, no arrival is true.
pub proof fn lemma_front_of_nothing(
    tt: &Timetable,
    reached: Seq<Vec<Label>>,
    egress: Seq<Foot>,
    front: Seq<Arrival>,
)
    requires
        front_true(reached, egress, front, reached.len() as int),
        forall|k: int| 0 <= k < reached.len() ==> (#[trigger] reached[k])@.len() == tt.stops@.len(),
        forall|k: int, s: int|
            0 <= k < reached.len() && 0 <= s < tt.stops@.len() ==> (#[trigger] reached[k]@[s]).time
                == UNREACHED,
    ensures
        front.len() == 0,
{
    if front.len() > 0 {
        let a = front[0];
        assert(arrival_true(reached, egress, a));
        let e = choose|e: int|
            #[trigger] lands(reached[a.round as int]@, egress, e) && egress[e] == (Foot {
                stop: a.stop,
                seconds: a.egress_seconds,
            }) && a.total == landing(reached[a.round as int]@, egress, e);
        assert(reached[a.round as int]@[egress[e].stop as int].time == UNREACHED);
    }
}

/// What [`route`] answers to a query, given the stops near the origin and
/// near the destination.
///
/// A query that starts before the first day of the calendar is too early,
/// one that starts after the last day too late; neither has an itinerary.
/// Any other query is answered with the itineraries that [`searched`]
/// describes; they are as [`answers`] says, and there is none where no stop
/// of the table is near the origin or none near the destination. Without
/// an itinerary, no route was found.
pub open spec fn route_answer(
    tt: &Timetable,
    q: &Query,
    access: Seq<Foot>,
    egress: Seq<Foot>,
    r: SolariResponse,
) -> bool {
    match moment_of(tt.calendar, q.start_time.epoch_seconds) {
        Moment::Early => r.status == ResponseStatus::TooEarly && r.itineraries@.len() == 0,
        Moment::Late => r.status == ResponseStatus::TooLate && r.itineraries@.len() == 0,
        Moment::Within { day, second } => {
            &&& r.status == if r.itineraries@.len() > 0 {
                ResponseStatus::Success
            } else {
                ResponseStatus::NoRouteFound
            }
            &&& answers(tt, q, access, egress, day, second, r.itineraries@)
            &&& exists|near: Seq<Foot>, far: Seq<Foot>, found: Search, front: Seq<Arrival>|
                #[trigger] searched(
                    tt,
                    q,
                    access,
                    egress,
                    day,
                    second,
                    near,
                    far,
                    found,
                    front,
                    r.itineraries@,
                )
            &&& (forall|j: int| 0 <= j < access.len() ==> (#[trigger] access[j]).stop
                >= tt.stops@.len()) ==> r.itineraries@.len() == 0
            &&& egress.len() == 0 ==> r.itineraries@.len() == 0
        },
    }
}

/// Answers a routing query.
///
/// `access` lists the stops near the origin, each with the walk to it, and
/// `egress` the stops near the destination, each with the walk from it. A
/// query that starts before the first day of the calendar is too early, one
/// that starts after the last day too late. Otherwise the search runs on
/// the day of the query from the nearest stops of `access`, and the answer
/// holds one itinerary for each arrival that no other beats in time and in
/// the number of rides, earliest first, up to the limit of the query. Where
/// there is none, no route was found.
pub fn route(tt: &Timetable, q: &Query, access: &Vec<Foot>, egress: &Vec<Foot>) -> (r:
    SolariResponse)
    requires
        tt.wf(),
    ensures
        route_answer(tt, q, access@, egress@, r),
{
    match locate(&tt.calendar, q.start_time.epoch_seconds()) {
        Moment::Early => SolariResponse {
            status: ResponseStatus::TooEarly,
            itineraries: Vec::new(),
        },
        Moment::Late => SolariResponse { status: ResponseStatus::TooLate, itineraries: Vec::new() },
        Moment::Within { day, second } => {
            let itineraries = plan(tt, q, access, egress, day, second);
            let status = if itineraries.len() > 0 {
                ResponseStatus::Success
            } else {
                ResponseStatus::NoRouteFound
            };
            SolariResponse { status, itineraries }
        },
    }
}

/// Answers a routing query between two positions, walking to and from the
/// stops as the crow flies: the stops within the longest walk of the query
/// are near, each as far as [`stops_within`] measures.
pub fn route_between(tt: &Timetable, q: &Query) -> (r: SolariResponse)
    requires
        tt.wf(),
    ensures
        exists|access: Seq<Foot>, egress: Seq<Foot>|
            {
                &&& within_walk(tt, bound_or(q.max_walk_m, DEFAULT_MAX_WALK_METERS), access)
                &&& within_walk(tt, bound_or(q.max_walk_m, DEFAULT_MAX_WALK_METERS), egress)
                &&& #[trigger] route_answer(tt, q, access, egress, r)
            },
{
    let reach = bound(q.max_walk_m, DEFAULT_MAX_WALK_METERS);
    let access = stops_within(tt, q.from.lat, q.from.lon, reach);
    let egress = stops_within(tt, q.to.lat, q.to.lon, reach);
    let r = route(tt, q, &access, &egress);
    assert(route_answer(tt, q, access@, egress@, r));
    r
}

} // verus!
