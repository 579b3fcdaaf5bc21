//! Journeys read back from the labels of a finished search.

use crate::raptor::{
    has_transfer, labels_true, rode_to, stay, walked_in, walked_to, Foot, Label, Search, Step,
    UNREACHED,
};
use crate::timetable::{day_bit, lemma_times_ordered, Timetable};
use vstd::prelude::*;

verus! {

/// One step of a journey between two stops: a ride on the trip at place
/// `trip` of pattern `pattern`, or, where `ride` is false, a walk. Times are
/// seconds since the midnight that starts the service day.
#[derive(Debug, Clone, Copy, PartialEq, Eq, Structural)]
pub struct Hop {
    pub ride: bool,
    pub pattern: u32,
    pub trip: u32,
    pub from: u32,
    pub to: u32,
    pub depart: u32,
    pub arrive: u32,
}

/// A journey from the origin to a stop: the walk to the first stop, then
/// rides and walks from stop to stop.
#[derive(Debug, Clone)]
pub struct Journey {
    pub first_stop: u32,
    pub access_seconds: u32,
    pub hops: Vec<Hop>,
}

/// How many of the hops are rides.
pub open spec fn ride_count(hops: Seq<Hop>) -> nat
    decreases hops.len(),
{
    if hops.len() == 0 {
        0
    } else {
        ride_count(hops.drop_last()) + if hops.last().ride {
            1nat
        } else {
            0nat
        }
    }
}

/// The hop is in the timetable: a ride follows a trip that runs on `day`
/// from one of its stops to a later one, at the trip's times; a walk is a
/// stored transfer and takes as long as the table says.
pub open spec fn hop_true(tt: &Timetable, day: u16, h: Hop) -> bool {
    &&& h.from < tt.stops@.len()
    &&& h.to < tt.stops@.len()
    &&& h.depart <= h.arrive
    &&& h.ride ==> exists|b: int, a: int|
        #![trigger tt.stop_at(h.pattern as int, b), tt.stop_at(h.pattern as int, a)]
        {
            &&& tt.on_pattern(h.pattern as int, h.trip as int, b)
            &&& b < a < tt.patterns@[h.pattern as int].stops@.len()
            &&& day_bit(tt.trip(h.pattern as int, h.trip as int).days@, day)
            &&& tt.stop_at(h.pattern as int, b) == h.from
            &&& tt.stop_at(h.pattern as int, a) == h.to
            &&& tt.departure(h.pattern as int, h.trip as int, b) == h.depart
            &&& tt.arrival(h.pattern as int, h.trip as int, a) == h.arrive
        }
    &&& !h.ride ==> has_transfer(tt, h.from as int, h.to as int, (h.arrive - h.depart) as u32)
}

/// Each hop is in the timetable, starts where the hop before it ended, and
/// leaves no earlier than that one arrived.
pub open spec fn hops_chained(tt: &Timetable, day: u16, hops: Seq<Hop>) -> bool {
    &&& forall|i: int| 0 <= i < hops.len() ==> hop_true(tt, day, #[trigger] hops[i])
    &&& forall|i: int|
        0 <= i < hops.len() - 1 ==> (#[trigger] hops[i]).to == hops[i + 1].from && hops[i].arrive
            <= hops[i + 1].depart
}

impl Journey {
    /// The stop where the journey ends.
    pub open spec fn last_stop(&self) -> u32 {
        if self.hops@.len() == 0 {
            self.first_stop
        } else {
            self.hops@.last().to
        }
    }

    /// When the journey reaches its last stop.
    pub open spec fn arrival(&self, start: u32) -> int {
        if self.hops@.len() == 0 {
            start + self.access_seconds
        } else {
            self.hops@.last().arrive as int
        }
    }

    /// The journey can be travelled: the walk from the origin is one of
    /// `access` and ends before the first hop leaves from where it leads,
    /// and the hops are [`hops_chained`].
    pub open spec fn valid(&self, tt: &Timetable, day: u16, start: u32, access: Seq<Foot>) -> bool {
        &&& self.first_stop < tt.stops@.len()
        &&& exists|j: int|
            0 <= j < access.len() && (#[trigger] access[j]) == (Foot {
                stop: self.first_stop,
                seconds: self.access_seconds,
            })
        &&& hops_chained(tt, day, self.hops@)
        &&& self.hops@.len() > 0 ==> self.hops@[0].from == self.first_stop && start
            + self.access_seconds <= self.hops@[0].depart
    }
}

/// Putting a hop in front of others adds it to the count of rides.
pub proof fn lemma_ride_count_front(hops: Seq<Hop>, h: Hop)
    ensures
        ride_count(hops.insert(0, h)) == ride_count(hops) + if h.ride {
            1nat
        } else {
            0nat
        },
    decreases hops.len(),
{
    if hops.len() == 0 {
        assert(hops.insert(0, h).drop_last() =~= hops);
    } else {
        lemma_ride_count_front(hops.drop_last(), h);
        assert(hops.insert(0, h).drop_last() =~= hops.drop_last().insert(0, h));
        assert(hops.insert(0, h).last() == hops.last());
    }
}

/// A hop that ends where a chain of hops starts, in time, can be put in
/// front of the chain.
pub proof fn lemma_chain_front(tt: &Timetable, day: u16, hops: Seq<Hop>, h: Hop)
    requires
        hops_chained(tt, day, hops),
        hop_true(tt, day, h),
        hops.len() > 0 ==> hops[0].from == h.to && h.arrive <= hops[0].depart,
    ensures
        hops_chained(tt, day, hops.insert(0, h)),
        hops.insert(0, h)[0] == h,
        hops.insert(0, h).last() == if hops.len() > 0 {
            hops.last()
        } else {
            h
        },
        hops.insert(0, h).len() == hops.len() + 1,
{
    let next = hops.insert(0, h);
    assert forall|i: int| 0 <= i < next.len() implies hop_true(tt, day, #[trigger] next[i]) by {
        if i > 0 {
            assert(next[i] == hops[i - 1]);
        }
    }
    assert forall|i: int| 0 <= i < next.len() - 1 implies (#[trigger] next[i]).to == next[i + 1].from
        && next[i].arrive <= next[i + 1].depart by {
        assert(next[i + 1] == hops[i]);
        if i > 0 {
            assert(next[i] == hops[i - 1]);
        }
    }
}

/// What true labels say of the label of stop `s` in round `k`, for `k` of 1
/// or more.
pub proof fn lemma_label_of_round(
    tt: &Timetable,
    day: u16,
    start: u32,
    access: Seq<Foot>,
    rode: Seq<Vec<Label>>,
    reached: Seq<Vec<Label>>,
    k: int,
    s: int,
)
    requires
        labels_true(tt, day, start, access, rode, reached),
        1 <= k < rode.len(),
        0 <= s < tt.stops@.len(),
    ensures
        rode[k]@.len() == tt.stops@.len(),
        reached[k]@.len() == tt.stops@.len(),
        reached[k - 1]@.len() == tt.stops@.len(),
        reached[k]@[s] == stay(rode[k]@[s]) || walked_to(tt, rode[k]@, s, reached[k]@[s]),
        rode[k]@[s].time < UNREACHED ==> rode_to(tt, day, reached[k - 1]@, s, rode[k]@[s]),
{
    assert(rode[k]@.len() == tt.stops@.len());
    assert(reached[k]@.len() == tt.stops@.len());
    assert(reached[k - 1]@.len() == tt.stops@.len());
    assert(reached[k]@[s] == stay(rode[k]@[s]) || walked_to(tt, rode[k]@, s, reached[k]@[s]));
    assert(rode[k]@[s].time < UNREACHED ==> rode_to(tt, day, reached[k - 1]@, s, rode[k]@[s]));
}

/// What true labels say of the label of stop `s` in round 0.
pub proof fn lemma_label_of_access(
    tt: &Timetable,
    day: u16,
    start: u32,
    access: Seq<Foot>,
    rode: Seq<Vec<Label>>,
    reached: Seq<Vec<Label>>,
    s: int,
)
    requires
        labels_true(tt, day, start, access, rode, reached),
        0 <= s < tt.stops@.len(),
    ensures
        rode[0]@.len() == tt.stops@.len(),
        reached[0]@.len() == tt.stops@.len(),
        reached[0]@[s] == stay(rode[0]@[s]),
        rode[0]@[s].time < UNREACHED ==> walked_in(access, start, s, rode[0]@[s]),
{
    assert(rode[0]@.len() == tt.stops@.len());
    assert(reached[0]@.len() == tt.stops@.len());
    assert(reached[0]@[s] == stay(rode[0]@[s]));
}

/// The hop that the label of a ride stands for.
fn ride_hop(tt: &Timetable, day: u16, from: &Vec<Label>, at: usize, rl: Label) -> (hop: Hop)
    requires
        tt.wf(),
        from@.len() == tt.stops@.len(),
        at < tt.stops@.len(),
        rode_to(tt, day, from@, at as int, rl),
    ensures
        hop_true(tt, day, hop),
        hop.ride,
        hop.to == at,
        hop.arrive == rl.time,
        from@[hop.from as int].time < UNREACHED,
        from@[hop.from as int].time <= hop.depart,
{
    match rl.step {
        Step::Ride { pattern, trip, board, alight } => {
            proof {
                tt.lemma_on_pattern(pattern as int, trip as int, board as int);
                tt.lemma_on_pattern(pattern as int, trip as int, alight as int);
                lemma_times_ordered(
                    tt.trip(pattern as int, trip as int).times@,
                    board as int,
                    alight as int,
                );
            }
            let from_stop = tt.patterns[pattern as usize].stops[board as usize];
            let leave = tt.times_at(pattern as usize, trip as usize, board as usize).departure;
            let hop = Hop {
                ride: true,
                pattern,
                trip,
                from: from_stop,
                to: at as u32,
                depart: leave,
                arrive: rl.time,
            };
            proof {
                let (b, a) = (board as int, alight as int);
                assert(tt.stop_at(pattern as int, b) == hop.from);
                assert(tt.stop_at(pattern as int, a) == hop.to);
                assert(tt.on_pattern(hop.pattern as int, hop.trip as int, b));
                assert(day_bit(tt.trip(hop.pattern as int, hop.trip as int).days@, day));
                assert(tt.departure(hop.pattern as int, hop.trip as int, b) == hop.depart);
                assert(tt.arrival(hop.pattern as int, hop.trip as int, a) == hop.arrive);
                assert(hop.depart <= hop.arrive);
                assert(hop.from < tt.stops@.len());
                assert(hop.to < tt.stops@.len());
            }
            hop
        },
        _ => {
            proof {
                assert(false);
            }
            Hop { ride: true, pattern: 0, trip: 0, from: 0, to: 0, depart: 0, arrive: 0 }
        },
    }
}

/// Reads the journey that ends at stop `stop` with the label of round
/// `round` back from the labels of a finished search.
///
/// The journey is as the labels say: it ends at `stop` at the label's time,
/// and it rides exactly `round` vehicles.
#[verifier::rlimit(50)]
pub fn trace(
    tt: &Timetable,
    search: &Search,
    day: u16,
    start: u32,
    access: &Vec<Foot>,
    round: usize,
    stop: usize,
) -> (j: Journey)
    requires
        tt.wf(),
        labels_true(tt, day, start, access@, search.rode@, search.reached@),
        round < search.reached@.len(),
        stop < tt.stops@.len(),
        search.reached@[round as int]@[stop as int].time < UNREACHED,
    ensures
        j.valid(tt, day, start, access@),
        j.last_stop() == stop,
        j.arrival(start) == search.reached@[round as int]@[stop as int].time,
        ride_count(j.hops@) == round,
        j.hops@.len() <= 2 * round,
{
    let mut hops: Vec<Hop> = Vec::new();
    let mut k: usize = round;
    let mut s: usize = stop;
    let ghost end = search.reached@[round as int]@[stop as int].time;
    while k >= 1
        invariant
            tt.wf(),
            labels_true(tt, day, start, access@, search.rode@, search.reached@),
            k <= round,
            round < search.reached@.len(),
            s < tt.stops@.len(),
            stop < tt.stops@.len(),
            search.reached@[k as int]@[s as int].time < UNREACHED,
            hops_chained(tt, day, hops@),
            hops@.len() > 0 ==> hops@[0].from == s && search.reached@[k as int]@[s as int].time
                <= hops@[0].depart && hops@.last().to == stop && hops@.last().arrive == end,
            hops@.len() == 0 ==> s == stop && k == round,
            end == search.reached@[round as int]@[stop as int].time,
            ride_count(hops@) == round - k,
            hops@.len() <= 2 * (round - k),
        decreases k,
    {
        proof {
            lemma_label_of_round(
                tt,
                day,
                start,
                access@,
                search.rode@,
                search.reached@,
                k as int,
                s as int,
            );
        }
        let label = search.reached[k][s];
        let mut at: usize = s;
        match label.step {
            Step::Walk { from, seconds } => {
                let left = search.rode[k][from as usize].time;
                let hop = Hop {
                    ride: false,
                    pattern: 0,
                    trip: 0,
                    from,
                    to: s as u32,
                    depart: left,
                    arrive: label.time,
                };
                proof {
                    assert(hop_true(tt, day, hop));
                    lemma_ride_count_front(hops@, hop);
                    lemma_chain_front(tt, day, hops@, hop);
                }
                hops.insert(0, hop);
                at = from as usize;
            },
            _ => {},
        }
        proof {
            lemma_label_of_round(
                tt,
                day,
                start,
                access@,
                search.rode@,
                search.reached@,
                k as int,
                at as int,
            );
        }
        let rl = search.rode[k][at];
        let hop = ride_hop(tt, day, &search.reached[k - 1], at, rl);
        proof {
            lemma_ride_count_front(hops@, hop);
            lemma_chain_front(tt, day, hops@, hop);
        }
        hops.insert(0, hop);
        s = hop.from as usize;
        k = k - 1;
    }
    proof {
        lemma_label_of_access(tt, day, start, access@, search.rode@, search.reached@, s as int);
    }
    let first = search.rode[0][s];
    let seconds = match first.step {
        Step::Access { seconds } => seconds,
        _ => 0,
    };
    Journey { first_stop: s as u32, access_seconds: seconds, hops }
}

} // verus!
