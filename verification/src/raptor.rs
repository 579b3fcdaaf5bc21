//! The round-based search over a compiled timetable.
//!
//! Round 0 labels the stops that the traveller can walk to from the origin.
//! Each later round rides one vehicle from a stop that the round before
//! labelled, and then walks at most one stored transfer.

use crate::timetable::{day_bit, Timetable, Transfer};
use vstd::prelude::*;

verus! {

/// The time of a stop that has not been reached.
pub const UNREACHED: u32 = u32::MAX;

/// How the traveller came to stand at a stop at the time of a label.
#[derive(Debug, Clone, Copy, PartialEq, Eq, Structural)]
pub enum Step {
    /// The stop has no label.
    Nowhere,
    /// On foot from the origin, in so many seconds.
    Access { seconds: u32 },
    /// On the trip at place `trip` of pattern `pattern`, boarded at position
    /// `board` and left at position `alight`.
    Ride { pattern: u32, trip: u32, board: u32, alight: u32 },
    /// Where the vehicle, or the walk from the origin, set the traveller
    /// down.
    Stay,
    /// On foot from stop `from`, in so many seconds.
    Walk { from: u32, seconds: u32 },
}

/// A time at a stop, in seconds since the midnight that starts the service
/// day, and the step that led there.
#[derive(Debug, Clone, Copy, PartialEq, Eq, Structural)]
pub struct Label {
    pub time: u32,
    pub step: Step,
}

/// A stop near the origin or the destination, and the walk between them.
#[derive(Debug, Clone, Copy, PartialEq, Eq, Structural)]
pub struct Foot {
    pub stop: u32,
    pub seconds: u32,
}

/// The traveller, standing at the stops as `from` labels them, can board the
/// trip at place `t` of pattern `p` at position `b` on day `day`.
pub open spec fn catchable(tt: &Timetable, day: u16, from: Seq<Label>, p: int, t: int, b: int) -> bool {
    &&& tt.on_pattern(p, t, b)
    &&& day_bit(tt.trip(p, t).days@, day)
    &&& from[tt.stop_at(p, b)].time < UNREACHED
    &&& from[tt.stop_at(p, b)].time <= tt.departure(p, t, b)
}

/// The label says truly that a ride set the traveller down at stop `s`: the
/// trip was [`catchable`] from the labels `from`, it calls at `s` after the
/// boarding, and the label's time is its arrival there.
pub open spec fn rode_to(tt: &Timetable, day: u16, from: Seq<Label>, s: int, l: Label) -> bool {
    l.step matches Step::Ride { pattern, trip, board, alight } && {
        &&& catchable(tt, day, from, pattern as int, trip as int, board as int)
        &&& board < alight < tt.patterns@[pattern as int].stops@.len()
        &&& tt.stop_at(pattern as int, alight as int) == s
        &&& l.time == tt.arrival(pattern as int, trip as int, alight as int)
    }
}

/// No trip before place `cur` can be caught on pattern `p` at a position
/// before `i`.
pub open spec fn earliest_so_far(
    tt: &Timetable,
    day: u16,
    from: Seq<Label>,
    p: int,
    i: int,
    cur: int,
) -> bool {
    forall|t: int, b: int|
        #![trigger catchable(tt, day, from, p, t, b)]
        catchable(tt, day, from, p, t, b) && b < i ==> cur <= t
}

/// Every ride that can be caught from the labels `from` on pattern `p` and
/// ends before position `i` is accounted for: `best` is at the stop where it
/// ends no later than the ride.
pub open spec fn closed_upto(
    tt: &Timetable,
    day: u16,
    from: Seq<Label>,
    best: Seq<u32>,
    p: int,
    i: int,
) -> bool {
    forall|t: int, b: int, a: int|
        #![trigger catchable(tt, day, from, p, t, b), tt.arrival(p, t, a)]
        catchable(tt, day, from, p, t, b) && b < a < i ==> best[tt.stop_at(p, a)] <= tt.arrival(
            p,
            t,
            a,
        )
}

/// Every ride that can be caught from the labels `from` on pattern `p` is
/// accounted for in `best`.
pub open spec fn pattern_closed(tt: &Timetable, day: u16, from: Seq<Label>, best: Seq<u32>, p: int) -> bool {
    closed_upto(tt, day, from, best, p, tt.patterns@[p].stops@.len() as int)
}

/// Lower best times keep every accounted ride accounted for.
pub proof fn lemma_closed_upto_lower(
    tt: &Timetable,
    day: u16,
    from: Seq<Label>,
    before: Seq<u32>,
    best: Seq<u32>,
    p: int,
    i: int,
)
    requires
        tt.wf(),
        0 <= p < tt.patterns@.len(),
        i <= tt.patterns@[p].stops@.len(),
        before.len() == tt.stops@.len(),
        best.len() == tt.stops@.len(),
        forall|x: int| 0 <= x < best.len() ==> best[x] <= #[trigger] before[x],
        closed_upto(tt, day, from, before, p, i),
    ensures
        closed_upto(tt, day, from, best, p, i),
{
    assert forall|t: int, b: int, a: int|
        #![trigger catchable(tt, day, from, p, t, b), tt.arrival(p, t, a)]
        catchable(tt, day, from, p, t, b) && b < a < i implies best[tt.stop_at(p, a)] <= tt.arrival(
        p,
        t,
        a,
    ) by {
        tt.lemma_on_pattern(p, t, a);
        assert(before[tt.stop_at(p, a)] <= tt.arrival(p, t, a));
    }
}

/// Once the best time of the stop at position `i` is no later than the
/// arrival of the earliest trip caught so far, every ride that ends at `i`
/// is accounted for.
pub proof fn lemma_closed_upto_next(
    tt: &Timetable,
    day: u16,
    from: Seq<Label>,
    best: Seq<u32>,
    p: int,
    i: int,
    cur: int,
)
    requires
        tt.wf(),
        0 <= p < tt.patterns@.len(),
        0 <= i < tt.patterns@[p].stops@.len(),
        0 <= cur <= tt.patterns@[p].trips@.len(),
        best.len() == tt.stops@.len(),
        closed_upto(tt, day, from, best, p, i),
        earliest_so_far(tt, day, from, p, i, cur),
        cur < tt.patterns@[p].trips@.len() ==> best[tt.stop_at(p, i)] <= tt.arrival(p, cur, i),
    ensures
        closed_upto(tt, day, from, best, p, i + 1),
{
    assert forall|t: int, b: int, a: int|
        #![trigger catchable(tt, day, from, p, t, b), tt.arrival(p, t, a)]
        catchable(tt, day, from, p, t, b) && b < a < i + 1 implies best[tt.stop_at(p, a)]
        <= tt.arrival(p, t, a) by {
        if a == i {
            assert(cur <= t);
            tt.lemma_in_step(p, cur, t, i);
        }
    }
}

/// After the search for an earlier trip at position `i`, the trip in hand is
/// the earliest that can be caught at `i` or before.
pub proof fn lemma_earliest_next(
    tt: &Timetable,
    day: u16,
    from: Seq<Label>,
    p: int,
    i: int,
    old_cur: int,
    cur: int,
)
    requires
        tt.wf(),
        0 <= p < tt.patterns@.len(),
        0 <= i < tt.patterns@[p].stops@.len(),
        0 <= cur <= old_cur,
        earliest_so_far(tt, day, from, p, i, old_cur),
        from[tt.stop_at(p, i)].time < UNREACHED ==> forall|u: int|
            0 <= u < cur ==> !(day_bit((#[trigger] tt.trip(p, u)).days@, day) && from[tt.stop_at(
                p,
                i,
            )].time <= tt.departure(p, u, i)),
        from[tt.stop_at(p, i)].time == UNREACHED ==> cur == old_cur,
    ensures
        earliest_so_far(tt, day, from, p, i + 1, cur),
{
    assert forall|t: int, b: int|
        #![trigger catchable(tt, day, from, p, t, b)]
        catchable(tt, day, from, p, t, b) && b < i + 1 implies cur <= t by {
        if b < i {
            assert(old_cur <= t);
        } else if t < cur {
            assert(!(day_bit(tt.trip(p, t).days@, day) && from[tt.stop_at(p, i)].time
                <= tt.departure(p, t, i)));
        }
    }
}

/// The first trip of pattern `p`, among those before place `limit`, that
/// runs on day `day` and leaves position `i` at `not_before` or later.
pub fn earliest_trip(
    tt: &Timetable,
    day: u16,
    p: usize,
    i: usize,
    not_before: u32,
    limit: usize,
) -> (r: Option<usize>)
    requires
        tt.wf(),
        tt.on_pattern(p as int, 0, i as int),
        limit <= tt.patterns@[p as int].trips@.len(),
    ensures
        r matches Some(t) ==> t < limit && day_bit(tt.trip(p as int, t as int).days@, day)
            && not_before <= tt.departure(p as int, t as int, i as int),
        forall|u: int|
            0 <= u < (match r {
                Some(t) => t,
                None => limit,
            }) ==> !(day_bit((#[trigger] tt.trip(p as int, u)).days@, day) && not_before
                <= tt.departure(p as int, u, i as int)),
{
    let mut t: usize = 0;
    while t < limit
        invariant
            t <= limit,
            tt.wf(),
            tt.on_pattern(p as int, 0, i as int),
            limit <= tt.patterns@[p as int].trips@.len(),
            forall|u: int|
                0 <= u < t ==> !(day_bit((#[trigger] tt.trip(p as int, u)).days@, day)
                    && not_before <= tt.departure(p as int, u, i as int)),
        decreases limit - t,
    {
        if tt.runs_on(p, t, day) && tt.times_at(p, t, i).departure >= not_before {
            return Some(t);
        }
        t += 1;
    }
    None
}

/// What a scan may do to the label of stop `s`: leave it and the best time
/// as they were, or replace it by a true ride that betters the best time.
pub open spec fn kept_or_rode(
    tt: &Timetable,
    day: u16,
    from: Seq<Label>,
    s: int,
    best0: u32,
    rode0: Label,
    best1: u32,
    rode1: Label,
) -> bool {
    ||| rode1 == rode0 && best1 == best0
    ||| rode1.time == best1 && best1 < best0 && rode_to(tt, day, from, s, rode1)
}

/// Rides the trips of pattern `p` from the stops that `from` labels.
///
/// The scan starts at position `entry`, before which `from` labels no stop
/// of the pattern. From there on the traveller sits on the earliest trip that
/// could be boarded so far. Where that trip reaches a stop earlier than
/// `best` knows, the stop gets the arrival as its best time and the ride as
/// its label.
#[verifier::rlimit(50)]
pub fn scan_pattern(
    tt: &Timetable,
    day: u16,
    from: &Vec<Label>,
    p: usize,
    entry: usize,
    best: &mut Vec<u32>,
    rode: &mut Vec<Label>,
)
    requires
        tt.wf(),
        p < tt.patterns@.len(),
        entry <= tt.patterns@[p as int].stops@.len(),
        forall|b: int| 0 <= b < entry ==> from@[#[trigger] tt.stop_at(p as int, b)].time == UNREACHED,
        from@.len() == tt.stops@.len(),
        old(best)@.len() == tt.stops@.len(),
        old(rode)@.len() == tt.stops@.len(),
    ensures
        final(best)@.len() == tt.stops@.len(),
        final(rode)@.len() == tt.stops@.len(),
        forall|s: int|
            0 <= s < tt.stops@.len() ==> kept_or_rode(
                tt,
                day,
                from@,
                s,
                old(best)@[s],
                old(rode)@[s],
                #[trigger] final(best)@[s],
                final(rode)@[s],
            ),
        pattern_closed(tt, day, from@, final(best)@, p as int),
{
    let ghost pi = p as int;
    let len = tt.patterns[p].stops.len();
    let m = tt.patterns[p].trips.len();
    proof {
        tt.lemma_pattern_shape(pi);
    }
    let mut cur: usize = m;
    let mut board: usize = 0;
    let mut i: usize = entry;
    while i < len
        invariant
            tt.wf(),
            pi == p,
            p < tt.patterns@.len(),
            len == tt.patterns@[pi].stops@.len(),
            m == tt.patterns@[pi].trips@.len(),
            1 <= m <= u32::MAX,
            2 <= len <= u32::MAX,
            i <= len,
            cur <= m,
            from@.len() == tt.stops@.len(),
            best@.len() == tt.stops@.len(),
            rode@.len() == tt.stops@.len(),
            old(best)@.len() == tt.stops@.len(),
            old(rode)@.len() == tt.stops@.len(),
            cur < m ==> board < i && catchable(tt, day, from@, pi, cur as int, board as int),
            earliest_so_far(tt, day, from@, pi, i as int, cur as int),
            closed_upto(tt, day, from@, best@, pi, i as int),
            forall|s: int|
                0 <= s < tt.stops@.len() ==> kept_or_rode(
                    tt,
                    day,
                    from@,
                    s,
                    old(best)@[s],
                    old(rode)@[s],
                    #[trigger] best@[s],
                    rode@[s],
                ),
        decreases len - i,
    {
        proof {
            tt.lemma_on_pattern(pi, 0, i as int);
        }
        let s = tt.patterns[p].stops[i] as usize;
        let ghost best_before = best@;
        if cur < m {
            let arr = tt.times_at(p, cur, i).arrival;
            if arr < best[s] {
                best[s] = arr;
                rode[s] = Label {
                    time: arr,
                    step: Step::Ride {
                        pattern: p as u32,
                        trip: cur as u32,
                        board: board as u32,
                        alight: i as u32,
                    },
                };
                assert(rode_to(tt, day, from@, s as int, rode@[s as int]));
            }
        }
        proof {
            lemma_closed_upto_lower(tt, day, from@, best_before, best@, pi, i as int);
            lemma_closed_upto_next(tt, day, from@, best@, pi, i as int, cur as int);
        }
        let arrived = from[s].time;
        let ghost old_cur = cur;
        if arrived < UNREACHED {
            match earliest_trip(tt, day, p, i, arrived, cur) {
                Some(t) => {
                    cur = t;
                    board = i;
                },
                None => {},
            }
        }
        proof {
            lemma_earliest_next(tt, day, from@, pi, i as int, old_cur as int, cur as int);
        }
        i += 1;
    }
}

/// The first position of pattern `p` whose stop `from` labels.
pub fn entry_position(tt: &Timetable, from: &Vec<Label>, p: usize) -> (r: Option<usize>)
    requires
        tt.wf(),
        p < tt.patterns@.len(),
        from@.len() == tt.stops@.len(),
    ensures
        r matches Some(i) ==> i < tt.patterns@[p as int].stops@.len() && from@[tt.stop_at(
            p as int,
            i as int,
        )].time < UNREACHED,
        forall|b: int|
            0 <= b < (match r {
                Some(i) => i as int,
                None => tt.patterns@[p as int].stops@.len() as int,
            }) ==> from@[#[trigger] tt.stop_at(p as int, b)].time == UNREACHED,
{
    proof {
        tt.lemma_pattern_shape(p as int);
    }
    let len = tt.patterns[p].stops.len();
    let mut i: usize = 0;
    while i < len
        invariant
            tt.wf(),
            p < tt.patterns@.len(),
            from@.len() == tt.stops@.len(),
            len == tt.patterns@[p as int].stops@.len(),
            1 <= tt.patterns@[p as int].trips@.len(),
            i <= len,
            forall|b: int| 0 <= b < i ==> from@[#[trigger] tt.stop_at(p as int, b)].time == UNREACHED,
        decreases len - i,
    {
        proof {
            tt.lemma_on_pattern(p as int, 0, i as int);
        }
        if from[tt.patterns[p].stops[i] as usize].time < UNREACHED {
            return Some(i);
        }
        i += 1;
    }
    None
}

/// The label of a stop that nothing has reached.
pub open spec fn no_label() -> Label {
    Label { time: UNREACHED, step: Step::Nowhere }
}

/// Rides one vehicle from the stops that `from` labels: every pattern that
/// calls at a labelled stop is scanned from the first such stop on.
///
/// A stop gets a label where a ride reaches it earlier than `best` knew, and
/// `best` then holds the label's time. Afterwards `best` accounts for every
/// ride that can be caught from `from` on any pattern.
#[verifier::rlimit(50)]
pub fn ride_round(tt: &Timetable, day: u16, from: &Vec<Label>, best: &mut Vec<u32>) -> (rode: Vec<
    Label,
>)
    requires
        tt.wf(),
        from@.len() == tt.stops@.len(),
        old(best)@.len() == tt.stops@.len(),
    ensures
        final(best)@.len() == tt.stops@.len(),
        rode@.len() == tt.stops@.len(),
        forall|s: int|
            0 <= s < tt.stops@.len() ==> kept_or_rode(
                tt,
                day,
                from@,
                s,
                old(best)@[s],
                no_label(),
                #[trigger] final(best)@[s],
                rode@[s],
            ),
        forall|p: int|
            0 <= p < tt.patterns@.len() ==> #[trigger] pattern_closed(tt, day, from@, final(best)@, p),
        forall|s: int| 0 <= s < tt.stops@.len() ==> final(best)@[s] <= #[trigger] old(best)@[s],
{
    let n = tt.stops.len();
    let mut rode: Vec<Label> = Vec::new();
    let mut s: usize = 0;
    while s < n
        invariant
            s <= n,
            n == tt.stops@.len(),
            rode@.len() == s,
            forall|x: int| 0 <= x < s ==> rode@[x] == no_label(),
        decreases n - s,
    {
        rode.push(Label { time: UNREACHED, step: Step::Nowhere });
        s += 1;
    }
    let mut p: usize = 0;
    while p < tt.patterns.len()
        invariant
            tt.wf(),
            p <= tt.patterns@.len(),
            from@.len() == tt.stops@.len(),
            best@.len() == tt.stops@.len(),
            old(best)@.len() == tt.stops@.len(),
            rode@.len() == tt.stops@.len(),
            forall|s: int|
                0 <= s < tt.stops@.len() ==> kept_or_rode(
                    tt,
                    day,
                    from@,
                    s,
                    old(best)@[s],
                    no_label(),
                    #[trigger] best@[s],
                    rode@[s],
                ),
            forall|q: int| 0 <= q < p ==> #[trigger] pattern_closed(tt, day, from@, best@, q),
        decreases tt.patterns@.len() - p,
    {
        let ghost best_before = best@;
        let ghost rode_before = rode@;
        match entry_position(tt, from, p) {
            Some(entry) => {
                scan_pattern(tt, day, from, p, entry, best, &mut rode);
            },
            None => {
                assert(pattern_closed(tt, day, from@, best@, p as int));
            },
        }
        proof {
            assert forall|x: int| 0 <= x < tt.stops@.len() implies best@[x] <= #[trigger] best_before[x] by {
                if best@ != best_before || rode@ != rode_before {
                    assert(kept_or_rode(
                        tt,
                        day,
                        from@,
                        x,
                        best_before[x],
                        rode_before[x],
                        best@[x],
                        rode@[x],
                    ));
                }
            }
            assert forall|s: int| 0 <= s < tt.stops@.len() implies kept_or_rode(
                tt,
                day,
                from@,
                s,
                old(best)@[s],
                no_label(),
                #[trigger] best@[s],
                rode@[s],
            ) by {
                assert(kept_or_rode(
                    tt,
                    day,
                    from@,
                    s,
                    old(best)@[s],
                    no_label(),
                    best_before[s],
                    rode_before[s],
                ));
                if best@ != best_before || rode@ != rode_before {
                    assert(kept_or_rode(
                        tt,
                        day,
                        from@,
                        s,
                        best_before[s],
                        rode_before[s],
                        best@[s],
                        rode@[s],
                    ));
                }
            }
            assert forall|q: int| 0 <= q < p + 1 implies #[trigger] pattern_closed(
                tt,
                day,
                from@,
                best@,
                q,
            ) by {
                if q < p {
                    assert(pattern_closed(tt, day, from@, best_before, q));
                    lemma_closed_upto_lower(
                        tt,
                        day,
                        from@,
                        best_before,
                        best@,
                        q,
                        tt.patterns@[q].stops@.len() as int,
                    );
                }
            }
        }
        p += 1;
    }
    rode
}

/// A walk of `seconds` leads from stop `from` to stop `to` in the table.
pub open spec fn has_transfer(tt: &Timetable, from: int, to: int, seconds: u32) -> bool {
    exists|j: int|
        0 <= j < tt.transfers@[from]@.len() && (#[trigger] tt.transfers@[from]@[j]) == (Transfer {
            to: to as u32,
            seconds,
        })
}

/// The label says truly that a walk brought the traveller to stop `s`: the
/// walk is in the table, it starts where a vehicle set the traveller down
/// according to `rode`, and the label's time is the arrival on foot.
pub open spec fn walked_to(tt: &Timetable, rode: Seq<Label>, s: int, l: Label) -> bool {
    l.step matches Step::Walk { from, seconds } && {
        &&& from < tt.stops@.len()
        &&& rode[from as int].time < UNREACHED
        &&& l.time == rode[from as int].time + seconds
        &&& has_transfer(tt, from as int, s, seconds)
    }
}

/// The label of a traveller who stays where `l` set them down.
pub open spec fn stay(l: Label) -> Label {
    if l.time < UNREACHED {
        Label { time: l.time, step: Step::Stay }
    } else {
        no_label()
    }
}

/// What the walks may do to the label of stop `s`: leave the traveller where
/// the vehicle stopped and the best time as it was, or replace the label by
/// a true walk that betters the best time.
pub open spec fn kept_or_walked(
    tt: &Timetable,
    rode: Seq<Label>,
    s: int,
    best0: u32,
    best1: u32,
    reached1: Label,
) -> bool {
    ||| reached1 == stay(rode[s]) && best1 == best0
    ||| reached1.time == best1 && best1 < best0 && walked_to(tt, rode, s, reached1)
}

/// Every walk out of a stop where `rode` set the traveller down is accounted
/// for: `best` is at the far end no later than the walk.
pub open spec fn walks_closed(tt: &Timetable, rode: Seq<Label>, best: Seq<u32>) -> bool {
    forall|s: int, j: int|
        #![trigger tt.transfers@[s]@[j]]
        0 <= s < tt.stops@.len() && rode[s].time < UNREACHED && 0 <= j < tt.transfers@[s]@.len()
            ==> best[tt.transfers@[s]@[j].to as int] <= rode[s].time + tt.transfers@[s]@[j].seconds
}

/// Walks one stored transfer from each stop where `rode` set the traveller
/// down.
///
/// A stop gets the walk as its label where the walk reaches it earlier than
/// `best` knew, and `best` then holds the label's time; every other stop
/// keeps the label that `rode` gave it.
#[verifier::rlimit(50)]
pub fn walk_round(tt: &Timetable, rode: &Vec<Label>, best: &mut Vec<u32>) -> (reached: Vec<Label>)
    requires
        tt.wf(),
        rode@.len() == tt.stops@.len(),
        old(best)@.len() == tt.stops@.len(),
    ensures
        final(best)@.len() == tt.stops@.len(),
        reached@.len() == tt.stops@.len(),
        forall|s: int|
            0 <= s < tt.stops@.len() ==> kept_or_walked(
                tt,
                rode@,
                s,
                old(best)@[s],
                #[trigger] final(best)@[s],
                reached@[s],
            ),
        walks_closed(tt, rode@, final(best)@),
        forall|s: int| 0 <= s < tt.stops@.len() ==> final(best)@[s] <= #[trigger] old(best)@[s],
{
    let n = tt.stops.len();
    let mut reached = stay_all(rode);
    let mut s: usize = 0;
    while s < n
        invariant
            tt.wf(),
            s <= n,
            n == tt.stops@.len(),
            rode@.len() == n,
            reached@.len() == n,
            best@.len() == n,
            old(best)@.len() == n,
            forall|x: int|
                0 <= x < n ==> kept_or_walked(
                    tt,
                    rode@,
                    x,
                    old(best)@[x],
                    #[trigger] best@[x],
                    reached@[x],
                ),
            forall|x: int, j: int|
                #![trigger tt.transfers@[x]@[j]]
                0 <= x < s && rode@[x].time < UNREACHED && 0 <= j < tt.transfers@[x]@.len()
                    ==> best@[tt.transfers@[x]@[j].to as int] <= rode@[x].time
                    + tt.transfers@[x]@[j].seconds,
        decreases n - s,
    {
        if rode[s].time < UNREACHED {
            let left = rode[s].time;
            let count = tt.transfers[s].len();
            let mut j: usize = 0;
            while j < count
                invariant
                    tt.wf(),
                    s < n,
                    n == tt.stops@.len(),
                    rode@.len() == n,
                    reached@.len() == n,
                    best@.len() == n,
                    old(best)@.len() == n,
                    left == rode@[s as int].time,
                    left < UNREACHED,
                    count == tt.transfers@[s as int]@.len(),
                    j <= count,
                    forall|x: int|
                        0 <= x < n ==> kept_or_walked(
                            tt,
                            rode@,
                            x,
                            old(best)@[x],
                            #[trigger] best@[x],
                            reached@[x],
                        ),
                    forall|x: int, k: int|
                        #![trigger tt.transfers@[x]@[k]]
                        0 <= x < s && rode@[x].time < UNREACHED && 0 <= k
                            < tt.transfers@[x]@.len() ==> best@[tt.transfers@[x]@[k].to as int]
                            <= rode@[x].time + tt.transfers@[x]@[k].seconds,
                    forall|k: int|
                        0 <= k < j ==> best@[(#[trigger] tt.transfers@[s as int]@[k]).to as int]
                            <= left + tt.transfers@[s as int]@[k].seconds,
                decreases count - j,
            {
                let walk = tt.transfers[s][j];
                assert(crate::timetable::transfers_ok(tt.transfers@[s as int]@, s as int, n as int));
                let to = walk.to as usize;
                let arrive: u64 = left as u64 + walk.seconds as u64;
                let ghost best_before = best@;
                if arrive < best[to] as u64 {
                    best[to] = arrive as u32;
                    reached[to] = Label {
                        time: arrive as u32,
                        step: Step::Walk { from: s as u32, seconds: walk.seconds },
                    };
                    assert(has_transfer(tt, s as int, to as int, walk.seconds));
                    assert(walked_to(tt, rode@, to as int, reached@[to as int]));
                }
                proof {
                    assert forall|x: int| 0 <= x < n implies best@[x] <= #[trigger] best_before[x] by {}
                    assert forall|x: int, k: int|
                        #![trigger tt.transfers@[x]@[k]]
                        0 <= x < s && rode@[x].time < UNREACHED && 0 <= k
                            < tt.transfers@[x]@.len() implies best@[tt.transfers@[x]@[k].to as int]
                        <= rode@[x].time + tt.transfers@[x]@[k].seconds by {
                        assert(crate::timetable::transfers_ok(tt.transfers@[x]@, x, n as int));
                        assert(best_before[tt.transfers@[x]@[k].to as int] <= rode@[x].time
                            + tt.transfers@[x]@[k].seconds);
                    }
                    assert forall|k: int| 0 <= k < j + 1 implies best@[(
                    #[trigger] tt.transfers@[s as int]@[k]).to as int] <= left
                        + tt.transfers@[s as int]@[k].seconds by {
                        if k < j {
                            assert(best_before[tt.transfers@[s as int]@[k].to as int] <= left
                                + tt.transfers@[s as int]@[k].seconds);
                        }
                    }
                }
                j += 1;
            }
        }
        s += 1;
    }
    reached
}

/// Lower best times keep every accounted walk accounted for.
pub proof fn lemma_walks_closed_lower(
    tt: &Timetable,
    rode: Seq<Label>,
    before: Seq<u32>,
    best: Seq<u32>,
)
    requires
        tt.wf(),
        before.len() == tt.stops@.len(),
        best.len() == tt.stops@.len(),
        forall|x: int| 0 <= x < best.len() ==> best[x] <= #[trigger] before[x],
        walks_closed(tt, rode, before),
    ensures
        walks_closed(tt, rode, best),
{
    assert forall|s: int, j: int|
        #![trigger tt.transfers@[s]@[j]]
        0 <= s < tt.stops@.len() && rode[s].time < UNREACHED && 0 <= j
            < tt.transfers@[s]@.len() implies best[tt.transfers@[s]@[j].to as int] <= rode[s].time
        + tt.transfers@[s]@[j].seconds by {
        assert(crate::timetable::transfers_ok(tt.transfers@[s]@, s, tt.stops@.len() as int));
        assert(before[tt.transfers@[s]@[j].to as int] <= rode[s].time
            + tt.transfers@[s]@[j].seconds);
    }
}

/// The label says truly that the traveller walked from the origin to stop
/// `s`: the walk is one of `access`, and the label's time is `start` plus the
/// walk.
pub open spec fn walked_in(access: Seq<Foot>, start: u32, s: int, l: Label) -> bool {
    l.step matches Step::Access { seconds } && {
        &&& l.time == start + seconds
        &&& exists|j: int|
            0 <= j < access.len() && (#[trigger] access[j]) == (Foot { stop: s as u32, seconds })
    }
}

/// Every walk from the origin to a stop of the table is accounted for in
/// `best`.
pub open spec fn access_closed(access: Seq<Foot>, start: u32, best: Seq<u32>) -> bool {
    forall|j: int|
        0 <= j < access.len() && (#[trigger] access[j]).stop < best.len() ==> best[access[j].stop as int]
            <= start + access[j].seconds
}

/// Round 0: labels the stops that the traveller can walk to from the
/// origin, each with the earliest arrival on foot. Walks that lead to no
/// stop of the table are passed over.
pub fn access_round(n: usize, start: u32, access: &Vec<Foot>) -> (r: (Vec<u32>, Vec<Label>))
    ensures
        r.0@.len() == n,
        r.1@.len() == n,
        forall|s: int|
            0 <= s < n ==> (#[trigger] r.1@[s]).time == r.0@[s] && (r.0@[s] < UNREACHED
                ==> walked_in(access@, start, s, r.1@[s])) && (r.0@[s] == UNREACHED ==> r.1@[s]
                == no_label()),
        access_closed(access@, start, r.0@),
{
    let mut best: Vec<u32> = Vec::new();
    let mut rode: Vec<Label> = Vec::new();
    let mut s: usize = 0;
    while s < n
        invariant
            s <= n,
            best@.len() == s,
            rode@.len() == s,
            forall|x: int| 0 <= x < s ==> (#[trigger] rode@[x]) == no_label() && best@[x] == UNREACHED,
        decreases n - s,
    {
        best.push(UNREACHED);
        rode.push(Label { time: UNREACHED, step: Step::Nowhere });
        s += 1;
    }
    let mut j: usize = 0;
    while j < access.len()
        invariant
            j <= access@.len(),
            best@.len() == n,
            rode@.len() == n,
            forall|s: int|
                0 <= s < n ==> (#[trigger] rode@[s]).time == best@[s] && (best@[s] < UNREACHED
                    ==> walked_in(access@, start, s, rode@[s])) && (best@[s] == UNREACHED
                    ==> rode@[s] == no_label()),
            forall|k: int|
                0 <= k < j && (#[trigger] access@[k]).stop < n ==> best@[access@[k].stop as int]
                    <= start + access@[k].seconds,
        decreases access@.len() - j,
    {
        let foot = access[j];
        if (foot.stop as usize) < n {
            let at = foot.stop as usize;
            let arrive: u64 = start as u64 + foot.seconds as u64;
            if arrive < best[at] as u64 {
                best[at] = arrive as u32;
                rode[at] = Label { time: arrive as u32, step: Step::Access { seconds: foot.seconds } };
                assert(access@[j as int] == Foot { stop: at as u32, seconds: foot.seconds });
            }
        }
        j += 1;
    }
    (best, rode)
}

/// Leaves the traveller at each stop where `rode` set them down.
pub fn stay_all(rode: &Vec<Label>) -> (reached: Vec<Label>)
    ensures
        reached@.len() == rode@.len(),
        forall|s: int| 0 <= s < rode@.len() ==> (#[trigger] reached@[s]) == stay(rode@[s]),
{
    let n = rode.len();
    let mut reached: Vec<Label> = Vec::new();
    let mut s: usize = 0;
    while s < n
        invariant
            s <= n,
            n == rode@.len(),
            reached@.len() == s,
            forall|x: int| 0 <= x < s ==> (#[trigger] reached@[x]) == stay(rode@[x]),
        decreases n - s,
    {
        if rode[s].time < UNREACHED {
            reached.push(Label { time: rode[s].time, step: Step::Stay });
        } else {
            reached.push(Label { time: UNREACHED, step: Step::Nowhere });
        }
        s += 1;
    }
    reached
}

/// Whether any stop has a label.
pub fn any_labelled(labels: &Vec<Label>) -> (r: bool)
    ensures
        r == exists|s: int| 0 <= s < labels@.len() && (#[trigger] labels@[s]).time < UNREACHED,
{
    let mut s: usize = 0;
    while s < labels.len()
        invariant
            s <= labels@.len(),
            forall|x: int| 0 <= x < s ==> (#[trigger] labels@[x]).time == UNREACHED,
        decreases labels@.len() - s,
    {
        if labels[s].time < UNREACHED {
            return true;
        }
        s += 1;
    }
    false
}

/// The labels of a finished search: for each round and each stop the label
/// that a vehicle (in round 0, the walk from the origin) gave the stop, the
/// label after the walks of the round, and for each stop the best time of
/// all rounds.
#[derive(Debug, Clone)]
pub struct Search {
    pub best: Vec<u32>,
    pub rode: Vec<Vec<Label>>,
    pub reached: Vec<Vec<Label>>,
}

/// Every label tells truly how the traveller came to the stop.
///
/// In round 0 a label is a walk from the origin. In a later round the label
/// that a vehicle gave is a ride caught from the labels of the round before,
/// and the label after the walks is either that one or a walk from a stop
/// where a vehicle of the same round set the traveller down.
pub open spec fn labels_true(
    tt: &Timetable,
    day: u16,
    start: u32,
    access: Seq<Foot>,
    rode: Seq<Vec<Label>>,
    reached: Seq<Vec<Label>>,
) -> bool {
    let n = tt.stops@.len();
    &&& rode.len() == reached.len()
    &&& rode.len() >= 1
    &&& forall|k: int| 0 <= k < rode.len() ==> (#[trigger] rode[k])@.len() == n
    &&& forall|k: int| 0 <= k < rode.len() ==> (#[trigger] reached[k])@.len() == n
    &&& forall|s: int|
        0 <= s < n ==> (#[trigger] reached[0]@[s]) == stay(rode[0]@[s]) && (rode[0]@[s].time
            < UNREACHED ==> walked_in(access, start, s, rode[0]@[s]))
    &&& forall|k: int, s: int|
        1 <= k < rode.len() && 0 <= s < n ==> ((#[trigger] rode[k]@[s]).time < UNREACHED ==> rode_to(
            tt,
            day,
            reached[k - 1]@,
            s,
            rode[k]@[s],
        ))
    &&& forall|k: int, s: int|
        1 <= k < rode.len() && 0 <= s < n ==> (#[trigger] reached[k]@[s]) == stay(rode[k]@[s])
            || walked_to(tt, rode[k]@, s, reached[k]@[s])
    &&& forall|k: int, s: int|
        0 <= k < rode.len() && 0 <= s < n ==> (#[trigger] reached[k]@[s]).time <= rode[k]@[s].time
}

/// The best time of a stop is the least of its labels.
pub open spec fn best_is_least(best: Seq<u32>, reached: Seq<Vec<Label>>) -> bool {
    &&& forall|k: int, s: int|
        0 <= k < reached.len() && 0 <= s < best.len() ==> best[s] <= (#[trigger] reached[k]@[s]).time
    &&& forall|s: int|
        0 <= s < best.len() && #[trigger] best[s] < UNREACHED ==> exists|k: int|
            0 <= k < reached.len() && (#[trigger] reached[k]@[s]).time == best[s]
}

/// A stop has a label in a round only where the round reached it earlier
/// than every round before.
pub open spec fn rounds_improve(reached: Seq<Vec<Label>>, n: int) -> bool {
    forall|j: int, k: int, s: int|
        0 <= j < k < reached.len() && 0 <= s < n && (#[trigger] reached[k]@[s]).time < UNREACHED
            ==> reached[k]@[s].time < (#[trigger] reached[j]@[s]).time
}

/// Nothing was left out: the best times account for every walk from the
/// origin, for every ride that can be caught from the labels of a round but
/// the last, and for every walk from a stop where a vehicle set the
/// traveller down.
pub open spec fn all_closed(
    tt: &Timetable,
    day: u16,
    start: u32,
    access: Seq<Foot>,
    best: Seq<u32>,
    rode: Seq<Vec<Label>>,
    reached: Seq<Vec<Label>>,
) -> bool {
    &&& access_closed(access, start, best)
    &&& forall|k: int, p: int|
        1 <= k < rode.len() && 0 <= p < tt.patterns@.len() ==> #[trigger] pattern_closed(
            tt,
            day,
            reached[k - 1]@,
            best,
            p,
        )
    &&& forall|k: int| 1 <= k < rode.len() ==> walks_closed(tt, (#[trigger] rode[k])@, best)
}

impl Search {
    /// The number of rounds after round 0.
    pub open spec fn rounds(&self) -> int {
        self.rode@.len() - 1
    }

    /// What holds of a finished search from `access` at `start` on `day`.
    #[verifier::opaque]
    pub open spec fn wf(&self, tt: &Timetable, day: u16, start: u32, access: Seq<Foot>) -> bool {
        &&& self.best@.len() == tt.stops@.len()
        &&& labels_true(tt, day, start, access, self.rode@, self.reached@)
        &&& best_is_least(self.best@, self.reached@)
        &&& rounds_improve(self.reached@, tt.stops@.len() as int)
        &&& all_closed(tt, day, start, access, self.best@, self.rode@, self.reached@)
        &&& rounds_closed(tt, day, start, access, self.rode@, self.reached@)
    }
}

/// One more round keeps every label true.
#[verifier::rlimit(50)]
pub proof fn lemma_labels_extend(
    tt: &Timetable,
    day: u16,
    start: u32,
    access: Seq<Foot>,
    best0: Seq<u32>,
    best1: Seq<u32>,
    best2: Seq<u32>,
    rode: Seq<Vec<Label>>,
    reached: Seq<Vec<Label>>,
    new_rode: Vec<Label>,
    new_reached: Vec<Label>,
)
    requires
        round_ran(tt, day, best0, best1, best2, reached.last()@, new_rode@, new_reached@),
        labels_true(tt, day, start, access, rode, reached),
    ensures
        labels_true(tt, day, start, access, rode.push(new_rode), reached.push(new_reached)),
{
    let n = tt.stops@.len() as int;
    let last = rode.len() as int;
    let rode2 = rode.push(new_rode);
    let reached2 = reached.push(new_reached);
    assert(rode2[0] == rode[0] && reached2[0] == reached[0]);
    assert forall|k: int| 0 <= k < rode2.len() implies (#[trigger] rode2[k])@.len() == n by {
        if k < last {
            assert(rode2[k] == rode[k]);
        }
    }
    assert forall|k: int| 0 <= k < rode2.len() implies (#[trigger] reached2[k])@.len() == n by {
        if k < last {
            assert(reached2[k] == reached[k]);
        }
    }
    assert forall|k: int, s: int| 1 <= k < rode2.len() && 0 <= s < n implies ((
    #[trigger] rode2[k]@[s]).time < UNREACHED ==> rode_to(
        tt,
        day,
        reached2[k - 1]@,
        s,
        rode2[k]@[s],
    )) by {
        assert(reached2[k - 1] == reached[k - 1]);
        if k < last {
            assert(rode2[k] == rode[k]);
        } else {
            assert(rode2[k] == new_rode);
            assert(round_step(tt, day, reached.last()@, s, best0[s], best1[s], best2[s], new_rode@[s], new_reached@[s]));
        }
    }
    assert forall|k: int, s: int| 1 <= k < rode2.len() && 0 <= s < n implies (
    #[trigger] reached2[k]@[s]) == stay(rode2[k]@[s]) || walked_to(
        tt,
        rode2[k]@,
        s,
        reached2[k]@[s],
    ) by {
        if k < last {
            assert(rode2[k] == rode[k] && reached2[k] == reached[k]);
        } else {
            assert(rode2[k] == new_rode && reached2[k] == new_reached);
            assert(round_step(tt, day, reached.last()@, s, best0[s], best1[s], best2[s], new_rode@[s], new_reached@[s]));
        }
    }
    assert forall|k: int, s: int| 0 <= k < rode2.len() && 0 <= s < n implies (
    #[trigger] reached2[k]@[s]).time <= rode2[k]@[s].time by {
        if k < last {
            assert(rode2[k] == rode[k] && reached2[k] == reached[k]);
        } else {
            assert(rode2[k] == new_rode && reached2[k] == new_reached);
            assert(round_step(tt, day, reached.last()@, s, best0[s], best1[s], best2[s], new_rode@[s], new_reached@[s]));
        }
    }
}

/// What one round does to one stop: first [`kept_or_rode`], then
/// [`kept_or_walked`].
pub open spec fn round_step(
    tt: &Timetable,
    day: u16,
    from: Seq<Label>,
    s: int,
    best0: u32,
    best1: u32,
    best2: u32,
    rode: Label,
    reached: Label,
) -> bool {
    &&& (rode == no_label() && best1 == best0) || (rode.time == best1 && best1 < best0 && rode_to(
        tt,
        day,
        from,
        s,
        rode,
    ))
    &&& (reached == stay(rode) && best2 == best1) || (reached.time == best2 && best2 < best1)
}

/// What one round does to the labels and to the best times, from `best0`
/// over `best1` after the rides to `best2` after the walks.
pub open spec fn round_ran(
    tt: &Timetable,
    day: u16,
    best0: Seq<u32>,
    best1: Seq<u32>,
    best2: Seq<u32>,
    from: Seq<Label>,
    rode: Seq<Label>,
    reached: Seq<Label>,
) -> bool {
    let n = tt.stops@.len();
    &&& best0.len() == n
    &&& best1.len() == n
    &&& best2.len() == n
    &&& rode.len() == n
    &&& reached.len() == n
    &&& forall|s: int|
        0 <= s < n ==> #[trigger] round_step(
            tt,
            day,
            from,
            s,
            best0[s],
            best1[s],
            best2[s],
            rode[s],
            reached[s],
        )
    &&& forall|s: int|
        0 <= s < n ==> (#[trigger] reached[s]) == stay(rode[s]) || walked_to(tt, rode, s, reached[s])
}

/// One more round keeps the best times the least of the labels, and each
/// label of the new round betters every label before it.
#[verifier::rlimit(50)]
pub proof fn lemma_best_extend(
    tt: &Timetable,
    day: u16,
    best0: Seq<u32>,
    best1: Seq<u32>,
    best2: Seq<u32>,
    reached: Seq<Vec<Label>>,
    new_rode: Vec<Label>,
    new_reached: Vec<Label>,
)
    requires
        reached.len() >= 1,
        round_ran(tt, day, best0, best1, best2, reached.last()@, new_rode@, new_reached@),
        forall|k: int| 0 <= k < reached.len() ==> (#[trigger] reached[k])@.len() == tt.stops@.len(),
        best_is_least(best0, reached),
        rounds_improve(reached, tt.stops@.len() as int),
    ensures
        best_is_least(best2, reached.push(new_reached)),
        rounds_improve(reached.push(new_reached), tt.stops@.len() as int),
        forall|s: int| 0 <= s < tt.stops@.len() ==> #[trigger] best2[s] <= best1[s] <= best0[s],
{
    let n = tt.stops@.len() as int;
    let last = reached.len() as int;
    let reached2 = reached.push(new_reached);
    let from = reached.last()@;
    assert(reached2[last] == new_reached);
    assert forall|s: int| 0 <= s < n implies #[trigger] best2[s] <= best1[s] <= best0[s] by {
        assert(round_step(tt, day, from, s, best0[s], best1[s], best2[s], new_rode@[s], new_reached@[s]));
    }
    assert forall|k: int, s: int| 0 <= k < reached2.len() && 0 <= s < best2.len() implies best2[s]
        <= (#[trigger] reached2[k]@[s]).time by {
        assert(round_step(tt, day, from, s, best0[s], best1[s], best2[s], new_rode@[s], new_reached@[s]));
        if k < last {
            assert(reached2[k] == reached[k]);
            assert(best0[s] <= reached[k]@[s].time);
        }
    }
    assert forall|s: int| 0 <= s < best2.len() && #[trigger] best2[s] < UNREACHED implies exists|
        k: int,
    |
        0 <= k < reached2.len() && (#[trigger] reached2[k]@[s]).time == best2[s] by {
        assert(round_step(tt, day, from, s, best0[s], best1[s], best2[s], new_rode@[s], new_reached@[s]));
        if best2[s] == best0[s] {
            let k = choose|k: int|
                0 <= k < reached.len() && (#[trigger] reached[k]@[s]).time == best0[s];
            assert(reached2[k] == reached[k]);
            assert(reached2[k]@[s].time == best2[s]);
        } else {
            assert(reached2[last]@[s].time == best2[s]);
        }
    }
    assert forall|j: int, k: int, s: int|
        0 <= j < k < reached2.len() && 0 <= s < n && (#[trigger] reached2[k]@[s]).time
            < UNREACHED implies reached2[k]@[s].time < (#[trigger] reached2[j]@[s]).time by {
        assert(reached2[j] == reached[j]);
        if k < last {
            assert(reached2[k] == reached[k]);
        } else {
            assert(round_step(tt, day, from, s, best0[s], best1[s], best2[s], new_rode@[s], new_reached@[s]));
            assert(best0[s] <= reached[j]@[s].time);
        }
    }
}

/// One more round leaves nothing out.
#[verifier::rlimit(50)]
pub proof fn lemma_closed_extend(
    tt: &Timetable,
    day: u16,
    start: u32,
    access: Seq<Foot>,
    best0: Seq<u32>,
    best1: Seq<u32>,
    best2: Seq<u32>,
    rode: Seq<Vec<Label>>,
    reached: Seq<Vec<Label>>,
    new_rode: Vec<Label>,
    new_reached: Vec<Label>,
)
    requires
        tt.wf(),
        rode.len() == reached.len(),
        rode.len() >= 1,
        best0.len() == tt.stops@.len(),
        best1.len() == tt.stops@.len(),
        best2.len() == tt.stops@.len(),
        forall|s: int| 0 <= s < tt.stops@.len() ==> #[trigger] best2[s] <= best1[s] <= best0[s],
        all_closed(tt, day, start, access, best0, rode, reached),
        forall|p: int|
            0 <= p < tt.patterns@.len() ==> #[trigger] pattern_closed(
                tt,
                day,
                reached.last()@,
                best1,
                p,
            ),
        walks_closed(tt, new_rode@, best2),
    ensures
        all_closed(tt, day, start, access, best2, rode.push(new_rode), reached.push(new_reached)),
{
    let last = rode.len() as int;
    let rode2 = rode.push(new_rode);
    let reached2 = reached.push(new_reached);
    assert forall|x: int| 0 <= x < best2.len() implies best2[x] <= #[trigger] best0[x] by {
        assert(best2[x] <= best1[x] <= best0[x]);
    }
    assert forall|x: int| 0 <= x < best2.len() implies best2[x] <= #[trigger] best1[x] by {
        assert(best2[x] <= best1[x] <= best0[x]);
    }
    assert forall|k: int, p: int|
        1 <= k < rode2.len() && 0 <= p < tt.patterns@.len() implies #[trigger] pattern_closed(
        tt,
        day,
        reached2[k - 1]@,
        best2,
        p,
    ) by {
        assert(reached2[k - 1] == reached[k - 1]);
        if k < last {
            assert(pattern_closed(tt, day, reached[k - 1]@, best0, p));
            lemma_closed_upto_lower(
                tt,
                day,
                reached[k - 1]@,
                best0,
                best2,
                p,
                tt.patterns@[p].stops@.len() as int,
            );
        } else {
            assert(pattern_closed(tt, day, reached.last()@, best1, p));
            lemma_closed_upto_lower(
                tt,
                day,
                reached.last()@,
                best1,
                best2,
                p,
                tt.patterns@[p].stops@.len() as int,
            );
        }
    }
    assert forall|k: int| 1 <= k < rode2.len() implies walks_closed(
        tt,
        (#[trigger] rode2[k])@,
        best2,
    ) by {
        if k < last {
            assert(rode2[k] == rode[k]);
            lemma_walks_closed_lower(tt, rode[k]@, best0, best2);
        } else {
            assert(rode2[k] == new_rode);
        }
    }
    assert forall|j: int|
        0 <= j < access.len() && (#[trigger] access[j]).stop < best2.len() implies best2[access[j].stop as int]
        <= start + access[j].seconds by {
        assert(best2[access[j].stop as int] <= best1[access[j].stop as int] <= best0[access[j].stop as int]);
    }
}

/// The best time of stop `s` after round `k`: the least of its labels in
/// the rounds 0 to `k`.
pub open spec fn best_after(reached: Seq<Vec<Label>>, k: int, s: int) -> int
    decreases k,
{
    if k <= 0 {
        reached[0]@[s].time as int
    } else if reached[k]@[s].time < best_after(reached, k - 1, s) {
        reached[k]@[s].time as int
    } else {
        best_after(reached, k - 1, s)
    }
}

/// Monotonicity: the best time of a stop after a round is no later than
/// its best time after the round before.
pub proof fn lemma_best_never_rises(reached: Seq<Vec<Label>>, k: int, s: int)
    requires
        1 <= k,
    ensures
        best_after(reached, k, s) <= best_after(reached, k - 1, s),
{
}

/// The best time after round `k` is no later than any label up to that
/// round, and it is one of them.
pub proof fn lemma_best_after_least(reached: Seq<Vec<Label>>, k: int, s: int)
    requires
        0 <= k,
    ensures
        forall|j: int| 0 <= j <= k ==> best_after(reached, k, s) <= (#[trigger] reached[j]@[s]).time,
        exists|j: int| 0 <= j <= k && best_after(reached, k, s) == (#[trigger] reached[j]@[s]).time,
    decreases k,
{
    if k > 0 {
        lemma_best_after_least(reached, k - 1, s);
        let w = choose|j: int|
            0 <= j <= k - 1 && best_after(reached, k - 1, s) == (#[trigger] reached[j]@[s]).time;
        if reached[k]@[s].time < best_after(reached, k - 1, s) {
            assert(best_after(reached, k, s) == reached[k]@[s].time);
        } else {
            assert(best_after(reached, k, s) == reached[w]@[s].time);
        }
    } else {
        assert(best_after(reached, k, s) == reached[0]@[s].time);
    }
}

/// The best time that a finished search holds for a stop is its best time
/// after the last round.
pub proof fn lemma_best_is_last(best: Seq<u32>, reached: Seq<Vec<Label>>, s: int)
    requires
        reached.len() >= 1,
        0 <= s < best.len(),
        best_is_least(best, reached),
    ensures
        best[s] == best_after(reached, reached.len() - 1, s),
{
    let last = reached.len() - 1;
    lemma_best_after_least(reached, last, s);
    let w = choose|j: int|
        0 <= j <= last && best_after(reached, last, s) == (#[trigger] reached[j]@[s]).time;
    assert(best[s] <= reached[w]@[s].time);
    if best[s] < UNREACHED {
        let k = choose|k: int| 0 <= k < reached.len() && (#[trigger] reached[k]@[s]).time == best[s];
        assert(best_after(reached, last, s) <= reached[k]@[s].time);
    } else {
        assert(best_after(reached, last, s) <= reached[0]@[s].time);
    }
}

/// The best times of all stops after round `k`.
pub open spec fn bests_after(reached: Seq<Vec<Label>>, k: int, n: int) -> Seq<u32> {
    Seq::new(n as nat, |s: int| best_after(reached, k, s) as u32)
}

/// Round by round nothing was left out: the best times after round 0
/// account for every walk from the origin, and the best times after each
/// later round account for every ride that can be caught from the labels of
/// the round before and for every walk from a stop where a vehicle of the
/// round set the traveller down.
pub open spec fn rounds_closed(
    tt: &Timetable,
    day: u16,
    start: u32,
    access: Seq<Foot>,
    rode: Seq<Vec<Label>>,
    reached: Seq<Vec<Label>>,
) -> bool {
    let n = tt.stops@.len() as int;
    &&& access_closed(access, start, bests_after(reached, 0, n))
    &&& forall|k: int, p: int|
        1 <= k < rode.len() && 0 <= p < tt.patterns@.len() ==> #[trigger] pattern_closed(
            tt,
            day,
            reached[k - 1]@,
            bests_after(reached, k, n),
            p,
        )
    &&& forall|k: int|
        1 <= k < rode.len() ==> walks_closed(tt, (#[trigger] rode[k])@, bests_after(reached, k, n))
}

/// The best time after a round looks only at the rounds up to it.
pub proof fn lemma_best_after_push(reached: Seq<Vec<Label>>, more: Vec<Label>, k: int, s: int)
    requires
        0 <= k < reached.len(),
    ensures
        best_after(reached.push(more), k, s) == best_after(reached, k, s),
    decreases k,
{
    assert(reached.push(more)[k] == reached[k]);
    assert(reached.push(more)[0] == reached[0]);
    if k > 0 {
        lemma_best_after_push(reached, more, k - 1, s);
    }
}

/// The best time of a stop never rises from an earlier round to a later.
pub proof fn lemma_best_after_falls(reached: Seq<Vec<Label>>, j: int, k: int, s: int)
    requires
        0 <= j <= k,
    ensures
        best_after(reached, k, s) <= best_after(reached, j, s),
    decreases k - j,
{
    if j < k {
        lemma_best_after_falls(reached, j, k - 1, s);
    }
}

/// One more round leaves nothing out, round by round.
#[verifier::rlimit(50)]
pub proof fn lemma_rounds_closed_extend(
    tt: &Timetable,
    day: u16,
    start: u32,
    access: Seq<Foot>,
    best1: Seq<u32>,
    best2: Seq<u32>,
    rode: Seq<Vec<Label>>,
    reached: Seq<Vec<Label>>,
    new_rode: Vec<Label>,
    new_reached: Vec<Label>,
)
    requires
        tt.wf(),
        rode.len() == reached.len(),
        rode.len() >= 1,
        best1.len() == tt.stops@.len(),
        best2.len() == tt.stops@.len(),
        forall|s: int| 0 <= s < tt.stops@.len() ==> best2[s] <= #[trigger] best1[s],
        best_is_least(best2, reached.push(new_reached)),
        rounds_closed(tt, day, start, access, rode, reached),
        forall|p: int|
            0 <= p < tt.patterns@.len() ==> #[trigger] pattern_closed(
                tt,
                day,
                reached.last()@,
                best1,
                p,
            ),
        walks_closed(tt, new_rode@, best2),
    ensures
        rounds_closed(tt, day, start, access, rode.push(new_rode), reached.push(new_reached)),
{
    let n = tt.stops@.len() as int;
    let last = rode.len() as int;
    let rode2 = rode.push(new_rode);
    let reached2 = reached.push(new_reached);
    assert forall|k: int| 0 <= k < last implies #[trigger] bests_after(reached2, k, n) == bests_after(
        reached,
        k,
        n,
    ) by {
        assert forall|s: int| 0 <= s < n implies bests_after(reached2, k, n)[s] == bests_after(
            reached,
            k,
            n,
        )[s] by {
            lemma_best_after_push(reached, new_reached, k, s);
        }
        assert(bests_after(reached2, k, n) =~= bests_after(reached, k, n));
    }
    assert(bests_after(reached2, last, n) == best2) by {
        assert forall|s: int| 0 <= s < n implies bests_after(reached2, last, n)[s] == best2[s] by {
            lemma_best_is_last(best2, reached2, s);
        }
        assert(bests_after(reached2, last, n) =~= best2);
    }
    assert(bests_after(reached2, 0, n) == bests_after(reached, 0, n));
    assert forall|k: int, p: int|
        1 <= k < rode2.len() && 0 <= p < tt.patterns@.len() implies #[trigger] pattern_closed(
        tt,
        day,
        reached2[k - 1]@,
        bests_after(reached2, k, n),
        p,
    ) by {
        assert(reached2[k - 1] == reached[k - 1]);
        if k < last {
            assert(bests_after(reached2, k, n) == bests_after(reached, k, n));
            assert(pattern_closed(tt, day, reached[k - 1]@, bests_after(reached, k, n), p));
        } else {
            assert(pattern_closed(tt, day, reached.last()@, best1, p));
            lemma_closed_upto_lower(
                tt,
                day,
                reached.last()@,
                best1,
                best2,
                p,
                tt.patterns@[p].stops@.len() as int,
            );
        }
    }
    assert forall|k: int| 1 <= k < rode2.len() implies walks_closed(
        tt,
        (#[trigger] rode2[k])@,
        bests_after(reached2, k, n),
    ) by {
        if k < last {
            assert(rode2[k] == rode[k]);
            assert(bests_after(reached2, k, n) == bests_after(reached, k, n));
        } else {
            assert(rode2[k] == new_rode);
        }
    }
}

/// The stop where rides end that start at `first`.
pub open spec fn rides_end(first: u32, rides: Seq<crate::journey::Hop>) -> u32 {
    if rides.len() == 0 {
        first
    } else {
        rides.last().to
    }
}

/// When rides end that start after a walk of `seconds` from the origin.
pub open spec fn rides_arrive(start: u32, seconds: u32, rides: Seq<crate::journey::Hop>) -> int {
    if rides.len() == 0 {
        start + seconds
    } else {
        rides.last().arrive as int
    }
}

/// Rides are found: a journey that walks from the origin to a stop and
/// then only rides, changing at the stops where it alights, ends no earlier
/// than the best time of its last stop after as many rounds as it rides,
/// where the search has run that many rounds.
#[verifier::rlimit(50)]
pub proof fn lemma_rides_found(
    tt: &Timetable,
    day: u16,
    start: u32,
    access: Seq<Foot>,
    rode: Seq<Vec<Label>>,
    reached: Seq<Vec<Label>>,
    first: u32,
    seconds: u32,
    rides: Seq<crate::journey::Hop>,
)
    requires
        tt.wf(),
        labels_true(tt, day, start, access, rode, reached),
        rounds_closed(tt, day, start, access, rode, reached),
        first < tt.stops@.len(),
        access.contains(Foot { stop: first, seconds }),
        crate::journey::hops_chained(tt, day, rides),
        forall|i: int| 0 <= i < rides.len() ==> (#[trigger] rides[i]).ride,
        rides.len() > 0 ==> rides[0].from == first && start + seconds <= rides[0].depart,
        rides.len() < reached.len(),
    ensures
        rides_end(first, rides) < tt.stops@.len(),
        best_after(reached, rides.len() as int, rides_end(first, rides) as int) <= rides_arrive(
            start,
            seconds,
            rides,
        ),
    decreases rides.len(),
{
    let n = tt.stops@.len() as int;
    let m = rides.len() as int;
    if m == 0 {
        let j = choose|j: int| 0 <= j < access.len() && access[j] == (Foot { stop: first, seconds });
        assert(access[j].stop < bests_after(reached, 0, n).len());
        assert(bests_after(reached, 0, n)[first as int] <= start + seconds);
        lemma_best_after_least(reached, 0, first as int);
    } else {
        let before = rides.drop_last();
        let h = rides.last();
        assert(crate::journey::hops_chained(tt, day, before)) by {
            assert forall|i: int| 0 <= i < before.len() implies crate::journey::hop_true(
                tt,
                day,
                #[trigger] before[i],
            ) by {
                assert(before[i] == rides[i]);
            }
            assert forall|i: int| 0 <= i < before.len() - 1 implies (#[trigger] before[i]).to
                == before[i + 1].from && before[i].arrive <= before[i + 1].depart by {
                assert(before[i] == rides[i] && before[i + 1] == rides[i + 1]);
            }
        }
        assert forall|i: int| 0 <= i < before.len() implies (#[trigger] before[i]).ride by {
            assert(before[i] == rides[i]);
        }
        if before.len() > 0 {
            assert(before[0] == rides[0]);
        }
        lemma_rides_found(tt, day, start, access, rode, reached, first, seconds, before);
        let from = rides_end(first, before) as int;
        let left = rides_arrive(start, seconds, before);
        assert(crate::journey::hop_true(tt, day, rides[m - 1]));
        assert(h.from == from && left <= h.depart) by {
            if before.len() > 0 {
                assert(before.last() == rides[m - 2]);
                assert(rides[m - 2].to == rides[(m - 2) + 1].from);
            }
        }
        lemma_best_after_least(reached, m - 1, from);
        let k = choose|k: int|
            0 <= k <= m - 1 && best_after(reached, m - 1, from) == (#[trigger] reached[k]@[from]).time;
        lemma_best_after_least(reached, m, h.to as int);
        if h.arrive < UNREACHED {
            let (b, a) = choose|b: int, a: int|
                #![trigger tt.stop_at(h.pattern as int, b), tt.stop_at(h.pattern as int, a)]
                {
                    &&& tt.on_pattern(h.pattern as int, h.trip as int, b)
                    &&& b < a < tt.patterns@[h.pattern as int].stops@.len()
                    &&& day_bit(tt.trip(h.pattern as int, h.trip as int).days@, day)
                    &&& tt.stop_at(h.pattern as int, b) == h.from
                    &&& tt.stop_at(h.pattern as int, a) == h.to
                    &&& tt.departure(h.pattern as int, h.trip as int, b) == h.depart
                    &&& tt.arrival(h.pattern as int, h.trip as int, a) == h.arrive
                };
            let p = h.pattern as int;
            let t = h.trip as int;
            assert(reached[k]@.len() == n);
            assert(catchable(tt, day, reached[k]@, p, t, b));
            assert(pattern_closed(tt, day, reached[(k + 1) - 1]@, bests_after(reached, k + 1, n), p));
            assert(bests_after(reached, k + 1, n)[tt.stop_at(p, a)] <= tt.arrival(p, t, a));
            lemma_best_after_least(reached, k + 1, h.to as int);
            lemma_best_after_falls(reached, k + 1, m, h.to as int);
        }
    }
}

/// Where no walk from the origin leads to a stop of the table, true labels
/// label nothing.
pub proof fn lemma_unreached_without_access(
    tt: &Timetable,
    day: u16,
    start: u32,
    access: Seq<Foot>,
    rode: Seq<Vec<Label>>,
    reached: Seq<Vec<Label>>,
)
    requires
        tt.wf(),
        labels_true(tt, day, start, access, rode, reached),
        forall|j: int| 0 <= j < access.len() ==> (#[trigger] access[j]).stop >= tt.stops@.len(),
    ensures
        forall|k: int, s: int|
            0 <= k < reached.len() && 0 <= s < tt.stops@.len() ==> (#[trigger] reached[k]@[s]).time
                == UNREACHED,
{
    lemma_unreached_upto(tt, day, start, access, rode, reached, reached.len() - 1);
}

/// Where no walk from the origin leads to a stop of the table, true labels
/// label nothing in the rounds 0 to `upto`.
#[verifier::rlimit(50)]
pub proof fn lemma_unreached_upto(
    tt: &Timetable,
    day: u16,
    start: u32,
    access: Seq<Foot>,
    rode: Seq<Vec<Label>>,
    reached: Seq<Vec<Label>>,
    upto: int,
)
    requires
        tt.wf(),
        labels_true(tt, day, start, access, rode, reached),
        forall|j: int| 0 <= j < access.len() ==> (#[trigger] access[j]).stop >= tt.stops@.len(),
        0 <= upto < reached.len(),
    ensures
        forall|k: int, s: int|
            0 <= k <= upto && 0 <= s < tt.stops@.len() ==> (#[trigger] reached[k]@[s]).time
                == UNREACHED,
    decreases upto,
{
    let n = tt.stops@.len();
    if upto > 0 {
        lemma_unreached_upto(tt, day, start, access, rode, reached, upto - 1);
    }
    assert forall|s: int| 0 <= s < n implies (#[trigger] reached[upto]@[s]).time == UNREACHED by {
        assert(reached[upto]@[s].time <= rode[upto]@[s].time);
        if upto == 0 {
            assert(reached[0]@[s] == stay(rode[0]@[s]));
            if rode[0]@[s].time < UNREACHED {
                assert(walked_in(access, start, s, rode[0]@[s]));
            }
        } else {
            assert(reached[upto - 1]@.len() == n);
            assert(rode[upto]@.len() == n);
            assert forall|x: int| 0 <= x < n implies (#[trigger] rode[upto]@[x]).time
                == UNREACHED by {
                if rode[upto]@[x].time < UNREACHED {
                    let l = rode[upto]@[x];
                    assert(rode_to(tt, day, reached[upto - 1]@, x, l));
                    match l.step {
                        Step::Ride { pattern, trip, board, alight } => {
                            tt.lemma_on_pattern(pattern as int, trip as int, board as int);
                            let b = tt.stop_at(pattern as int, board as int);
                            assert(reached[upto - 1]@[b].time == UNREACHED);
                        },
                        _ => {},
                    }
                }
            }
            assert(reached[upto]@[s] == stay(rode[upto]@[s]) || walked_to(
                tt,
                rode[upto]@,
                s,
                reached[upto]@[s],
            ));
            if walked_to(tt, rode[upto]@, s, reached[upto]@[s]) {
                match reached[upto]@[s].step {
                    Step::Walk { from, seconds } => {
                        assert(rode[upto]@[from as int].time == UNREACHED);
                    },
                    _ => {},
                }
            }
        }
    }
}

/// Runs the rounds of the search.
///
/// Round 0 walks from the origin along `access`, starting at `start` seconds
/// after the midnight of day `day` of the calendar. Each further round rides
/// one vehicle that runs on that day and then walks at most one stored
/// transfer. The search ends after `max_rounds` such rounds, or as soon as a
/// round has labelled no stop.
#[verifier::rlimit(50)]
pub fn search(tt: &Timetable, day: u16, start: u32, access: &Vec<Foot>, max_rounds: usize) -> (r:
    Search)
    requires
        tt.wf(),
    ensures
        r.wf(tt, day, start, access@),
        0 <= r.rounds() <= max_rounds,
        r.rounds() < max_rounds ==> forall|s: int|
            0 <= s < tt.stops@.len() ==> (#[trigger] r.reached@.last()@[s]).time == UNREACHED,
{
    let n = tt.stop_count();
    let (mut best, rode0) = access_round(n, start, access);
    let reached0 = stay_all(&rode0);
    let mut rode: Vec<Vec<Label>> = Vec::new();
    let mut reached: Vec<Vec<Label>> = Vec::new();
    rode.push(rode0);
    reached.push(reached0);
    proof {
        assert(best_is_least(best@, reached@)) by {
            assert forall|s: int| 0 <= s < best@.len() && #[trigger] best@[s] < UNREACHED implies exists|
                k: int,
            |
                0 <= k < reached@.len() && (#[trigger] reached@[k]@[s]).time == best@[s] by {
                assert(reached@[0]@[s].time == best@[s]);
            }
        }
    }
    proof {
        assert(bests_after(reached@, 0, n as int) =~= best@) by {
            assert forall|s: int| 0 <= s < n implies bests_after(reached@, 0, n as int)[s]
                == best@[s] by {
                assert(reached@[0]@[s] == stay(rode@[0]@[s]));
            }
        }
    }
    let mut k: usize = 0;
    let mut open = true;
    while open && k < max_rounds
        invariant
            tt.wf(),
            n == tt.stops@.len(),
            best@.len() == n,
            rode@.len() == k + 1,
            k <= max_rounds,
            labels_true(tt, day, start, access@, rode@, reached@),
            best_is_least(best@, reached@),
            rounds_improve(reached@, n as int),
            all_closed(tt, day, start, access@, best@, rode@, reached@),
            rounds_closed(tt, day, start, access@, rode@, reached@),
            !open ==> forall|s: int|
                0 <= s < n ==> (#[trigger] reached@.last()@[s]).time == UNREACHED,
        decreases max_rounds - k + if open { 1int } else { 0int },
    {
        if any_labelled(&reached[k]) {
            let ghost best0 = best@;
            let new_rode = ride_round(tt, day, &reached[k], &mut best);
            let ghost best1 = best@;
            let new_reached = walk_round(tt, &new_rode, &mut best);
            proof {
                let from = reached@.last()@;
                assert(reached@.last() == reached@[k as int]);
                assert forall|s: int| 0 <= s < n implies #[trigger] round_step(
                    tt,
                    day,
                    from,
                    s,
                    best0[s],
                    best1[s],
                    best@[s],
                    new_rode@[s],
                    new_reached@[s],
                ) by {
                    assert(kept_or_rode(
                        tt,
                        day,
                        from,
                        s,
                        best0[s],
                        no_label(),
                        best1[s],
                        new_rode@[s],
                    ));
                    assert(kept_or_walked(tt, new_rode@, s, best1[s], best@[s], new_reached@[s]));
                }
                assert forall|s: int| 0 <= s < n implies (#[trigger] new_reached@[s]) == stay(
                    new_rode@[s],
                ) || walked_to(tt, new_rode@, s, new_reached@[s]) by {
                    assert(kept_or_walked(tt, new_rode@, s, best1[s], best@[s], new_reached@[s]));
                }
                lemma_labels_extend(
                    tt,
                    day,
                    start,
                    access@,
                    best0,
                    best1,
                    best@,
                    rode@,
                    reached@,
                    new_rode,
                    new_reached,
                );
                lemma_best_extend(tt, day, best0, best1, best@, reached@, new_rode, new_reached);
                lemma_rounds_closed_extend(
                    tt,
                    day,
                    start,
                    access@,
                    best1,
                    best@,
                    rode@,
                    reached@,
                    new_rode,
                    new_reached,
                );
                lemma_closed_extend(
                    tt,
                    day,
                    start,
                    access@,
                    best0,
                    best1,
                    best@,
                    rode@,
                    reached@,
                    new_rode,
                    new_reached,
                );
            }
            rode.push(new_rode);
            reached.push(new_reached);
            k += 1;
        } else {
            open = false;
        }
    }
    let found = Search { best, rode, reached };
    proof {
        reveal(Search::wf);
    }
    found
}

/// The labels of a finished search are true.
pub proof fn lemma_search_labels(
    found: &Search,
    tt: &Timetable,
    day: u16,
    start: u32,
    access: Seq<Foot>,
)
    requires
        found.wf(tt, day, start, access),
    ensures
        labels_true(tt, day, start, access, found.rode@, found.reached@),
        found.reached@.len() == found.rode@.len(),
        found.reached@.len() >= 1,
{
    reveal(Search::wf);
}

} // verus!
