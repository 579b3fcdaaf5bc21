//! The table of walks between stops.

use crate::raptor::Foot;
use crate::timetable::{transfers_ok, Timetable, Transfer, MAX_TRANSFER_SECONDS};
use vstd::prelude::*;

verus! {

/// The candidate is worth storing as a walk out of stop `from`: it leads to
/// another stop of the table and takes no longer than
/// [`MAX_TRANSFER_SECONDS`].
pub open spec fn worth_storing(c: Foot, from: int, n_stops: int) -> bool {
    &&& c.stop < n_stops
    &&& c.stop != from
    &&& c.seconds <= MAX_TRANSFER_SECONDS
}

/// The walk that stores a candidate.
pub open spec fn as_transfer(c: Foot) -> Transfer {
    Transfer { to: c.stop, seconds: c.seconds }
}

/// `list` stores the candidates at `places`, each once, and among the first
/// `upto` candidates every one that is worth storing.
pub open spec fn stores_upto(
    cands: Seq<Foot>,
    from: int,
    n_stops: int,
    list: Seq<Transfer>,
    places: Seq<int>,
    upto: int,
) -> bool {
    &&& places.len() == list.len()
    &&& forall|i: int|
        0 <= i < list.len() ==> 0 <= (#[trigger] places[i]) < upto && list[i] == as_transfer(
            cands[places[i]],
        ) && worth_storing(cands[places[i]], from, n_stops)
    &&& forall|i: int, j: int|
        0 <= i < j < list.len() ==> (#[trigger] places[i]) != (#[trigger] places[j])
    &&& forall|c: int|
        0 <= c < upto && worth_storing(#[trigger] cands[c], from, n_stops) ==> places.contains(c)
    &&& forall|i: int, j: int|
        0 <= i <= j < list.len() ==> (#[trigger] list[i]).seconds <= (#[trigger] list[j]).seconds
}

/// `list` holds the walks out of stop `from`: one for each candidate that
/// is [`worth_storing`] and no other, by rising duration.
pub open spec fn walks_of(cands: Seq<Foot>, from: int, n_stops: int, list: Seq<Transfer>) -> bool {
    exists|places: Seq<int>| stores_upto(cands, from, n_stops, list, places, cands.len() as int)
}

/// A candidate put at its place among the stored walks.
#[verifier::rlimit(50)]
pub proof fn lemma_store(
    cands: Seq<Foot>,
    from: int,
    n_stops: int,
    list: Seq<Transfer>,
    places: Seq<int>,
    j: int,
    pos: int,
)
    requires
        0 <= j < cands.len(),
        0 <= pos <= list.len(),
        stores_upto(cands, from, n_stops, list, places, j),
        worth_storing(cands[j], from, n_stops),
        forall|i: int| pos <= i < list.len() ==> cands[j].seconds < (#[trigger] list[i]).seconds,
        pos > 0 ==> list[pos - 1].seconds <= cands[j].seconds,
    ensures
        stores_upto(
            cands,
            from,
            n_stops,
            list.insert(pos, as_transfer(cands[j])),
            places.insert(pos, j),
            j + 1,
        ),
{
    let longer = list.insert(pos, as_transfer(cands[j]));
    let moved = places.insert(pos, j);
    assert(moved[pos] == j);
    assert forall|i: int| 0 <= i < longer.len() implies 0 <= (#[trigger] moved[i]) < j + 1 && longer[i]
        == as_transfer(cands[moved[i]]) && worth_storing(cands[moved[i]], from, n_stops) by {
        if i < pos {
            assert(moved[i] == places[i]);
        } else if i > pos {
            assert(moved[i] == places[i - 1]);
        }
    }
    assert forall|i: int, k: int| 0 <= i < k < longer.len() implies (#[trigger] moved[i]) != (
    #[trigger] moved[k]) by {
        let oi = if i < pos {
            i
        } else {
            i - 1
        };
        let ok = if k < pos {
            k
        } else {
            k - 1
        };
        if i != pos {
            assert(moved[i] == places[oi]);
        }
        if k != pos {
            assert(moved[k] == places[ok]);
        }
        if i != pos && k != pos {
            assert(places[oi] != places[ok]);
        }
    }
    assert forall|c: int|
        0 <= c < j + 1 && worth_storing(#[trigger] cands[c], from, n_stops) implies moved.contains(
        c,
    ) by {
        if c < j {
            assert(places.contains(c));
            let w = choose|w: int| 0 <= w < places.len() && places[w] == c;
            if w < pos {
                assert(moved[w] == c);
            } else {
                assert(moved[w + 1] == c);
            }
        }
    }
    assert forall|i: int, k: int| 0 <= i <= k < longer.len() implies (#[trigger] longer[i]).seconds <= (
    #[trigger] longer[k]).seconds by {
        let oi = if i < pos {
            i
        } else {
            i - 1
        };
        let ok = if k < pos {
            k
        } else {
            k - 1
        };
        if i != pos {
            assert(longer[i] == list[oi]);
        }
        if k != pos {
            assert(longer[k] == list[ok]);
        }
        if i != pos && k != pos {
            assert(list[oi].seconds <= list[ok].seconds);
        } else if k == pos && i != pos {
            assert(list[oi].seconds <= list[pos - 1].seconds);
        }
    }
}

/// A candidate that is not worth storing is passed over.
pub proof fn lemma_pass_over(
    cands: Seq<Foot>,
    from: int,
    n_stops: int,
    list: Seq<Transfer>,
    places: Seq<int>,
    j: int,
)
    requires
        0 <= j < cands.len(),
        stores_upto(cands, from, n_stops, list, places, j),
        !worth_storing(cands[j], from, n_stops),
    ensures
        stores_upto(cands, from, n_stops, list, places, j + 1),
{
    assert forall|c: int|
        0 <= c < j + 1 && worth_storing(#[trigger] cands[c], from, n_stops) implies places.contains(
        c,
    ) by {
        assert(c < j);
    }
}

/// The walks out of stop `from`: the candidates that lead to another stop
/// of the table in no more than [`MAX_TRANSFER_SECONDS`], by rising
/// duration.
pub fn transfer_list(from: usize, n_stops: usize, cands: &Vec<Foot>) -> (list: Vec<Transfer>)
    ensures
        walks_of(cands@, from as int, n_stops as int, list@),
        transfers_ok(list@, from as int, n_stops as int),
{
    let mut list: Vec<Transfer> = Vec::new();
    let ghost mut places: Seq<int> = Seq::empty();
    let mut j: usize = 0;
    while j < cands.len()
        invariant
            j <= cands@.len(),
            stores_upto(cands@, from as int, n_stops as int, list@, places, j as int),
        decreases cands@.len() - j,
    {
        let c = cands[j];
        if (c.stop as usize) < n_stops && c.stop as usize != from && c.seconds
            <= MAX_TRANSFER_SECONDS {
            let mut pos: usize = list.len();
            while pos > 0 && list[pos - 1].seconds > c.seconds
                invariant
                    pos <= list@.len(),
                    forall|i: int| pos <= i < list@.len() ==> c.seconds < (#[trigger] list@[i]).seconds,
                decreases pos,
            {
                pos -= 1;
            }
            proof {
                lemma_store(cands@, from as int, n_stops as int, list@, places, j as int, pos as int);
                places = places.insert(pos as int, j as int);
            }
            list.insert(pos, Transfer { to: c.stop, seconds: c.seconds });
        } else {
            proof {
                lemma_pass_over(cands@, from as int, n_stops as int, list@, places, j as int);
            }
        }
        j += 1;
    }
    proof {
        assert forall|k: int| 0 <= k < list@.len() implies (#[trigger] list@[k]).to < n_stops
            && list@[k].to != from && list@[k].seconds <= MAX_TRANSFER_SECONDS by {
            assert(list@[k] == as_transfer(cands@[places[k]]));
        }
    }
    list
}

/// The candidates near stop `s`, or none where the lists end before `s`.
pub open spec fn candidates_of(cands: Seq<Vec<Foot>>, s: int) -> Seq<Foot> {
    if 0 <= s < cands.len() {
        cands[s]@
    } else {
        Seq::empty()
    }
}

/// `table` holds for each of the `n_stops` stops the walks that its
/// candidates give.
pub open spec fn table_of(cands: Seq<Vec<Foot>>, n_stops: int, table: Seq<Vec<Transfer>>) -> bool {
    &&& table.len() == n_stops
    &&& forall|s: int|
        0 <= s < n_stops ==> walks_of(candidates_of(cands, s), s, n_stops, (#[trigger] table[s])@)
            && transfers_ok(table[s]@, s, n_stops)
}

/// Builds the table of walks between `n_stops` stops. `cands[s]` lists the
/// stops near stop `s`, each with the seconds that the walk to it takes.
pub fn build_transfers(n_stops: usize, cands: &Vec<Vec<Foot>>) -> (table: Vec<Vec<Transfer>>)
    ensures
        table_of(cands@, n_stops as int, table@),
{
    let mut table: Vec<Vec<Transfer>> = Vec::new();
    let mut s: usize = 0;
    while s < n_stops
        invariant
            s <= n_stops,
            table@.len() == s,
            forall|x: int|
                0 <= x < s ==> walks_of(
                    candidates_of(cands@, x),
                    x,
                    n_stops as int,
                    (#[trigger] table@[x])@,
                ) && transfers_ok(table@[x]@, x, n_stops as int),
        decreases n_stops - s,
    {
        if s < cands.len() {
            table.push(transfer_list(s, n_stops, &cands[s]));
        } else {
            let none: Vec<Foot> = Vec::new();
            table.push(transfer_list(s, n_stops, &none));
        }
        s += 1;
    }
    table
}

/// The table stores a walk of `seconds` from stop `s` to stop `t`.
#[verifier::opaque]
pub open spec fn stored(table: Seq<Vec<Transfer>>, s: int, t: int, seconds: int) -> bool {
    &&& 0 <= s < table.len()
    &&& exists|j: int|
        0 <= j < table[s]@.len() && (#[trigger] table[s]@[j]).to == t && table[s]@[j].seconds
            == seconds
}

/// Stop `t` is a candidate near stop `s`, `seconds` away on foot.
#[verifier::opaque]
pub open spec fn candidate(cands: Seq<Vec<Foot>>, s: int, t: int, seconds: int) -> bool {
    exists|i: int|
        0 <= i < candidates_of(cands, s).len() && (#[trigger] candidates_of(cands, s)[i]).stop == t
            && candidates_of(cands, s)[i].seconds == seconds
}

/// The table stores a walk exactly where a candidate is worth storing.
#[verifier::rlimit(50)]
pub proof fn lemma_stored_iff(
    cands: Seq<Vec<Foot>>,
    n_stops: int,
    table: Seq<Vec<Transfer>>,
    s: int,
    t: int,
    seconds: int,
)
    requires
        table_of(cands, n_stops, table),
        0 <= s < n_stops,
    ensures
        stored(table, s, t, seconds) <==> candidate(cands, s, t, seconds) && 0 <= t < n_stops && t
            != s && seconds <= MAX_TRANSFER_SECONDS,
{
    reveal(stored);
    reveal(candidate);
    let list = table[s]@;
    let near = candidates_of(cands, s);
    assert(walks_of(near, s, n_stops, list));
    let places = choose|places: Seq<int>|
        stores_upto(near, s, n_stops, list, places, near.len() as int);
    if stored(table, s, t, seconds) {
        let j = choose|j: int|
            0 <= j < table[s]@.len() && (#[trigger] table[s]@[j]).to == t && table[s]@[j].seconds
                == seconds;
        assert(list[j] == as_transfer(near[places[j]]));
        assert(near[places[j]].stop == t);
    }
    if candidate(cands, s, t, seconds) && 0 <= t < n_stops && t != s && seconds
        <= MAX_TRANSFER_SECONDS {
        let i = choose|i: int|
            0 <= i < near.len() && (#[trigger] near[i]).stop == t && near[i].seconds == seconds;
        assert(worth_storing(near[i], s, n_stops));
        assert(places.contains(i));
        let w = choose|w: int| 0 <= w < places.len() && places[w] == i;
        assert(list[w] == as_transfer(near[places[w]]));
        assert(list[w].to == t);
    }
}

/// Transfer symmetry: where the walks between candidates are symmetric
/// within `epsilon` seconds, so are the stored walks. The walks are
/// symmetric within `epsilon` where, for each candidate `t` near a stop `s`
/// that is worth storing, `s` is a candidate near `t` whose walk differs by
/// no more than `epsilon` and is itself no longer than
/// [`MAX_TRANSFER_SECONDS`].
#[verifier::rlimit(50)]
pub proof fn lemma_transfers_symmetric(
    cands: Seq<Vec<Foot>>,
    n_stops: int,
    table: Seq<Vec<Transfer>>,
    epsilon: int,
    s: int,
    t: int,
    seconds: int,
)
    requires
        table_of(cands, n_stops, table),
        forall|a: int, b: int, w: int|
            0 <= a < n_stops && 0 <= b < n_stops && a != b && w <= MAX_TRANSFER_SECONDS
                && #[trigger] candidate(cands, a, b, w) ==> exists|back: int|
                #[trigger] candidate(cands, b, a, back) && back <= MAX_TRANSFER_SECONDS && -epsilon
                    <= w - back <= epsilon,
        stored(table, s, t, seconds),
    ensures
        exists|back: int| #[trigger] stored(table, t, s, back) && -epsilon <= seconds - back <= epsilon,
{
    assert(0 <= s < n_stops) by {
        reveal(stored);
    }
    lemma_stored_iff(cands, n_stops, table, s, t, seconds);
    assert(candidate(cands, s, t, seconds));
    let back = choose|back: int|
        #[trigger] candidate(cands, t, s, back) && back <= MAX_TRANSFER_SECONDS && -epsilon
            <= seconds - back <= epsilon;
    lemma_stored_iff(cands, n_stops, table, t, s, back);
    assert(stored(table, t, s, back));
}

impl Timetable {
    /// The timetable with the table of walks that the candidates give.
    /// `cands[s]` lists the stops near stop `s`, each with the seconds that
    /// the walk to it takes.
    pub fn with_transfers(self, cands: &Vec<Vec<Foot>>) -> (tt: Timetable)
        requires
            self.wf(),
        ensures
            tt.wf(),
            tt.stops == self.stops,
            tt.routes == self.routes,
            tt.trips == self.trips,
            tt.patterns == self.patterns,
            tt.calendar == self.calendar,
            tt.valhalla_tiles == self.valhalla_tiles,
            table_of(cands@, self.stops@.len() as int, tt.transfers@),
    {
        let table = build_transfers(self.stops.len(), cands);
        Timetable {
            stops: self.stops,
            routes: self.routes,
            trips: self.trips,
            patterns: self.patterns,
            transfers: table,
            calendar: self.calendar,
            valhalla_tiles: self.valhalla_tiles,
        }
    }
}

} // verus!
