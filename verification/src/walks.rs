//! Walking times on the road network.

use crate::geo::{nearest_place, stops_within, Place};
use crate::raptor::Foot;
use crate::timetable::{Timetable, MAX_TRANSFER_SECONDS};
use vstd::prelude::*;

verus! {

/// The time of a node that cannot be reached.
pub const FAR: u32 = u32::MAX;

/// A stretch of road that can be walked from the node that owns it to the
/// node `to` in `seconds`.
#[derive(Debug, Clone, Copy, PartialEq, Eq, Structural)]
pub struct Edge {
    pub to: u32,
    pub seconds: u32,
}

/// The road network for walkers: for each node the stretches of road that
/// lead out of it.
#[derive(Debug, Clone)]
pub struct RoadGraph {
    pub edges: Vec<Vec<Edge>>,
}

impl RoadGraph {
    /// Every stretch of road leads to a node of the network.
    pub open spec fn wf(&self) -> bool {
        forall|u: int, j: int|
            0 <= u < self.edges@.len() && 0 <= j < self.edges@[u]@.len() ==> (
            #[trigger] self.edges@[u]@[j]).to < self.edges@.len()
    }

    /// Decides [`RoadGraph::wf`].
    pub fn check(&self) -> (r: bool)
        ensures
            r == self.wf(),
    {
        let n = self.edges.len();
        let mut u: usize = 0;
        while u < n
            invariant
                u <= n,
                n == self.edges@.len(),
                forall|a: int, j: int|
                    0 <= a < u && 0 <= j < self.edges@[a]@.len() ==> (
                    #[trigger] self.edges@[a]@[j]).to < n,
            decreases n - u,
        {
            let mut j: usize = 0;
            while j < self.edges[u].len()
                invariant
                    u < n,
                    n == self.edges@.len(),
                    j <= self.edges@[u as int]@.len(),
                    forall|k: int| 0 <= k < j ==> (#[trigger] self.edges@[u as int]@[k]).to < n,
                decreases self.edges@[u as int]@.len() - j,
            {
                if self.edges[u][j].to as usize >= n {
                    return false;
                }
                j += 1;
            }
            u += 1;
        }
        true
    }

    /// The nodes `path` are a walk on the network: each is joined to the
    /// next by a stretch of road, and the stretches take `total` seconds
    /// together.
    pub open spec fn walk(&self, path: Seq<int>, total: int) -> bool
        decreases path.len(),
    {
        if path.len() == 0 {
            false
        } else if path.len() == 1 {
            0 <= path[0] < self.edges@.len() && total == 0
        } else {
            exists|j: int|
                0 <= j < self.edges@[path[path.len() - 2]]@.len() && (
                #[trigger] self.edges@[path[path.len() - 2]]@[j]).to == path.last() && self.walk(
                    path.drop_last(),
                    total - self.edges@[path[path.len() - 2]]@[j].seconds,
                ) && 0 <= path[path.len() - 2] < self.edges@.len()
        }
    }
}

/// The time `d` of a node stands for a walk from `from`: the node can be
/// reached from there in exactly that time.
pub open spec fn attained(g: &RoadGraph, from: int, v: int, d: u32) -> bool {
    exists|path: Seq<int>|
        #[trigger] g.walk(path, d as int) && path.len() > 0 && path[0] == from && path.last() == v
}

/// Every time but [`FAR`] stands for a walk from `from` of no more than
/// `limit` seconds.
pub open spec fn times_sound(g: &RoadGraph, from: int, limit: u32, times: Seq<u32>) -> bool {
    forall|v: int|
        0 <= v < times.len() && #[trigger] times[v] != FAR ==> times[v] <= limit && attained(
            g,
            from,
            v,
            times[v],
        )
}

/// No stretch of road shortens a time: where a node is reached and a
/// stretch leads on within the limit, the node at its end is reached no later.
pub open spec fn times_closed(g: &RoadGraph, limit: u32, times: Seq<u32>) -> bool {
    forall|u: int, j: int|
        0 <= u < g.edges@.len() && 0 <= j < g.edges@[u]@.len() && times[u] != FAR && times[u] + (
        #[trigger] g.edges@[u]@[j]).seconds <= limit ==> times[g.edges@[u]@[j].to as int] <= times[u]
            + g.edges@[u]@[j].seconds
}

/// The sum of the times, a node that is not reached counting as one more
/// than the limit.
pub open spec fn weight(times: Seq<u32>, limit: u32) -> nat
    decreases times.len(),
{
    if times.len() == 0 {
        0
    } else {
        weight(times.drop_last(), limit) + if times.last() == FAR {
            (limit + 1) as nat
        } else {
            times.last() as nat
        }
    }
}

/// A shorter time at one node makes the sum smaller.
pub proof fn lemma_weight_update(times: Seq<u32>, limit: u32, v: int, d: u32)
    requires
        0 <= v < times.len(),
        d <= limit,
        d < times[v],
    ensures
        weight(times.update(v, d), limit) < weight(times, limit),
    decreases times.len(),
{
    let after = times.update(v, d);
    if v == times.len() - 1 {
        assert(after.drop_last() =~= times.drop_last());
    } else {
        assert(after.drop_last() =~= times.drop_last().update(v, d));
        assert(after.last() == times.last());
        lemma_weight_update(times.drop_last(), limit, v, d);
    }
}

/// A walk that is led on by one stretch of road is a walk.
pub proof fn lemma_walk_on(g: &RoadGraph, path: Seq<int>, total: int, u: int, j: int)
    requires
        g.walk(path, total),
        path.len() > 0,
        path.last() == u,
        0 <= u < g.edges@.len(),
        0 <= j < g.edges@[u]@.len(),
    ensures
        g.walk(path.push(g.edges@[u]@[j].to as int), total + g.edges@[u]@[j].seconds),
{
    let next = path.push(g.edges@[u]@[j].to as int);
    assert(next.drop_last() =~= path);
    assert(next[next.len() - 2] == u);
}

/// The walking times from node `from` to all nodes of the network that
/// can be reached within `limit` seconds.
///
/// Each time stands for a walk, and no stretch of road shortens a time; so
/// each time is that of the shortest walk (see
/// [`lemma_walk_times_least`]). A node that cannot be reached within the
/// limit has the time [`FAR`].
#[verifier::rlimit(50)]
pub fn walk_times(g: &RoadGraph, from: usize, limit: u32) -> (times: Vec<u32>)
    requires
        g.wf(),
        from < g.edges@.len(),
        limit < FAR,
    ensures
        times@.len() == g.edges@.len(),
        times@[from as int] == 0,
        times_sound(g, from as int, limit, times@),
        times_closed(g, limit, times@),
{
    let n = g.edges.len();
    let mut times: Vec<u32> = Vec::new();
    let mut i: usize = 0;
    while i < n
        invariant
            i <= n,
            times@.len() == i,
            forall|k: int| 0 <= k < i ==> #[trigger] times@[k] == FAR,
        decreases n - i,
    {
        times.push(FAR);
        i += 1;
    }
    times[from] = 0;
    let mut queue: Vec<usize> = Vec::new();
    queue.push(from);
    proof {
        assert(g.walk(seq![from as int], 0));
        assert(attained(g, from as int, from as int, 0));
        assert(queue@[0] == from);
        assert(queue@.contains(from));
    }
    while queue.len() > 0
        invariant
            g.wf(),
            n == g.edges@.len(),
            from < n,
            limit < FAR,
            times@.len() == n,
            times@[from as int] == 0,
            times_sound(g, from as int, limit, times@),
            forall|k: int| 0 <= k < queue@.len() ==> #[trigger] queue@[k] < n,
            // Every stretch out of a node that does not wait in the queue is settled.
            forall|u: int, j: int|
                0 <= u < n && 0 <= j < g.edges@[u]@.len() && times@[u] != FAR && times@[u] + (
                #[trigger] g.edges@[u]@[j]).seconds <= limit && !queue@.contains(u as usize)
                    ==> times@[g.edges@[u]@[j].to as int] <= times@[u] + g.edges@[u]@[j].seconds,
        decreases weight(times@, limit), queue@.len(),
    {
        let ghost weight_before = weight(times@, limit);
        let ghost queue_before = queue@;
        let u = queue.pop().unwrap();
        let ghost rest = queue@;
        let here = times[u];
        let count = g.edges[u].len();
        proof {
            assert(queue_before =~= rest.push(u));
            assert forall|a: usize| a != u && !rest.contains(a) implies !queue_before.contains(a) by {
                if queue_before.contains(a) {
                    let k = choose|k: int| 0 <= k < queue_before.len() && queue_before[k] == a;
                    assert(rest[k] == a);
                }
            }
        }
        let mut j: usize = 0;
        while j < count
            invariant
                g.wf(),
                n == g.edges@.len(),
                from < n,
                u < n,
                limit < FAR,
                count == g.edges@[u as int]@.len(),
                j <= count,
                here == times@[u as int],
                times@.len() == n,
                times@[from as int] == 0,
                times_sound(g, from as int, limit, times@),
                forall|k: int| 0 <= k < queue@.len() ==> #[trigger] queue@[k] < n,
                rest.is_prefix_of(queue@),
                weight(times@, limit) < weight_before || (weight(times@, limit) == weight_before
                    && queue@ == rest),
                forall|k: int|
                    0 <= k < j && here != FAR && here + (#[trigger] g.edges@[u as int]@[k]).seconds
                        <= limit ==> times@[g.edges@[u as int]@[k].to as int] <= here
                        + g.edges@[u as int]@[k].seconds,
                forall|a: int, k: int|
                    0 <= a < n && a != u && 0 <= k < g.edges@[a]@.len() && times@[a] != FAR
                        && times@[a] + (#[trigger] g.edges@[a]@[k]).seconds <= limit
                        && !queue@.contains(a as usize) ==> times@[g.edges@[a]@[k].to as int]
                        <= times@[a] + g.edges@[a]@[k].seconds,
            decreases count - j,
        {
            let edge = g.edges[u][j];
            let v = edge.to as usize;
            let ghost before = times@;
            let ghost queue_now = queue@;
            if here != FAR {
                let reach: u64 = here as u64 + edge.seconds as u64;
                if reach <= limit as u64 && reach < times[v] as u64 {
                    proof {
                        assert(v != u);
                        lemma_weight_update(times@, limit, v as int, reach as u32);
                        let path = choose|path: Seq<int>|
                            #[trigger] g.walk(path, here as int) && path.len() > 0 && path[0]
                                == from && path.last() == u;
                        lemma_walk_on(g, path, here as int, u as int, j as int);
                        assert(attained(g, from as int, v as int, reach as u32)) by {
                            let next = path.push(v as int);
                            assert(g.walk(next, reach as int));
                            assert(next[0] == from && next.last() == v);
                        }
                    }
                    times[v] = reach as u32;
                    queue.push(v);
                    proof {
                        assert(times@ == before.update(v as int, reach as u32));
                        assert(queue@.contains(v)) by {
                            assert(queue@[queue@.len() - 1] == v);
                        }
                        assert forall|x: usize| queue_now.contains(x) implies queue@.contains(x) by {
                            let k = choose|k: int| 0 <= k < queue_now.len() && queue_now[k] == x;
                            assert(queue@[k] == x);
                        }
                    }
                }
            }
            proof {
                assert forall|x: int| 0 <= x < n implies times@[x] <= #[trigger] before[x] by {}
                assert forall|k: int|
                    0 <= k < j + 1 && here != FAR && here + (
                    #[trigger] g.edges@[u as int]@[k]).seconds <= limit implies times@[g.edges@[u as int]@[k].to as int]
                    <= here + g.edges@[u as int]@[k].seconds by {
                    assert(g.edges@[u as int]@[k].to < n);
                    if k < j {
                        assert(before[g.edges@[u as int]@[k].to as int] <= here
                            + g.edges@[u as int]@[k].seconds);
                    }
                }
                assert forall|a: int, k: int|
                    0 <= a < n && a != u && 0 <= k < g.edges@[a]@.len() && times@[a] != FAR
                        && times@[a] + (#[trigger] g.edges@[a]@[k]).seconds <= limit
                        && !queue@.contains(a as usize) implies times@[g.edges@[a]@[k].to as int]
                    <= times@[a] + g.edges@[a]@[k].seconds by {
                    assert(g.edges@[a]@[k].to < n);
                    assert(times@[a] == before[a]) by {
                        if times@[a] != before[a] {
                            assert(a == v);
                            assert(queue@.contains(a as usize));
                        }
                    }
                    if !queue_now.contains(a as usize) {
                        assert(before[g.edges@[a]@[k].to as int] <= before[a]
                            + g.edges@[a]@[k].seconds);
                    } else {
                        assert(queue@.contains(a as usize));
                    }
                }
            }
            j += 1;
        }
        proof {
            assert forall|a: int, k: int|
                0 <= a < n && 0 <= k < g.edges@[a]@.len() && times@[a] != FAR && times@[a] + (
                #[trigger] g.edges@[a]@[k]).seconds <= limit && !queue@.contains(a as usize)
                    implies times@[g.edges@[a]@[k].to as int] <= times@[a]
                + g.edges@[a]@[k].seconds by {
                if a == u {
                    assert(here == times@[u as int]);
                }
            }
        }
    }
    proof {
        assert forall|u: int, j: int|
            0 <= u < g.edges@.len() && 0 <= j < g.edges@[u]@.len() && times@[u] != FAR && times@[u]
                + (#[trigger] g.edges@[u]@[j]).seconds <= limit implies times@[g.edges@[u]@[j].to as int]
            <= times@[u] + g.edges@[u]@[j].seconds by {
            assert(!queue@.contains(u as usize));
        }
    }
    times
}

/// Shortest walks: where the times are closed and the time of `from` is
/// 0, no walk from `from` within the limit is shorter than the time of the
/// node where it ends.
pub proof fn lemma_walk_times_least(
    g: &RoadGraph,
    from: int,
    limit: u32,
    times: Seq<u32>,
    path: Seq<int>,
    total: int,
)
    requires
        g.wf(),
        limit < FAR,
        times.len() == g.edges@.len(),
        0 <= from < times.len(),
        times[from] == 0,
        times_closed(g, limit, times),
        g.walk(path, total),
        path.len() > 0,
        path[0] == from,
        total <= limit,
    ensures
        0 <= path.last() < times.len(),
        times[path.last()] <= total,
    decreases path.len(),
{
    if path.len() > 1 {
        let u = path[path.len() - 2];
        let j = choose|j: int|
            0 <= j < g.edges@[u]@.len() && (#[trigger] g.edges@[u]@[j]).to == path.last() && g.walk(
                path.drop_last(),
                total - g.edges@[u]@[j].seconds,
            ) && 0 <= u < g.edges@.len();
        let w = g.edges@[u]@[j].seconds;
        assert(path.drop_last()[0] == from);
        assert(path.drop_last().last() == u);
        lemma_walk_times_least(g, from, limit, times, path.drop_last(), total - w);
        assert(times[u] + w <= limit);
        assert(times[g.edges@[u]@[j].to as int] <= times[u] + w);
    }
}

/// The candidates with the times of the road network: each candidate
/// whose stop has a node that is reached gets the time of that node, and
/// every other candidate is left out.
pub open spec fn retimed(near: Seq<Foot>, nodes: Seq<u32>, times: Seq<u32>) -> Seq<Foot>
    decreases near.len(),
{
    if near.len() == 0 {
        Seq::empty()
    } else {
        let rest = retimed(near.drop_last(), nodes, times);
        let stop = near.last().stop as int;
        if stop < nodes.len() && nodes[stop] < times.len() && times[nodes[stop] as int] != FAR {
            rest.push(Foot { stop: near.last().stop, seconds: times[nodes[stop] as int] })
        } else {
            rest
        }
    }
}

/// Gives the stops near a stop their walking times on the road network.
/// `nodes` holds for each stop the node of the network next to it, `times`
/// the walking times from the node of the stop to all nodes.
pub fn retime(near: &Vec<Foot>, nodes: &Vec<u32>, times: &Vec<u32>) -> (r: Vec<Foot>)
    ensures
        r@ == retimed(near@, nodes@, times@),
{
    let mut r: Vec<Foot> = Vec::new();
    let mut i: usize = 0;
    assert(near@.take(0) =~= Seq::<Foot>::empty());
    while i < near.len()
        invariant
            i <= near@.len(),
            r@ == retimed(near@.take(i as int), nodes@, times@),
        decreases near@.len() - i,
    {
        proof {
            assert(near@.take(i + 1).drop_last() =~= near@.take(i as int));
            assert(near@.take(i + 1).last() == near@[i as int]);
        }
        let stop = near[i].stop as usize;
        if stop < nodes.len() && (nodes[stop] as usize) < times.len() && times[nodes[stop] as usize]
            != FAR {
            r.push(Foot { stop: near[i].stop, seconds: times[nodes[stop] as usize] });
        }
        i += 1;
    }
    assert(near@.take(near@.len() as int) =~= near@);
    r
}

/// The node of the road network next to each stop; the number of nodes
/// for a stop without one.
pub fn stop_nodes(tt: &Timetable, places: &Vec<Place>) -> (nodes: Vec<u32>)
    requires
        places@.len() <= u32::MAX,
    ensures
        nodes@.len() == tt.stops@.len(),
        forall|s: int| 0 <= s < nodes@.len() ==> #[trigger] nodes@[s] <= places@.len(),
{
    let mut nodes: Vec<u32> = Vec::new();
    let mut s: usize = 0;
    while s < tt.stops.len()
        invariant
            s <= tt.stops@.len(),
            places@.len() <= u32::MAX,
            nodes@.len() == s,
            forall|x: int| 0 <= x < s ==> #[trigger] nodes@[x] <= places@.len(),
        decreases tt.stops@.len() - s,
    {
        match nearest_place(places, tt.stops[s].lat, tt.stops[s].lon) {
            Some(node) => nodes.push(node as u32),
            None => nodes.push(places.len() as u32),
        }
        s += 1;
    }
    nodes
}

/// The walks out of a stop on the road network: the stops near it, each
/// with the walking time from the node of the stop to its own node, as far
/// as that is no more than [`MAX_TRANSFER_SECONDS`]. A stop without a node
/// has no walks.
pub open spec fn walks_from(g: &RoadGraph, nodes: Seq<u32>, s: int, n_stops: int, list: Seq<Foot>) -> bool {
    if nodes[s] >= g.edges@.len() {
        list.len() == 0
    } else {
        exists|near: Seq<Foot>, times: Seq<u32>|
            {
                &&& times.len() == g.edges@.len()
                &&& times[nodes[s] as int] == 0
                &&& times_sound(g, nodes[s] as int, MAX_TRANSFER_SECONDS, times)
                &&& times_closed(g, MAX_TRANSFER_SECONDS, times)
                &&& forall|i: int| 0 <= i < near.len() ==> (#[trigger] near[i]).stop < n_stops
                &&& list == #[trigger] retimed(near, nodes, times)
            }
    }
}

/// For each stop the stops within `max_walk_m` metres of it, each with the
/// walking time on the road network between the nodes next to the two.
/// `nodes` holds for each stop the node next to it, as [`stop_nodes`] finds
/// them.
pub fn graph_candidates(tt: &Timetable, g: &RoadGraph, nodes: &Vec<u32>, max_walk_m: u32) -> (out:
    Vec<Vec<Foot>>)
    requires
        g.wf(),
        nodes@.len() == tt.stops@.len(),
    ensures
        out@.len() == tt.stops@.len(),
        forall|s: int|
            0 <= s < out@.len() ==> #[trigger] walks_from(
                g,
                nodes@,
                s,
                tt.stops@.len() as int,
                out@[s]@,
            ),
{
    let mut out: Vec<Vec<Foot>> = Vec::new();
    let mut s: usize = 0;
    while s < tt.stops.len()
        invariant
            g.wf(),
            s <= tt.stops@.len(),
            nodes@.len() == tt.stops@.len(),
            out@.len() == s,
            forall|x: int|
                0 <= x < s ==> #[trigger] walks_from(g, nodes@, x, tt.stops@.len() as int, out@[x]@),
        decreases tt.stops@.len() - s,
    {
        let node = nodes[s] as usize;
        if node < g.edges.len() {
            let times = walk_times(g, node, MAX_TRANSFER_SECONDS);
            let near = stops_within(tt, tt.stops[s].lat, tt.stops[s].lon, max_walk_m);
            let list = retime(&near, nodes, &times);
            assert(walks_from(g, nodes@, s as int, tt.stops@.len() as int, list@)) by {
                assert(list@ == retimed(near@, nodes@, times@));
            }
            out.push(list);
        } else {
            out.push(Vec::new());
        }
        s += 1;
    }
    out
}

} // verus!
