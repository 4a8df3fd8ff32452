//! The search as a mathematical function of the graph: its bookkeeping, the
//! rule for one expansion, the predecessor chain and the route that results.

use crate::graph::{adjacent, nearest, neighbors_of, points_along};
use crate::point::{AStarPoint, MAX_DISTANCE};
use vstd::prelude::*;

verus! {

/// The bookkeeping of one search: the frontier, the finished nodes, and for
/// every node its cost from the start, its estimate to the goal and the node
/// it was reached from.
pub struct SearchState {
    pub open: Seq<usize>,
    pub processed: Seq<usize>,
    pub g: Seq<u128>,
    pub h: Seq<u128>,
    pub pred: Seq<Option<usize>>,
}

/// Node `a` is expanded before node `b`: its total `g + h` is smaller, or
/// the totals are equal and its estimate `h` is smaller.
pub open spec fn outranks(g: Seq<u128>, h: Seq<u128>, a: usize, b: usize) -> bool {
    let fa = g[a as int] + h[a as int];
    let fb = g[b as int] + h[b as int];
    fa < fb || (fa == fb && h[a as int] < h[b as int])
}

/// Position `i` of the frontier holds the node to expand: no node outranks
/// it, and it outranks every node before it.
pub open spec fn is_best(open: Seq<usize>, g: Seq<u128>, h: Seq<u128>, i: int) -> bool {
    &&& 0 <= i < open.len()
    &&& forall|j: int| 0 <= j < open.len() ==> !outranks(g, h, #[trigger] open[j], open[i])
    &&& forall|j: int| 0 <= j < i ==> outranks(g, h, open[i], #[trigger] open[j])
}

/// The position of the node to expand.
pub open spec fn best(open: Seq<usize>, g: Seq<u128>, h: Seq<u128>) -> int {
    choose|i: int| is_best(open, g, h, i)
}

/// The state after one neighbour `nb` of the node `cur` was looked at: a
/// finished neighbour is left alone; one outside the frontier joins it,
/// reached from `cur`; one inside it is rerouted through `cur` when that is
/// cheaper.
pub open spec fn relax_one(
    s: SearchState,
    points: Seq<AStarPoint>,
    goal: AStarPoint,
    cur: usize,
    nb: usize,
) -> SearchState {
    let tentative = s.g[cur as int] + points[cur as int].distance(points[nb as int]);
    if s.processed.contains(nb) {
        s
    } else if !s.open.contains(nb) {
        SearchState {
            open: s.open.push(nb),
            processed: s.processed,
            g: s.g.update(nb as int, tentative as u128),
            h: s.h.update(nb as int, points[nb as int].distance(goal) as u128),
            pred: s.pred.update(nb as int, Some(cur)),
        }
    } else if tentative < s.g[nb as int] {
        SearchState {
            open: s.open,
            processed: s.processed,
            g: s.g.update(nb as int, tentative as u128),
            h: s.h,
            pred: s.pred.update(nb as int, Some(cur)),
        }
    } else {
        s
    }
}

/// The state after the neighbours `ns` of `cur` were looked at in order.
pub open spec fn relax_all(
    s: SearchState,
    points: Seq<AStarPoint>,
    goal: AStarPoint,
    cur: usize,
    ns: Seq<usize>,
) -> SearchState
    decreases ns.len(),
{
    if ns.len() == 0 {
        s
    } else {
        relax_one(relax_all(s, points, goal, cur, ns.drop_last()), points, goal, cur, ns.last())
    }
}

/// The state after the best node left the frontier and joined the finished
/// nodes, before its neighbours are looked at.
pub open spec fn close_best(s: SearchState) -> SearchState {
    finish_at(s, best(s.open, s.g, s.h))
}

/// The state after the node at position `i` of the frontier left it and
/// joined the finished nodes.
pub open spec fn finish_at(s: SearchState, i: int) -> SearchState {
    SearchState {
        open: s.open.remove(i),
        processed: s.processed.push(s.open[i]),
        g: s.g,
        h: s.h,
        pred: s.pred,
    }
}

/// One expansion: the best node of the frontier is finished and its
/// neighbours are looked at.
pub open spec fn expand_best(
    s: SearchState,
    points: Seq<AStarPoint>,
    conns: Seq<(usize, usize)>,
    goal: AStarPoint,
) -> SearchState {
    let cur = s.open[best(s.open, s.g, s.h)];
    relax_all(close_best(s), points, goal, cur, neighbors_of(conns, cur))
}

/// The state when the frontier has run empty, after at most `fuel`
/// expansions.
pub open spec fn exhaust(
    s: SearchState,
    points: Seq<AStarPoint>,
    conns: Seq<(usize, usize)>,
    goal: AStarPoint,
    fuel: nat,
) -> SearchState
    decreases fuel,
{
    if s.open.len() == 0 || fuel == 0 {
        s
    } else {
        exhaust(expand_best(s, points, conns, goal), points, conns, goal, (fuel - 1) as nat)
    }
}

/// The state a search starts from: the frontier holds the start node alone,
/// and every node has its distance to the start and to the goal.
pub open spec fn initial_state(
    points: Seq<AStarPoint>,
    start_id: usize,
    start: AStarPoint,
    goal: AStarPoint,
) -> SearchState {
    SearchState {
        open: seq![start_id],
        processed: Seq::empty(),
        g: Seq::new(points.len(), |m: int| points[m].distance(start) as u128),
        h: Seq::new(points.len(), |m: int| points[m].distance(goal) as u128),
        pred: Seq::new(points.len(), |m: int| None),
    }
}

/// The nodes from `node` back along the predecessor links, up to `fuel`
/// links far.
pub open spec fn chain(pred: Seq<Option<usize>>, node: usize, fuel: nat) -> Seq<usize>
    decreases fuel,
{
    if fuel == 0 || node >= pred.len() {
        seq![node]
    } else {
        match pred[node as int] {
            Some(p) => seq![node] + chain(pred, p, (fuel - 1) as nat),
            None => seq![node],
        }
    }
}

/// The route from the node nearest to `start` to the node nearest to `goal`
/// that a search over the given graph finds, if it finds one.
pub open spec fn route_of(
    points: Seq<AStarPoint>,
    conns: Seq<(usize, usize)>,
    start: AStarPoint,
    goal: AStarPoint,
) -> Option<Seq<AStarPoint>> {
    if points.len() == 0 {
        None
    } else {
        let s = nearest(points, start) as usize;
        let t = nearest(points, goal) as usize;
        let begin = initial_state(points, s, points[s as int], points[t as int]);
        let end = exhaust(begin, points, conns, points[t as int], points.len());
        let back = chain(end.pred, t, points.len());
        if back.last() == s {
            Some(points_along(points, back.reverse()))
        } else {
            None
        }
    }
}

/// Node `m` has been discovered: it is on the frontier or finished.
pub open spec fn visited(s: SearchState, m: usize) -> bool {
    s.open.contains(m) || s.processed.contains(m)
}

/// Node `m` was reached from an adjacent node that was finished among the
/// first `bound` finished nodes.
pub open spec fn linked(s: SearchState, conns: Seq<(usize, usize)>, m: usize, bound: int) -> bool {
    &&& s.pred[m as int] matches Some(p)
    &&& adjacent(conns, p, m)
    &&& exists|j: int| 0 <= j < bound && j < s.processed.len() && #[trigger] s.processed[j] == p
}

/// What holds of the bookkeeping throughout a search from `start` over `n`
/// nodes.
pub open spec fn consistent(
    s: SearchState,
    n: nat,
    conns: Seq<(usize, usize)>,
    start: usize,
) -> bool {
    &&& s.g.len() == n && s.h.len() == n && s.pred.len() == n
    &&& start < n
    &&& forall|k: int| 0 <= k < s.open.len() ==> #[trigger] s.open[k] < n
    &&& forall|k: int| 0 <= k < s.processed.len() ==> #[trigger] s.processed[k] < n
    &&& s.open.no_duplicates()
    &&& s.processed.no_duplicates()
    &&& forall|k: int| 0 <= k < s.open.len() ==> !s.processed.contains(#[trigger] s.open[k])
    &&& s.processed.len() == 0 ==> s.open == seq![start]
    &&& s.processed.len() > 0 ==> s.processed[0] == start
    &&& s.pred[start as int] is None
    &&& forall|m: usize| m < n && !visited(s, m) ==> #[trigger] s.pred[m as int] is None
    &&& s.processed.len() > 0 ==> forall|k: int|
        0 <= k < s.open.len() ==> linked(s, conns, #[trigger] s.open[k], s.processed.len() as int)
    &&& forall|k: int| 0 < k < s.processed.len() ==> linked(s, conns, #[trigger] s.processed[k], k)
    &&& forall|m: int|
        0 <= m < n ==> #[trigger] s.g[m] <= MAX_DISTANCE * (s.processed.len() + 1) && s.h[m]
            <= MAX_DISTANCE
}

/// Every node adjacent to one of the first `count` finished nodes has been
/// discovered.
pub open spec fn settled(s: SearchState, conns: Seq<(usize, usize)>, count: int) -> bool {
    forall|k: int, v: usize|
        0 <= k < count && k < s.processed.len() && adjacent(conns, #[trigger] s.processed[k], v)
            ==> #[trigger] visited(s, v)
}

/// What a returned route holds.
pub open spec fn route_view(route: Option<Vec<AStarPoint>>) -> Option<Seq<AStarPoint>> {
    match route {
        Some(r) => Some(r@),
        None => None,
    }
}

} // verus!
