//! General facts about routes that callers may rely on.

use crate::graph::{adjacent, connections_valid, is_walk, nearest, reachable, spares};
use crate::point::AStarPoint;
use crate::model::{route_of, route_view};
use crate::theory::lemma_route_of;
use vstd::prelude::*;

verus! {

/// A search is a function of the graph and the two requested points: two
/// searches over the same points and connections, for the same start and
/// goal, return the same route or both return none.
pub proof fn lemma_routes_agree(
    points: Seq<AStarPoint>,
    conns: Seq<(usize, usize)>,
    start: AStarPoint,
    goal: AStarPoint,
    first: Option<Vec<AStarPoint>>,
    second: Option<Vec<AStarPoint>>,
)
    requires
        route_view(first) == route_of(points, conns, start, goal),
        route_view(second) == route_of(points, conns, start, goal),
    ensures
        route_view(first) == route_view(second),
{
}

/// Two nodes that are adjacent once the connections of `x` are gone were
/// adjacent before, and neither of them is `x`.
pub proof fn lemma_spared_adjacent(conns: Seq<(usize, usize)>, x: usize, u: usize, v: usize)
    requires
        adjacent(conns.filter(spares(x)), u, v),
    ensures
        adjacent(conns, u, v),
        u != x,
        v != x,
{
    let left = conns.filter(spares(x));
    let k = choose|k: int|
        0 <= k < left.len() && (#[trigger] left[k] == (u, v) || left[k] == (v, u));
    conns.lemma_filter_pred(spares(x), k);
    assert(left.contains(left[k]));
    conns.lemma_filter_contains_rev(spares(x), left[k]);
    let j = choose|j: int| 0 <= j < conns.len() && conns[j] == left[k];
    assert(conns[j] == (u, v) || conns[j] == (v, u));
}

/// A walk that survives the removal of the connections of `x` was a walk
/// before, and if it has more than one node it does not visit `x`.
pub proof fn lemma_spared_walk(n: nat, conns: Seq<(usize, usize)>, x: usize, ids: Seq<usize>)
    requires
        is_walk(n, conns.filter(spares(x)), ids),
    ensures
        is_walk(n, conns, ids),
        ids.len() > 1 ==> !ids.contains(x),
{
    let left = conns.filter(spares(x));
    assert forall|k: int| 0 <= k < ids.len() - 1 implies adjacent(
        conns,
        #[trigger] ids[k],
        ids[k + 1],
    ) by {
        lemma_spared_adjacent(conns, x, ids[k], ids[k + 1]);
    }
    if ids.len() > 1 && ids.contains(x) {
        let k = choose|k: int| 0 <= k < ids.len() && ids[k] == x;
        if k < ids.len() - 1 {
            assert(adjacent(left, ids[k], ids[k + 1]));
            lemma_spared_adjacent(conns, x, ids[k], ids[k + 1]);
        } else {
            assert(adjacent(left, ids[k - 1], ids[k - 1 + 1]));
            lemma_spared_adjacent(conns, x, ids[k - 1], ids[k]);
        }
    }
}

/// Removing the connections of a node blocks what depended on it: when
/// every walk between two different nodes `s` and `t` visits `x`, no walk
/// joins them once the connections of `x` are gone.
pub proof fn lemma_removal_blocks(
    n: nat,
    conns: Seq<(usize, usize)>,
    x: usize,
    s: usize,
    t: usize,
)
    requires
        s != t,
        forall|ids: Seq<usize>| #[trigger]
            is_walk(n, conns, ids) && ids.first() == s && ids.last() == t ==> ids.contains(x),
    ensures
        !reachable(n, conns.filter(spares(x)), s, t),
{
    let left = conns.filter(spares(x));
    assert forall|ids: Seq<usize>| #[trigger] is_walk(n, left, ids) && ids.first() == s implies
        ids.last() != t by {
        lemma_spared_walk(n, conns, x, ids);
        if ids.last() == t {
            assert(ids.len() > 1);
            assert(ids.contains(x));
        }
    }
}

/// Removing connections leaves every remaining connection between nodes
/// of the graph.
pub proof fn lemma_spared_valid(n: nat, conns: Seq<(usize, usize)>, x: usize)
    requires
        connections_valid(n, conns),
    ensures
        connections_valid(n, conns.filter(spares(x))),
{
    let left = conns.filter(spares(x));
    assert forall|k: int| 0 <= k < left.len() implies (#[trigger] left[k]).0 < n && left[k].1
        < n by {
        assert(left.contains(left[k]));
        conns.lemma_filter_contains_rev(spares(x), left[k]);
        let j = choose|j: int| 0 <= j < conns.len() && conns[j] == left[k];
        assert(conns[j].0 < n && conns[j].1 < n);
    }
}

/// A search finds no route once the connections of `x` are gone, when the
/// nodes nearest to the start and to the goal differ and every walk between
/// them visited `x`.
pub proof fn lemma_removal_blocks_route(
    points: Seq<AStarPoint>,
    conns: Seq<(usize, usize)>,
    x: usize,
    start: AStarPoint,
    goal: AStarPoint,
)
    requires
        0 < points.len() <= usize::MAX,
        connections_valid(points.len(), conns),
        nearest(points, start) != nearest(points, goal),
        forall|ids: Seq<usize>| #[trigger]
            is_walk(points.len(), conns, ids) && ids.first() == nearest(points, start)
                && ids.last() == nearest(points, goal) ==> ids.contains(x),
    ensures
        route_of(points, conns.filter(spares(x)), start, goal) is None,
{
    let s = nearest(points, start) as usize;
    let t = nearest(points, goal) as usize;
    crate::graph::lemma_nearest_exists(points, start);
    crate::graph::lemma_nearest_exists(points, goal);
    lemma_removal_blocks(points.len(), conns, x, s, t);
    lemma_spared_valid(points.len(), conns, x);
    lemma_route_of(points, conns.filter(spares(x)), start, goal);
}

} // verus!
