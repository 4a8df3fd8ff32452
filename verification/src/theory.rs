//! What holds of the search model: the bookkeeping stays consistent, the
//! search ends, and it finds a route exactly between nodes that a walk joins.

use crate::graph::{
    adjacent, connections_valid, is_route, is_walk, joins, lemma_nearest_exists,
    lemma_neighbors_adjacent, nearest, neighbors_of, points_along, reachable,
};
use crate::model::{
    best, chain, consistent, exhaust, expand_best, finish_at, initial_state, is_best, linked,
    outranks, relax_all, relax_one, route_of, settled, visited, SearchState,
};
use crate::point::{lemma_distance_bounded, AStarPoint, MAX_DISTANCE};
use vstd::prelude::*;

verus! {

/// At most one position of the frontier holds the node to expand.
pub proof fn lemma_best_unique(open: Seq<usize>, g: Seq<u128>, h: Seq<u128>, i: int)
    requires
        is_best(open, g, h, i),
    ensures
        best(open, g, h) == i,
{
    let j = best(open, g, h);
    assert(is_best(open, g, h, j));
    if j < i {
        assert(outranks(g, h, open[i], open[j]));
        assert(!outranks(g, h, open[i], open[j]));
    } else if i < j {
        assert(outranks(g, h, open[j], open[i]));
        assert(!outranks(g, h, open[j], open[i]));
    }
}

/// Both ends of a connection are nodes of the graph.
pub proof fn lemma_adjacent_valid(n: nat, conns: Seq<(usize, usize)>, u: usize, v: usize)
    requires
        connections_valid(n, conns),
        adjacent(conns, u, v),
    ensures
        u < n,
        v < n,
{
    let k = choose|k: int|
        0 <= k < conns.len() && (#[trigger] conns[k] == (u, v) || conns[k] == (v, u));
    assert(conns[k].0 < n && conns[k].1 < n);
}

/// A list without repetition of numbers below `n` has at most `n` entries.
pub proof fn lemma_distinct_bounded(s: Seq<usize>, n: nat)
    requires
        s.no_duplicates(),
        forall|k: int| 0 <= k < s.len() ==> #[trigger] s[k] < n,
    ensures
        s.len() <= n,
    decreases n,
{
    if s.len() > 0 {
        if n == 0 {
            assert(s[0] < n);
        } else {
            let top = (n - 1) as usize;
            if s.contains(top) {
                let i = choose|i: int| 0 <= i < s.len() && s[i] == top;
                let rest = s.remove(i);
                assert forall|k: int| 0 <= k < rest.len() implies #[trigger] rest[k] < n - 1 by {
                    if k < i {
                        assert(rest[k] == s[k]);
                    } else {
                        assert(rest[k] == s[k + 1]);
                    }
                }
                lemma_distinct_bounded(rest, (n - 1) as nat);
            } else {
                assert forall|k: int| 0 <= k < s.len() implies #[trigger] s[k] < n - 1 by {
                    assert(s.contains(s[k]));
                }
                lemma_distinct_bounded(s, (n - 1) as nat);
            }
        }
    }
}

/// What a list holds after an entry was appended.
pub proof fn lemma_push_holds(s: Seq<usize>, x: usize)
    ensures
        forall|m: usize| #[trigger] s.push(x).contains(m) <==> s.contains(m) || m == x,
{
    let t = s.push(x);
    assert forall|m: usize| #[trigger] t.contains(m) <==> s.contains(m) || m == x by {
        if s.contains(m) {
            let j = choose|j: int| 0 <= j < s.len() && s[j] == m;
            assert(t[j] == m);
        }
        if m == x {
            assert(t[s.len() as int] == m);
        }
        if t.contains(m) {
            let j = choose|j: int| 0 <= j < t.len() && t[j] == m;
            if j < s.len() {
                assert(s[j] == m);
            }
        }
    }
}

/// What a list without repetition holds after an entry was taken out.
pub proof fn lemma_remove_holds(s: Seq<usize>, i: int)
    requires
        0 <= i < s.len(),
        s.no_duplicates(),
    ensures
        s.remove(i).no_duplicates(),
        forall|m: usize| #[trigger] s.remove(i).contains(m) <==> s.contains(m) && m != s[i],
{
    let t = s.remove(i);
    assert forall|a: int, b: int| 0 <= a < t.len() && 0 <= b < t.len() && a != b implies t[a]
        != t[b] by {
        let sa = if a < i { a } else { a + 1 };
        let sb = if b < i { b } else { b + 1 };
        assert(t[a] == s[sa] && t[b] == s[sb]);
    }
    assert forall|m: usize| #[trigger] t.contains(m) <==> s.contains(m) && m != s[i] by {
        if s.contains(m) && m != s[i] {
            let j = choose|j: int| 0 <= j < s.len() && s[j] == m;
            if j < i {
                assert(t[j] == m);
            } else {
                assert(t[j - 1] == m);
            }
        }
        if t.contains(m) {
            let j = choose|j: int| 0 <= j < t.len() && t[j] == m;
            let sj = if j < i { j } else { j + 1 };
            assert(s[sj] == m);
        }
    }
}

/// Looking at one neighbour keeps the bookkeeping consistent, finishes no
/// node and forgets none.
pub proof fn lemma_relax_one(
    s: SearchState,
    points: Seq<AStarPoint>,
    conns: Seq<(usize, usize)>,
    goal: AStarPoint,
    start: usize,
    cur: usize,
    nb: usize,
)
    requires
        points.len() <= usize::MAX,
        consistent(s, points.len(), conns, start),
        s.processed.len() > 0,
        s.processed.last() == cur,
        s.g[cur as int] <= MAX_DISTANCE * s.processed.len(),
        nb < points.len(),
        adjacent(conns, cur, nb),
    ensures
        consistent(relax_one(s, points, goal, cur, nb), points.len(), conns, start),
        relax_one(s, points, goal, cur, nb).processed == s.processed,
        relax_one(s, points, goal, cur, nb).g[cur as int] == s.g[cur as int],
        visited(relax_one(s, points, goal, cur, nb), nb),
        forall|m: usize| visited(s, m) ==> #[trigger] visited(relax_one(s, points, goal, cur, nb), m),
{
    let n = points.len();
    let after = relax_one(s, points, goal, cur, nb);
    let count = s.processed.len();
    lemma_distinct_bounded(s.processed, n);
    lemma_distance_bounded(points[cur as int], points[nb as int]);
    lemma_distance_bounded(points[nb as int], goal);
    assert(s.processed[count - 1] == cur);
    assert(s.processed[0] == start);
    assert(s.processed.contains(start));
    assert(s.processed.contains(cur));
    assert(cur < n);
    lemma_push_holds(s.open, nb);
    let tentative = s.g[cur as int] + points[cur as int].distance(points[nb as int]);
    assert(tentative <= MAX_DISTANCE * (count + 1));
    assert(tentative as u128 == tentative);
    if s.processed.contains(nb) {
    } else {
        assert(nb != start && nb != cur);
        if !s.open.contains(nb) {
            assert(after.open.no_duplicates());
            assert forall|k: int| 0 <= k < after.open.len() implies #[trigger] after.open[k]
                < n by {
                if k < s.open.len() {
                    assert(after.open[k] == s.open[k]);
                }
            }
            assert forall|k: int| 0 <= k < after.open.len() implies linked(
                after,
                conns,
                #[trigger] after.open[k],
                after.processed.len() as int,
            ) by {
                if k < s.open.len() {
                    assert(s.open.contains(s.open[k]));
                    assert(linked(s, conns, s.open[k], count as int));
                }
            }
            assert forall|k: int| 0 < k < after.processed.len() implies linked(
                after,
                conns,
                #[trigger] after.processed[k],
                k,
            ) by {
                assert(s.processed.contains(s.processed[k]));
                assert(linked(s, conns, s.processed[k], k));
            }
            assert forall|k: int| 0 <= k < after.open.len() implies !after.processed.contains(
                #[trigger] after.open[k],
            ) by {
                if k < s.open.len() {
                    assert(!s.processed.contains(s.open[k]));
                }
            }
            assert forall|m: usize| m < n && !visited(after, m) implies #[trigger] after.pred[m as int]
                is None by {
                assert(!visited(s, m));
            }
            assert forall|m: int| 0 <= m < n implies #[trigger] after.g[m] <= MAX_DISTANCE * (
            after.processed.len() + 1) && after.h[m] <= MAX_DISTANCE by {
                assert(s.g[m] <= MAX_DISTANCE * (count + 1) && s.h[m] <= MAX_DISTANCE);
            }
            assert(consistent(after, n, conns, start));
        } else if tentative < s.g[nb as int] {
            assert forall|k: int| 0 <= k < after.open.len() implies linked(
                after,
                conns,
                #[trigger] after.open[k],
                after.processed.len() as int,
            ) by {
                assert(linked(s, conns, s.open[k], count as int));
            }
            assert forall|k: int| 0 < k < after.processed.len() implies linked(
                after,
                conns,
                #[trigger] after.processed[k],
                k,
            ) by {
                assert(s.processed.contains(s.processed[k]));
                assert(linked(s, conns, s.processed[k], k));
            }
            assert forall|m: usize| m < n && !visited(after, m) implies #[trigger] after.pred[m as int]
                is None by {
                assert(!visited(s, m));
            }
            assert forall|m: int| 0 <= m < n implies #[trigger] after.g[m] <= MAX_DISTANCE * (
            after.processed.len() + 1) && after.h[m] <= MAX_DISTANCE by {
                assert(s.g[m] <= MAX_DISTANCE * (count + 1) && s.h[m] <= MAX_DISTANCE);
            }
            assert(consistent(after, n, conns, start));
        }
    }
}

/// Finishing a node of the frontier keeps the bookkeeping consistent.
pub proof fn lemma_finish(before: SearchState, n: nat, conns: Seq<(usize, usize)>, start: usize, i: int)
    requires
        consistent(before, n, conns, start),
        settled(before, conns, before.processed.len() as int),
        0 <= i < before.open.len(),
    ensures
        consistent(finish_at(before, i), n, conns, start),
        settled(finish_at(before, i), conns, before.processed.len() as int),
{
    let closed = finish_at(before, i);
    let cur = before.open[i];
    let count = before.processed.len();
    lemma_remove_holds(before.open, i);
    lemma_push_holds(before.processed, cur);
    assert(before.open.contains(cur));
    assert(!before.processed.contains(before.open[i]));
    assert forall|m: usize| visited(before, m) implies #[trigger] visited(closed, m) by {}
    assert forall|k: int| 0 <= k < closed.open.len() implies #[trigger] closed.open[k] < n
        && !closed.processed.contains(closed.open[k]) by {
        assert(closed.open.contains(closed.open[k]));
        let j = choose|j: int| 0 <= j < before.open.len() && before.open[j] == closed.open[k];
        assert(!before.processed.contains(before.open[j]));
    }
    assert(closed.processed.no_duplicates());
    assert forall|k: int| 0 <= k < closed.processed.len() implies #[trigger] closed.processed[k]
        < n by {
        if k < count {
            assert(closed.processed[k] == before.processed[k]);
        }
    }
    if count > 0 {
        assert forall|k: int| 0 <= k < closed.open.len() implies linked(
            closed,
            conns,
            #[trigger] closed.open[k],
            closed.processed.len() as int,
        ) by {
            assert(closed.open.contains(closed.open[k]));
            let j = choose|j: int| 0 <= j < before.open.len() && before.open[j] == closed.open[k];
            assert(linked(before, conns, before.open[j], count as int));
            let w = choose|w: int|
                0 <= w < count && #[trigger] before.processed[w]
                    == before.pred[before.open[j] as int]->0;
            assert(closed.processed[w] == before.processed[w]);
        }
    } else {
        assert(before.open == seq![start]);
        assert(closed.open.len() == 0);
        assert(cur == start);
    }
    assert(closed.processed[0] == start);
    assert forall|k: int| 0 < k < closed.processed.len() implies linked(
        closed,
        conns,
        #[trigger] closed.processed[k],
        k,
    ) by {
        if k < count {
            assert(linked(before, conns, before.processed[k], k));
            let w = choose|w: int|
                0 <= w < k && #[trigger] before.processed[w]
                    == before.pred[before.processed[k] as int]->0;
            assert(closed.processed[w] == before.processed[w]);
        } else {
            assert(linked(before, conns, before.open[i], count as int));
            let w = choose|w: int|
                0 <= w < count && #[trigger] before.processed[w] == before.pred[cur as int]->0;
            assert(closed.processed[w] == before.processed[w]);
        }
    }
    assert forall|m: usize| m < n && !visited(closed, m) implies #[trigger] closed.pred[m as int]
        is None by {
        assert(!visited(before, m));
    }
    assert forall|m: int| 0 <= m < n implies #[trigger] closed.g[m] <= MAX_DISTANCE * (
    closed.processed.len() + 1) && closed.h[m] <= MAX_DISTANCE by {
        assert(before.g[m] <= MAX_DISTANCE * (count + 1));
    }
    assert(closed.open.no_duplicates());
    assert(closed.pred[start as int] is None);
    assert(consistent(closed, n, conns, start));
    assert forall|k: int, v: usize|
        0 <= k < count && k < closed.processed.len() && adjacent(
            conns,
            #[trigger] closed.processed[k],
            v,
        ) implies #[trigger] visited(closed, v) by {
        assert(closed.processed[k] == before.processed[k]);
        assert(visited(before, v));
    }
}

/// Every node at the end of a walk from a finished node is finished, once
/// the frontier has run empty.
pub proof fn lemma_walk_stays_finished(
    s: SearchState,
    n: nat,
    conns: Seq<(usize, usize)>,
    ids: Seq<usize>,
)
    requires
        settled(s, conns, s.processed.len() as int),
        s.open.len() == 0,
        is_walk(n, conns, ids),
        s.processed.contains(ids.first()),
    ensures
        s.processed.contains(ids.last()),
    decreases ids.len(),
{
    if ids.len() > 1 {
        let shorter = ids.drop_last();
        assert forall|k: int| 0 <= k < shorter.len() - 1 implies adjacent(
            conns,
            #[trigger] shorter[k],
            shorter[k + 1],
        ) by {
            assert(adjacent(conns, ids[k], ids[k + 1]));
        }
        assert(is_walk(n, conns, shorter));
        lemma_walk_stays_finished(s, n, conns, shorter);
        let u = ids[ids.len() - 2];
        assert(shorter.last() == u);
        assert(adjacent(conns, ids[ids.len() - 2], ids[ids.len() - 2 + 1]));
        let k = choose|k: int| 0 <= k < s.processed.len() && s.processed[k] == u;
        assert(adjacent(conns, s.processed[k], ids.last()));
        assert(visited(s, ids.last()));
    }
}

/// A non-empty frontier has a node to expand.
pub proof fn lemma_best_exists(open: Seq<usize>, g: Seq<u128>, h: Seq<u128>)
    requires
        open.len() > 0,
    ensures
        is_best(open, g, h, best(open, g, h)),
    decreases open.len(),
{
    if open.len() == 1 {
        assert(is_best(open, g, h, 0));
    } else {
        let init = open.drop_last();
        lemma_best_exists(init, g, h);
        let b = best(init, g, h);
        let top = open.len() - 1;
        assert(init[b] == open[b]);
        if outranks(g, h, open[top], open[b]) {
            assert forall|j: int| 0 <= j < open.len() implies !outranks(
                g,
                h,
                #[trigger] open[j],
                open[top],
            ) by {
                if j < top {
                    assert(!outranks(g, h, init[j], init[b]));
                }
            }
            assert forall|j: int| 0 <= j < top implies outranks(
                g,
                h,
                open[top],
                #[trigger] open[j],
            ) by {
                assert(!outranks(g, h, init[j], init[b]));
            }
            assert(is_best(open, g, h, top));
        } else {
            assert forall|j: int| 0 <= j < open.len() implies !outranks(
                g,
                h,
                #[trigger] open[j],
                open[b],
            ) by {
                if j < top {
                    assert(!outranks(g, h, init[j], init[b]));
                }
            }
            assert forall|j: int| 0 <= j < b implies outranks(g, h, open[b], #[trigger] open[j]) by {
                assert(outranks(g, h, init[b], init[j]));
            }
            assert(is_best(open, g, h, b));
        }
    }
}

/// Looking at all neighbours of the node finished last keeps the
/// bookkeeping consistent and discovers each of them.
pub proof fn lemma_relax_all(
    s: SearchState,
    points: Seq<AStarPoint>,
    conns: Seq<(usize, usize)>,
    goal: AStarPoint,
    start: usize,
    cur: usize,
    ns: Seq<usize>,
)
    requires
        points.len() <= usize::MAX,
        consistent(s, points.len(), conns, start),
        s.processed.len() > 0,
        s.processed.last() == cur,
        s.g[cur as int] <= MAX_DISTANCE * s.processed.len(),
        forall|j: int| 0 <= j < ns.len() ==> #[trigger] ns[j] < points.len() && adjacent(conns, cur, ns[j]),
    ensures
        consistent(relax_all(s, points, goal, cur, ns), points.len(), conns, start),
        relax_all(s, points, goal, cur, ns).processed == s.processed,
        relax_all(s, points, goal, cur, ns).g[cur as int] == s.g[cur as int],
        forall|m: usize| visited(s, m) ==> #[trigger] visited(relax_all(s, points, goal, cur, ns), m),
        forall|j: int|
            0 <= j < ns.len() ==> visited(relax_all(s, points, goal, cur, ns), #[trigger] ns[j]),
    decreases ns.len(),
{
    if ns.len() > 0 {
        let init = ns.drop_last();
        let mid = relax_all(s, points, goal, cur, init);
        let after = relax_all(s, points, goal, cur, ns);
        assert forall|j: int| 0 <= j < init.len() implies #[trigger] init[j] < points.len()
            && adjacent(conns, cur, init[j]) by {
            assert(init[j] == ns[j]);
        }
        lemma_relax_all(s, points, conns, goal, start, cur, init);
        lemma_relax_one(mid, points, conns, goal, start, cur, ns.last());
        assert(after == relax_one(mid, points, goal, cur, ns.last()));
        assert forall|m: usize| visited(s, m) implies #[trigger] visited(after, m) by {
            assert(visited(mid, m));
        }
        assert forall|j: int| 0 <= j < ns.len() implies visited(after, #[trigger] ns[j]) by {
            if j < init.len() {
                assert(visited(mid, init[j]));
            }
        }
    }
}

/// One expansion keeps the bookkeeping consistent, finishes one more node
/// and discovers every neighbour of each finished node.
pub proof fn lemma_expand_best(
    s: SearchState,
    points: Seq<AStarPoint>,
    conns: Seq<(usize, usize)>,
    goal: AStarPoint,
    start: usize,
)
    requires
        points.len() <= usize::MAX,
        connections_valid(points.len(), conns),
        consistent(s, points.len(), conns, start),
        settled(s, conns, s.processed.len() as int),
        s.open.len() > 0,
    ensures
        consistent(expand_best(s, points, conns, goal), points.len(), conns, start),
        settled(
            expand_best(s, points, conns, goal),
            conns,
            expand_best(s, points, conns, goal).processed.len() as int,
        ),
        expand_best(s, points, conns, goal).processed.len() == s.processed.len() + 1,
{
    let n = points.len();
    let count = s.processed.len();
    lemma_best_exists(s.open, s.g, s.h);
    let i = best(s.open, s.g, s.h);
    let cur = s.open[i];
    let closed = finish_at(s, i);
    lemma_finish(s, n, conns, start, i);
    let ns = neighbors_of(conns, cur);
    assert forall|j: int| 0 <= j < ns.len() implies #[trigger] ns[j] < n && adjacent(
        conns,
        cur,
        ns[j],
    ) by {
        assert(ns.contains(ns[j]));
        lemma_neighbors_adjacent(conns, cur, ns[j]);
        lemma_adjacent_valid(n, conns, cur, ns[j]);
    }
    assert(closed.g[cur as int] <= MAX_DISTANCE * (count + 1));
    lemma_relax_all(closed, points, conns, goal, start, cur, ns);
    let after = relax_all(closed, points, goal, cur, ns);
    assert(after == expand_best(s, points, conns, goal));
    assert forall|j: int, v: usize|
        0 <= j < count + 1 && j < after.processed.len() && adjacent(
            conns,
            #[trigger] after.processed[j],
            v,
        ) implies #[trigger] visited(after, v) by {
        if j == count {
            lemma_neighbors_adjacent(conns, cur, v);
            let w = choose|w: int| 0 <= w < ns.len() && ns[w] == v;
            assert(visited(after, ns[w]));
        } else {
            assert(adjacent(conns, closed.processed[j], v));
            assert(visited(closed, v));
        }
    }
}

/// Given fuel for every node that is not finished yet, the search ends
/// with an empty frontier and consistent bookkeeping, every neighbour of a
/// finished node finished too.
pub proof fn lemma_exhaust(
    s: SearchState,
    points: Seq<AStarPoint>,
    conns: Seq<(usize, usize)>,
    goal: AStarPoint,
    start: usize,
    fuel: nat,
)
    requires
        points.len() <= usize::MAX,
        connections_valid(points.len(), conns),
        consistent(s, points.len(), conns, start),
        settled(s, conns, s.processed.len() as int),
        fuel + s.processed.len() >= points.len(),
    ensures
        consistent(exhaust(s, points, conns, goal, fuel), points.len(), conns, start),
        settled(
            exhaust(s, points, conns, goal, fuel),
            conns,
            exhaust(s, points, conns, goal, fuel).processed.len() as int,
        ),
        exhaust(s, points, conns, goal, fuel).open.len() == 0,
    decreases fuel,
{
    if s.open.len() > 0 {
        lemma_room_left(s, points.len(), conns, start);
        lemma_expand_best(s, points, conns, goal, start);
        lemma_exhaust(
            expand_best(s, points, conns, goal),
            points,
            conns,
            goal,
            start,
            (fuel - 1) as nat,
        );
    }
}

/// The bookkeeping that a search starts from is consistent.
pub proof fn lemma_initial_state(
    points: Seq<AStarPoint>,
    conns: Seq<(usize, usize)>,
    start_id: usize,
    start: AStarPoint,
    goal: AStarPoint,
)
    requires
        start_id < points.len(),
    ensures
        consistent(initial_state(points, start_id, start, goal), points.len(), conns, start_id),
        settled(initial_state(points, start_id, start, goal), conns, 0),
{
    let s = initial_state(points, start_id, start, goal);
    assert forall|m: int| 0 <= m < points.len() implies #[trigger] s.g[m] <= MAX_DISTANCE * (
    s.processed.len() + 1) && s.h[m] <= MAX_DISTANCE by {
        lemma_distance_bounded(points[m], start);
        lemma_distance_bounded(points[m], goal);
    }
    assert(s.open.no_duplicates());
    assert(s.processed.no_duplicates());
}

/// From a finished node the predecessor links lead back to the start, each
/// link along a connection.
pub proof fn lemma_chain(
    s: SearchState,
    n: nat,
    conns: Seq<(usize, usize)>,
    start: usize,
    node: usize,
    rank: int,
    fuel: nat,
)
    requires
        consistent(s, n, conns, start),
        0 <= rank < s.processed.len(),
        s.processed[rank] == node,
        fuel >= rank,
    ensures
        chain(s.pred, node, fuel).len() > 0,
        chain(s.pred, node, fuel).first() == node,
        chain(s.pred, node, fuel).last() == start,
        forall|k: int|
            0 <= k < chain(s.pred, node, fuel).len() ==> #[trigger] chain(s.pred, node, fuel)[k]
                < n,
        forall|k: int|
            0 <= k < chain(s.pred, node, fuel).len() - 1 ==> adjacent(
                conns,
                chain(s.pred, node, fuel)[k + 1],
                #[trigger] chain(s.pred, node, fuel)[k],
            ),
    decreases rank,
{
    let c = chain(s.pred, node, fuel);
    assert(node < n);
    if rank == 0 {
        assert(node == start);
        assert(c == seq![node]);
    } else {
        assert(linked(s, conns, s.processed[rank], rank));
        let p = s.pred[node as int]->0;
        let below = choose|j: int|
            0 <= j < rank && j < s.processed.len() && #[trigger] s.processed[j] == p;
        lemma_chain(s, n, conns, start, p, below, (fuel - 1) as nat);
        let rest = chain(s.pred, p, (fuel - 1) as nat);
        assert(c == seq![node] + rest);
        assert forall|k: int| 0 <= k < c.len() implies #[trigger] c[k] < n by {
            if k > 0 {
                assert(c[k] == rest[k - 1]);
            }
        }
        assert forall|k: int| 0 <= k < c.len() - 1 implies adjacent(
            conns,
            c[k + 1],
            #[trigger] c[k],
        ) by {
            assert(c[k + 1] == rest[k]);
            if k > 0 {
                assert(c[k] == rest[k - 1]);
                assert(adjacent(conns, rest[k - 1 + 1], rest[k - 1]));
            }
        }
        assert(c.last() == rest.last());
    }
}

/// What a search finds: a route exactly when some walk joins the node
/// nearest to the start and the node nearest to the goal, and then the
/// points along such a walk, from the one to the other.
pub proof fn lemma_route_of(
    points: Seq<AStarPoint>,
    conns: Seq<(usize, usize)>,
    start: AStarPoint,
    goal: AStarPoint,
)
    requires
        0 < points.len() <= usize::MAX,
        connections_valid(points.len(), conns),
    ensures
        route_of(points, conns, start, goal) is Some <==> reachable(
            points.len(),
            conns,
            nearest(points, start) as usize,
            nearest(points, goal) as usize,
        ),
        route_of(points, conns, start, goal) is Some ==> exists|ids: Seq<usize>| #[trigger]
            is_route(
                points,
                conns,
                nearest(points, start),
                nearest(points, goal),
                ids,
                route_of(points, conns, start, goal)->0,
            ),
        route_of(points, conns, start, goal) matches Some(r) ==> joins(
            points,
            nearest(points, start),
            nearest(points, goal),
            r,
        ),
{
    let n = points.len();
    lemma_nearest_exists(points, start);
    lemma_nearest_exists(points, goal);
    let s = nearest(points, start) as usize;
    let t = nearest(points, goal) as usize;
    let first = initial_state(points, s, points[s as int], points[t as int]);
    lemma_initial_state(points, conns, s, points[s as int], points[t as int]);
    lemma_exhaust(first, points, conns, points[t as int], s, n);
    let end = exhaust(first, points, conns, points[t as int], n);
    let back = chain(end.pred, t, n);
    assert(end.processed.len() > 0);
    assert(end.processed[0] == s);
    assert(end.processed.contains(s));
    if end.processed.contains(t) {
        let rank = choose|r: int| 0 <= r < end.processed.len() && end.processed[r] == t;
        lemma_distinct_bounded(end.processed, n);
        lemma_chain(end, n, conns, s, t, rank, n);
        lemma_reversed_walk(n, conns, back);
        let ids = back.reverse();
        assert(is_walk(n, conns, ids) && ids.first() == s && ids.last() == t);
        let r = points_along(points, ids);
        assert(route_of(points, conns, start, goal) == Some(r));
        assert(r.first() == points[s as int]);
        assert(r.last() == points[t as int]);
        assert(is_route(points, conns, nearest(points, start), nearest(points, goal), ids, r));
        assert(route_of(points, conns, start, goal)->0 == r);
        assert(is_route(
            points,
            conns,
            nearest(points, start),
            nearest(points, goal),
            ids,
            route_of(points, conns, start, goal)->0,
        ));
    } else {
        assert(!visited(end, t));
        assert(end.pred[t as int] is None);
        assert(back == seq![t]);
        assert(t != s);
        assert(back.last() == t);
        assert(route_of(points, conns, start, goal) is None);
        lemma_unreached(end, n, conns, s, t);
    }
}

/// While the frontier holds a node, fewer than all nodes are finished.
pub proof fn lemma_room_left(s: SearchState, n: nat, conns: Seq<(usize, usize)>, start: usize)
    requires
        consistent(s, n, conns, start),
        s.open.len() > 0,
    ensures
        s.processed.len() < n,
{
    let head = s.open[0];
    assert(!s.processed.contains(s.open[0]));
    let grown = s.processed.push(head);
    assert(grown.no_duplicates());
    assert forall|k: int| 0 <= k < grown.len() implies #[trigger] grown[k] < n by {
        if k < s.processed.len() {
            assert(grown[k] == s.processed[k]);
        }
    }
    lemma_distinct_bounded(grown, n);
}

/// When the frontier has run empty and the goal is not finished, no walk
/// leads from the start to the goal.
pub proof fn lemma_unreached(
    s: SearchState,
    n: nat,
    conns: Seq<(usize, usize)>,
    start: usize,
    goal: usize,
)
    requires
        consistent(s, n, conns, start),
        settled(s, conns, s.processed.len() as int),
        s.open.len() == 0,
        !s.processed.contains(goal),
    ensures
        !reachable(n, conns, start, goal),
{
    assert(s.processed.len() > 0);
    assert(s.processed[0] == start);
    assert(s.processed.contains(start));
    assert forall|ids: Seq<usize>| #[trigger]
        is_walk(n, conns, ids) && ids.first() == start implies ids.last() != goal by {
        lemma_walk_stays_finished(s, n, conns, ids);
    }
}

/// A chain of predecessor links, read backwards, is a walk.
pub proof fn lemma_reversed_walk(n: nat, conns: Seq<(usize, usize)>, back: Seq<usize>)
    requires
        back.len() > 0,
        forall|k: int| 0 <= k < back.len() ==> #[trigger] back[k] < n,
        forall|k: int| 0 <= k < back.len() - 1 ==> adjacent(conns, back[k + 1], #[trigger] back[k]),
    ensures
        is_walk(n, conns, back.reverse()),
        back.reverse().first() == back.last(),
        back.reverse().last() == back.first(),
{
    let ids = back.reverse();
    assert forall|j: int| 0 <= j < ids.len() - 1 implies adjacent(
        conns,
        #[trigger] ids[j],
        ids[j + 1],
    ) by {
        let b = back.len() - 2 - j;
        assert(adjacent(conns, back[b + 1], back[b]));
    }
}

} // verus!
