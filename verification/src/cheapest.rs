//! The cost of walks, and why the route found is a cheapest one.

use crate::graph::{
    adjacent, connections_valid, is_walk, lemma_nearest_exists, lemma_neighbors_adjacent, nearest,
    neighbors_of, points_along,
};
use crate::model::{
    best, chain, consistent, exhaust, expand_best, finish_at, initial_state, is_best, linked,
    outranks, relax_all, relax_one, route_of, settled, visited, SearchState,
};
use crate::point::{
    lemma_distance_bounded, lemma_distance_to_self, lemma_distance_triangle, AStarPoint,
    MAX_DISTANCE,
};
use crate::theory::{
    lemma_adjacent_valid, lemma_best_exists, lemma_chain, lemma_distinct_bounded, lemma_exhaust,
    lemma_expand_best, lemma_finish, lemma_initial_state, lemma_push_holds, lemma_relax_all,
    lemma_relax_one, lemma_remove_holds, lemma_reversed_walk, lemma_room_left,
};
use vstd::prelude::*;

verus! {

/// The summed length of the connections that a walk follows.
pub open spec fn walk_cost(points: Seq<AStarPoint>, ids: Seq<usize>) -> nat
    decreases ids.len(),
{
    if ids.len() <= 1 {
        0
    } else {
        walk_cost(points, ids.drop_last()) + points[ids[ids.len() - 2] as int].distance(
            points[ids[ids.len() - 1] as int],
        )
    }
}

/// `ids` is a walk from `u` to `v`.
pub open spec fn walk_between(
    n: nat,
    conns: Seq<(usize, usize)>,
    u: usize,
    v: usize,
    ids: Seq<usize>,
) -> bool {
    is_walk(n, conns, ids) && ids.first() == u && ids.last() == v
}

/// The first nodes of a walk form a walk.
pub proof fn lemma_walk_prefix(n: nat, conns: Seq<(usize, usize)>, ids: Seq<usize>, k: int)
    requires
        is_walk(n, conns, ids),
        0 <= k < ids.len(),
    ensures
        walk_between(n, conns, ids.first(), ids[k], ids.take(k + 1)),
{
    let part = ids.take(k + 1);
    assert forall|j: int| 0 <= j < part.len() - 1 implies adjacent(
        conns,
        #[trigger] part[j],
        part[j + 1],
    ) by {
        assert(adjacent(conns, ids[j], ids[j + 1]));
    }
    assert forall|j: int| 0 <= j < part.len() implies #[trigger] part[j] < n by {
        assert(ids[j] < n);
    }
}

/// The last nodes of a walk form a walk.
pub proof fn lemma_walk_suffix(n: nat, conns: Seq<(usize, usize)>, ids: Seq<usize>, k: int)
    requires
        is_walk(n, conns, ids),
        0 <= k < ids.len(),
    ensures
        walk_between(n, conns, ids[k], ids.last(), ids.skip(k)),
{
    let part = ids.skip(k);
    assert forall|j: int| 0 <= j < part.len() - 1 implies adjacent(
        conns,
        #[trigger] part[j],
        part[j + 1],
    ) by {
        assert(adjacent(conns, ids[k + j], ids[k + j + 1]));
    }
    assert forall|j: int| 0 <= j < part.len() implies #[trigger] part[j] < n by {
        assert(ids[k + j] < n);
    }
}

/// The cost of a walk is the cost up to any of its nodes plus the cost from
/// there on.
pub proof fn lemma_cost_split(points: Seq<AStarPoint>, ids: Seq<usize>, k: int)
    requires
        0 <= k < ids.len(),
    ensures
        walk_cost(points, ids) == walk_cost(points, ids.take(k + 1)) + walk_cost(
            points,
            ids.skip(k),
        ),
    decreases ids.len(),
{
    if k == ids.len() - 1 {
        assert(ids.take(k + 1) == ids);
        assert(ids.skip(k).len() == 1);
    } else {
        let init = ids.drop_last();
        lemma_cost_split(points, init, k);
        assert(init.take(k + 1) == ids.take(k + 1));
        let tail = ids.skip(k);
        assert(tail.drop_last() == init.skip(k));
        assert(tail[tail.len() - 2] == ids[ids.len() - 2]);
        assert(tail[tail.len() - 1] == ids[ids.len() - 1]);
    }
}

/// Along a walk the distance to a node `t` shrinks by no more than the
/// walk costs.
pub proof fn lemma_estimate_along(
    points: Seq<AStarPoint>,
    conns: Seq<(usize, usize)>,
    ids: Seq<usize>,
    t: usize,
)
    requires
        is_walk(points.len(), conns, ids),
        t < points.len(),
    ensures
        points[ids.first() as int].distance(points[t as int]) <= walk_cost(points, ids)
            + points[ids.last() as int].distance(points[t as int]),
    decreases ids.len(),
{
    if ids.len() > 1 {
        let init = ids.drop_last();
        lemma_walk_prefix(points.len(), conns, ids, ids.len() - 2);
        assert(ids.take(ids.len() - 2 + 1) == init);
        lemma_estimate_along(points, conns, init, t);
        let a = ids[ids.len() - 2] as int;
        let b = ids[ids.len() - 1] as int;
        assert(ids[ids.len() - 2] < points.len());
        assert(ids[ids.len() - 1] < points.len());
        lemma_distance_triangle(points[a], points[b], points[t as int]);
    }
}

/// A walk that starts inside a set of nodes and ends outside it leaves the
/// set along one of its connections.
pub proof fn lemma_crossing(done: Seq<usize>, ids: Seq<usize>) -> (k: int)
    requires
        ids.len() > 0,
        done.contains(ids.first()),
        !done.contains(ids.last()),
    ensures
        0 <= k < ids.len() - 1,
        done.contains(ids[k]),
        !done.contains(ids[k + 1]),
    decreases ids.len(),
{
    if done.contains(ids[ids.len() - 2]) {
        ids.len() - 2
    } else {
        let init = ids.drop_last();
        assert(init.last() == ids[ids.len() - 2]);
        let k = lemma_crossing(done, init);
        assert(init[k] == ids[k] && init[k + 1] == ids[k + 1]);
        k
    }
}

/// Some walk from `start` to `m` costs exactly `c`.
pub open spec fn attained(
    points: Seq<AStarPoint>,
    conns: Seq<(usize, usize)>,
    start: usize,
    m: usize,
    c: int,
) -> bool {
    exists|w: Seq<usize>| #[trigger]
        walk_between(points.len(), conns, start, m, w) && walk_cost(points, w) == c
}

/// No walk from `start` to `m` costs less than `c`.
pub open spec fn minimal(
    points: Seq<AStarPoint>,
    conns: Seq<(usize, usize)>,
    start: usize,
    m: usize,
    c: int,
) -> bool {
    forall|w: Seq<usize>| #[trigger]
        walk_between(points.len(), conns, start, m, w) ==> c <= walk_cost(points, w)
}

/// Reaching `v` costs no more than reaching `u` and going from `u` to `v`.
pub open spec fn eased(s: SearchState, points: Seq<AStarPoint>, u: usize, v: usize) -> bool {
    s.g[v as int] <= s.g[u as int] + points[u as int].distance(points[v as int])
}

/// The cost of `m` is the cost of its predecessor plus the distance between
/// the two.
pub open spec fn priced(s: SearchState, points: Seq<AStarPoint>, m: usize) -> bool {
    &&& s.pred[m as int] matches Some(p)
    &&& s.g[m as int] == s.g[p as int] + points[p as int].distance(points[m as int])
}

/// What the costs of a search towards node `t` mean: every cost is that of
/// a walk from the start, the cost of a finished node is the least one, and
/// no connection from one of the first `count` finished nodes offers a
/// cheaper way.
pub open spec fn tight(
    s: SearchState,
    points: Seq<AStarPoint>,
    conns: Seq<(usize, usize)>,
    start: usize,
    t: usize,
    count: int,
) -> bool {
    &&& s.g[start as int] == 0
    &&& forall|m: usize| #[trigger]
        visited(s, m) ==> attained(points, conns, start, m, s.g[m as int] as int)
    &&& forall|k: int|
        0 <= k < s.processed.len() ==> minimal(
            points,
            conns,
            start,
            #[trigger] s.processed[k],
            s.g[s.processed[k] as int] as int,
        )
    &&& forall|k: int, v: usize|
        0 <= k < count && k < s.processed.len() && adjacent(conns, #[trigger] s.processed[k], v)
            ==> #[trigger] eased(s, points, s.processed[k], v)
    &&& forall|m: int|
        0 <= m < points.len() ==> #[trigger] s.h[m] == points[m].distance(points[t as int])
    &&& forall|m: usize| #[trigger] visited(s, m) && m != start ==> priced(s, points, m)
}

/// The node that the frontier offers for expansion already has its least
/// cost.
pub proof fn lemma_best_minimal(
    s: SearchState,
    points: Seq<AStarPoint>,
    conns: Seq<(usize, usize)>,
    start: usize,
    t: usize,
    i: int,
)
    requires
        consistent(s, points.len(), conns, start),
        settled(s, conns, s.processed.len() as int),
        tight(s, points, conns, start, t, s.processed.len() as int),
        t < points.len(),
        is_best(s.open, s.g, s.h, i),
    ensures
        minimal(points, conns, start, s.open[i], s.g[s.open[i] as int] as int),
{
    let n = points.len();
    let u = s.open[i];
    assert forall|w: Seq<usize>| #[trigger] walk_between(n, conns, start, u, w) implies s.g[u as int]
        <= walk_cost(points, w) by {
        if s.processed.len() == 0 {
            assert(s.open == seq![start]);
            assert(u == start);
        } else {
            assert(s.processed[0] == start);
            assert(s.processed.contains(start));
            assert(!s.processed.contains(s.open[i]));
            let k = lemma_crossing(s.processed, w);
            let x = w[k];
            let y = w[k + 1];
            assert(adjacent(conns, w[k], w[k + 1]));
            let j = choose|j: int| 0 <= j < s.processed.len() && s.processed[j] == x;
            assert(adjacent(conns, s.processed[j], y));
            assert(visited(s, y));
            assert(s.open.contains(y));
            let jo = choose|jo: int| 0 <= jo < s.open.len() && s.open[jo] == y;
            assert(!outranks(s.g, s.h, s.open[jo], s.open[i]));
            assert(eased(s, points, s.processed[j], y));
            lemma_walk_prefix(n, conns, w, k);
            assert(walk_between(n, conns, start, s.processed[j], w.take(k + 1)));
            assert(minimal(points, conns, start, s.processed[j], s.g[s.processed[j] as int] as int));
            assert(s.g[x as int] <= walk_cost(points, w.take(k + 1)));
            lemma_cost_split(points, w, k + 1);
            let upto = w.take(k + 2);
            assert(upto.drop_last() == w.take(k + 1));
            assert(upto[upto.len() - 2] == x && upto[upto.len() - 1] == y);
            assert(walk_cost(points, upto) == walk_cost(points, w.take(k + 1))
                + points[x as int].distance(points[y as int]));
            lemma_walk_suffix(n, conns, w, k + 1);
            lemma_estimate_along(points, conns, w.skip(k + 1), t);
            assert(w[k + 1] < n);
            assert(s.open[i] < n);
            assert(s.h[y as int] == points[y as int].distance(points[t as int]));
            assert(s.h[u as int] == points[u as int].distance(points[t as int]));
        }
    }
}

/// Finishing the best node of the frontier keeps the costs tight.
pub proof fn lemma_finish_tight(
    s: SearchState,
    points: Seq<AStarPoint>,
    conns: Seq<(usize, usize)>,
    start: usize,
    t: usize,
    i: int,
)
    requires
        consistent(s, points.len(), conns, start),
        settled(s, conns, s.processed.len() as int),
        tight(s, points, conns, start, t, s.processed.len() as int),
        t < points.len(),
        is_best(s.open, s.g, s.h, i),
    ensures
        tight(finish_at(s, i), points, conns, start, t, s.processed.len() as int),
{
    let closed = finish_at(s, i);
    let count = s.processed.len();
    let cur = s.open[i];
    lemma_best_minimal(s, points, conns, start, t, i);
    lemma_remove_holds(s.open, i);
    lemma_push_holds(s.processed, cur);
    assert forall|m: usize| #[trigger] visited(closed, m) implies visited(s, m) by {}
    assert forall|m: usize| #[trigger] visited(closed, m) implies attained(
        points,
        conns,
        start,
        m,
        closed.g[m as int] as int,
    ) by {
        assert(visited(s, m));
    }
    assert forall|k: int| 0 <= k < closed.processed.len() implies minimal(
        points,
        conns,
        start,
        #[trigger] closed.processed[k],
        closed.g[closed.processed[k] as int] as int,
    ) by {
        if k < count {
            assert(closed.processed[k] == s.processed[k]);
        }
    }
    assert forall|k: int, v: usize|
        0 <= k < count && k < closed.processed.len() && adjacent(
            conns,
            #[trigger] closed.processed[k],
            v,
        ) implies #[trigger] eased(closed, points, closed.processed[k], v) by {
        assert(closed.processed[k] == s.processed[k]);
        assert(eased(s, points, s.processed[k], v));
    }
    assert forall|m: usize| #[trigger] visited(closed, m) && m != start implies priced(
        closed,
        points,
        m,
    ) by {
        assert(visited(s, m));
        assert(priced(s, points, m));
    }
}

/// Looking at one neighbour of the node finished last keeps the costs
/// tight, raises no cost of a discovered node, and leaves the neighbour no
/// dearer than by way of that node.
pub proof fn lemma_relax_one_tight(
    s: SearchState,
    points: Seq<AStarPoint>,
    conns: Seq<(usize, usize)>,
    start: usize,
    t: usize,
    cur: usize,
    nb: usize,
)
    requires
        points.len() <= usize::MAX,
        consistent(s, points.len(), conns, start),
        settled(s, conns, s.processed.len() - 1),
        tight(s, points, conns, start, t, s.processed.len() - 1),
        s.processed.len() > 0,
        s.processed.last() == cur,
        s.g[cur as int] <= MAX_DISTANCE * s.processed.len(),
        nb < points.len(),
        t < points.len(),
        adjacent(conns, cur, nb),
    ensures
        tight(
            relax_one(s, points, points[t as int], cur, nb),
            points,
            conns,
            start,
            t,
            s.processed.len() - 1,
        ),
        eased(relax_one(s, points, points[t as int], cur, nb), points, cur, nb),
        forall|v: usize|
            visited(s, v) ==> #[trigger] relax_one(s, points, points[t as int], cur, nb).g[v as int]
                <= s.g[v as int],
{
    let n = points.len();
    let goal = points[t as int];
    let after = relax_one(s, points, goal, cur, nb);
    let count = s.processed.len() - 1;
    lemma_relax_one(s, points, conns, goal, start, cur, nb);
    lemma_distinct_bounded(s.processed, n);
    lemma_distance_bounded(points[cur as int], points[nb as int]);
    lemma_distance_bounded(points[nb as int], goal);
    lemma_push_holds(s.open, nb);
    let tentative = s.g[cur as int] + points[cur as int].distance(points[nb as int]);
    assert(tentative as u128 == tentative);
    assert(s.processed[count] == cur);
    assert(s.processed.contains(cur));
    assert(visited(s, cur));
    assert(s.processed[0] == start);
    assert(s.processed.contains(start));
    assert(cur < n);
    assert(attained(points, conns, start, cur, s.g[cur as int] as int));
    let wc = choose|w: Seq<usize>| #[trigger]
        walk_between(n, conns, start, cur, w) && walk_cost(points, w) == s.g[cur as int] as int;
    let wn = wc.push(nb);
    assert forall|j: int| 0 <= j < wn.len() - 1 implies adjacent(
        conns,
        #[trigger] wn[j],
        wn[j + 1],
    ) by {
        if j < wc.len() - 1 {
            assert(adjacent(conns, wc[j], wc[j + 1]));
        }
    }
    assert forall|j: int| 0 <= j < wn.len() implies #[trigger] wn[j] < n by {
        if j < wc.len() {
            assert(wc[j] < n);
        }
    }
    assert(wn.drop_last() == wc);
    assert(wn[wn.len() - 2] == cur && wn[wn.len() - 1] == nb);
    assert(walk_cost(points, wn) == tentative);
    assert(walk_between(n, conns, start, nb, wn));
    let changed = !s.processed.contains(nb) && (!s.open.contains(nb) || tentative
        < s.g[nb as int]);
    if s.processed.contains(nb) {
        let j = choose|j: int| 0 <= j < s.processed.len() && s.processed[j] == nb;
        assert(minimal(points, conns, start, s.processed[j], s.g[s.processed[j] as int] as int));
        assert(s.g[nb as int] <= walk_cost(points, wn));
    }
    if changed {
        assert(nb != start && nb != cur);
        assert(after.g == s.g.update(nb as int, tentative as u128));
        assert(after.pred == s.pred.update(nb as int, Some(cur)));
        assert forall|m: usize| #[trigger] visited(after, m) implies attained(
            points,
            conns,
            start,
            m,
            after.g[m as int] as int,
        ) by {
            if m == nb {
                assert(walk_between(n, conns, start, nb, wn) && walk_cost(points, wn)
                    == after.g[m as int] as int);
            } else {
                assert(visited(s, m));
                assert(attained(points, conns, start, m, s.g[m as int] as int));
            }
        }
        assert forall|k: int| 0 <= k < after.processed.len() implies minimal(
            points,
            conns,
            start,
            #[trigger] after.processed[k],
            after.g[after.processed[k] as int] as int,
        ) by {
            assert(s.processed.contains(s.processed[k]));
            assert(minimal(
                points,
                conns,
                start,
                s.processed[k],
                s.g[s.processed[k] as int] as int,
            ));
        }
        assert forall|k: int, v: usize|
            0 <= k < count && k < after.processed.len() && adjacent(
                conns,
                #[trigger] after.processed[k],
                v,
            ) implies #[trigger] eased(after, points, after.processed[k], v) by {
            assert(s.processed.contains(s.processed[k]));
            assert(eased(s, points, s.processed[k], v));
            assert(adjacent(conns, s.processed[k], v));
            assert(visited(s, v));
            assert(after.g[s.processed[k] as int] == s.g[s.processed[k] as int]);
            assert(after.g[v as int] <= s.g[v as int]);
        }
        assert forall|m: int| 0 <= m < points.len() implies #[trigger] after.h[m]
            == points[m].distance(points[t as int]) by {
            assert(s.h[m] == points[m].distance(points[t as int]));
        }
        assert forall|m: usize| #[trigger] visited(after, m) && m != start implies priced(
            after,
            points,
            m,
        ) by {
            if m != nb {
                assert(visited(s, m));
                assert(priced(s, points, m));
                let p = s.pred[m as int]->0;
                if s.open.contains(m) {
                    let j = choose|j: int| 0 <= j < s.open.len() && s.open[j] == m;
                    assert(linked(s, conns, s.open[j], s.processed.len() as int));
                } else {
                    let j = choose|j: int| 0 <= j < s.processed.len() && s.processed[j] == m;
                    assert(j > 0);
                    assert(linked(s, conns, s.processed[j], j));
                }
                assert(s.processed.contains(p));
                assert(p != nb);
            }
        }
    } else {
        assert(after == s);
    }
}

/// Looking at all neighbours of the node finished last keeps the costs
/// tight and leaves each of them no dearer than by way of that node.
pub proof fn lemma_relax_all_tight(
    s: SearchState,
    points: Seq<AStarPoint>,
    conns: Seq<(usize, usize)>,
    start: usize,
    t: usize,
    cur: usize,
    ns: Seq<usize>,
)
    requires
        points.len() <= usize::MAX,
        consistent(s, points.len(), conns, start),
        settled(s, conns, s.processed.len() - 1),
        tight(s, points, conns, start, t, s.processed.len() - 1),
        s.processed.len() > 0,
        s.processed.last() == cur,
        s.g[cur as int] <= MAX_DISTANCE * s.processed.len(),
        t < points.len(),
        forall|j: int|
            0 <= j < ns.len() ==> #[trigger] ns[j] < points.len() && adjacent(conns, cur, ns[j]),
    ensures
        tight(
            relax_all(s, points, points[t as int], cur, ns),
            points,
            conns,
            start,
            t,
            s.processed.len() - 1,
        ),
        forall|j: int|
            0 <= j < ns.len() ==> eased(
                relax_all(s, points, points[t as int], cur, ns),
                points,
                cur,
                #[trigger] ns[j],
            ),
        forall|v: usize|
            visited(s, v) ==> #[trigger] relax_all(s, points, points[t as int], cur, ns).g[v as int]
                <= s.g[v as int],
    decreases ns.len(),
{
    if ns.len() > 0 {
        let goal = points[t as int];
        let count = s.processed.len() - 1;
        let init = ns.drop_last();
        let mid = relax_all(s, points, goal, cur, init);
        let after = relax_all(s, points, goal, cur, ns);
        assert forall|j: int| 0 <= j < init.len() implies #[trigger] init[j] < points.len()
            && adjacent(conns, cur, init[j]) by {
            assert(init[j] == ns[j]);
        }
        lemma_relax_all(s, points, conns, goal, start, cur, init);
        lemma_relax_all_tight(s, points, conns, start, t, cur, init);
        assert forall|k: int, v: usize|
            0 <= k < count && k < mid.processed.len() && adjacent(
                conns,
                #[trigger] mid.processed[k],
                v,
            ) implies #[trigger] visited(mid, v) by {
            assert(adjacent(conns, s.processed[k], v));
            assert(visited(s, v));
        }
        lemma_relax_one(mid, points, conns, goal, start, cur, ns.last());
        lemma_relax_one_tight(mid, points, conns, start, t, cur, ns.last());
        assert(after == relax_one(mid, points, goal, cur, ns.last()));
        assert forall|j: int| 0 <= j < ns.len() implies eased(
            after,
            points,
            cur,
            #[trigger] ns[j],
        ) by {
            if j < init.len() {
                assert(eased(mid, points, cur, init[j]));
                assert(visited(mid, init[j]));
                assert(after.g[init[j] as int] <= mid.g[init[j] as int]);
            }
        }
        assert forall|v: usize| visited(s, v) implies #[trigger] after.g[v as int]
            <= s.g[v as int] by {
            assert(visited(mid, v));
            assert(mid.g[v as int] <= s.g[v as int]);
            assert(after.g[v as int] <= mid.g[v as int]);
        }
    }
}

/// One expansion keeps the costs tight.
pub proof fn lemma_expand_tight(
    s: SearchState,
    points: Seq<AStarPoint>,
    conns: Seq<(usize, usize)>,
    start: usize,
    t: usize,
)
    requires
        points.len() <= usize::MAX,
        connections_valid(points.len(), conns),
        consistent(s, points.len(), conns, start),
        settled(s, conns, s.processed.len() as int),
        tight(s, points, conns, start, t, s.processed.len() as int),
        t < points.len(),
        s.open.len() > 0,
    ensures
        tight(
            expand_best(s, points, conns, points[t as int]),
            points,
            conns,
            start,
            t,
            (s.processed.len() + 1) as int,
        ),
{
    let n = points.len();
    let goal = points[t as int];
    let count = s.processed.len();
    lemma_best_exists(s.open, s.g, s.h);
    let i = best(s.open, s.g, s.h);
    let cur = s.open[i];
    let closed = finish_at(s, i);
    lemma_finish(s, n, conns, start, i);
    lemma_finish_tight(s, points, conns, start, t, i);
    let ns = neighbors_of(conns, cur);
    assert forall|j: int| 0 <= j < ns.len() implies #[trigger] ns[j] < n && adjacent(
        conns,
        cur,
        ns[j],
    ) by {
        assert(ns.contains(ns[j]));
        lemma_neighbors_adjacent(conns, cur, ns[j]);
        lemma_adjacent_valid(n, conns, cur, ns[j]);
    }
    assert(closed.g[cur as int] <= MAX_DISTANCE * (count + 1));
    lemma_relax_all(closed, points, conns, goal, start, cur, ns);
    lemma_relax_all_tight(closed, points, conns, start, t, cur, ns);
    let after = relax_all(closed, points, goal, cur, ns);
    assert(after == expand_best(s, points, conns, goal));
    assert(after.processed[count as int] == cur);
    assert forall|k: int, v: usize|
        0 <= k < count + 1 && k < after.processed.len() && adjacent(
            conns,
            #[trigger] after.processed[k],
            v,
        ) implies #[trigger] eased(after, points, after.processed[k], v) by {
        if k == count {
            lemma_neighbors_adjacent(conns, cur, v);
            let w = choose|w: int| 0 <= w < ns.len() && ns[w] == v;
            assert(eased(after, points, cur, ns[w]));
        }
    }
}

/// The search keeps the costs tight until the frontier has run empty.
pub proof fn lemma_exhaust_tight(
    s: SearchState,
    points: Seq<AStarPoint>,
    conns: Seq<(usize, usize)>,
    start: usize,
    t: usize,
    fuel: nat,
)
    requires
        points.len() <= usize::MAX,
        connections_valid(points.len(), conns),
        consistent(s, points.len(), conns, start),
        settled(s, conns, s.processed.len() as int),
        tight(s, points, conns, start, t, s.processed.len() as int),
        t < points.len(),
        fuel + s.processed.len() >= points.len(),
    ensures
        tight(
            exhaust(s, points, conns, points[t as int], fuel),
            points,
            conns,
            start,
            t,
            exhaust(s, points, conns, points[t as int], fuel).processed.len() as int,
        ),
    decreases fuel,
{
    if s.open.len() > 0 {
        lemma_room_left(s, points.len(), conns, start);
        lemma_expand_best(s, points, conns, points[t as int], start);
        lemma_expand_tight(s, points, conns, start, t);
        lemma_exhaust_tight(
            expand_best(s, points, conns, points[t as int]),
            points,
            conns,
            start,
            t,
            (fuel - 1) as nat,
        );
    }
}

/// The costs that a search starts from are tight.
pub proof fn lemma_initial_tight(
    points: Seq<AStarPoint>,
    conns: Seq<(usize, usize)>,
    start: usize,
    t: usize,
)
    requires
        start < points.len(),
        t < points.len(),
    ensures
        tight(
            initial_state(points, start, points[start as int], points[t as int]),
            points,
            conns,
            start,
            t,
            0,
        ),
{
    let s = initial_state(points, start, points[start as int], points[t as int]);
    lemma_distance_to_self(points[start as int]);
    assert forall|m: int| 0 <= m < points.len() implies #[trigger] s.h[m] == points[m].distance(
        points[t as int],
    ) by {
        lemma_distance_bounded(points[m], points[t as int]);
    }
    let alone = seq![start];
    assert(walk_between(points.len(), conns, start, start, alone));
    assert(walk_cost(points, alone) == 0);
    assert forall|m: usize| #[trigger] visited(s, m) implies m == start by {
        if s.open.contains(m) {
            let j = choose|j: int| 0 <= j < s.open.len() && s.open[j] == m;
        }
    }
}

/// Read from the start, the predecessor chain of a finished node costs what
/// the search holds as the cost of that node.
pub proof fn lemma_chain_cost(
    s: SearchState,
    points: Seq<AStarPoint>,
    conns: Seq<(usize, usize)>,
    start: usize,
    t: usize,
    node: usize,
    rank: int,
    fuel: nat,
)
    requires
        consistent(s, points.len(), conns, start),
        tight(s, points, conns, start, t, s.processed.len() as int),
        0 <= rank < s.processed.len(),
        s.processed[rank] == node,
        fuel >= rank,
    ensures
        walk_cost(points, chain(s.pred, node, fuel).reverse()) == s.g[node as int],
    decreases rank,
{
    let c = chain(s.pred, node, fuel);
    assert(node < points.len());
    if rank == 0 {
        assert(node == start);
        assert(c == seq![node]);
        assert(c.reverse().len() == 1);
    } else {
        assert(linked(s, conns, s.processed[rank], rank));
        let p = s.pred[node as int]->0;
        let below = choose|j: int|
            0 <= j < rank && j < s.processed.len() && #[trigger] s.processed[j] == p;
        lemma_chain_cost(s, points, conns, start, t, p, below, (fuel - 1) as nat);
        lemma_chain(s, points.len(), conns, start, p, below, (fuel - 1) as nat);
        let rest = chain(s.pred, p, (fuel - 1) as nat);
        assert(c == seq![node] + rest);
        let forward = c.reverse();
        assert(forward =~= rest.reverse().push(node));
        assert(forward.drop_last() == rest.reverse());
        assert(forward[forward.len() - 2] == p);
        assert(forward[forward.len() - 1] == node);
        assert(s.processed.contains(s.processed[rank]));
        assert(visited(s, node));
        assert(s.processed[0] == start);
        assert(node != start);
        assert(priced(s, points, node));
    }
}

/// `ids` is a walk from `s` to `t` that no other walk between them
/// undercuts.
pub open spec fn cheapest(
    points: Seq<AStarPoint>,
    conns: Seq<(usize, usize)>,
    s: usize,
    t: usize,
    ids: Seq<usize>,
) -> bool {
    walk_between(points.len(), conns, s, t, ids) && minimal(
        points,
        conns,
        s,
        t,
        walk_cost(points, ids) as int,
    )
}

/// The route found is a cheapest one: it follows a walk between the two
/// nearest nodes that no other walk between them undercuts.
pub proof fn lemma_route_cheapest(
    points: Seq<AStarPoint>,
    conns: Seq<(usize, usize)>,
    start: AStarPoint,
    goal: AStarPoint,
)
    requires
        0 < points.len() <= usize::MAX,
        connections_valid(points.len(), conns),
    ensures
        route_of(points, conns, start, goal) is Some ==> exists|ids: Seq<usize>| #[trigger]
            cheapest(
                points,
                conns,
                nearest(points, start) as usize,
                nearest(points, goal) as usize,
                ids,
            ) && route_of(points, conns, start, goal)->0 == points_along(points, ids),
{
    let n = points.len();
    lemma_nearest_exists(points, start);
    lemma_nearest_exists(points, goal);
    let s = nearest(points, start) as usize;
    let t = nearest(points, goal) as usize;
    let first = initial_state(points, s, points[s as int], points[t as int]);
    lemma_initial_state(points, conns, s, points[s as int], points[t as int]);
    lemma_initial_tight(points, conns, s, t);
    lemma_exhaust(first, points, conns, points[t as int], s, n);
    lemma_exhaust_tight(first, points, conns, s, t, n);
    let end = exhaust(first, points, conns, points[t as int], n);
    let back = chain(end.pred, t, n);
    if end.processed.contains(t) {
        let rank = choose|r: int| 0 <= r < end.processed.len() && end.processed[r] == t;
        lemma_distinct_bounded(end.processed, n);
        lemma_chain(end, n, conns, s, t, rank, n);
        lemma_chain_cost(end, points, conns, s, t, t, rank, n);
        lemma_reversed_walk(n, conns, back);
        let ids = back.reverse();
        assert(walk_between(n, conns, s, t, ids));
        assert(minimal(points, conns, s, end.processed[rank], end.g[end.processed[rank] as int] as int));
        assert(route_of(points, conns, start, goal) == Some(points_along(points, ids)));
        assert(cheapest(points, conns, s, t, ids));
        assert(route_of(points, conns, start, goal)->0 == points_along(points, ids));
    } else {
        assert(end.processed.len() > 0);
        assert(end.processed[0] == s);
        assert(end.processed.contains(s));
        assert(!visited(end, t));
        assert(end.pred[t as int] is None);
        assert(back == seq![t]);
        assert(back.last() == t);
        assert(route_of(points, conns, start, goal) is None);
    }
}

} // verus!
