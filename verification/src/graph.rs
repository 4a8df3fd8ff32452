//! The store of points and connections, and what it means for nodes to be
//! adjacent, joined by a walk, or nearest to a point.

use crate::point::AStarPoint;
use vstd::prelude::*;

verus! {

/// Two nodes are adjacent when some connection joins them, in either
/// orientation.
pub open spec fn adjacent(conns: Seq<(usize, usize)>, u: usize, v: usize) -> bool {
    exists|k: int| 0 <= k < conns.len() && (#[trigger] conns[k] == (u, v) || conns[k] == (v, u))
}

/// The nodes joined to `node`, in connection order. A connection from a node
/// to itself lists the node twice.
pub open spec fn neighbors_of(conns: Seq<(usize, usize)>, node: usize) -> Seq<usize>
    decreases conns.len(),
{
    if conns.len() == 0 {
        Seq::empty()
    } else {
        let rest = neighbors_of(conns.drop_last(), node);
        let c = conns.last();
        let forward = if c.0 == node {
            rest.push(c.1)
        } else {
            rest
        };
        if c.1 == node {
            forward.push(c.0)
        } else {
            forward
        }
    }
}

/// The connections that do not touch `node`.
pub open spec fn spares(node: usize) -> spec_fn((usize, usize)) -> bool {
    |c: (usize, usize)| c.0 != node && c.1 != node
}

/// Every connection joins two nodes below `n`.
pub open spec fn connections_valid(n: nat, conns: Seq<(usize, usize)>) -> bool {
    forall|k: int| 0 <= k < conns.len() ==> (#[trigger] conns[k]).0 < n && conns[k].1 < n
}

/// `ids` is a walk: a non-empty sequence of nodes below `n` in which each
/// node is adjacent to the next.
pub open spec fn is_walk(n: nat, conns: Seq<(usize, usize)>, ids: Seq<usize>) -> bool {
    &&& ids.len() > 0
    &&& forall|k: int| 0 <= k < ids.len() ==> #[trigger] ids[k] < n
    &&& forall|k: int| 0 <= k < ids.len() - 1 ==> adjacent(conns, #[trigger] ids[k], ids[k + 1])
}

/// Some walk leads from `u` to `v`.
pub open spec fn reachable(n: nat, conns: Seq<(usize, usize)>, u: usize, v: usize) -> bool {
    exists|ids: Seq<usize>| #[trigger] is_walk(n, conns, ids) && ids.first() == u && ids.last() == v
}

/// The points that the nodes of `ids` stand for.
pub open spec fn points_along(points: Seq<AStarPoint>, ids: Seq<usize>) -> Seq<AStarPoint> {
    Seq::new(ids.len(), |k: int| points[ids[k] as int])
}

/// `ids` is a walk from node `s` to node `t`, and `route` holds the points
/// along it.
pub open spec fn is_route(
    points: Seq<AStarPoint>,
    conns: Seq<(usize, usize)>,
    s: int,
    t: int,
    ids: Seq<usize>,
    route: Seq<AStarPoint>,
) -> bool {
    &&& is_walk(points.len(), conns, ids)
    &&& ids.first() == s
    &&& ids.last() == t
    &&& route == points_along(points, ids)
}

/// `route` begins at the point of node `s` and ends at the point of node `t`.
pub open spec fn joins(points: Seq<AStarPoint>, s: int, t: int, route: Seq<AStarPoint>) -> bool {
    &&& route.len() > 0
    &&& route.first() == points[s]
    &&& route.last() == points[t]
}

/// `i` is the node nearest to `q`: no node is closer and no earlier node is
/// as close.
pub open spec fn is_nearest(points: Seq<AStarPoint>, q: AStarPoint, i: int) -> bool {
    &&& 0 <= i < points.len()
    &&& forall|j: int|
        0 <= j < points.len() ==> q.distance(#[trigger] points[j]) >= q.distance(points[i])
    &&& forall|j: int| 0 <= j < i ==> q.distance(#[trigger] points[j]) > q.distance(points[i])
}

/// The node nearest to `q`, the lowest one among equally near nodes.
pub open spec fn nearest(points: Seq<AStarPoint>, q: AStarPoint) -> int {
    choose|i: int| is_nearest(points, q, i)
}

/// At most one node is the nearest.
pub proof fn lemma_nearest_unique(points: Seq<AStarPoint>, q: AStarPoint, i: int)
    requires
        is_nearest(points, q, i),
    ensures
        nearest(points, q) == i,
{
    let j = nearest(points, q);
    assert(is_nearest(points, q, j));
    if j < i {
        assert(q.distance(points[j]) > q.distance(points[i]));
    } else if i < j {
        assert(q.distance(points[i]) > q.distance(points[j]));
    }
}

/// A non-empty list of points has a nearest node.
pub proof fn lemma_nearest_exists(points: Seq<AStarPoint>, q: AStarPoint)
    requires
        points.len() > 0,
    ensures
        is_nearest(points, q, nearest(points, q)),
    decreases points.len(),
{
    if points.len() == 1 {
        assert(is_nearest(points, q, 0));
    } else {
        let init = points.drop_last();
        lemma_nearest_exists(init, q);
        let b = nearest(init, q);
        let top = points.len() - 1;
        assert(init[b] == points[b]);
        if q.distance(points[top]) < q.distance(points[b]) {
            assert forall|j: int| 0 <= j < points.len() implies q.distance(#[trigger] points[j])
                >= q.distance(points[top]) by {
                if j < top {
                    assert(q.distance(init[j]) >= q.distance(init[b]));
                }
            }
            assert forall|j: int| 0 <= j < top implies q.distance(#[trigger] points[j])
                > q.distance(points[top]) by {
                assert(q.distance(init[j]) >= q.distance(init[b]));
            }
            assert(is_nearest(points, q, top));
        } else {
            assert forall|j: int| 0 <= j < points.len() implies q.distance(#[trigger] points[j])
                >= q.distance(points[b]) by {
                if j < top {
                    assert(q.distance(init[j]) >= q.distance(init[b]));
                }
            }
            assert forall|j: int| 0 <= j < b implies q.distance(#[trigger] points[j])
                > q.distance(points[b]) by {
                assert(q.distance(init[j]) > q.distance(init[b]));
            }
            assert(is_nearest(points, q, b));
        }
    }
}

/// A node is listed among the neighbours of `u` exactly when it is adjacent
/// to `u`.
pub proof fn lemma_neighbors_adjacent(conns: Seq<(usize, usize)>, u: usize, v: usize)
    ensures
        neighbors_of(conns, u).contains(v) <==> adjacent(conns, u, v),
    decreases conns.len(),
{
    if conns.len() > 0 {
        let init = conns.drop_last();
        let c = conns.last();
        lemma_neighbors_adjacent(init, u, v);
        let rest = neighbors_of(init, u);
        let forward = if c.0 == u {
            rest.push(c.1)
        } else {
            rest
        };
        let all = neighbors_of(conns, u);
        if adjacent(conns, u, v) {
            let k = choose|k: int|
                0 <= k < conns.len() && (#[trigger] conns[k] == (u, v) || conns[k] == (v, u));
            if k < init.len() {
                assert(init[k] == conns[k]);
                assert(adjacent(init, u, v));
                let w = choose|w: int| 0 <= w < rest.len() && rest[w] == v;
                assert(forward[w] == v);
                assert(all[w] == v);
            } else {
                assert(c == conns[k]);
                if c == (u, v) {
                    assert(forward[rest.len() as int] == v);
                    assert(all[rest.len() as int] == v);
                } else {
                    assert(all[all.len() - 1] == v);
                }
            }
        }
        if all.contains(v) {
            let w = choose|w: int| 0 <= w < all.len() && all[w] == v;
            if w < rest.len() {
                assert(rest[w] == v);
                assert(rest.contains(v));
                let k = choose|k: int|
                    0 <= k < init.len() && (#[trigger] init[k] == (u, v) || init[k] == (v, u));
                assert(conns[k] == init[k]);
            } else {
                assert(conns[conns.len() - 1] == c);
                assert(c == (u, v) || c == (v, u));
            }
        }
    }
}

/// Adjacency does not depend on the order of the two nodes.
pub proof fn lemma_adjacent_symmetric(conns: Seq<(usize, usize)>, u: usize, v: usize)
    ensures
        adjacent(conns, u, v) == adjacent(conns, v, u),
{
    if adjacent(conns, u, v) {
        let k = choose|k: int|
            0 <= k < conns.len() && (#[trigger] conns[k] == (u, v) || conns[k] == (v, u));
        assert(conns[k] == (v, u) || conns[k] == (u, v));
    }
    if adjacent(conns, v, u) {
        let k = choose|k: int|
            0 <= k < conns.len() && (#[trigger] conns[k] == (v, u) || conns[k] == (u, v));
        assert(conns[k] == (u, v) || conns[k] == (v, u));
    }
}

/// The store of a route finder: points, identified by the order in which
/// they were added, and undirected connections between them.
#[derive(Debug, Clone)]
pub struct AStarPathFinder {
    points: Vec<AStarPoint>,
    connections: Vec<(usize, usize)>,
}

impl AStarPathFinder {
    /// The stored points, in insertion order.
    pub closed spec fn points(&self) -> Seq<AStarPoint> {
        self.points@
    }

    /// The stored connections, in insertion order.
    pub closed spec fn connections(&self) -> Seq<(usize, usize)> {
        self.connections@
    }

    /// Every connection joins two stored points.
    pub open spec fn wf(&self) -> bool {
        connections_valid(self.points().len(), self.connections())
    }

    /// Creates an empty store.
    pub fn new() -> (store: Self)
        ensures
            store.points() == Seq::<AStarPoint>::empty(),
            store.connections() == Seq::<(usize, usize)>::empty(),
            store.wf(),
    {
        AStarPathFinder { points: Vec::new(), connections: Vec::new() }
    }

    /// Tells whether every connection joins two stored points.
    pub fn is_well_formed(&self) -> (ok: bool)
        ensures
            ok == self.wf(),
    {
        let n = self.points.len();
        let mut k: usize = 0;
        while k < self.connections.len()
            invariant
                k <= self.connections.len(),
                n == self.points@.len(),
                forall|j: int|
                    0 <= j < k ==> (#[trigger] self.connections@[j]).0 < n
                        && self.connections@[j].1 < n,
            decreases self.connections.len() - k,
        {
            let c = self.connections[k];
            if c.0 >= n || c.1 >= n {
                return false;
            }
            k += 1;
        }
        true
    }

    /// Returns the number of stored points.
    pub fn point_count(&self) -> (n: usize)
        ensures
            n == self.points().len(),
    {
        self.points.len()
    }

    /// Returns the number of stored connections.
    pub fn connection_count(&self) -> (n: usize)
        ensures
            n == self.connections().len(),
    {
        self.connections.len()
    }

    /// Returns the point with the given identity, if there is one.
    pub fn point(&self, node_id: usize) -> (p: Option<AStarPoint>)
        ensures
            p == if node_id < self.points().len() {
                Some(self.points()[node_id as int])
            } else {
                None
            },
    {
        if node_id < self.points.len() {
            Some(self.points[node_id])
        } else {
            None
        }
    }

    /// Returns the point with the given identity.
    pub fn point_at(&self, node_id: usize) -> (p: AStarPoint)
        requires
            node_id < self.points().len(),
        ensures
            p == self.points()[node_id as int],
    {
        self.points[node_id]
    }

    /// Appends a point and returns its identity.
    pub fn add_point(&mut self, point: AStarPoint) -> (id: usize)
        ensures
            id == old(self).points().len(),
            final(self).points() == old(self).points().push(point),
            final(self).connections() == old(self).connections(),
            old(self).wf() ==> final(self).wf(),
    {
        let id = self.points.len();
        self.points.push(point);
        id
    }

    /// Appends a connection between two stored points. Returns `false`, and
    /// changes nothing, when either identity names no stored point.
    pub fn add_connection(&mut self, node_a_id: usize, node_b_id: usize) -> (added: bool)
        ensures
            added == (node_a_id < old(self).points().len() && node_b_id < old(self).points().len()),
            final(self).points() == old(self).points(),
            added ==> final(self).connections() == old(self).connections().push(
                (node_a_id, node_b_id),
            ),
            !added ==> final(self).connections() == old(self).connections(),
            old(self).wf() ==> final(self).wf(),
    {
        if node_a_id >= self.points.len() || node_b_id >= self.points.len() {
            return false;
        }
        self.connections.push((node_a_id, node_b_id));
        true
    }

    /// Removes every connection that touches `node_id`. A node without
    /// connections, or an identity that names no stored point, changes nothing.
    pub fn remove_connections(&mut self, node_id: usize)
        ensures
            final(self).points() == old(self).points(),
            final(self).connections() == old(self).connections().filter(spares(node_id)),
            old(self).wf() ==> final(self).wf(),
    {
        let ghost keep = spares(node_id);
        let ghost before = self.connections@;
        let mut kept: Vec<(usize, usize)> = Vec::new();
        let mut i: usize = 0;
        while i < self.connections.len()
            invariant
                i <= self.connections.len(),
                self.connections@ == before,
                self.points@ == old(self).points@,
                keep == spares(node_id),
                kept@ == before.take(i as int).filter(keep),
            decreases self.connections.len() - i,
        {
            let c = self.connections[i];
            proof {
                assert(before.take(i + 1) == before.take(i as int).push(c));
                before.take(i as int).lemma_filter_push(c, keep);
            }
            if c.0 != node_id && c.1 != node_id {
                kept.push(c);
            }
            i += 1;
        }
        proof {
            assert(before.take(i as int) == before);
            assert forall|k: int| 0 <= k < kept@.len() implies before.contains(
                #[trigger] kept@[k],
            ) by {
                assert(before.filter(keep).contains(kept@[k]));
                before.lemma_filter_contains_rev(keep, kept@[k]);
            }
        }
        self.connections = kept;
    }

    /// Returns the nodes joined to `node_id`, in connection order.
    pub fn get_connections(&self, node_id: usize) -> (found: Vec<usize>)
        ensures
            found@ == neighbors_of(self.connections(), node_id),
    {
        let mut found: Vec<usize> = Vec::new();
        let mut i: usize = 0;
        while i < self.connections.len()
            invariant
                i <= self.connections.len(),
                found@ == neighbors_of(self.connections@.take(i as int), node_id),
            decreases self.connections.len() - i,
        {
            let c = self.connections[i];
            proof {
                assert(self.connections@.take(i + 1).drop_last() == self.connections@.take(i as int));
                assert(self.connections@.take(i + 1).last() == c);
            }
            if c.0 == node_id {
                found.push(c.1);
            }
            if c.1 == node_id {
                found.push(c.0);
            }
            i += 1;
        }
        proof {
            assert(self.connections@.take(i as int) == self.connections@);
        }
        found
    }

    /// Returns the stored point nearest to `current_point` with its identity,
    /// the lowest identity among equally near points; `None` when the store
    /// holds no point.
    pub fn get_closest_point(&self, current_point: AStarPoint) -> (closest: Option<
        (usize, AStarPoint),
    >)
        ensures
            closest is None <==> self.points().len() == 0,
            closest matches Some((id, point)) ==> id == nearest(self.points(), current_point),
            closest matches Some((id, point)) ==> is_nearest(
                self.points(),
                current_point,
                id as int,
            ),
            closest matches Some((id, point)) ==> point == self.points()[id as int],
    {
        if self.points.len() == 0 {
            return None;
        }
        let mut best: usize = 0;
        let mut best_distance: u64 = current_point.calculate_distance(&self.points[0]);
        let mut i: usize = 1;
        while i < self.points.len()
            invariant
                1 <= i <= self.points.len(),
                best < i,
                best_distance == current_point.distance(self.points@[best as int]),
                is_nearest(self.points@.take(i as int), current_point, best as int),
            decreases self.points.len() - i,
        {
            let distance = current_point.calculate_distance(&self.points[i]);
            let ghost prefix = self.points@.take(i as int);
            let ghost next = self.points@.take(i + 1);
            proof {
                assert forall|j: int| 0 <= j < i implies #[trigger] next[j] == prefix[j] by {}
            }
            if distance < best_distance {
                proof {
                    assert forall|j: int| 0 <= j < i implies current_point.distance(
                        #[trigger] next[j],
                    ) > current_point.distance(next[i as int]) by {
                        assert(current_point.distance(prefix[j]) >= best_distance);
                    }
                }
                best = i;
                best_distance = distance;
            } else {
                proof {
                    assert forall|j: int| 0 <= j < i + 1 implies current_point.distance(
                        #[trigger] next[j],
                    ) >= best_distance by {
                        if j < i {
                            assert(current_point.distance(prefix[j]) >= best_distance);
                        }
                    }
                    assert forall|j: int| 0 <= j < best implies current_point.distance(
                        #[trigger] next[j],
                    ) > best_distance by {
                        assert(current_point.distance(prefix[j]) > best_distance);
                    }
                }
            }
            i += 1;
        }
        proof {
            assert(self.points@.take(i as int) == self.points@);
            lemma_nearest_unique(self.points@, current_point, best as int);
        }
        Some((best, self.points[best]))
    }
}

impl Default for AStarPathFinder {
    /// An empty store.
    fn default() -> (store: Self)
        ensures
            store.points() == Seq::<AStarPoint>::empty(),
            store.connections() == Seq::<(usize, usize)>::empty(),
            store.wf(),
    {
        AStarPathFinder::new()
    }
}

} // verus!
