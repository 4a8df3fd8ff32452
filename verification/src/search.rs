//! The executable search, proved to compute the route of the model.

use crate::cheapest::{cheapest, lemma_route_cheapest};
use crate::graph::{
    adjacent, is_route, joins, lemma_neighbors_adjacent, nearest, neighbors_of, points_along,
    reachable, AStarPathFinder,
};
use crate::model::{
    best, chain, consistent, exhaust, expand_best, finish_at, initial_state, is_best, linked,
    outranks, relax_all, relax_one, route_of, route_view, settled, visited, SearchState,
};
use crate::point::{AStarPoint, MAX_DISTANCE};
use crate::theory::{
    lemma_adjacent_valid, lemma_best_unique, lemma_distinct_bounded, lemma_expand_best,
    lemma_finish, lemma_relax_one, lemma_room_left, lemma_route_of,
};
use vstd::prelude::*;

verus! {

/// The working data of one search.
struct Search {
    open: Vec<usize>,
    processed: Vec<usize>,
    g_costs: Vec<u128>,
    h_costs: Vec<u128>,
    predecessors: Vec<Option<usize>>,
}

impl View for Search {
    type V = SearchState;

    closed spec fn view(&self) -> SearchState {
        SearchState {
            open: self.open@,
            processed: self.processed@,
            g: self.g_costs@,
            h: self.h_costs@,
            pred: self.predecessors@,
        }
    }
}

/// Tells whether `list` holds `x`.
fn holds(list: &Vec<usize>, x: usize) -> (found: bool)
    ensures
        found == list@.contains(x),
{
    let mut k: usize = 0;
    while k < list.len()
        invariant
            k <= list.len(),
            forall|j: int| 0 <= j < k ==> list@[j] != x,
        decreases list.len() - k,
    {
        if list[k] == x {
            return true;
        }
        k += 1;
    }
    false
}

/// Returns the position in the frontier of the node to expand.
fn select(s: &Search) -> (i: usize)
    requires
        s.open@.len() > 0,
        s.g_costs@.len() == s.h_costs@.len(),
        forall|k: int| 0 <= k < s.open@.len() ==> #[trigger] s.open@[k] < s.g_costs@.len(),
        forall|m: int|
            0 <= m < s.g_costs@.len() ==> #[trigger] s.g_costs@[m] + s.h_costs@[m] <= u128::MAX,
    ensures
        is_best(s.open@, s.g_costs@, s.h_costs@, i as int),
        i == best(s.open@, s.g_costs@, s.h_costs@),
{
    let ghost g = s.g_costs@;
    let ghost h = s.h_costs@;
    let mut chosen: usize = 0;
    let mut k: usize = 1;
    while k < s.open.len()
        invariant
            1 <= k <= s.open.len(),
            g == s.g_costs@,
            h == s.h_costs@,
            g.len() == h.len(),
            forall|j: int| 0 <= j < s.open@.len() ==> #[trigger] s.open@[j] < g.len(),
            forall|m: int| 0 <= m < g.len() ==> #[trigger] g[m] + h[m] <= u128::MAX,
            is_best(s.open@.take(k as int), g, h, chosen as int),
        decreases s.open.len() - k,
    {
        let candidate = s.open[k];
        let holder = s.open[chosen];
        let ghost prefix = s.open@.take(k as int);
        let ghost next = s.open@.take(k + 1);
        proof {
            assert(prefix[chosen as int] == holder);
            assert(s.open@[k as int] < g.len());
            assert(s.open@[chosen as int] < g.len());
            assert(g[candidate as int] + h[candidate as int] <= u128::MAX);
            assert(g[holder as int] + h[holder as int] <= u128::MAX);
        }
        let candidate_f: u128 = s.g_costs[candidate] + s.h_costs[candidate];
        let holder_f: u128 = s.g_costs[holder] + s.h_costs[holder];
        if candidate_f < holder_f || (candidate_f == holder_f && s.h_costs[candidate]
            < s.h_costs[holder]) {
            proof {
                assert(outranks(g, h, candidate, holder));
                assert forall|j: int| 0 <= j < next.len() implies !outranks(
                    g,
                    h,
                    #[trigger] next[j],
                    next[k as int],
                ) by {
                    if j < k {
                        assert(!outranks(g, h, prefix[j], holder));
                    }
                }
                assert forall|j: int| 0 <= j < k implies outranks(
                    g,
                    h,
                    next[k as int],
                    #[trigger] next[j],
                ) by {
                    assert(!outranks(g, h, prefix[j], holder));
                }
            }
            chosen = k;
        } else {
            proof {
                assert(!outranks(g, h, candidate, holder));
                assert forall|j: int| 0 <= j < next.len() implies !outranks(
                    g,
                    h,
                    #[trigger] next[j],
                    next[chosen as int],
                ) by {
                    if j < k {
                        assert(!outranks(g, h, prefix[j], holder));
                    }
                }
                assert forall|j: int| 0 <= j < chosen implies outranks(
                    g,
                    h,
                    next[chosen as int],
                    #[trigger] next[j],
                ) by {
                    assert(outranks(g, h, holder, prefix[j]));
                }
            }
        }
        k += 1;
    }
    proof {
        assert(s.open@.take(k as int) == s.open@);
        lemma_best_unique(s.open@, g, h, chosen as int);
    }
    chosen
}

/// Looks at one neighbour `nb` of the node `cur`, which was finished last.
fn relax(
    store: &AStarPathFinder,
    s: &mut Search,
    goal: AStarPoint,
    cur: usize,
    cur_point: AStarPoint,
    nb: usize,
    Ghost(start): Ghost<usize>,
)
    requires
        consistent(old(s)@, store.points().len(), store.connections(), start),
        old(s)@.processed.len() > 0,
        old(s)@.processed.last() == cur,
        old(s)@.g[cur as int] <= MAX_DISTANCE * old(s)@.processed.len(),
        cur_point == store.points()[cur as int],
        nb < store.points().len(),
        adjacent(store.connections(), cur, nb),
    ensures
        final(s)@ == relax_one(old(s)@, store.points(), goal, cur, nb),
        consistent(final(s)@, store.points().len(), store.connections(), start),
        final(s)@.processed == old(s)@.processed,
        final(s)@.g[cur as int] == old(s)@.g[cur as int],
        visited(final(s)@, nb),
        forall|m: usize| visited(old(s)@, m) ==> #[trigger] visited(final(s)@, m),
{
    let ghost before = s@;
    let n = store.point_count();
    proof {
        lemma_relax_one(before, store.points(), store.connections(), goal, start, cur, nb);
    }
    if holds(&s.processed, nb) {
        return;
    }
    let in_open = holds(&s.open, nb);
    let nb_point = store.point_at(nb);
    let step = cur_point.calculate_distance(&nb_point);
    let count = s.processed.len();
    proof {
        assert(before.processed[count - 1] == cur);
        assert(before.processed.contains(cur));
        assert(cur < n);
        assert(s.g_costs@[cur as int] <= MAX_DISTANCE * count);
    }
    let tentative: u128 = s.g_costs[cur] + step as u128;
    if !in_open {
        let estimate = nb_point.calculate_distance(&goal);
        s.g_costs.set(nb, tentative);
        s.h_costs.set(nb, estimate as u128);
        s.predecessors.set(nb, Some(cur));
        s.open.push(nb);
        proof {
            assert(s@ == relax_one(before, store.points(), goal, cur, nb));
        }
    } else if tentative < s.g_costs[nb] {
        s.g_costs.set(nb, tentative);
        s.predecessors.set(nb, Some(cur));
        proof {
            assert(s@ == relax_one(before, store.points(), goal, cur, nb));
        }
    }
}

/// Finishes the best node of the frontier and looks at its neighbours.
fn expand(store: &AStarPathFinder, s: &mut Search, goal: AStarPoint, Ghost(start): Ghost<usize>)
    requires
        store.wf(),
        consistent(old(s)@, store.points().len(), store.connections(), start),
        settled(old(s)@, store.connections(), old(s)@.processed.len() as int),
        old(s)@.open.len() > 0,
    ensures
        final(s)@ == expand_best(old(s)@, store.points(), store.connections(), goal),
        consistent(final(s)@, store.points().len(), store.connections(), start),
        settled(final(s)@, store.connections(), final(s)@.processed.len() as int),
        final(s)@.processed.len() == old(s)@.processed.len() + 1,
{
    let ghost before = s@;
    let ghost conns = store.connections();
    let n = store.point_count();
    let count = s.processed.len();
    proof {
        lemma_expand_best(before, store.points(), conns, goal, start);
        assert forall|m: int| 0 <= m < s.g_costs@.len() implies #[trigger] s.g_costs@[m]
            + s.h_costs@[m] <= u128::MAX by {
            assert(before.g[m] <= MAX_DISTANCE * (count + 1));
        }
    }
    let i = select(s);
    let cur = s.open[i];
    s.open.remove(i);
    s.processed.push(cur);
    let ghost closed = s@;
    proof {
        assert(closed == finish_at(before, i as int));
        lemma_finish(before, n as nat, conns, start, i as int);
    }
    let neighbors = store.get_connections(cur);
    let cur_point = store.point_at(cur);
    let mut k: usize = 0;
    while k < neighbors.len()
        invariant
            k <= neighbors.len(),
            store.wf(),
            n == store.points().len(),
            conns == store.connections(),
            neighbors@ == neighbors_of(conns, cur),
            cur < n,
            cur_point == store.points()[cur as int],
            consistent(s@, n as nat, conns, start),
            s@.processed == closed.processed,
            s@.processed.len() == count + 1,
            s@.processed.last() == cur,
            s@.g[cur as int] <= MAX_DISTANCE * (count + 1),
            s@ == relax_all(closed, store.points(), goal, cur, neighbors@.take(k as int)),
        decreases neighbors.len() - k,
    {
        let nb = neighbors[k];
        proof {
            assert(neighbors@.contains(nb));
            lemma_neighbors_adjacent(conns, cur, nb);
            lemma_adjacent_valid(n as nat, conns, cur, nb);
            assert(neighbors@.take(k + 1).drop_last() == neighbors@.take(k as int));
            assert(neighbors@.take(k + 1).last() == nb);
        }
        relax(store, s, goal, cur, cur_point, nb, Ghost(start));
        k += 1;
    }
    proof {
        assert(neighbors@.take(k as int) == neighbors@);
    }
}

/// Sets up the bookkeeping of a search from the node `start_id`.
fn begin(
    store: &AStarPathFinder,
    start_id: usize,
    start_point: AStarPoint,
    goal_point: AStarPoint,
) -> (s: Search)
    requires
        start_id < store.points().len(),
    ensures
        s@ == initial_state(store.points(), start_id, start_point, goal_point),
        consistent(s@, store.points().len(), store.connections(), start_id),
        settled(s@, store.connections(), 0),
{
    let n = store.point_count();
    let mut g_costs: Vec<u128> = Vec::new();
    let mut h_costs: Vec<u128> = Vec::new();
    let mut predecessors: Vec<Option<usize>> = Vec::new();
    let mut m: usize = 0;
    while m < n
        invariant
            m <= n,
            n == store.points().len(),
            g_costs@.len() == m,
            h_costs@.len() == m,
            predecessors@.len() == m,
            forall|j: int|
                0 <= j < m ==> #[trigger] g_costs@[j] == store.points()[j].distance(start_point)
                    && g_costs@[j] <= MAX_DISTANCE,
            forall|j: int|
                0 <= j < m ==> #[trigger] h_costs@[j] == store.points()[j].distance(goal_point)
                    && h_costs@[j] <= MAX_DISTANCE,
            forall|j: int| 0 <= j < m ==> #[trigger] predecessors@[j] is None,
        decreases n - m,
    {
        let p = store.point_at(m);
        g_costs.push(p.calculate_distance(&start_point) as u128);
        h_costs.push(p.calculate_distance(&goal_point) as u128);
        predecessors.push(None);
        m += 1;
    }
    let mut open: Vec<usize> = Vec::new();
    open.push(start_id);
    let s = Search { open, processed: Vec::new(), g_costs, h_costs, predecessors };
    proof {
        let target = initial_state(store.points(), start_id, start_point, goal_point);
        assert(s@.open =~= target.open);
        assert(s@.processed =~= target.processed);
        assert(s@.g =~= target.g);
        assert(s@.h =~= target.h);
        assert(s@.pred =~= target.pred);
    }
    s
}

/// Follows the predecessor links from `goal_id` to the node that has none.
fn trace(store: &AStarPathFinder, s: &Search, goal_id: usize, Ghost(start): Ghost<usize>) -> (back:
    Vec<usize>)
    requires
        consistent(s@, store.points().len(), store.connections(), start),
        s@.open.len() == 0,
        goal_id < store.points().len(),
    ensures
        back@ == chain(s@.pred, goal_id, store.points().len()),
        back@.len() > 0,
        forall|k: int| 0 <= k < back@.len() ==> #[trigger] back@[k] < store.points().len(),
{
    let ghost n = store.points().len();
    let ghost conns = store.connections();
    let ghost pred = s@.pred;
    let ghost done = s@.processed;
    let mut back: Vec<usize> = Vec::new();
    back.push(goal_id);
    let mut cur = goal_id;
    let mut next = s.predecessors[cur];
    let ghost mut rank: int = if done.contains(goal_id) {
        choose|r: int| 0 <= r < done.len() && done[r] == goal_id
    } else {
        0
    };
    proof {
        lemma_distinct_bounded(done, n);
        assert(back@.drop_last() + chain(pred, cur, n) =~= chain(pred, goal_id, n));
    }
    while next.is_some()
        invariant
            consistent(s@, n, conns, start),
            s@.open.len() == 0,
            pred == s@.pred,
            done == s@.processed,
            done.len() <= n,
            back@.len() > 0,
            back@.first() == goal_id,
            back@.last() == cur,
            cur < n,
            next == pred[cur as int],
            forall|k: int| 0 <= k < back@.len() ==> #[trigger] back@[k] < n,
            0 <= rank,
            done.contains(goal_id) ==> rank < done.len() && done[rank] == cur && rank + back@.len()
                <= done.len(),
            !done.contains(goal_id) ==> back@ == seq![goal_id],
            back@.len() <= n,
            chain(pred, goal_id, n) == back@.drop_last() + chain(
                pred,
                cur,
                (n - (back@.len() - 1)) as nat,
            ),
        decreases rank,
    {
        let p = next.unwrap();
        proof {
            assert(visited(s@, cur));
            assert(done.contains(cur));
            if !done.contains(goal_id) {
                assert(back@[0] == goal_id);
                assert(cur == goal_id);
            }
            assert(rank > 0);
            assert(linked(s@, conns, done[rank], rank));
            let below = choose|j: int| 0 <= j < rank && j < done.len() && #[trigger] done[j] == p;
            let fuel = (n - (back@.len() - 1)) as nat;
            assert(chain(pred, cur, fuel) == seq![cur] + chain(pred, p, (fuel - 1) as nat));
            assert(back@.push(p).drop_last() == back@);
            assert(back@ == back@.drop_last() + seq![cur]);
            assert(back@.drop_last() + (seq![cur] + chain(pred, p, (fuel - 1) as nat)) == (
            back@.drop_last() + seq![cur]) + chain(pred, p, (fuel - 1) as nat));
            rank = below;
        }
        back.push(p);
        cur = p;
        next = s.predecessors[cur];
    }
    proof {
        let fuel = (n - (back@.len() - 1)) as nat;
        assert(chain(pred, cur, fuel) == seq![cur]);
        assert(back@ == back@.drop_last() + seq![cur]);
    }
    back
}

/// Expands nodes until the frontier has run empty.
fn run(
    store: &AStarPathFinder,
    start_id: usize,
    start_point: AStarPoint,
    goal_point: AStarPoint,
) -> (s: Search)
    requires
        store.wf(),
        start_id < store.points().len(),
    ensures
        s@ == exhaust(
            initial_state(store.points(), start_id, start_point, goal_point),
            store.points(),
            store.connections(),
            goal_point,
            store.points().len(),
        ),
        consistent(s@, store.points().len(), store.connections(), start_id),
        settled(s@, store.connections(), s@.processed.len() as int),
        s@.open.len() == 0,
{
    let n = store.point_count();
    let ghost points = store.points();
    let ghost conns = store.connections();
    let mut s = begin(store, start_id, start_point, goal_point);
    let ghost first = s@;
    while s.open.len() > 0
        invariant
            store.wf(),
            n == store.points().len(),
            points == store.points(),
            conns == store.connections(),
            consistent(s@, n as nat, conns, start_id),
            settled(s@, conns, s@.processed.len() as int),
            s@.processed.len() <= n,
            exhaust(first, points, conns, goal_point, n as nat) == exhaust(
                s@,
                points,
                conns,
                goal_point,
                (n - s@.processed.len()) as nat,
            ),
        decreases n - s@.processed.len(),
    {
        let ghost prior = s@;
        proof {
            lemma_room_left(prior, n as nat, conns, start_id);
        }
        expand(store, &mut s, goal_point, Ghost(start_id));
    }
    s
}

/// Returns the points of the nodes of `back`, last node first.
fn collect(store: &AStarPathFinder, back: &Vec<usize>) -> (route: Vec<AStarPoint>)
    requires
        forall|j: int| 0 <= j < back@.len() ==> #[trigger] back@[j] < store.points().len(),
    ensures
        route@ == points_along(store.points(), back@.reverse()),
{
    let mut route: Vec<AStarPoint> = Vec::new();
    let mut k: usize = back.len();
    while k > 0
        invariant
            k <= back@.len(),
            forall|j: int| 0 <= j < back@.len() ==> #[trigger] back@[j] < store.points().len(),
            route@.len() == back@.len() - k,
            forall|j: int|
                0 <= j < route@.len() ==> #[trigger] route@[j] == store.points()[back@[back@.len()
                    - 1 - j] as int],
        decreases k,
    {
        k -= 1;
        route.push(store.point_at(back[k]));
    }
    proof {
        assert(route@ =~= points_along(store.points(), back@.reverse()));
    }
    route
}

/// Runs a whole search on `store`.
fn find_route(store: &AStarPathFinder, start: AStarPoint, goal: AStarPoint) -> (route: Option<
    Vec<AStarPoint>,
>)
    requires
        store.wf(),
    ensures
        route_view(route) == route_of(store.points(), store.connections(), start, goal),
{
    let (start_id, start_point) = match store.get_closest_point(start) {
        Some(found) => found,
        None => {
            return None;
        },
    };
    let (goal_id, goal_point) = match store.get_closest_point(goal) {
        Some(found) => found,
        None => {
            return None;
        },
    };
    let s = run(store, start_id, start_point, goal_point);
    let back = trace(store, &s, goal_id, Ghost(start_id));
    let root = back[back.len() - 1];
    if root != start_id {
        return None;
    }
    Some(collect(store, &back))
}

impl AStarPathFinder {
    /// Finds a cheapest route from the stored point nearest to `start` to the
    /// stored point nearest to `goal`, along connections. Returns the points
    /// of the route in order, both ends included, or `None` when the store is
    /// empty or no walk joins the two nodes. The store is left as it was.
    pub fn solve_path(&mut self, start: AStarPoint, goal: AStarPoint) -> (route: Option<
        Vec<AStarPoint>,
    >)
        requires
            old(self).wf(),
        ensures
            *final(self) == *old(self),
            route_view(route) == route_of(
                old(self).points(),
                old(self).connections(),
                start,
                goal,
            ),
            old(self).points().len() == 0 ==> route is None,
            old(self).points().len() > 0 ==> (route is Some <==> reachable(
                old(self).points().len(),
                old(self).connections(),
                nearest(old(self).points(), start) as usize,
                nearest(old(self).points(), goal) as usize,
            )),
            route is Some ==> exists|ids: Seq<usize>| #[trigger]
                is_route(
                    old(self).points(),
                    old(self).connections(),
                    nearest(old(self).points(), start),
                    nearest(old(self).points(), goal),
                    ids,
                    route->0@,
                ),
            route matches Some(r) ==> joins(
                old(self).points(),
                nearest(old(self).points(), start),
                nearest(old(self).points(), goal),
                r@,
            ),
            route is Some ==> exists|ids: Seq<usize>| #[trigger]
                cheapest(
                    old(self).points(),
                    old(self).connections(),
                    nearest(old(self).points(), start) as usize,
                    nearest(old(self).points(), goal) as usize,
                    ids,
                ) && route->0@ == points_along(old(self).points(), ids),
    {
        let count = self.point_count();
        let route = find_route(self, start, goal);
        proof {
            if count > 0 {
                lemma_route_of(self.points(), self.connections(), start, goal);
                lemma_route_cheapest(self.points(), self.connections(), start, goal);
            }
        }
        route
    }
}

} // verus!
