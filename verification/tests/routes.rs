use astar::{AStarPathFinder, AStarPoint};

fn at(x: i32, y: i32, z: i32) -> AStarPoint {
    AStarPoint { x, y, z }
}

fn chain_of_three() -> AStarPathFinder {
    let mut store = AStarPathFinder::new();
    store.add_point(at(0, 0, 0));
    store.add_point(at(1, 0, 0));
    store.add_point(at(2, 0, 0));
    assert!(store.add_connection(0, 1));
    assert!(store.add_connection(1, 2));
    store
}

#[test]
fn empty_graph_has_no_route() {
    let mut store = AStarPathFinder::new();
    assert_eq!(store.solve_path(at(0, 0, 0), at(2, 0, 0)), None);
}

#[test]
fn linear_chain_is_walked_in_order() {
    let mut store = chain_of_three();
    assert_eq!(
        store.solve_path(at(0, 0, 0), at(2, 0, 0)),
        Some(vec![at(0, 0, 0), at(1, 0, 0), at(2, 0, 0)])
    );
    assert_eq!(
        store.solve_path(at(2, 0, 0), at(0, 0, 0)),
        Some(vec![at(2, 0, 0), at(1, 0, 0), at(0, 0, 0)])
    );
}

#[test]
fn disconnected_pair_has_no_route() {
    let mut store = AStarPathFinder::new();
    store.add_point(at(0, 0, 0));
    store.add_point(at(1, 0, 0));
    assert_eq!(store.solve_path(at(0, 0, 0), at(1, 0, 0)), None);
    assert_eq!(store.solve_path(at(1, 0, 0), at(0, 0, 0)), None);
}

#[test]
fn same_start_and_goal_node_gives_a_single_point() {
    let mut store = AStarPathFinder::new();
    store.add_point(at(0, 0, 0));
    store.add_point(at(9, 9, 9));
    assert_eq!(store.solve_path(at(1, 0, 0), at(0, 1, 0)), Some(vec![at(0, 0, 0)]));
    let mut linked = chain_of_three();
    assert_eq!(linked.solve_path(at(1, 0, 0), at(1, 0, 0)), Some(vec![at(1, 0, 0)]));
}

#[test]
fn route_ends_at_the_nearest_stored_points() {
    let mut store = chain_of_three();
    store.add_point(at(100, 100, 100));
    let route = store.solve_path(at(-40, 3, 1), at(7, -2, 0)).unwrap();
    let (_, first) = store.get_closest_point(at(-40, 3, 1)).unwrap();
    let (_, last) = store.get_closest_point(at(7, -2, 0)).unwrap();
    assert_eq!(route.first(), Some(&first));
    assert_eq!(route.last(), Some(&last));
    assert_eq!(route, vec![at(0, 0, 0), at(1, 0, 0), at(2, 0, 0)]);
}

#[test]
fn repeated_search_gives_the_same_route() {
    let mut store = AStarPathFinder::new();
    store.add_point(at(0, 0, 0));
    store.add_point(at(4, 3, 0));
    store.add_point(at(4, -3, 0));
    store.add_point(at(8, 0, 0));
    store.add_connection(0, 1);
    store.add_connection(0, 2);
    store.add_connection(1, 3);
    store.add_connection(2, 3);
    let first = store.solve_path(at(0, 0, 0), at(8, 0, 0));
    let second = store.solve_path(at(0, 0, 0), at(8, 0, 0));
    assert_eq!(first, second);
    assert_eq!(first, Some(vec![at(0, 0, 0), at(4, 3, 0), at(8, 0, 0)]));
    assert_eq!(store.connection_count(), 4);
    assert_eq!(store.point_count(), 4);
}

#[test]
fn removing_the_only_passage_blocks_the_route() {
    let mut store = chain_of_three();
    assert!(store.solve_path(at(0, 0, 0), at(2, 0, 0)).is_some());
    store.remove_connections(1);
    assert_eq!(store.solve_path(at(0, 0, 0), at(2, 0, 0)), None);
    assert_eq!(store.solve_path(at(0, 0, 0), at(0, 0, 0)), Some(vec![at(0, 0, 0)]));
}

#[test]
fn removing_a_passage_leaves_the_detour() {
    let mut store = AStarPathFinder::new();
    store.add_point(at(0, 0, 0));
    store.add_point(at(5, 0, 0));
    store.add_point(at(10, 0, 0));
    store.add_point(at(5, 20, 0));
    store.add_connection(0, 1);
    store.add_connection(1, 2);
    store.add_connection(0, 3);
    store.add_connection(3, 2);
    assert_eq!(
        store.solve_path(at(0, 0, 0), at(10, 0, 0)),
        Some(vec![at(0, 0, 0), at(5, 0, 0), at(10, 0, 0)])
    );
    store.remove_connections(1);
    assert_eq!(
        store.solve_path(at(0, 0, 0), at(10, 0, 0)),
        Some(vec![at(0, 0, 0), at(5, 20, 0), at(10, 0, 0)])
    );
}

#[test]
fn cheaper_branch_is_taken() {
    let mut store = AStarPathFinder::new();
    store.add_point(at(0, 0, 0));
    store.add_point(at(10, 0, 0));
    store.add_point(at(5, 5, 0));
    store.add_point(at(5, -1, 0));
    store.add_connection(0, 2);
    store.add_connection(2, 1);
    store.add_connection(0, 3);
    store.add_connection(3, 1);
    assert_eq!(
        store.solve_path(at(0, 0, 0), at(10, 0, 0)),
        Some(vec![at(0, 0, 0), at(5, -1, 0), at(10, 0, 0)])
    );
}

#[test]
fn frontier_node_is_rerouted_when_cheaper() {
    let mut store = AStarPathFinder::new();
    store.add_point(at(0, 0, 0));
    store.add_point(at(4, 0, 0));
    store.add_point(at(0, 3, 0));
    store.add_point(at(0, 6, 0));
    store.add_point(at(10, 0, 0));
    store.add_connection(0, 1);
    store.add_connection(0, 2);
    store.add_connection(1, 3);
    store.add_connection(2, 3);
    store.add_connection(3, 4);
    assert_eq!(
        store.solve_path(at(0, 0, 0), at(10, 0, 0)),
        Some(vec![at(0, 0, 0), at(0, 3, 0), at(0, 6, 0), at(10, 0, 0)])
    );
}

#[test]
fn direct_connection_is_kept_when_a_detour_costs_the_same() {
    let mut store = AStarPathFinder::new();
    store.add_point(at(0, 0, 0));
    store.add_point(at(2, 2, 2));
    store.add_point(at(1, 1, 1));
    store.add_connection(0, 1);
    store.add_connection(0, 2);
    store.add_connection(2, 1);
    assert_eq!(
        store.solve_path(at(0, 0, 0), at(2, 2, 2)),
        Some(vec![at(0, 0, 0), at(2, 2, 2)])
    );
}

fn cost_of(route: &[AStarPoint]) -> u64 {
    let mut total = 0;
    for pair in route.windows(2) {
        total += pair[0].calculate_distance(&pair[1]);
    }
    total
}

#[test]
fn route_is_no_dearer_than_any_other_walk() {
    let mut store = AStarPathFinder::new();
    store.add_point(at(0, 0, 0));
    store.add_point(at(3, 4, 0));
    store.add_point(at(6, 0, 0));
    store.add_point(at(3, -1, 0));
    store.add_point(at(3, 9, 0));
    store.add_connection(0, 4);
    store.add_connection(4, 2);
    store.add_connection(0, 1);
    store.add_connection(1, 2);
    store.add_connection(0, 3);
    store.add_connection(3, 2);
    let route = store.solve_path(at(0, 0, 0), at(6, 0, 0)).unwrap();
    assert_eq!(route, vec![at(0, 0, 0), at(3, -1, 0), at(6, 0, 0)]);
    assert_eq!(cost_of(&route), 8);
    assert_eq!(cost_of(&[at(0, 0, 0), at(3, 4, 0), at(6, 0, 0)]), 10);
    assert_eq!(cost_of(&[at(0, 0, 0), at(3, 9, 0), at(6, 0, 0)]), 20);
}

#[test]
fn duplicate_connections_do_not_change_the_route() {
    let mut store = chain_of_three();
    store.add_connection(1, 0);
    store.add_connection(0, 1);
    store.add_connection(2, 1);
    store.add_connection(1, 1);
    assert_eq!(
        store.solve_path(at(0, 0, 0), at(2, 0, 0)),
        Some(vec![at(0, 0, 0), at(1, 0, 0), at(2, 0, 0)])
    );
}

#[test]
fn route_on_a_grid_joins_the_corners() {
    let mut store = AStarPathFinder::new();
    let side: usize = 4;
    for x in 0..side {
        for y in 0..side {
            store.add_point(at(x as i32, 0, y as i32));
        }
    }
    for x in 0..side {
        for y in 0..side {
            if x + 1 < side {
                assert!(store.add_connection(x * side + y, (x + 1) * side + y));
            }
            if y + 1 < side {
                assert!(store.add_connection(x * side + y, x * side + y + 1));
            }
        }
    }
    let route = store.solve_path(at(0, 0, 0), at(3, 0, 3)).unwrap();
    assert_eq!(route.first(), Some(&at(0, 0, 0)));
    assert_eq!(route.last(), Some(&at(3, 0, 3)));
    assert_eq!(route.len(), 7);
    for pair in route.windows(2) {
        assert_eq!(pair[0].calculate_distance(&pair[1]), 1);
    }
    store.remove_connections(15);
    assert_eq!(store.solve_path(at(0, 0, 0), at(3, 0, 3)), None);
}

#[test]
fn equal_totals_are_broken_by_the_smaller_estimate() {
    let mut store = AStarPathFinder::new();
    store.add_point(at(0, 0, 0));
    store.add_point(at(1, 0, 0));
    store.add_point(at(3, 0, 0));
    store.add_point(at(4, 0, 0));
    store.add_connection(0, 1);
    store.add_connection(0, 2);
    store.add_connection(1, 3);
    store.add_connection(2, 3);
    assert_eq!(
        store.solve_path(at(0, 0, 0), at(4, 0, 0)),
        Some(vec![at(0, 0, 0), at(3, 0, 0), at(4, 0, 0)])
    );
}

#[test]
fn equal_totals_and_estimates_go_to_the_node_found_first() {
    let mut store = AStarPathFinder::new();
    store.add_point(at(0, 0, 0));
    store.add_point(at(2, -1, 0));
    store.add_point(at(2, 1, 0));
    store.add_point(at(4, 0, 0));
    store.add_connection(0, 2);
    store.add_connection(0, 1);
    store.add_connection(1, 3);
    store.add_connection(2, 3);
    assert_eq!(
        store.solve_path(at(0, 0, 0), at(4, 0, 0)),
        Some(vec![at(0, 0, 0), at(2, 1, 0), at(4, 0, 0)])
    );
}
