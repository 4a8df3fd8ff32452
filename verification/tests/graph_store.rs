use astar::{AStarPathFinder, AStarPoint};

fn at(x: i32, y: i32, z: i32) -> AStarPoint {
    AStarPoint { x, y, z }
}

#[test]
fn new_store_is_empty() {
    let store = AStarPathFinder::new();
    assert_eq!(store.point_count(), 0);
    assert_eq!(store.connection_count(), 0);
    let other = AStarPathFinder::default();
    assert_eq!(other.point_count(), 0);
    assert_eq!(other.connection_count(), 0);
}

#[test]
fn add_point_returns_insertion_order() {
    let mut store = AStarPathFinder::new();
    assert_eq!(store.add_point(at(5, 5, 5)), 0);
    assert_eq!(store.add_point(at(5, 5, 5)), 1);
    assert_eq!(store.add_point(at(-1, 0, 2)), 2);
    assert_eq!(store.point_count(), 3);
    assert_eq!(store.point(0), Some(at(5, 5, 5)));
    assert_eq!(store.point(2), Some(at(-1, 0, 2)));
    assert_eq!(store.point_at(1), at(5, 5, 5));
    assert_eq!(store.point(3), None);
}

#[test]
fn add_connection_between_stored_points_succeeds() {
    let mut store = AStarPathFinder::new();
    store.add_point(at(0, 0, 0));
    store.add_point(at(1, 0, 0));
    assert!(store.add_connection(0, 1));
    assert_eq!(store.connection_count(), 1);
    assert_eq!(store.get_connections(0), vec![1]);
    assert_eq!(store.get_connections(1), vec![0]);
}

#[test]
fn invalid_connection_is_rejected() {
    let mut store = AStarPathFinder::new();
    store.add_point(at(0, 0, 0));
    let before = store.connection_count();
    assert!(!store.add_connection(0, 99));
    assert_eq!(store.connection_count(), before);
    assert!(!store.add_connection(99, 0));
    assert!(!store.add_connection(1, 1));
    assert_eq!(store.connection_count(), 0);
    assert_eq!(store.get_connections(0), Vec::<usize>::new());
}

#[test]
fn neighbours_come_in_connection_order_with_duplicates() {
    let mut store = AStarPathFinder::new();
    for i in 0..4 {
        store.add_point(at(i, 0, 0));
    }
    assert!(store.add_connection(2, 0));
    assert!(store.add_connection(0, 1));
    assert!(store.add_connection(3, 0));
    assert!(store.add_connection(0, 1));
    assert!(store.add_connection(3, 3));
    assert_eq!(store.get_connections(0), vec![2, 1, 3, 1]);
    assert_eq!(store.get_connections(1), vec![0, 0]);
    assert_eq!(store.get_connections(3), vec![0, 3, 3]);
    assert_eq!(store.get_connections(7), Vec::<usize>::new());
}

#[test]
fn remove_connections_drops_every_incident_connection() {
    let mut store = AStarPathFinder::new();
    for i in 0..4 {
        store.add_point(at(i, 0, 0));
    }
    store.add_connection(0, 1);
    store.add_connection(1, 2);
    store.add_connection(2, 3);
    store.add_connection(3, 1);
    store.remove_connections(1);
    assert_eq!(store.connection_count(), 1);
    assert_eq!(store.get_connections(1), Vec::<usize>::new());
    assert_eq!(store.get_connections(2), vec![3]);
    assert_eq!(store.get_connections(3), vec![2]);
    assert_eq!(store.point_count(), 4);
}

#[test]
fn remove_connections_of_a_bare_or_unknown_node_changes_nothing() {
    let mut store = AStarPathFinder::new();
    for i in 0..3 {
        store.add_point(at(i, 0, 0));
    }
    store.add_connection(0, 1);
    store.remove_connections(2);
    assert_eq!(store.connection_count(), 1);
    store.remove_connections(50);
    assert_eq!(store.connection_count(), 1);
    assert_eq!(store.get_connections(0), vec![1]);
}

#[test]
fn closest_point_of_an_empty_store_is_none() {
    let store = AStarPathFinder::new();
    assert_eq!(store.get_closest_point(at(0, 0, 0)), None);
}

#[test]
fn closest_point_minimises_distance() {
    let mut store = AStarPathFinder::new();
    store.add_point(at(10, 0, 0));
    store.add_point(at(0, 10, 0));
    store.add_point(at(3, 3, 0));
    assert_eq!(store.get_closest_point(at(0, 0, 0)), Some((2, at(3, 3, 0))));
    assert_eq!(store.get_closest_point(at(9, 1, 0)), Some((0, at(10, 0, 0))));
    assert_eq!(store.get_closest_point(at(0, 10, 0)), Some((1, at(0, 10, 0))));
}

#[test]
fn closest_point_ties_go_to_the_lowest_identity() {
    let mut store = AStarPathFinder::new();
    store.add_point(at(5, 0, 0));
    store.add_point(at(-5, 0, 0));
    store.add_point(at(0, 5, 0));
    store.add_point(at(-5, 0, 0));
    assert_eq!(store.get_closest_point(at(0, 0, 0)), Some((0, at(5, 0, 0))));
    assert_eq!(store.get_closest_point(at(-6, 0, 0)), Some((1, at(-5, 0, 0))));
}

#[test]
fn store_built_through_its_operations_is_well_formed() {
    let mut store = AStarPathFinder::new();
    assert!(store.is_well_formed());
    store.add_point(at(0, 0, 0));
    store.add_point(at(1, 0, 0));
    store.add_connection(0, 1);
    store.add_connection(1, 5);
    store.remove_connections(0);
    store.add_connection(1, 0);
    assert!(store.is_well_formed());
    assert_eq!(store.connection_count(), 1);
}
