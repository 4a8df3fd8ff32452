use astar::point::MAX_DISTANCE;
use astar::AStarPoint;

fn at(x: i32, y: i32, z: i32) -> AStarPoint {
    AStarPoint { x, y, z }
}

#[test]
fn distance_of_a_right_triangle_is_exact() {
    assert_eq!(at(0, 0, 0).calculate_distance(&at(3, 4, 0)), 5);
    assert_eq!(at(1, 2, 3).calculate_distance(&at(1, 2, 15)), 12);
    assert_eq!(at(0, 0, 0).calculate_distance(&at(2, 3, 6)), 7);
}

#[test]
fn distance_is_rounded_up() {
    assert_eq!(at(0, 0, 0).calculate_distance(&at(1, 1, 1)), 2);
    assert_eq!(at(0, 0, 0).calculate_distance(&at(2, 2, 2)), 4);
    assert_eq!(at(0, 0, 0).calculate_distance(&at(5, 5, 0)), 8);
    assert_eq!(at(0, 0, 0).calculate_distance(&at(1, 0, 0)), 1);
    assert_eq!(at(0, 0, 0).calculate_distance(&at(1, 1, 0)), 2);
}

#[test]
fn distance_obeys_the_triangle_inequality() {
    let a = at(0, 0, 0);
    let b = at(1, 1, 1);
    let c = at(2, 2, 2);
    let direct = a.calculate_distance(&c);
    let detour = a.calculate_distance(&b) + b.calculate_distance(&c);
    assert_eq!(direct, 4);
    assert_eq!(detour, 4);
    let d = at(-3, 7, 11);
    assert!(a.calculate_distance(&c) <= a.calculate_distance(&d) + d.calculate_distance(&c));
}

#[test]
fn distance_is_symmetric() {
    let a = at(-7, 12, 3);
    let b = at(40, -9, 25);
    assert_eq!(a.calculate_distance(&b), b.calculate_distance(&a));
    assert_eq!(a.calculate_distance(&b), 56);
}

#[test]
fn distance_to_self_is_zero() {
    let a = at(-7, 12, 3);
    assert_eq!(a.calculate_distance(&a), 0);
    let far = at(i32::MAX, i32::MIN, i32::MAX);
    assert_eq!(far.calculate_distance(&far), 0);
}

#[test]
fn distance_across_the_whole_lattice_fits() {
    let low = at(i32::MIN, i32::MIN, i32::MIN);
    let high = at(i32::MAX, i32::MAX, i32::MAX);
    let d = low.calculate_distance(&high);
    assert_eq!(d, 7439101572);
    assert!(d <= MAX_DISTANCE);
    assert_eq!(high.calculate_distance(&low), d);
    let along = at(i32::MAX, i32::MIN, i32::MIN);
    assert_eq!(low.calculate_distance(&along), 4294967295);
}
