//! Tests of the geometric value types and the fixed-point distance.

use rrtstar::{dist, Goal, Obstacle};

#[test]
fn dist_exact_values() {
    assert_eq!(dist(0, 0, 3, 4), 5);
    assert_eq!(dist(3, 4, 0, 0), 5);
    assert_eq!(dist(0, 0, 0, 0), 0);
    // floor of sqrt(2)
    assert_eq!(dist(0, 0, 1, 1), 1);
    // 0.05 diagonal: floor of 70710.6...
    assert_eq!(dist(0, 0, 50_000, 50_000), 70_710);
    assert_eq!(dist(-3, -4, 0, 0), 5);
}

#[test]
fn obstacle_bounds_are_inclusive() {
    let o = Obstacle::new(0, 0, 10, 10);
    assert!(o.sample(0, 0));
    assert!(o.sample(10, 10));
    assert!(o.sample(5, 0));
    assert!(o.sample(0, 10));
    assert!(!o.sample(11, 5));
    assert!(!o.sample(5, 11));
    assert!(!o.sample(-1, 5));
    assert!(!o.sample(5, -1));
}

#[test]
fn obstacle_with_zero_extent_is_a_point() {
    let o = Obstacle::new(7, -7, 0, 0);
    assert!(o.sample(7, -7));
    assert!(!o.sample(8, -7));
    assert!(!o.sample(7, -8));
}

#[test]
fn goal_boundary_is_inclusive() {
    let g = Goal::new(0, 0, 100);
    assert!(g.sample(0, 0));
    assert!(g.sample(100, 0));
    assert!(g.sample(0, -100));
    assert!(g.sample(70, 70));
    assert!(!g.sample(71, 71));
    assert!(!g.sample(101, 0));
}

#[test]
fn goal_of_zero_radius_is_its_center() {
    let g = Goal::new(5, 5, 0);
    assert!(g.sample(5, 5));
    assert!(!g.sample(5, 6));
}
