//! Behavioural tests of the planning tree, in fixed-point micro-units:
//! one million units are one unit of plane coordinate, so the step bound
//! of 0.1 is 100_000 units.

use rrtstar::{dist, Node, Obstacle, Tree};

#[test]
fn root_insertion_empty_plane() {
    let mut tree = Tree::new();
    let idx: usize = tree.add(0, 0);
    assert_eq!(idx, 0);
    assert_eq!(tree.nodes.len(), 1);
    assert_eq!(tree.nodes[0].parent, None);
    assert_eq!(tree.nodes[0].cost, 0);
    assert_eq!(tree.nodes[0].x, 0);
    assert_eq!(tree.nodes[0].y, 0);
}

#[test]
fn root_insertion_keeps_input_position() {
    let mut tree = Tree::new();
    let idx: usize = tree.add(123_456, -654_321);
    assert_eq!(idx, 0);
    assert_eq!(tree.nodes[0].parent, None);
    assert_eq!(tree.nodes[0].cost, 0);
    assert_eq!(tree.nodes[0].x, 123_456);
    assert_eq!(tree.nodes[0].y, -654_321);
}

#[test]
fn short_step_is_unclamped() {
    // 0.05 in plane units: within the 0.1 step bound, the sample itself
    // is committed; its cost is the distance 0.0707... rounded down.
    let mut tree = Tree::new();
    tree.add(0, 0);
    let idx: usize = tree.add(50_000, 50_000);
    assert_eq!(idx, 1);
    let n: Node = tree.nodes[1];
    assert_eq!(n.parent, Some(0));
    assert_eq!(n.x, 50_000);
    assert_eq!(n.y, 50_000);
    assert_eq!(n.cost, 70_710);
}

#[test]
fn far_target_clamps_to_step_bound() {
    // A target at (5, 5) steers to distance 0.1 along the diagonal.
    let mut tree = Tree::new();
    tree.add(0, 0);
    let idx: usize = tree.add(5_000_000, 5_000_000);
    assert_eq!(idx, 1);
    let n: Node = tree.nodes[1];
    assert_eq!(n.parent, Some(0));
    assert_eq!(n.x, 70_710);
    assert_eq!(n.y, 70_710);
    assert_eq!(n.cost, 99_999);
    // the committed point lies within one step of its parent
    assert!(dist(0, 0, n.x, n.y) <= 100_000);
}

#[test]
fn obstacle_on_the_steer_path_truncates() {
    // The obstacle covers the steer target but not the origin: the edge
    // is cut back to the last clear sample, strictly outside the
    // rectangle.
    let mut tree = Tree::new();
    tree.add(0, 0);
    tree.add_obs(Obstacle::new(50_000, 0, 1_000_000, 1_000_000));
    let idx: usize = tree.add(5_000_000, 5_000_000);
    assert_eq!(idx, 1);
    let n: Node = tree.nodes[1];
    assert_eq!(n.parent, Some(0));
    // steer target is (70_710, 70_710); samples step by 14_142; the
    // sample at 56_568 is the first inside the rectangle
    assert_eq!(n.x, 42_426);
    assert_eq!(n.y, 42_426);
    assert_eq!(n.cost, 59_999);
    assert!(!tree.obstacles[0].sample(n.x, n.y));
    // every sampled point along the committed edge is clear
    for i in 0..4i64 {
        assert!(!tree.obstacles[0].sample(14_142 * i, 14_142 * i));
    }
}

#[test]
fn immediate_collision_duplicates_the_root() {
    // An obstacle over the root truncates the edge to length zero: a
    // zero-cost child at the root's own position is valid, not an error.
    let mut tree = Tree::new();
    tree.add(0, 0);
    tree.add_obs(Obstacle::new(-10, -10, 20, 20));
    let idx: usize = tree.add(5_000_000, 5_000_000);
    let n: Node = tree.nodes[idx];
    assert_eq!(n.parent, Some(0));
    assert_eq!(n.cost, 0);
    assert_eq!(n.x, 0);
    assert_eq!(n.y, 0);
}

#[test]
fn cost_consistency_over_a_grown_tree() {
    let mut tree = Tree::new();
    tree.add_obs(Obstacle::new(300_000, 300_000, 200_000, 200_000));
    tree.add(0, 0);
    let samples: [(i64, i64); 6] = [
        (400_000, 100_000),
        (-200_000, 250_000),
        (380_000, 410_000),
        (150_000, -90_000),
        (500_000, 500_000),
        (50_000, 50_000),
    ];
    for (sx, sy) in samples {
        tree.add(sx, sy);
    }
    for i in 0..tree.nodes.len() {
        let n: Node = tree.nodes[i];
        match n.parent {
            Some(p) => {
                assert!(p < i);
                let parent: Node = tree.nodes[p];
                assert_eq!(n.cost, parent.cost + dist(parent.x, parent.y, n.x, n.y));
            }
            None => {
                assert_eq!(i, 0);
                assert_eq!(n.cost, 0);
            }
        }
    }
}

#[test]
fn step_bound_over_a_grown_tree() {
    let mut tree = Tree::new();
    tree.add(0, 0);
    let samples: [(i64, i64); 5] = [
        (1_000_000, 0),
        (0, 1_000_000),
        (-700_000, -300_000),
        (90_000, 10_000),
        (2_000_000, 2_000_000),
    ];
    for (sx, sy) in samples {
        let before: usize = tree.nodes.len();
        let idx: usize = tree.add(sx, sy);
        assert_eq!(idx, before);
        let n: Node = tree.nodes[idx];
        if let Some(p) = n.parent {
            let parent: Node = tree.nodes[p];
            assert!(dist(parent.x, parent.y, n.x, n.y) <= 100_000);
        }
    }
}

#[test]
fn determinism_same_samples_same_tree() {
    let samples: [(i64, i64); 5] = [
        (400_000, 100_000),
        (-200_000, 250_000),
        (380_000, 410_000),
        (150_000, -90_000),
        (500_000, 500_000),
    ];
    let mut a = Tree::new();
    let mut b = Tree::new();
    a.add_obs(Obstacle::new(200_000, 0, 150_000, 900_000));
    b.add_obs(Obstacle::new(200_000, 0, 150_000, 900_000));
    a.add(0, 0);
    b.add(0, 0);
    for (sx, sy) in samples {
        a.add(sx, sy);
        b.add(sx, sy);
    }
    assert_eq!(a.nodes.len(), b.nodes.len());
    for i in 0..a.nodes.len() {
        assert_eq!(a.nodes[i], b.nodes[i]);
    }
}

#[test]
fn nearest_query_prefers_earliest_on_ties() {
    let mut tree = Tree::new();
    tree.add(0, 0);
    tree.add(50_000, 0);
    tree.add(-50_000, 0);
    // (25_000, 0) is exactly as close to node 0 as to node 1
    assert_eq!(tree.min_dist(25_000, 0), Some(0));
    assert_eq!(tree.min_dist(49_000, 0), Some(1));
    assert_eq!(tree.min_dist(-49_000, 0), Some(2));
}

#[test]
fn nearest_query_on_empty_tree_is_none() {
    let tree = Tree::new();
    assert_eq!(tree.min_dist(0, 0), None);
    assert_eq!(tree.min_cost(0), None);
}

#[test]
fn min_cost_ignores_its_argument() {
    let mut tree = Tree::new();
    tree.add(0, 0);
    tree.add(80_000, 0);
    tree.add(160_000, 0);
    // the root has cost zero: whatever node is named, the globally
    // cheapest one comes back
    assert_eq!(tree.min_cost(0), Some(0));
    assert_eq!(tree.min_cost(2), Some(0));
    assert_eq!(tree.min_cost(999), Some(0));
}

#[test]
fn min_cost_prefers_earliest_on_ties() {
    let mut tree = Tree::new();
    tree.add(0, 0);
    tree.add_obs(Obstacle::new(-10, -10, 20, 20));
    // a zero-length edge gives a second node of cost zero
    tree.add(5_000_000, 5_000_000);
    assert_eq!(tree.nodes[1].cost, 0);
    assert_eq!(tree.min_cost(1), Some(0));
}

#[test]
fn ancestry_walks_back_to_the_root() {
    let mut tree = Tree::new();
    tree.add(0, 0);
    tree.add(100_000, 0);
    tree.add(200_000, 0);
    assert_eq!(tree.nodes[1].parent, Some(0));
    assert_eq!(tree.nodes[2].parent, Some(1));
    let chain: Vec<usize> = tree.ancestry(2);
    assert_eq!(chain, vec![2, 1, 0]);
    assert_eq!(tree.ancestry(0), vec![0]);
    assert!(tree.ancestry(2).len() <= tree.nodes.len());
}

#[test]
fn depth_resums_cumulative_costs() {
    // depth adds each ancestor's whole cumulative cost, not its edge:
    // along a straight three-node chain it double-counts the first edge.
    let mut tree = Tree::new();
    tree.add(0, 0);
    tree.add(100_000, 0);
    tree.add(200_000, 0);
    assert_eq!(tree.nodes[0].cost, 0);
    assert_eq!(tree.nodes[1].cost, 100_000);
    assert_eq!(tree.nodes[2].cost, 200_000);
    assert_eq!(tree.nodes[0].depth(&tree), 0);
    assert_eq!(tree.nodes[1].depth(&tree), 100_000);
    assert_eq!(tree.nodes[2].depth(&tree), 300_000);
}

#[test]
fn node_new_sets_fields() {
    let n = Node::new(Some(3), 7, -9, 42);
    assert_eq!(n.parent, Some(3));
    assert_eq!(n.x, 7);
    assert_eq!(n.y, -9);
    assert_eq!(n.cost, 42);
}
