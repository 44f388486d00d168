//! The planning tree: an append-only arena of nodes with parent links and
//! cumulative path costs, grown by nearest-neighbour selection, step-bounded
//! steering and segment-sampled collision truncation.

use vstd::prelude::*;

use crate::geom::{dist, dist_sq, in_range, obstacle_contains, sq_dist, Obstacle, STEP};
use crate::num::{sqrt_floor, tdiv};

verus! {

/// Cap on the number of nodes, so that cumulative costs stay within `i64`.
pub const MAX_NODES: usize = 1_000_000_000;

/// A point of the plane with an optional parent and the cumulative path
/// length from the root, all in fixed-point units.
#[derive(Debug, Clone, Copy, PartialEq)]
pub struct Node {
    pub parent: Option<usize>,
    pub cost: i64,
    pub x: i64,
    pub y: i64,
}

/// The node's coordinates lie within the plane.
pub open spec fn node_in_range(n: Node) -> bool {
    in_range(n.x as int) && in_range(n.y as int)
}

/// Squared distance from a node to a point.
pub open spec fn nd_sq(n: Node, x: int, y: int) -> int {
    dist_sq(n.x as int, n.y as int, x, y)
}

/// Index of the node nearest to `(x, y)` among the first `k`, scanning
/// forward and keeping the earliest node on exact ties.
pub open spec fn nearest_upto(nodes: Seq<Node>, x: int, y: int, k: int) -> int
    decreases k,
{
    if k <= 1 {
        0
    } else {
        let b = nearest_upto(nodes, x, y, k - 1);
        if nd_sq(nodes[k - 1], x, y) < nd_sq(nodes[b], x, y) {
            k - 1
        } else {
            b
        }
    }
}

/// The nearest-node query: `None` exactly on an empty tree.
pub open spec fn spec_nearest(nodes: Seq<Node>, x: int, y: int) -> Option<int> {
    if nodes.len() == 0 {
        None
    } else {
        Some(nearest_upto(nodes, x, y, nodes.len() as int))
    }
}

/// The nearest index is a first minimiser: no node is strictly closer, and
/// every earlier node is strictly farther.
pub proof fn lemma_nearest_upto_props(nodes: Seq<Node>, x: int, y: int, k: int)
    requires
        1 <= k <= nodes.len(),
    ensures
        ({
            let b = nearest_upto(nodes, x, y, k);
            0 <= b < k && (forall|j: int|
                0 <= j < k ==> nd_sq(nodes[b], x, y) <= nd_sq(#[trigger] nodes[j], x, y)) && (
            forall|j: int| 0 <= j < b ==> nd_sq(#[trigger] nodes[j], x, y) > nd_sq(nodes[b], x, y))
        }),
    decreases k,
{
    if k > 1 {
        lemma_nearest_upto_props(nodes, x, y, k - 1);
    }
}

/// Index of the cheapest node among the first `k`, earliest on ties.
pub open spec fn cheapest_upto(nodes: Seq<Node>, k: int) -> int
    decreases k,
{
    if k <= 1 {
        0
    } else {
        let b = cheapest_upto(nodes, k - 1);
        if nodes[k - 1].cost < nodes[b].cost {
            k - 1
        } else {
            b
        }
    }
}

/// The cheapest index is a first minimiser of `cost`.
pub proof fn lemma_cheapest_upto_props(nodes: Seq<Node>, k: int)
    requires
        1 <= k <= nodes.len(),
    ensures
        ({
            let b = cheapest_upto(nodes, k);
            0 <= b < k && (forall|j: int|
                0 <= j < k ==> nodes[b].cost <= (#[trigger] nodes[j]).cost) && (forall|j: int|
                0 <= j < b ==> (#[trigger] nodes[j]).cost > nodes[b].cost)
        }),
    decreases k,
{
    if k > 1 {
        lemma_cheapest_upto_props(nodes, k - 1);
    }
}

/// The smallest integer whose square is at least `n` (for `n >= 0`).
pub open spec fn ceil_sqrt(n: int) -> int {
    if sqrt_floor(n) * sqrt_floor(n) == n {
        sqrt_floor(n)
    } else {
        sqrt_floor(n) + 1
    }
}

/// Steering: the target itself when it lies within `STEP` of the source,
/// otherwise the target's direction clamped onto the circle of radius
/// `STEP` around the source (rounding toward the source).
pub open spec fn spec_steer(px: int, py: int, tx: int, ty: int) -> (int, int) {
    let d2 = dist_sq(px, py, tx, ty);
    if d2 <= (STEP as int) * (STEP as int) {
        (tx, ty)
    } else {
        let c = ceil_sqrt(d2);
        (px + tdiv((tx - px) * (STEP as int), c), py + tdiv((ty - py) * (STEP as int), c))
    }
}

/// The `i`-th of the six points sampled along the segment from `(px, py)`
/// to `(qx, qy)`, at parameter `i / 5`.
pub open spec fn sample_at(px: int, py: int, qx: int, qy: int, i: int) -> (int, int) {
    (px + tdiv((qx - px) * i, 5), py + tdiv((qy - py) * i, 5))
}

/// Whether some obstacle of the set contains the point.
pub open spec fn blocked(obs: Seq<Obstacle>, x: int, y: int) -> bool {
    exists|k: int| 0 <= k < obs.len() && obstacle_contains(obs[k], x, y)
}

/// Whether the `i`-th sample of the segment lies inside some obstacle.
pub open spec fn sample_blocked(
    px: int,
    py: int,
    qx: int,
    qy: int,
    obs: Seq<Obstacle>,
    i: int,
) -> bool {
    blocked(obs, sample_at(px, py, qx, qy, i).0, sample_at(px, py, qx, qy, i).1)
}

/// Scan of the samples from index `i` on: the index of the sample kept as
/// the truncated endpoint — the one before the first blocked sample (the
/// source itself if the very first sample is blocked), or the last sample
/// when none is blocked.
pub open spec fn trunc_idx_from(px: int, py: int, qx: int, qy: int, obs: Seq<Obstacle>, i: int) -> int
    decreases 6 - i,
{
    if i >= 6 {
        5
    } else if sample_blocked(px, py, qx, qy, obs, i) {
        if i == 0 {
            0
        } else {
            i - 1
        }
    } else {
        trunc_idx_from(px, py, qx, qy, obs, i + 1)
    }
}

/// The index of the sample kept as the truncated endpoint.
pub open spec fn trunc_idx(px: int, py: int, qx: int, qy: int, obs: Seq<Obstacle>) -> int {
    trunc_idx_from(px, py, qx, qy, obs, 0)
}

/// The truncated endpoint of the segment from `(px, py)` to `(qx, qy)`.
pub open spec fn spec_truncate(px: int, py: int, qx: int, qy: int, obs: Seq<Obstacle>) -> (
    int,
    int,
) {
    sample_at(px, py, qx, qy, trunc_idx(px, py, qx, qy, obs))
}

/// Position and cost of the conceptual parent: the node at `near` when
/// there is one, else the sampled point itself with cost zero.
pub open spec fn parent_pos(nodes: Seq<Node>, near: Option<int>, x: int, y: int) -> (int, int) {
    match near {
        Some(i) => (nodes[i].x as int, nodes[i].y as int),
        None => (x, y),
    }
}

/// The point committed by one insertion: nearest node, steering toward the
/// sample within the step bound, then collision truncation.
pub open spec fn spec_committed(nodes: Seq<Node>, obs: Seq<Obstacle>, x: int, y: int) -> (
    int,
    int,
) {
    let p = parent_pos(nodes, spec_nearest(nodes, x, y), x, y);
    let s = spec_steer(p.0, p.1, x, y);
    spec_truncate(p.0, p.1, s.0, s.1, obs)
}

/// The node appended by one insertion: the committed point, its parent
/// re-resolved as the node nearest to that point, and the parent's cost
/// plus the edge length (the empty tree yields the root, with no parent
/// and the sampled coordinates as the conceptual parent position).
pub open spec fn spec_new_node(nodes: Seq<Node>, obs: Seq<Obstacle>, x: int, y: int) -> Node {
    let c = spec_committed(nodes, obs, x, y);
    match spec_nearest(nodes, c.0, c.1) {
        Some(j) => Node {
            parent: Some(j as usize),
            cost: (nodes[j].cost + sqrt_floor(nd_sq(nodes[j], c.0, c.1))) as i64,
            x: c.0 as i64,
            y: c.1 as i64,
        },
        None => Node {
            parent: None,
            cost: sqrt_floor(dist_sq(c.0, c.1, x, y)) as i64,
            x: c.0 as i64,
            y: c.1 as i64,
        },
    }
}

/// Well-formedness of the node at index `i`: coordinates in range, cost
/// nonnegative and at most `i` steps long, the root exactly at index `0`
/// with cost zero, and every other node referring to a strictly earlier
/// parent at most one step away, with the cost of the parent plus the
/// edge's length.
pub open spec fn wf_node_at(nodes: Seq<Node>, i: int) -> bool {
    let n = nodes[i];
    node_in_range(n) && 0 <= n.cost && n.cost <= i * (STEP as int) && match n.parent {
        None => i == 0 && n.cost == 0,
        Some(p) => (p as int) < i && nd_sq(nodes[p as int], n.x as int, n.y as int) <= (
        STEP as int) * (STEP as int) && n.cost == nodes[p as int].cost + sqrt_floor(
            nd_sq(nodes[p as int], n.x as int, n.y as int),
        ),
    }
}

/// Well-formedness of the whole arena.
pub open spec fn wf_nodes(nodes: Seq<Node>) -> bool {
    forall|i: int| 0 <= i < nodes.len() ==> #[trigger] wf_node_at(nodes, i)
}

/// Every obstacle of the set is well-formed.
pub open spec fn wf_obstacles(obs: Seq<Obstacle>) -> bool {
    forall|k: int| 0 <= k < obs.len() ==> (#[trigger] obs[k]).wf()
}

/// Termination measure for walking parent links: strictly above the
/// parent's own measure in a well-formed arena.
pub open spec fn parent_measure(n: Node) -> int {
    match n.parent {
        Some(p) => p as int + 1,
        None => 0,
    }
}

/// The node's parent link, if any, refers into the arena.
pub open spec fn parent_ok(nodes: Seq<Node>, n: Node) -> bool {
    match n.parent {
        Some(p) => (p as int) < nodes.len(),
        None => true,
    }
}

/// The recursive sum of this node's and all its ancestors' cumulative
/// `cost` fields (zero at the root). Note that each `cost` is itself
/// cumulative from the root, so ancestors' path lengths are re-counted at
/// every level: this is not the geometric path length.
pub open spec fn spec_depth(nodes: Seq<Node>, n: Node) -> int
    decreases parent_measure(n),
        when wf_nodes(nodes) && parent_ok(nodes, n)
{
    match n.parent {
        None => 0,
        Some(p) => {
            proof {
                assert(wf_node_at(nodes, p as int));
            }
            spec_depth(nodes, nodes[p as int]) + n.cost
        },
    }
}

/// In a well-formed arena the depth sum of a node with nonnegative cost is
/// nonnegative.
pub proof fn lemma_depth_nonneg(nodes: Seq<Node>, n: Node)
    requires
        wf_nodes(nodes),
        parent_ok(nodes, n),
        0 <= n.cost,
    ensures
        0 <= spec_depth(nodes, n),
    decreases parent_measure(n),
{
    match n.parent {
        Some(p) => {
            assert(wf_node_at(nodes, p as int));
            lemma_depth_nonneg(nodes, nodes[p as int]);
        },
        None => {},
    }
}

/// An interpolation sample lies within the segment's bounding box and no
/// farther from the source than the segment's far end.
pub proof fn lemma_sample_within(px: int, py: int, qx: int, qy: int, i: int)
    requires
        0 <= i <= 5,
        in_range(px),
        in_range(py),
        in_range(qx),
        in_range(qy),
    ensures
        ({
            let s = sample_at(px, py, qx, qy, i);
            in_range(s.0) && in_range(s.1) && dist_sq(px, py, s.0, s.1) <= dist_sq(px, py, qx, qy)
        }),
{
    let dx = qx - px;
    let dy = qy - py;
    let u = tdiv(dx * i, 5);
    let v = tdiv(dy * i, 5);
    crate::num::lemma_scale_frac_bounds(dx, i);
    crate::num::lemma_scale_frac_bounds(dy, i);
    assert(u * u <= dx * dx) by (nonlinear_arith)
        requires
            (dx >= 0 ==> 0 <= u <= dx) && (dx < 0 ==> dx <= u <= 0),
    ;
    assert(v * v <= dy * dy) by (nonlinear_arith)
        requires
            (dy >= 0 ==> 0 <= v <= dy) && (dy < 0 ==> dy <= v <= 0),
    ;
}

/// The truncation scan's result is the index of one of the six samples.
pub proof fn lemma_trunc_from_range(px: int, py: int, qx: int, qy: int, obs: Seq<Obstacle>, i: int)
    requires
        0 <= i <= 6,
    ensures
        0 <= trunc_idx_from(px, py, qx, qy, obs, i) <= 5,
    decreases 6 - i,
{
    if i < 6 && !sample_blocked(px, py, qx, qy, obs, i) {
        lemma_trunc_from_range(px, py, qx, qy, obs, i + 1);
    }
}

/// While the samples before `i` are clear, the scan from `0` and the scan
/// from `i` keep the same sample.
pub proof fn lemma_trunc_skip(px: int, py: int, qx: int, qy: int, obs: Seq<Obstacle>, i: int)
    requires
        0 <= i <= 6,
        forall|j: int| 0 <= j < i ==> !#[trigger] sample_blocked(px, py, qx, qy, obs, j),
    ensures
        trunc_idx_from(px, py, qx, qy, obs, 0) == trunc_idx_from(px, py, qx, qy, obs, i),
    decreases i,
{
    if i > 0 {
        lemma_trunc_skip(px, py, qx, qy, obs, i - 1);
    }
}

/// Every sample from `i` up to the sample the scan keeps is clear of all
/// obstacles.
pub proof fn lemma_trunc_free(px: int, py: int, qx: int, qy: int, obs: Seq<Obstacle>, i: int)
    requires
        1 <= i <= 6,
    ensures
        forall|j: int|
            i <= j <= trunc_idx_from(px, py, qx, qy, obs, i) ==> !#[trigger] sample_blocked(
                px,
                py,
                qx,
                qy,
                obs,
                j,
            ),
    decreases 6 - i,
{
    if i < 6 && !sample_blocked(px, py, qx, qy, obs, i) {
        lemma_trunc_free(px, py, qx, qy, obs, i + 1);
    }
}

/// The first sample is the segment's source itself.
pub proof fn lemma_sample_zero(px: int, py: int, qx: int, qy: int)
    ensures
        sample_at(px, py, qx, qy, 0) == (px, py),
{
    assert((qx - px) * 0 == 0);
    assert((qy - py) * 0 == 0);
}

/// When the source is clear of all obstacles, so is every sample up to and
/// including the truncated endpoint: a committed edge's samples are all
/// collision-free.
pub proof fn lemma_trunc_prefix_free(px: int, py: int, qx: int, qy: int, obs: Seq<Obstacle>)
    requires
        !blocked(obs, px, py),
    ensures
        forall|j: int|
            0 <= j <= trunc_idx(px, py, qx, qy, obs) ==> !#[trigger] sample_blocked(
                px,
                py,
                qx,
                qy,
                obs,
                j,
            ),
        !blocked(
            obs,
            spec_truncate(px, py, qx, qy, obs).0,
            spec_truncate(px, py, qx, qy, obs).1,
        ),
{
    lemma_sample_zero(px, py, qx, qy);
    assert(!sample_blocked(px, py, qx, qy, obs, 0));
    lemma_trunc_free(px, py, qx, qy, obs, 1);
    lemma_trunc_from_range(px, py, qx, qy, obs, 0);
    let t = trunc_idx(px, py, qx, qy, obs);
    assert(t == trunc_idx_from(px, py, qx, qy, obs, 1));
    assert(!sample_blocked(px, py, qx, qy, obs, t));
}

/// Inserting into an empty tree commits the sampled point itself, whatever
/// the obstacles: steering and truncation both degenerate when source and
/// target coincide, so the root carries the input coordinates, no parent,
/// and cost zero.
pub proof fn lemma_root_insertion(nodes: Seq<Node>, obs: Seq<Obstacle>, x: int, y: int)
    requires
        nodes.len() == 0,
    ensures
        spec_committed(nodes, obs, x, y) == (x, y),
        spec_new_node(nodes, obs, x, y) == (Node {
            parent: None::<usize>,
            cost: 0,
            x: x as i64,
            y: y as i64,
        }),
{
    assert(dist_sq(x, y, x, y) == 0);
    let s = spec_steer(x, y, x, y);
    assert(s == (x, y));
    let t = trunc_idx(x, y, x, y, obs);
    lemma_trunc_from_range(x, y, x, y, obs, 0);
    assert((x - x) * t == 0);
    assert((y - y) * t == 0);
    assert(sample_at(x, y, x, y, t) == (x, y));
    crate::num::lemma_sqrt_zero();
}

impl Node {
    pub fn new(parent: Option<usize>, x: i64, y: i64, total_dist: i64) -> (n: Node)
        ensures
            n == (Node { parent, cost: total_dist, x, y }),
    {
        Node { parent, cost: total_dist, x, y }
    }

    /// The recursive ancestor-cost sum of `spec_depth`: each ancestor
    /// contributes its whole cumulative cost, not its incoming edge.
    pub fn depth(&self, tree: &Tree) -> (d: i64)
        requires
            tree.wf(),
            parent_ok(tree.nodes@, *self),
            0 <= self.cost,
            spec_depth(tree.nodes@, *self) <= i64::MAX,
        ensures
            d == spec_depth(tree.nodes@, *self),
        decreases parent_measure(*self),
    {
        match self.parent {
            Some(p) => {
                let node: Node = tree.nodes[p];
                proof {
                    assert(wf_node_at(tree.nodes@, p as int));
                    lemma_depth_nonneg(tree.nodes@, node);
                }
                let rec: i64 = node.depth(tree);
                rec + self.cost
            },
            None => 0,
        }
    }

    /// Euclidean distance from this node to a point, in whole units.
    pub fn dist(&self, x: i64, y: i64) -> (d: i64)
        requires
            node_in_range(*self),
            in_range(x as int),
            in_range(y as int),
        ensures
            d == sqrt_floor(nd_sq(*self, x as int, y as int)),
            0 <= d,
    {
        dist(self.x, self.y, x, y)
    }
}

/// The planning tree: its nodes and its obstacles, both append-only.
#[derive(Debug)]
pub struct Tree {
    pub nodes: Vec<Node>,
    pub obstacles: Vec<Obstacle>,
}

impl Tree {
    /// The tree's invariant: a well-formed arena over well-formed obstacles.
    pub open spec fn wf(self) -> bool {
        wf_nodes(self.nodes@) && wf_obstacles(self.obstacles@)
    }

    pub fn new() -> (t: Tree)
        ensures
            t.nodes@.len() == 0,
            t.obstacles@.len() == 0,
            t.wf(),
    {
        Tree { nodes: Vec::new(), obstacles: Vec::new() }
    }

    /// Index of the node nearest to `(x, y)`, by linear scan; on exact
    /// ties the earliest-inserted node is kept. `None` exactly when the
    /// tree is empty.
    pub fn min_dist(&self, x: i64, y: i64) -> (r: Option<usize>)
        requires
            self.wf(),
            in_range(x as int),
            in_range(y as int),
        ensures
            r is Some <==> self.nodes@.len() > 0,
            match r {
                Some(i) => (i as int) < self.nodes@.len() && i as int == nearest_upto(
                    self.nodes@,
                    x as int,
                    y as int,
                    self.nodes@.len() as int,
                ) && (forall|j: int|
                    0 <= j < self.nodes@.len() ==> nd_sq(self.nodes@[i as int], x as int, y as int)
                        <= nd_sq(#[trigger] self.nodes@[j], x as int, y as int)) && (forall|j: int|
                    0 <= j < i as int ==> nd_sq(#[trigger] self.nodes@[j], x as int, y as int)
                        > nd_sq(self.nodes@[i as int], x as int, y as int)),
                None => self.nodes@.len() == 0,
            },
    {
        if self.nodes.len() == 0 {
            return None;
        }
        proof {
            assert(wf_node_at(self.nodes@, 0));
        }
        let mut best: usize = 0;
        let mut best_d: i64 = sq_dist(self.nodes[0].x, self.nodes[0].y, x, y);
        let mut i: usize = 1;
        while i < self.nodes.len()
            invariant
                self.wf(),
                in_range(x as int),
                in_range(y as int),
                1 <= i as int <= self.nodes@.len(),
                (best as int) < i as int,
                best as int == nearest_upto(self.nodes@, x as int, y as int, i as int),
                best_d == nd_sq(self.nodes@[best as int], x as int, y as int),
            decreases self.nodes@.len() - i as int,
        {
            proof {
                assert(wf_node_at(self.nodes@, i as int));
            }
            let d: i64 = sq_dist(self.nodes[i].x, self.nodes[i].y, x, y);
            if d < best_d {
                best = i;
                best_d = d;
            }
            i = i + 1;
        }
        proof {
            lemma_nearest_upto_props(self.nodes@, x as int, y as int, self.nodes@.len() as int);
        }
        Some(best)
    }

    /// Index of the globally cheapest node. The argument is ignored: the
    /// query does not search near the given node, it returns the single
    /// minimum-cost node of the whole tree. `None` exactly when the tree
    /// is empty.
    pub fn min_cost(&self, _node: usize) -> (r: Option<usize>)
        requires
            self.wf(),
        ensures
            r is Some <==> self.nodes@.len() > 0,
            match r {
                Some(i) => (i as int) < self.nodes@.len() && i as int == cheapest_upto(
                    self.nodes@,
                    self.nodes@.len() as int,
                ) && (forall|j: int|
                    0 <= j < self.nodes@.len() ==> self.nodes@[i as int].cost <= (
                    #[trigger] self.nodes@[j]).cost) && (forall|j: int|
                    0 <= j < i as int ==> (#[trigger] self.nodes@[j]).cost
                        > self.nodes@[i as int].cost),
                None => self.nodes@.len() == 0,
            },
    {
        if self.nodes.len() == 0 {
            return None;
        }
        let mut best: usize = 0;
        let mut best_c: i64 = self.nodes[0].cost;
        let mut i: usize = 1;
        while i < self.nodes.len()
            invariant
                self.wf(),
                1 <= i as int <= self.nodes@.len(),
                (best as int) < i as int,
                best as int == cheapest_upto(self.nodes@, i as int),
                best_c == self.nodes@[best as int].cost,
            decreases self.nodes@.len() - i as int,
        {
            let c: i64 = self.nodes[i].cost;
            if c < best_c {
                best = i;
                best_c = c;
            }
            i = i + 1;
        }
        proof {
            lemma_cheapest_upto_props(self.nodes@, self.nodes@.len() as int);
        }
        Some(best)
    }

    /// The `i`-th of the six equally spaced points on the segment from `a`
    /// to `b`, rounding each component toward `a`.
    fn interpolate(a: (i64, i64), b: (i64, i64), i: usize) -> (r: (i64, i64))
        requires
            in_range(a.0 as int),
            in_range(a.1 as int),
            in_range(b.0 as int),
            in_range(b.1 as int),
            i <= 5,
        ensures
            r.0 as int == sample_at(a.0 as int, a.1 as int, b.0 as int, b.1 as int, i as int).0,
            r.1 as int == sample_at(a.0 as int, a.1 as int, b.0 as int, b.1 as int, i as int).1,
            in_range(r.0 as int),
            in_range(r.1 as int),
    {
        let dx: i64 = b.0 - a.0;
        let dy: i64 = b.1 - a.1;
        proof {
            assert(-10_000_000_000 <= (dx as int) * (i as int) <= 10_000_000_000)
                by (nonlinear_arith)
                requires
                    -2_000_000_000 <= dx as int <= 2_000_000_000,
                    0 <= i as int <= 5,
            ;
            assert(-10_000_000_000 <= (dy as int) * (i as int) <= 10_000_000_000)
                by (nonlinear_arith)
                requires
                    -2_000_000_000 <= dy as int <= 2_000_000_000,
                    0 <= i as int <= 5,
            ;
            crate::num::lemma_scale_frac_bounds(dx as int, i as int);
            crate::num::lemma_scale_frac_bounds(dy as int, i as int);
        }
        let qx: i64 = crate::num::tdiv_i64(dx * (i as i64), 5);
        let qy: i64 = crate::num::tdiv_i64(dy * (i as i64), 5);
        (a.0 + qx, a.1 + qy)
    }

    /// Steering: return `n` unchanged when it lies within `STEP` of `p`,
    /// else clamp it onto the circle of radius `STEP` around `p`. Either
    /// way the result is within `STEP` of `p`.
    fn constrain(n: (i64, i64), p: (i64, i64)) -> (r: (i64, i64))
        requires
            in_range(n.0 as int),
            in_range(n.1 as int),
            in_range(p.0 as int),
            in_range(p.1 as int),
        ensures
            r.0 as int == spec_steer(p.0 as int, p.1 as int, n.0 as int, n.1 as int).0,
            r.1 as int == spec_steer(p.0 as int, p.1 as int, n.0 as int, n.1 as int).1,
            in_range(r.0 as int),
            in_range(r.1 as int),
            dist_sq(p.0 as int, p.1 as int, r.0 as int, r.1 as int) <= (STEP as int) * (
            STEP as int),
    {
        let d2: i64 = sq_dist(p.0, p.1, n.0, n.1);
        if d2 <= STEP * STEP {
            return n;
        }
        let rt: u64 = crate::num::isqrt(d2 as u64);
        proof {
            assert((rt as int) * (rt as int) < 4294967296 * 4294967296) by (nonlinear_arith)
                requires
                    rt < 4294967296,
            ;
        }
        let c: u64 = if rt * rt == (d2 as u64) {
            rt
        } else {
            rt + 1
        };
        let dx: i64 = n.0 - p.0;
        let dy: i64 = n.1 - p.1;
        proof {
            assert(rt as int >= STEP as int) by (nonlinear_arith)
                requires
                    0 <= rt as int,
                    (d2 as int) < ((rt as int) + 1) * ((rt as int) + 1),
                    (d2 as int) > 100_000 * 100_000,
            ;
            assert(c as int == ceil_sqrt(d2 as int));
            assert((d2 as int) <= (c as int) * (c as int)) by (nonlinear_arith)
                requires
                    (c as int == rt as int && (rt as int) * (rt as int) == d2 as int) || (
                    c as int == rt as int + 1 && (d2 as int) < ((rt as int) + 1) * ((rt as int)
                        + 1)),
            ;
            assert(-200_000_000_000_000 <= (dx as int) * (STEP as int) <= 200_000_000_000_000)
                by (nonlinear_arith)
                requires
                    -2_000_000_000 <= dx as int <= 2_000_000_000,
            ;
            assert(-200_000_000_000_000 <= (dy as int) * (STEP as int) <= 200_000_000_000_000)
                by (nonlinear_arith)
                requires
                    -2_000_000_000 <= dy as int <= 2_000_000_000,
            ;
            crate::num::lemma_tdiv_scale_le(dx as int, STEP as int, c as int);
            crate::num::lemma_tdiv_scale_le(dy as int, STEP as int, c as int);
            crate::num::lemma_clamp_sq_bound(dx as int, dy as int, c as int, STEP as int);
        }
        let qx: i64 = crate::num::tdiv_i64(dx * STEP, c as i64);
        let qy: i64 = crate::num::tdiv_i64(dy * STEP, c as i64);
        (p.0 + qx, p.1 + qy)
    }

    /// Walk the six samples of the segment from `s` to `e` in order and
    /// return the sample before the first one inside an obstacle (the
    /// source itself when that is the very first), or the far end when
    /// every sample is clear.
    fn intersect(s: (i64, i64), e: (i64, i64), obs: &Vec<Obstacle>) -> (r: (i64, i64))
        requires
            in_range(s.0 as int),
            in_range(s.1 as int),
            in_range(e.0 as int),
            in_range(e.1 as int),
            wf_obstacles(obs@),
        ensures
            r.0 as int == spec_truncate(s.0 as int, s.1 as int, e.0 as int, e.1 as int, obs@).0,
            r.1 as int == spec_truncate(s.0 as int, s.1 as int, e.0 as int, e.1 as int, obs@).1,
            in_range(r.0 as int),
            in_range(r.1 as int),
    {
        let mut nx: i64 = s.0;
        let mut ny: i64 = s.1;
        let mut i: usize = 0;
        while i <= 5
            invariant
                in_range(s.0 as int),
                in_range(s.1 as int),
                in_range(e.0 as int),
                in_range(e.1 as int),
                wf_obstacles(obs@),
                i as int <= 6,
                forall|j: int|
                    0 <= j < i as int ==> !#[trigger] sample_blocked(
                        s.0 as int,
                        s.1 as int,
                        e.0 as int,
                        e.1 as int,
                        obs@,
                        j,
                    ),
                i == 0 ==> (nx == s.0 && ny == s.1),
                i as int > 0 ==> (nx as int == sample_at(
                    s.0 as int,
                    s.1 as int,
                    e.0 as int,
                    e.1 as int,
                    i as int - 1,
                ).0 && ny as int == sample_at(
                    s.0 as int,
                    s.1 as int,
                    e.0 as int,
                    e.1 as int,
                    i as int - 1,
                ).1),
                in_range(nx as int),
                in_range(ny as int),
            decreases 6 - i as int,
        {
            let c = Tree::interpolate(s, e, i);
            if point_blocked(obs, c.0, c.1) {
                proof {
                    lemma_trunc_skip(
                        s.0 as int,
                        s.1 as int,
                        e.0 as int,
                        e.1 as int,
                        obs@,
                        i as int,
                    );
                    lemma_sample_zero(s.0 as int, s.1 as int, e.0 as int, e.1 as int);
                    assert(sample_blocked(s.0 as int, s.1 as int, e.0 as int, e.1 as int, obs@, i as int));
                }
                return (nx, ny);
            }
            proof {
                assert(!sample_blocked(s.0 as int, s.1 as int, e.0 as int, e.1 as int, obs@, i as int));
            }
            nx = c.0;
            ny = c.1;
            i = i + 1;
        }
        proof {
            lemma_trunc_skip(s.0 as int, s.1 as int, e.0 as int, e.1 as int, obs@, 6);
        }
        (nx, ny)
    }

    /// Insert the sample `(x, y)`: find the nearest node, steer toward the
    /// sample within the step bound, truncate at the first obstacle
    /// collision, re-resolve the nearest node to the truncated point, and
    /// append a node there whose cost is its parent's plus the edge
    /// length. Always appends exactly one node and returns its index.
    pub fn add(&mut self, x: i64, y: i64) -> (idx: usize)
        requires
            old(self).wf(),
            in_range(x as int),
            in_range(y as int),
            old(self).nodes@.len() < MAX_NODES,
        ensures
            final(self).wf(),
            idx == old(self).nodes@.len(),
            final(self).nodes@ == old(self).nodes@.push(
                spec_new_node(old(self).nodes@, old(self).obstacles@, x as int, y as int),
            ),
            final(self).obstacles@ == old(self).obstacles@,
            old(self).nodes@.len() == 0 ==> final(self).nodes@[0] == (Node {
                parent: None::<usize>,
                cost: 0,
                x,
                y,
            }),
            old(self).nodes@.len() > 0 ==> ({
                let n0 = nearest_upto(
                    old(self).nodes@,
                    x as int,
                    y as int,
                    old(self).nodes@.len() as int,
                );
                let nn = final(self).nodes@[old(self).nodes@.len() as int];
                nd_sq(old(self).nodes@[n0], nn.x as int, nn.y as int) <= (STEP as int) * (
                STEP as int) && (!blocked(
                    old(self).obstacles@,
                    old(self).nodes@[n0].x as int,
                    old(self).nodes@[n0].y as int,
                ) ==> !blocked(old(self).obstacles@, nn.x as int, nn.y as int))
            }),
    {
        let ghost nodes0 = self.nodes@;
        let ghost obs0 = self.obstacles@;
        let min = self.min_dist(x, y);
        proof {
            if min is Some {
                assert(wf_node_at(nodes0, min->Some_0 as int));
            }
        }
        let (par_x, par_y): (i64, i64) = match min {
            Some(e) => (self.nodes[e].x, self.nodes[e].y),
            None => (x, y),
        };
        let c: (i64, i64) = Tree::constrain((x, y), (par_x, par_y));
        let t: (i64, i64) = Tree::intersect((par_x, par_y), c, &self.obstacles);
        proof {
            assert((t.0 as int, t.1 as int) == spec_committed(nodes0, obs0, x as int, y as int));
            lemma_trunc_from_range(par_x as int, par_y as int, c.0 as int, c.1 as int, obs0, 0);
            lemma_sample_within(
                par_x as int,
                par_y as int,
                c.0 as int,
                c.1 as int,
                trunc_idx(par_x as int, par_y as int, c.0 as int, c.1 as int, obs0),
            );
            assert(dist_sq(par_x as int, par_y as int, t.0 as int, t.1 as int) <= (STEP as int)
                * (STEP as int));
            if !blocked(obs0, par_x as int, par_y as int) {
                lemma_trunc_prefix_free(
                    par_x as int,
                    par_y as int,
                    c.0 as int,
                    c.1 as int,
                    obs0,
                );
            }
        }
        let new_par = self.min_dist(t.0, t.1);
        proof {
            if new_par is Some {
                assert(wf_node_at(nodes0, new_par->Some_0 as int));
            }
        }
        let (npx, npy): (i64, i64) = match new_par {
            Some(e) => (self.nodes[e].x, self.nodes[e].y),
            None => (x, y),
        };
        let np_cost: i64 = match new_par {
            Some(e) => self.nodes[e].cost,
            None => 0,
        };
        let edge: i64 = dist(t.0, t.1, npx, npy);
        proof {
            crate::geom::lemma_dist_sq_sym(t.0 as int, t.1 as int, npx as int, npy as int);
            if nodes0.len() > 0 {
                let e = new_par->Some_0;
                // the re-resolved parent is no farther from the committed
                // point than the first nearest node, hence within one step
                assert(nd_sq(nodes0[e as int], t.0 as int, t.1 as int) <= nd_sq(
                    nodes0[nearest_upto(nodes0, x as int, y as int, nodes0.len() as int)],
                    t.0 as int,
                    t.1 as int,
                ));
                crate::geom::lemma_dist_sq_bounds(
                    npx as int,
                    npy as int,
                    t.0 as int,
                    t.1 as int,
                );
                crate::num::lemma_sqrt_le(
                    nd_sq(nodes0[e as int], t.0 as int, t.1 as int),
                    STEP as int,
                );
            } else {
                lemma_root_insertion(nodes0, obs0, x as int, y as int);
                crate::num::lemma_sqrt_zero();
            }
        }
        let node = Node::new(new_par, t.0, t.1, edge + np_cost);
        proof {
            assert(node == spec_new_node(nodes0, obs0, x as int, y as int));
        }
        self.nodes.push(node);
        proof {
            let new_seq = nodes0.push(node);
            assert forall|i: int| 0 <= i < new_seq.len() implies wf_node_at(new_seq, i) by {
                if i < nodes0.len() {
                    assert(wf_node_at(nodes0, i));
                    assert(new_seq[i] == nodes0[i]);
                    match nodes0[i].parent {
                        Some(p) => {
                            assert(new_seq[p as int] == nodes0[p as int]);
                        },
                        None => {},
                    }
                }
            }
        }
        self.nodes.len() - 1
    }

    /// Append an obstacle; the nodes are untouched.
    pub fn add_obs(&mut self, obs: Obstacle)
        requires
            old(self).wf(),
            obs.wf(),
        ensures
            final(self).wf(),
            final(self).obstacles@ == old(self).obstacles@.push(obs),
            final(self).nodes@ == old(self).nodes@,
    {
        self.obstacles.push(obs);
        proof {
            assert forall|k: int| 0 <= k < self.obstacles@.len() implies (
            #[trigger] self.obstacles@[k]).wf() by {
                if k < old(self).obstacles@.len() {
                    assert(old(self).obstacles@[k].wf());
                }
            }
        }
    }

    /// The chain of indices from `node` back to the root, following
    /// parent links: `[node, parent, grandparent, ..., root]`. Parent
    /// indices strictly decrease, so the walk visits at most `node + 1`
    /// nodes.
    pub fn ancestry(&self, node: usize) -> (r: Vec<usize>)
        requires
            self.wf(),
            (node as int) < self.nodes@.len(),
        ensures
            r@.len() >= 1,
            r@[0] == node,
            r@.len() <= node as int + 1,
            forall|k: int| 0 <= k < r@.len() ==> (#[trigger] r@[k] as int) < self.nodes@.len(),
            forall|k: int|
                0 <= k < r@.len() - 1 ==> self.nodes@[#[trigger] r@[k] as int].parent == Some(
                    r@[k + 1],
                ),
            self.nodes@[r@[r@.len() - 1] as int].parent is None,
            forall|k: int| 0 <= k < r@.len() - 1 ==> (r@[k + 1] as int) < (#[trigger] r@[k] as int),
    {
        let mut res: Vec<usize> = Vec::new();
        res.push(node);
        let mut cur: usize = node;
        while self.nodes[cur].parent.is_some()
            invariant
                self.wf(),
                (node as int) < self.nodes@.len(),
                (cur as int) < self.nodes@.len(),
                res@.len() >= 1,
                res@[0] == node,
                res@[res@.len() - 1] == cur,
                forall|k: int| 0 <= k < res@.len() ==> (#[trigger] res@[k] as int) < self.nodes@.len(),
                forall|k: int|
                    0 <= k < res@.len() - 1 ==> self.nodes@[#[trigger] res@[k] as int].parent
                        == Some(res@[k + 1]),
                forall|k: int|
                    0 <= k < res@.len() - 1 ==> (res@[k + 1] as int) < (#[trigger] res@[k] as int),
                forall|k: int| 0 <= k < res@.len() ==> (#[trigger] res@[k] as int) <= node as int - k,
            decreases cur,
        {
            proof {
                assert(wf_node_at(self.nodes@, cur as int));
            }
            let p: usize = self.nodes[cur].parent.unwrap();
            res.push(p);
            cur = p;
        }
        res
    }
}

/// Cost consistency: in a well-formed tree every non-root node's cost is
/// exactly its parent's cost plus the length of the connecting edge, and
/// the root's cost is zero.
pub proof fn lemma_cost_consistency(nodes: Seq<Node>, i: int)
    requires
        wf_nodes(nodes),
        0 <= i < nodes.len(),
    ensures
        match nodes[i].parent {
            Some(p) => (p as int) < i && nodes[i].cost == nodes[p as int].cost + sqrt_floor(
                nd_sq(nodes[p as int], nodes[i].x as int, nodes[i].y as int),
            ),
            None => nodes[i].cost == 0,
        },
{
    assert(wf_node_at(nodes, i));
}

/// Acyclic index ordering: in a well-formed tree a parent link always
/// refers to a strictly earlier node, and only the first node lacks one,
/// so ancestry walks terminate within the node count.
pub proof fn lemma_parent_ordering(nodes: Seq<Node>, i: int)
    requires
        wf_nodes(nodes),
        0 <= i < nodes.len(),
    ensures
        match nodes[i].parent {
            Some(p) => (p as int) < i,
            None => i == 0,
        },
{
    assert(wf_node_at(nodes, i));
}

/// Determinism: the node an insertion appends is a function of the current
/// nodes, the obstacle set and the sampled point alone, so two trees in
/// equal states, fed the same ordered samples, grow identically.
pub proof fn lemma_add_deterministic(
    nodes1: Seq<Node>,
    obs1: Seq<Obstacle>,
    nodes2: Seq<Node>,
    obs2: Seq<Obstacle>,
    x: int,
    y: int,
)
    requires
        nodes1 == nodes2,
        obs1 == obs2,
    ensures
        spec_new_node(nodes1, obs1, x, y) == spec_new_node(nodes2, obs2, x, y),
{
}

/// Whether some obstacle of the set contains the point, by a scan in
/// insertion order.
fn point_blocked(obs: &Vec<Obstacle>, x: i64, y: i64) -> (b: bool)
    requires
        wf_obstacles(obs@),
    ensures
        b == blocked(obs@, x as int, y as int),
{
    let mut k: usize = 0;
    while k < obs.len()
        invariant
            wf_obstacles(obs@),
            k as int <= obs@.len(),
            forall|m: int|
                0 <= m < k as int ==> !obstacle_contains(
                    #[trigger] obs@[m],
                    x as int,
                    y as int,
                ),
        decreases obs@.len() - k as int,
    {
        proof {
            assert(obs@[k as int].wf());
        }
        if obs[k].sample(x, y) {
            proof {
                assert(obstacle_contains(obs@[k as int], x as int, y as int));
            }
            return true;
        }
        k = k + 1;
    }
    false
}

} // verus!
