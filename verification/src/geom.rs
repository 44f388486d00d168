//! Plane geometry in fixed-point units: one unit is a millionth of the
//! original coordinate scale, so the step bound of 0.1 becomes `STEP`
//! units. Distances are Euclidean, rounded down to whole units.

use vstd::prelude::*;

use crate::num::{isqrt, sqrt_floor};

verus! {

/// Fixed-point units per one coordinate unit of the plane.
pub const UNITS: i64 = 1_000_000;

/// The steering step bound: 0.1 in plane coordinates.
pub const STEP: i64 = 100_000;

/// Coordinates are kept within this magnitude so that squared distances
/// and scaled vector components stay within `i64`.
pub const COORD_LIMIT: i64 = 1_000_000_000;

/// A coordinate the plane admits.
pub open spec fn in_range(v: int) -> bool {
    -(COORD_LIMIT as int) <= v <= COORD_LIMIT as int
}

/// Squared Euclidean distance between two points.
pub open spec fn dist_sq(x1: int, y1: int, x2: int, y2: int) -> int {
    (x2 - x1) * (x2 - x1) + (y2 - y1) * (y2 - y1)
}

/// Euclidean distance between two points, rounded down to whole units.
pub open spec fn spec_dist(x1: int, y1: int, x2: int, y2: int) -> int {
    sqrt_floor(dist_sq(x1, y1, x2, y2))
}

/// Squared distance is symmetric in its two points.
pub proof fn lemma_dist_sq_sym(x1: int, y1: int, x2: int, y2: int)
    ensures
        dist_sq(x1, y1, x2, y2) == dist_sq(x2, y2, x1, y1),
{
    assert((x2 - x1) * (x2 - x1) == (x1 - x2) * (x1 - x2)) by (nonlinear_arith);
    assert((y2 - y1) * (y2 - y1) == (y1 - y2) * (y1 - y2)) by (nonlinear_arith);
}

/// A squared distance is nonnegative, and bounded when the points are.
pub proof fn lemma_dist_sq_bounds(x1: int, y1: int, x2: int, y2: int)
    requires
        in_range(x1),
        in_range(y1),
        in_range(x2),
        in_range(y2),
    ensures
        0 <= dist_sq(x1, y1, x2, y2) <= 8_000_000_000_000_000_000,
{
    let dx = x2 - x1;
    let dy = y2 - y1;
    assert(0 <= dx * dx <= 4_000_000_000_000_000_000) by (nonlinear_arith)
        requires
            -2_000_000_000 <= dx <= 2_000_000_000,
    ;
    assert(0 <= dy * dy <= 4_000_000_000_000_000_000) by (nonlinear_arith)
        requires
            -2_000_000_000 <= dy <= 2_000_000_000,
    ;
}

/// Squared distance, computed without overflow for in-range points.
pub fn sq_dist(x1: i64, y1: i64, x2: i64, y2: i64) -> (d: i64)
    requires
        in_range(x1 as int),
        in_range(y1 as int),
        in_range(x2 as int),
        in_range(y2 as int),
    ensures
        d == dist_sq(x1 as int, y1 as int, x2 as int, y2 as int),
        0 <= d <= 8_000_000_000_000_000_000,
{
    proof {
        lemma_dist_sq_bounds(x1 as int, y1 as int, x2 as int, y2 as int);
        let dx = x2 - x1;
        let dy = y2 - y1;
        assert(0 <= dx * dx <= 4_000_000_000_000_000_000) by (nonlinear_arith)
            requires
                -2_000_000_000 <= dx <= 2_000_000_000,
        ;
        assert(0 <= dy * dy <= 4_000_000_000_000_000_000) by (nonlinear_arith)
            requires
                -2_000_000_000 <= dy <= 2_000_000_000,
        ;
    }
    let dx: i64 = x2 - x1;
    let dy: i64 = y2 - y1;
    dx * dx + dy * dy
}

/// Euclidean distance between two in-range points, rounded down.
pub fn dist(x1: i64, y1: i64, x2: i64, y2: i64) -> (d: i64)
    requires
        in_range(x1 as int),
        in_range(y1 as int),
        in_range(x2 as int),
        in_range(y2 as int),
    ensures
        d == spec_dist(x1 as int, y1 as int, x2 as int, y2 as int),
        0 <= d < 4294967296,
{
    let dsq: i64 = sq_dist(x1, y1, x2, y2);
    let r: u64 = isqrt(dsq as u64);
    r as i64
}

/// An axis-aligned rectangular obstacle: corner `(x, y)`, extending by
/// nonnegative `w` and `h` toward positive `x` and `y`.
#[derive(Debug)]
pub struct Obstacle {
    pub x: i64,
    pub y: i64,
    pub w: i64,
    pub h: i64,
}

/// Whether the point lies within the rectangle, bounds inclusive.
pub open spec fn obstacle_contains(o: Obstacle, px: int, py: int) -> bool {
    o.x <= px <= o.x + o.w && o.y <= py <= o.y + o.h
}

impl Obstacle {
    /// The rectangle's sides are nonnegative and it lies within the plane's
    /// coordinate range.
    pub open spec fn wf(self) -> bool {
        0 <= self.w && 0 <= self.h && in_range(self.x as int) && in_range(
            self.x as int + self.w as int,
        ) && in_range(self.y as int) && in_range(self.y as int + self.h as int)
    }

    pub fn new(x: i64, y: i64, w: i64, h: i64) -> (o: Obstacle)
        requires
            0 <= w,
            0 <= h,
            in_range(x as int),
            in_range(x as int + w as int),
            in_range(y as int),
            in_range(y as int + h as int),
        ensures
            o == (Obstacle { x, y, w, h }),
            o.wf(),
    {
        Obstacle { x, y, w, h }
    }

    /// Inclusive membership test for a point of the plane.
    pub fn sample(&self, x: i64, y: i64) -> (r: bool)
        requires
            self.wf(),
        ensures
            r == obstacle_contains(*self, x as int, y as int),
    {
        x >= self.x && x <= self.x + self.w && y >= self.y && y <= self.y + self.h
    }
}

/// A circular goal region: center `(x, y)` and nonnegative radius `r`.
pub struct Goal {
    pub x: i64,
    pub y: i64,
    pub r: i64,
}

/// Whether the point lies within the circle, boundary inclusive.
pub open spec fn goal_contains(g: Goal, px: int, py: int) -> bool {
    dist_sq(g.x as int, g.y as int, px, py) <= g.r * g.r
}

impl Goal {
    /// The circle's center is in range and its radius nonnegative and
    /// bounded, so that the membership test cannot overflow.
    pub open spec fn wf(self) -> bool {
        in_range(self.x as int) && in_range(self.y as int) && 0 <= self.r <= COORD_LIMIT
    }

    pub fn new(x: i64, y: i64, r: i64) -> (g: Goal)
        requires
            in_range(x as int),
            in_range(y as int),
            0 <= r <= COORD_LIMIT,
        ensures
            g == (Goal { x, y, r }),
            g.wf(),
    {
        Goal { x, y, r }
    }

    /// Membership test: the point is no farther than `r` from the center.
    /// Distances being nonnegative, comparing squares is the same test.
    pub fn sample(&self, x: i64, y: i64) -> (res: bool)
        requires
            self.wf(),
            in_range(x as int),
            in_range(y as int),
        ensures
            res == goal_contains(*self, x as int, y as int),
    {
        let dsq: i64 = sq_dist(self.x, self.y, x, y);
        proof {
            assert(0 <= self.r * self.r <= 1_000_000_000_000_000_000) by (nonlinear_arith)
                requires
                    0 <= self.r <= 1_000_000_000,
            ;
        }
        dsq <= self.r * self.r
    }
}

} // verus!
