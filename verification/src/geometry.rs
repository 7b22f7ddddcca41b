//! Points, displacements and exact distances on the grid.

use vstd::prelude::*;

verus! {

/// Grid units per unit of the map.
pub const GRID_PER_UNIT: i64 = 1000;

/// Largest absolute value a coordinate may take.
///
/// With coordinates in this range every cross product of two displacements
/// fits in an `i64`, and the product of two cross products in an `i128`.
pub const COORD_LIMIT: i64 = 1_000_000_000;

/// Largest absolute value a displacement between two grid points may take.
pub const SPAN_LIMIT: i64 = 2_000_000_000;

/// A grid point.
#[derive(Clone, Copy, Debug, PartialEq, Eq, Structural)]
pub struct Point {
    pub x: i64,
    pub y: i64,
}

/// The displacement from one grid point to another.
#[derive(Clone, Copy, Debug, PartialEq, Eq, Structural)]
pub struct Vector {
    pub dx: i64,
    pub dy: i64,
}

impl Point {
    /// Both coordinates are within `COORD_LIMIT` of zero.
    pub open spec fn in_bounds(self) -> bool {
        &&& -COORD_LIMIT <= self.x <= COORD_LIMIT
        &&& -COORD_LIMIT <= self.y <= COORD_LIMIT
    }

    /// The displacement that leads from `from` to `self`.
    pub open spec fn minus(self, from: Point) -> Vector {
        Vector { dx: (self.x - from.x) as i64, dy: (self.y - from.y) as i64 }
    }

    /// Decides `in_bounds`.
    pub fn is_in_bounds(&self) -> (ok: bool)
        ensures
            ok == self.in_bounds(),
    {
        -COORD_LIMIT <= self.x && self.x <= COORD_LIMIT && -COORD_LIMIT <= self.y && self.y
            <= COORD_LIMIT
    }

    /// The displacement that leads from `from` to `self`.
    pub fn displacement_from(&self, from: &Point) -> (v: Vector)
        requires
            self.in_bounds(),
            from.in_bounds(),
        ensures
            v == self.minus(*from),
            v.in_bounds(),
            v.dx == self.x - from.x,
            v.dy == self.y - from.y,
    {
        Vector { dx: self.x - from.x, dy: self.y - from.y }
    }
}

impl Vector {
    /// Both components are within `SPAN_LIMIT` of zero.
    pub open spec fn in_bounds(self) -> bool {
        &&& -SPAN_LIMIT <= self.dx <= SPAN_LIMIT
        &&& -SPAN_LIMIT <= self.dy <= SPAN_LIMIT
    }

    /// The displacement leads nowhere.
    pub open spec fn is_zero(self) -> bool {
        self.dx == 0 && self.dy == 0
    }

    /// The same displacement walked backwards.
    pub open spec fn reversed(self) -> Vector {
        Vector { dx: (-self.dx) as i64, dy: (-self.dy) as i64 }
    }

    /// Squared length.
    pub open spec fn norm_sq(self) -> int {
        self.dx * self.dx + self.dy * self.dy
    }

    /// The same displacement walked backwards.
    pub fn reverse(&self) -> (v: Vector)
        requires
            self.in_bounds(),
        ensures
            v == self.reversed(),
            v.in_bounds(),
            v.dx == -self.dx,
            v.dy == -self.dy,
    {
        Vector { dx: -self.dx, dy: -self.dy }
    }
}

/// The z component of the cross product `a x b`: positive when `b` points to
/// the left of `a`, negative when it points to the right, zero when the two
/// are parallel.
pub open spec fn cross(a: Vector, b: Vector) -> int {
    a.dx * b.dy - a.dy * b.dx
}

/// A product of two bounded numbers is bounded by the product of the
/// bounds.
pub proof fn lemma_product_bound(a: int, b: int, m: int, n: int)
    by (nonlinear_arith)
    requires
        -m <= a <= m,
        -n <= b <= n,
    ensures
        -(m * n) <= a * b <= m * n,
{
}

/// The cross product of two displacements between grid points fits in an
/// `i64`.
pub proof fn lemma_cross_bound(a: Vector, b: Vector)
    requires
        a.in_bounds(),
        b.in_bounds(),
    ensures
        -8_000_000_000_000_000_000 <= cross(a, b) <= 8_000_000_000_000_000_000,
{
    lemma_product_bound(a.dx as int, b.dy as int, SPAN_LIMIT as int, SPAN_LIMIT as int);
    lemma_product_bound(a.dy as int, b.dx as int, SPAN_LIMIT as int, SPAN_LIMIT as int);
}

/// Computes `cross`.
pub fn cross_product(a: &Vector, b: &Vector) -> (c: i64)
    requires
        a.in_bounds(),
        b.in_bounds(),
    ensures
        c == cross(*a, *b),
{
    proof {
        lemma_product_bound(a.dx as int, b.dy as int, SPAN_LIMIT as int, SPAN_LIMIT as int);
        lemma_product_bound(a.dy as int, b.dx as int, SPAN_LIMIT as int, SPAN_LIMIT as int);
    }
    a.dx * b.dy - a.dy * b.dx
}

/// Whether `r` is the integer square root of `n`, rounded down.
pub open spec fn is_floor_sqrt(n: int, r: int) -> bool {
    0 <= r && r * r <= n < (r + 1) * (r + 1)
}

/// The integer square root of `n`, rounded down.
pub open spec fn floor_sqrt(n: int) -> int {
    choose|r: int| is_floor_sqrt(n, r)
}

/// At most one number is the rounded-down square root of `n`.
pub proof fn lemma_floor_sqrt_unique(n: int, r: int, s: int)
    by (nonlinear_arith)
    requires
        is_floor_sqrt(n, r),
        is_floor_sqrt(n, s),
    ensures
        r == s,
{
    if r < s {
        assert((r + 1) * (r + 1) <= s * s);
    } else if s < r {
        assert((s + 1) * (s + 1) <= r * r);
    }
}

/// Integer square root by bisection.
pub fn isqrt(n: u64) -> (r: u64)
    ensures
        is_floor_sqrt(n as int, r as int),
        r == floor_sqrt(n as int),
        r < 0x1_0000_0000,
{
    let mut low: u64 = 0;
    let mut high: u64 = 0x1_0000_0000;
    while high - low > 1
        invariant
            low < high <= 0x1_0000_0000,
            low * low <= n,
            n < high * high,
        decreases high - low,
    {
        let mid: u64 = low + (high - low) / 2;
        assert(mid * mid < 0x1_0000_0000 * 0x1_0000_0000) by (nonlinear_arith)
            requires
                0 <= mid < 0x1_0000_0000,
        ;
        if mid * mid <= n {
            low = mid;
        } else {
            high = mid;
        }
    }
    proof {
        assert(is_floor_sqrt(n as int, low as int));
        lemma_floor_sqrt_unique(n as int, low as int, floor_sqrt(n as int));
    }
    low
}

/// Squared distance between two points.
pub open spec fn dist_sq(a: Point, b: Point) -> int {
    (a.x - b.x) * (a.x - b.x) + (a.y - b.y) * (a.y - b.y)
}

/// Distance between two points in whole grid units, rounded down.
pub open spec fn dist(a: Point, b: Point) -> int {
    floor_sqrt(dist_sq(a, b))
}

/// The squared distance between two grid points fits in an `i64`; it is
/// zero only between a point and itself, and the same in both directions.
pub proof fn lemma_dist_sq_bound(a: Point, b: Point)
    requires
        a.in_bounds(),
        b.in_bounds(),
    ensures
        0 <= dist_sq(a, b) <= 8_000_000_000_000_000_000,
        dist_sq(a, b) == 0 <==> a == b,
        dist_sq(a, b) == dist_sq(b, a),
{
    let dx = a.x - b.x;
    let dy = a.y - b.y;
    lemma_product_bound(dx, dx, SPAN_LIMIT as int, SPAN_LIMIT as int);
    lemma_product_bound(dy, dy, SPAN_LIMIT as int, SPAN_LIMIT as int);
    assert(dx * dx >= 0 && (dx * dx == 0 <==> dx == 0)) by (nonlinear_arith);
    assert(dy * dy >= 0 && (dy * dy == 0 <==> dy == 0)) by (nonlinear_arith);
    assert((b.x - a.x) * (b.x - a.x) == dx * dx) by (nonlinear_arith)
        requires
            dx == a.x - b.x,
    ;
    assert((b.y - a.y) * (b.y - a.y) == dy * dy) by (nonlinear_arith)
        requires
            dy == a.y - b.y,
    ;
}

/// Computes `dist_sq`.
pub fn distance_squared(a: &Point, b: &Point) -> (d: u64)
    requires
        a.in_bounds(),
        b.in_bounds(),
    ensures
        d == dist_sq(*a, *b),
        d <= 8_000_000_000_000_000_000,
{
    proof {
        lemma_dist_sq_bound(*a, *b);
        lemma_product_bound(a.x - b.x, a.x - b.x, SPAN_LIMIT as int, SPAN_LIMIT as int);
        lemma_product_bound(a.y - b.y, a.y - b.y, SPAN_LIMIT as int, SPAN_LIMIT as int);
    }
    let dx: i64 = a.x - b.x;
    let dy: i64 = a.y - b.y;
    let sum: i64 = dx * dx + dy * dy;
    sum as u64
}

/// No two grid points lie farther apart than this, rounded down.
pub const DIST_MAX: u64 = 2_828_427_124;

/// The distance between two grid points is a well-defined number no greater
/// than `DIST_MAX`; it is zero for a point and itself, and the same in both
/// directions.
pub proof fn lemma_dist_bound(a: Point, b: Point)
    requires
        a.in_bounds(),
        b.in_bounds(),
    ensures
        is_floor_sqrt(dist_sq(a, b), dist(a, b)),
        0 <= dist(a, b) <= DIST_MAX,
        dist(a, b) == dist(b, a),
        a == b ==> dist(a, b) == 0,
{
    lemma_dist_sq_bound(a, b);
    let n = dist_sq(a, b);
    lemma_floor_sqrt_exists(n);
    let r = dist(a, b);
    assert(r <= DIST_MAX) by (nonlinear_arith)
        requires
            0 <= r,
            r * r <= n,
            n <= 8_000_000_000_000_000_000,
    {
        if r > 2_828_427_124 {
            assert(r * r >= 2_828_427_125 * 2_828_427_125);
        }
    }
    if a == b {
        assert(is_floor_sqrt(0, 0));
        lemma_floor_sqrt_unique(0, 0, r);
    }
}

/// Every natural number has a rounded-down square root.
pub proof fn lemma_floor_sqrt_exists(n: int)
    requires
        n >= 0,
    ensures
        is_floor_sqrt(n, floor_sqrt(n)),
    decreases n,
{
    if n == 0 {
        assert(is_floor_sqrt(0, 0));
    } else {
        lemma_floor_sqrt_exists(n - 1);
        let r = floor_sqrt(n - 1);
        if (r + 1) * (r + 1) <= n {
            assert(is_floor_sqrt(n, r + 1)) by (nonlinear_arith)
                requires
                    0 <= r,
                    r * r <= n - 1 < (r + 1) * (r + 1),
                    (r + 1) * (r + 1) <= n,
            ;
        } else {
            assert(is_floor_sqrt(n, r));
        }
    }
}

/// Distance between two points in whole grid units, rounded down.
pub fn distance(a: &Point, b: &Point) -> (d: u64)
    requires
        a.in_bounds(),
        b.in_bounds(),
    ensures
        d == dist(*a, *b),
        is_floor_sqrt(dist_sq(*a, *b), d as int),
        d <= DIST_MAX,
{
    proof {
        lemma_dist_bound(*a, *b);
    }
    isqrt(distance_squared(a, b))
}

/// Only the zero displacement has length zero.
pub proof fn lemma_norm_sq_bound(v: Vector)
    requires
        v.in_bounds(),
    ensures
        0 <= v.norm_sq() <= 8_000_000_000_000_000_000,
        v.norm_sq() == 0 <==> v.is_zero(),
{
    lemma_product_bound(v.dx as int, v.dx as int, SPAN_LIMIT as int, SPAN_LIMIT as int);
    lemma_product_bound(v.dy as int, v.dy as int, SPAN_LIMIT as int, SPAN_LIMIT as int);
    assert(v.dx * v.dx >= 0 && (v.dx * v.dx == 0 <==> v.dx == 0)) by (nonlinear_arith);
    assert(v.dy * v.dy >= 0 && (v.dy * v.dy == 0 <==> v.dy == 0)) by (nonlinear_arith);
}

/// Squared length of a displacement.
pub fn norm_squared(v: &Vector) -> (n: u64)
    requires
        v.in_bounds(),
    ensures
        n == v.norm_sq(),
        n <= 8_000_000_000_000_000_000,
{
    proof {
        lemma_norm_sq_bound(*v);
        lemma_product_bound(v.dx as int, v.dx as int, SPAN_LIMIT as int, SPAN_LIMIT as int);
        lemma_product_bound(v.dy as int, v.dy as int, SPAN_LIMIT as int, SPAN_LIMIT as int);
    }
    let sum: i64 = v.dx * v.dx + v.dy * v.dy;
    sum as u64
}

} // verus!
