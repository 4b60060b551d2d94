//! Points on the integer grid, the rounded Euclidean distance between them,
//! and the probe points (midpoint, centroid) that the insertion heuristic uses.

use vstd::prelude::*;
use vstd::arithmetic::div_mod::lemma_hoist_over_denominator;

verus! {

/// A position on the integer grid: a city of an instance, or a probe point.
#[derive(Clone, Copy, PartialEq, Eq, Structural, Debug)]
pub struct Point {
    pub x: i32,
    pub y: i32,
}

/// `r` is the square root of `v`, rounded up: the least natural number whose
/// square reaches `v`.
pub open spec fn is_ceil_sqrt(v: nat, r: nat) -> bool {
    &&& r * r >= v
    &&& r > 0 ==> (r - 1) * (r - 1) < v
}

/// The square root of `v`, rounded up.
pub open spec fn ceil_sqrt(v: nat) -> nat {
    choose|r: nat| is_ceil_sqrt(v, r)
}

proof fn lemma_ceil_sqrt_search(v: nat, r: nat)
    requires
        r * r >= v,
    ensures
        exists|q: nat| is_ceil_sqrt(v, q),
    decreases r,
{
    if r > 0 && (r - 1) * (r - 1) >= v {
        lemma_ceil_sqrt_search(v, (r - 1) as nat);
    } else {
        assert(is_ceil_sqrt(v, r));
    }
}

/// Every natural number has exactly one rounded-up square root.
pub proof fn lemma_ceil_sqrt_unique(v: nat, r: nat)
    requires
        is_ceil_sqrt(v, r),
    ensures
        ceil_sqrt(v) == r,
{
    let q = ceil_sqrt(v);
    assert(is_ceil_sqrt(v, q));
    if q < r {
        assert(q * q <= (r - 1) * (r - 1)) by (nonlinear_arith)
            requires
                0 <= q <= r - 1,
        ;
    }
    if r < q {
        assert(r * r <= (q - 1) * (q - 1)) by (nonlinear_arith)
            requires
                0 <= r <= q - 1,
        ;
    }
}

/// The rounded-up square root is what its name says.
pub proof fn lemma_ceil_sqrt_is_ceil_sqrt(v: nat)
    ensures
        is_ceil_sqrt(v, ceil_sqrt(v)),
{
    assert(v * v >= v) by (nonlinear_arith);
    lemma_ceil_sqrt_search(v, v);
}

/// The rounded-up square root grows with its argument.
pub proof fn lemma_ceil_sqrt_monotone(v: nat, w: nat)
    requires
        v <= w,
    ensures
        ceil_sqrt(v) <= ceil_sqrt(w),
{
    lemma_ceil_sqrt_is_ceil_sqrt(v);
    lemma_ceil_sqrt_is_ceil_sqrt(w);
    let a = ceil_sqrt(v);
    let b = ceil_sqrt(w);
    if b < a {
        assert(b * b <= (a - 1) * (a - 1)) by (nonlinear_arith)
            requires
                0 <= b <= a - 1,
        ;
    }
}

/// Computes the square root of `v`, rounded up, by bisection.
pub fn ceil_sqrt_u128(v: u128) -> (r: u128)
    ensures
        r == ceil_sqrt(v as nat),
        r <= 0x1_0000_0000_0000_0000,
{
    if v == 0 {
        proof {
            lemma_ceil_sqrt_unique(0, 0);
        }
        return 0;
    }
    let mut lo: u128 = 0;
    let mut hi: u128 = 0x1_0000_0000_0000_0000;
    assert(hi * hi >= v) by (nonlinear_arith)
        requires
            hi == 0x1_0000_0000_0000_0000,
            v <= u128::MAX,
    ;
    while hi - lo > 1
        invariant
            lo < hi <= 0x1_0000_0000_0000_0000,
            lo * lo < v,
            hi * hi >= v,
        decreases hi - lo,
    {
        let mid: u128 = lo + (hi - lo) / 2;
        assert(mid * mid <= u128::MAX) by (nonlinear_arith)
            requires
                mid <= 0xffff_ffff_ffff_ffff,
        ;
        if mid * mid >= v {
            hi = mid;
        } else {
            lo = mid;
        }
    }
    proof {
        assert(hi - 1 == lo);
        assert(is_ceil_sqrt(v as nat, hi as nat));
        lemma_ceil_sqrt_unique(v as nat, hi as nat);
    }
    hi
}

/// The square of the Euclidean distance between `a` and `b`.
pub open spec fn distance_squared(a: Point, b: Point) -> nat {
    ((a.x - b.x) * (a.x - b.x) + (a.y - b.y) * (a.y - b.y)) as nat
}

/// The distance between `a` and `b` in grid units: their Euclidean distance,
/// rounded up to the next whole unit.
pub open spec fn dist(a: Point, b: Point) -> nat {
    ceil_sqrt(distance_squared(a, b))
}

/// The largest distance between two points of the grid.
pub open spec fn max_dist() -> nat {
    0x2_0000_0000
}

/// The midpoint of `a` and `b`, each coordinate rounded down to the grid.
pub open spec fn midpoint_of(a: Point, b: Point) -> Point {
    Point { x: ((a.x + b.x) / 2) as i32, y: ((a.y + b.y) / 2) as i32 }
}

/// The sum of the x coordinates of `points`.
pub open spec fn sum_x(points: Seq<Point>) -> int
    decreases points.len(),
{
    if points.len() == 0 {
        0
    } else {
        sum_x(points.drop_last()) + points.last().x
    }
}

/// The sum of the y coordinates of `points`.
pub open spec fn sum_y(points: Seq<Point>) -> int
    decreases points.len(),
{
    if points.len() == 0 {
        0
    } else {
        sum_y(points.drop_last()) + points.last().y
    }
}

/// The centroid of `points`: the mean of each coordinate, rounded down to the
/// grid.
pub open spec fn centroid_of(points: Seq<Point>) -> Point {
    Point {
        x: (sum_x(points) / (points.len() as int)) as i32,
        y: (sum_y(points) / (points.len() as int)) as i32,
    }
}

fn abs_diff(a: i32, b: i32) -> (d: u64)
    ensures
        d == if a >= b { a - b } else { b - a },
        d <= 0xffff_ffff,
{
    if a >= b {
        (a as i64 - b as i64) as u64
    } else {
        (b as i64 - a as i64) as u64
    }
}

fn half_sum(a: i32, b: i32) -> (h: i32)
    ensures
        h == (a + b) / 2,
{
    let shifted: u64 = (a as i64 + b as i64 + 0x1_0000_0000) as u64;
    ((shifted / 2) as i64 - 0x8000_0000) as i32
}

impl Point {
    /// The distance from `self` to `other` in grid units.
    pub fn distance(&self, other: &Point) -> (d: u64)
        ensures
            d == dist(*self, *other),
            d <= max_dist(),
    {
        let dx: u128 = abs_diff(self.x, other.x) as u128;
        let dy: u128 = abs_diff(self.y, other.y) as u128;
        assert(dx * dx == (self.x - other.x) * (self.x - other.x)) by (nonlinear_arith)
            requires
                dx == self.x - other.x || dx == other.x - self.x,
        ;
        assert(dy * dy == (self.y - other.y) * (self.y - other.y)) by (nonlinear_arith)
            requires
                dy == self.y - other.y || dy == other.y - self.y,
        ;
        assert(dx * dx <= 0xffff_ffff * 0xffff_ffff) by (nonlinear_arith)
            requires
                0 <= dx <= 0xffff_ffff,
        ;
        assert(dy * dy <= 0xffff_ffff * 0xffff_ffff) by (nonlinear_arith)
            requires
                0 <= dy <= 0xffff_ffff,
        ;
        let squared: u128 = dx * dx + dy * dy;
        let root: u128 = ceil_sqrt_u128(squared);
        proof {
            lemma_dist_bound(*self, *other);
        }
        root as u64
    }

    /// The midpoint of `self` and `other`, rounded down to the grid.
    pub fn midpoint(&self, other: &Point) -> (m: Point)
        ensures
            m == midpoint_of(*self, *other),
    {
        Point { x: half_sum(self.x, other.x), y: half_sum(self.y, other.y) }
    }
}

fn shifted_mean(total: u128, n: usize, Ghost(sum): Ghost<int>) -> (mean: i32)
    requires
        n > 0,
        total == sum + n * 0x8000_0000,
        total <= n * 0xffff_ffff,
    ensures
        mean == sum / (n as int),
{
    let q: u128 = total / (n as u128);
    proof {
        lemma_hoist_over_denominator(sum, 0x8000_0000, n as nat);
        assert(0x8000_0000 * (n as int) == n * 0x8000_0000);
        assert(total / (n as u128) <= 0xffff_ffff) by (nonlinear_arith)
            requires
                0 <= total <= n * 0xffff_ffff,
                n > 0,
        ;
    }
    (q as i64 - 0x8000_0000) as i32
}

/// Computes the centroid of a non-empty list of points, rounded down to the
/// grid.
pub fn centroid(points: &Vec<Point>) -> (c: Point)
    requires
        points.len() > 0,
    ensures
        c == centroid_of(points@),
{
    let n = points.len();
    let mut total_x: u128 = 0;
    let mut total_y: u128 = 0;
    let mut i: usize = 0;
    while i < n
        invariant
            n == points.len(),
            0 <= i <= n,
            total_x == sum_x(points@.take(i as int)) + i * 0x8000_0000,
            total_y == sum_y(points@.take(i as int)) + i * 0x8000_0000,
            total_x <= i * 0xffff_ffff,
            total_y <= i * 0xffff_ffff,
        decreases n - i,
    {
        proof {
            assert(points@.take(i + 1).drop_last() =~= points@.take(i as int));
        }
        total_x = total_x + (points[i].x as i64 + 0x8000_0000) as u128;
        total_y = total_y + (points[i].y as i64 + 0x8000_0000) as u128;
        i = i + 1;
    }
    proof {
        assert(points@.take(n as int) =~= points@);
    }
    Point {
        x: shifted_mean(total_x, n, Ghost(sum_x(points@))),
        y: shifted_mean(total_y, n, Ghost(sum_y(points@))),
    }
}

/// No two points of the grid are further apart than `max_dist()`.
pub proof fn lemma_dist_bound(a: Point, b: Point)
    ensures
        dist(a, b) <= max_dist(),
{
    let dx = a.x - b.x;
    let dy = a.y - b.y;
    assert(0 <= dx * dx <= 0xffff_ffff * 0xffff_ffff) by (nonlinear_arith)
        requires
            -0xffff_ffff <= dx <= 0xffff_ffff,
    ;
    assert(0 <= dy * dy <= 0xffff_ffff * 0xffff_ffff) by (nonlinear_arith)
        requires
            -0xffff_ffff <= dy <= 0xffff_ffff,
    ;
    let v = distance_squared(a, b);
    assert(v == dx * dx + dy * dy);
    lemma_ceil_sqrt_is_ceil_sqrt(v);
    let r = ceil_sqrt(v);
    if r > 0x2_0000_0000 {
        assert((r - 1) * (r - 1) >= 0x2_0000_0000 * 0x2_0000_0000) by (nonlinear_arith)
            requires
                r - 1 >= 0x2_0000_0000,
        ;
    }
}

/// The distance is symmetric.
pub proof fn lemma_dist_symmetric(a: Point, b: Point)
    ensures
        dist(a, b) == dist(b, a),
{
    let dx = a.x - b.x;
    let dy = a.y - b.y;
    assert(dx * dx == (-dx) * (-dx) && dx * dx >= 0) by (nonlinear_arith);
    assert(dy * dy == (-dy) * (-dy) && dy * dy >= 0) by (nonlinear_arith);
    assert(distance_squared(a, b) == distance_squared(b, a));
}

/// The distance between two points is zero exactly when they coincide.
pub proof fn lemma_dist_zero_iff_equal(a: Point, b: Point)
    ensures
        dist(a, b) == 0 <==> a == b,
{
    let dx = a.x - b.x;
    let dy = a.y - b.y;
    let v = distance_squared(a, b);
    lemma_ceil_sqrt_is_ceil_sqrt(v);
    assert(dx * dx >= 0 && (dx != 0 ==> dx * dx > 0)) by (nonlinear_arith);
    assert(dy * dy >= 0 && (dy != 0 ==> dy * dy > 0)) by (nonlinear_arith);
    assert(v == dx * dx + dy * dy);
    if a == b {
        assert(dx * dx == 0 && dy * dy == 0) by (nonlinear_arith)
            requires
                dx == 0,
                dy == 0,
        ;
        lemma_ceil_sqrt_unique(0, 0);
    }
    if dist(a, b) == 0 {
        let r = ceil_sqrt(v);
        assert(r * r == 0) by (nonlinear_arith)
            requires
                r == 0,
        ;
        assert(a.x == b.x && a.y == b.y);
    }
}

proof fn lemma_cauchy_schwarz(u1: int, u2: int, v1: int, v2: int)
    ensures
        (u1 * v1 + u2 * v2) * (u1 * v1 + u2 * v2) <= (u1 * u1 + u2 * u2) * (v1 * v1 + v2 * v2),
{
    let a = u1 * v1;
    let b = u2 * v2;
    let c = u1 * v2;
    let d = u2 * v1;
    let x = u1 * u1;
    let y = u2 * u2;
    let z = v1 * v1;
    let w = v2 * v2;
    assert(a * b == c * d) by (nonlinear_arith)
        requires
            a == u1 * v1,
            b == u2 * v2,
            c == u1 * v2,
            d == u2 * v1,
    ;
    assert(x * z == a * a) by (nonlinear_arith)
        requires
            a == u1 * v1,
            x == u1 * u1,
            z == v1 * v1,
    ;
    assert(y * w == b * b) by (nonlinear_arith)
        requires
            b == u2 * v2,
            y == u2 * u2,
            w == v2 * v2,
    ;
    assert(x * w == c * c) by (nonlinear_arith)
        requires
            c == u1 * v2,
            x == u1 * u1,
            w == v2 * v2,
    ;
    assert(y * z == d * d) by (nonlinear_arith)
        requires
            d == u2 * v1,
            y == u2 * u2,
            z == v1 * v1,
    ;
    assert((a + b) * (a + b) == a * a + 2 * (a * b) + b * b) by (nonlinear_arith);
    assert((c - d) * (c - d) == c * c - 2 * (c * d) + d * d) by (nonlinear_arith);
    assert((c - d) * (c - d) >= 0) by (nonlinear_arith);
    assert((x + y) * (z + w) == x * z + x * w + y * z + y * w) by (nonlinear_arith);
}

proof fn lemma_square_order(x: int, y: int)
    requires
        x * x <= y * y,
        y >= 0,
    ensures
        x <= y,
{
    if x > y {
        assert(x * x > y * y) by (nonlinear_arith)
            requires
                x > y,
                y >= 0,
        ;
    }
}

/// The way over a third point is never shorter than the direct way.
pub proof fn lemma_dist_triangle(a: Point, b: Point, c: Point)
    ensures
        dist(a, c) <= dist(a, b) + dist(b, c),
{
    let u1 = a.x - b.x;
    let u2 = a.y - b.y;
    let v1 = b.x - c.x;
    let v2 = b.y - c.y;
    let uu = u1 * u1 + u2 * u2;
    let vv = v1 * v1 + v2 * v2;
    let dot = u1 * v1 + u2 * v2;
    let w1 = a.x - c.x;
    let w2 = a.y - c.y;
    let ww = w1 * w1 + w2 * w2;
    assert(u1 * u1 >= 0 && u2 * u2 >= 0 && v1 * v1 >= 0 && v2 * v2 >= 0 && w1 * w1 >= 0 && w2
        * w2 >= 0) by (nonlinear_arith);
    assert(distance_squared(a, b) == uu);
    assert(distance_squared(b, c) == vv);
    assert(distance_squared(a, c) == ww);
    let p = ceil_sqrt(uu as nat) as int;
    let q = ceil_sqrt(vv as nat) as int;
    let r = ceil_sqrt(ww as nat) as int;
    lemma_ceil_sqrt_is_ceil_sqrt(uu as nat);
    lemma_ceil_sqrt_is_ceil_sqrt(vv as nat);
    lemma_ceil_sqrt_is_ceil_sqrt(ww as nat);
    assert(ww == uu + vv + 2 * dot) by (nonlinear_arith)
        requires
            w1 == u1 + v1,
            w2 == u2 + v2,
            ww == w1 * w1 + w2 * w2,
            uu == u1 * u1 + u2 * u2,
            vv == v1 * v1 + v2 * v2,
            dot == u1 * v1 + u2 * v2,
    ;
    lemma_cauchy_schwarz(u1, u2, v1, v2);
    assert(uu * vv <= (p * p) * (q * q)) by (nonlinear_arith)
        requires
            0 <= uu <= p * p,
            0 <= vv <= q * q,
    ;
    assert((p * p) * (q * q) == (p * q) * (p * q)) by (nonlinear_arith);
    assert(p * q >= 0) by (nonlinear_arith)
        requires
            p >= 0,
            q >= 0,
    ;
    lemma_square_order(dot, p * q);
    assert((p + q) * (p + q) == p * p + q * q + 2 * (p * q)) by (nonlinear_arith);
    assert((p + q) * (p + q) >= ww);
    if r > p + q {
        assert((r - 1) * (r - 1) >= (p + q) * (p + q)) by (nonlinear_arith)
            requires
                r - 1 >= p + q,
                p + q >= 0,
        ;
    }
}

} // verus!
