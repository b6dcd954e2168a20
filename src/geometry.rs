//! Points on an integer grid and the distance between them.

use vstd::prelude::*;

verus! {

/// A point of the plane, on an integer grid; the origin is the default.
#[derive(Debug, Clone, Copy, PartialEq, Eq, Structural)]
pub struct Position {
    pub x: i32,
    pub y: i32,
}

/// The square of the Euclidean distance between two points.
pub open spec fn dist_sq(a: Position, b: Position) -> int {
    (a.x - b.x) * (a.x - b.x) + (a.y - b.y) * (a.y - b.y)
}

/// `r` is the Euclidean norm whose square is `v`, rounded down.
pub open spec fn is_floor_sqrt(v: int, r: int) -> bool {
    0 <= r && r * r <= v && v < (r + 1) * (r + 1)
}

/// The Euclidean distance between two points, rounded down to the grid.
pub open spec fn distance(a: Position, b: Position) -> int {
    choose|r: int| is_floor_sqrt(dist_sq(a, b), r)
}

/// A value has at most one rounded-down square root.
pub proof fn lemma_floor_sqrt_unique(v: int, r1: int, r2: int)
    requires
        is_floor_sqrt(v, r1),
        is_floor_sqrt(v, r2),
    ensures
        r1 == r2,
{
    if r1 < r2 {
        assert(r1 + 1 <= r2);
        assert((r1 + 1) * (r1 + 1) <= r2 * r2) by (nonlinear_arith)
            requires
                0 <= r1 + 1 <= r2,
        ;
    } else if r2 < r1 {
        assert((r2 + 1) * (r2 + 1) <= r1 * r1) by (nonlinear_arith)
            requires
                0 <= r2 + 1 <= r1,
        ;
    }
}

/// The distance from a point to itself is zero.
pub proof fn lemma_distance_to_self(p: Position)
    ensures
        distance(p, p) == 0,
{
    assert(is_floor_sqrt(dist_sq(p, p), 0));
    lemma_floor_sqrt_unique(dist_sq(p, p), 0, distance(p, p));
}

/// Distance is symmetric.
pub proof fn lemma_distance_symmetric(p: Position, q: Position)
    ensures
        distance(p, q) == distance(q, p),
{
    assert(dist_sq(p, q) == dist_sq(q, p)) by (nonlinear_arith);
}

impl Default for Position {
    fn default() -> (r: Position)
        ensures
            r.x == 0 && r.y == 0,
    {
        Position { x: 0, y: 0 }
    }
}

/// Rounded-down square root of `v`, found by bisection.
fn floor_sqrt(v: u128) -> (r: u64)
    requires
        v < 0x4_0000_0000_0000_0000u128,
    ensures
        is_floor_sqrt(v as int, r as int),
{
    let mut lo: u64 = 0;
    let mut hi: u64 = 0x4_0000_0000;
    assert(v < (hi as int) * (hi as int)) by (nonlinear_arith)
        requires
            hi == 0x4_0000_0000,
            v < 0x4_0000_0000_0000_0000,
    ;
    while lo + 1 < hi
        invariant
            lo < hi <= 0x4_0000_0000,
            (lo as int) * (lo as int) <= v,
            v < (hi as int) * (hi as int),
        decreases hi - lo,
    {
        let mid: u64 = lo + (hi - lo) / 2;
        assert((mid as int) * (mid as int) <= 0x10_0000_0000_0000_0000) by (nonlinear_arith)
            requires
                mid <= 0x4_0000_0000,
        ;
        if (mid as u128) * (mid as u128) <= v {
            lo = mid;
        } else {
            hi = mid;
        }
    }
    lo
}

impl Position {
    /// The square of the distance to `other`, exact.
    pub fn squared_distance_to(&self, other: &Position) -> (r: u128)
        ensures
            r == dist_sq(*self, *other),
            r <= 0x2_0000_0000_0000_0000u128,
    {
        let dx: i64 = self.x as i64 - other.x as i64;
        let dy: i64 = self.y as i64 - other.y as i64;
        let ax: u128 = if dx < 0 { (-dx) as u128 } else { dx as u128 };
        let ay: u128 = if dy < 0 { (-dy) as u128 } else { dy as u128 };
        assert(ax * ax == dx * dx && ay * ay == dy * dy) by (nonlinear_arith)
            requires
                ax == dx || ax == -dx,
                ay == dy || ay == -dy,
        ;
        assert(ax * ax <= 0x1_0000_0000_0000_0000 && ay * ay <= 0x1_0000_0000_0000_0000) by (nonlinear_arith)
            requires
                ax <= 0x1_0000_0000,
                ay <= 0x1_0000_0000,
        ;
        ax * ax + ay * ay
    }

    /// The Euclidean distance to `other`, rounded down.
    pub fn distance_to(&self, other: &Position) -> (r: u64)
        ensures
            r == distance(*self, *other),
            is_floor_sqrt(dist_sq(*self, *other), r as int),
    {
        let d = self.squared_distance_to(other);
        let r = floor_sqrt(d);
        proof {
            lemma_floor_sqrt_unique(d as int, r as int, distance(*self, *other));
        }
        r
    }
}

} // verus!
