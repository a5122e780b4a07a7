//! Positions, squared distances and integer square roots.
//!
//! Lengths are whole millimetres: one world unit is 1000 millimetres.

use vstd::prelude::*;

verus! {

/// Millimetres in one world unit.
pub const UNIT: i32 = 1000;

/// A position in space, in millimetres along each axis.
#[derive(Clone, Copy, Debug, PartialEq, Eq, Structural)]
pub struct Point {
    pub x: i32,
    pub y: i32,
    pub z: i32,
}

/// The square of the difference of two coordinates.
pub open spec fn square_diff(a: i32, b: i32) -> nat {
    ((a - b) * (a - b)) as nat
}

/// The squared Euclidean distance between two points, in square millimetres.
pub open spec fn dist_sq(a: Point, b: Point) -> nat {
    square_diff(a.x, b.x) + square_diff(a.y, b.y) + square_diff(a.z, b.z)
}

/// No two points are further apart than this, squared.
pub open spec fn dist_sq_limit() -> nat {
    3 * 0xffff_ffff * 0xffff_ffff
}

/// `r` is the square root of `n`, rounded down.
pub open spec fn is_sqrt_floor(n: nat, r: nat) -> bool {
    r * r <= n < (r + 1) * (r + 1)
}

/// The square root of `n`, rounded down.
pub open spec fn sqrt_floor(n: nat) -> nat {
    choose|r: nat| is_sqrt_floor(n, r)
}

/// Squaring preserves order on the naturals.
pub proof fn lemma_square_monotonic(a: nat, b: nat)
    requires
        a <= b,
    ensures
        a * a <= b * b,
{
    assert(a * a <= b * b) by (nonlinear_arith)
        requires
            a <= b,
    ;
}

/// At most one number is the rounded-down square root of `n`.
pub proof fn lemma_sqrt_floor_unique(n: nat, r1: nat, r2: nat)
    requires
        is_sqrt_floor(n, r1),
        is_sqrt_floor(n, r2),
    ensures
        r1 == r2,
{
    if r1 < r2 {
        lemma_square_monotonic(r1 + 1, r2);
    } else if r2 < r1 {
        lemma_square_monotonic(r2 + 1, r1);
    }
}

/// Whatever satisfies `is_sqrt_floor` is the value of `sqrt_floor`.
pub proof fn lemma_sqrt_floor_is(n: nat, r: nat)
    requires
        is_sqrt_floor(n, r),
    ensures
        sqrt_floor(n) == r,
{
    lemma_sqrt_floor_unique(n, r, sqrt_floor(n));
}

/// Every number has a rounded-down square root.
pub proof fn lemma_sqrt_floor_exists(n: nat)
    ensures
        is_sqrt_floor(n, sqrt_floor(n)),
        n == 0 ==> sqrt_floor(n) == 0,
    decreases n,
{
    if n == 0 {
        assert(0 * 0 == 0 && (0 + 1) * (0 + 1) == 1) by (nonlinear_arith);
        assert(is_sqrt_floor(0, 0));
        lemma_sqrt_floor_is(0, 0);
    } else {
        lemma_sqrt_floor_exists((n - 1) as nat);
        let r = sqrt_floor((n - 1) as nat);
        if (r + 1) * (r + 1) <= n {
            assert((r + 1) * (r + 1) == n);
            assert((r + 2) * (r + 2) > (r + 1) * (r + 1)) by (nonlinear_arith);
            assert(is_sqrt_floor(n, r + 1));
        } else {
            assert(is_sqrt_floor(n, r));
        }
    }
}

/// Squared distances never exceed `dist_sq_limit`, and a point is at distance
/// zero from itself.
pub proof fn lemma_dist_sq_bounds(a: Point, b: Point)
    ensures
        dist_sq(a, b) <= dist_sq_limit(),
        dist_sq(a, a) == 0,
        dist_sq(a, b) == dist_sq(b, a),
{
    lemma_square_diff_bound(a.x, b.x);
    lemma_square_diff_bound(a.y, b.y);
    lemma_square_diff_bound(a.z, b.z);
}

/// The square of a coordinate difference is bounded, symmetric, and zero
/// for equal coordinates.
proof fn lemma_square_diff_bound(a: i32, b: i32)
    ensures
        square_diff(a, b) <= 0xffff_ffff * 0xffff_ffff,
        square_diff(a, b) == square_diff(b, a),
        square_diff(a, a) == 0,
{
    let d: int = a - b;
    assert(d * d <= 0xffff_ffff * 0xffff_ffff && d * d >= 0 && d * d == (-d) * (-d))
        by (nonlinear_arith)
        requires
            -0xffff_ffff <= d <= 0xffff_ffff,
    ;
}

/// The square of the difference of two coordinates.
fn axis_sq(a: i32, b: i32) -> (r: u64)
    ensures
        r == square_diff(a, b),
{
    let diff: i64 = a as i64 - b as i64;
    let d: u64 = if diff < 0 {
        (-diff) as u64
    } else {
        diff as u64
    };
    proof {
        lemma_square_diff_bound(a, b);
        assert(d * d == (a - b) * (a - b)) by (nonlinear_arith)
            requires
                d == a - b || d == b - a,
        ;
    }
    d * d
}

impl Point {
    /// The point with the given coordinates.
    pub fn new(x: i32, y: i32, z: i32) -> (p: Point)
        ensures
            p == (Point { x, y, z }),
    {
        Point { x, y, z }
    }

    /// Squared Euclidean distance to `other`, in square millimetres.
    pub fn distance_squared(self, other: Point) -> (d: u128)
        ensures
            d == dist_sq(self, other),
    {
        let dx: u64 = axis_sq(self.x, other.x);
        let dy: u64 = axis_sq(self.y, other.y);
        let dz: u64 = axis_sq(self.z, other.z);
        dx as u128 + dy as u128 + dz as u128
    }
}

/// The square root of `n`, rounded down, found by bisection.
pub fn integer_sqrt(n: u128) -> (r: u64)
    ensures
        is_sqrt_floor(n as nat, r as nat),
        r == sqrt_floor(n as nat),
{
    let mut lo: u128 = 0;
    let mut hi: u128 = 0x1_0000_0000_0000_0000;
    assert(hi * hi > n) by (nonlinear_arith)
        requires
            hi == 0x1_0000_0000_0000_0000,
            n <= 0xffff_ffff_ffff_ffff_ffff_ffff_ffff_ffff,
    ;
    while hi - lo > 1
        invariant
            lo < hi <= 0x1_0000_0000_0000_0000,
            lo * lo <= n < hi * hi,
        decreases hi - lo,
    {
        let mid: u128 = lo + (hi - lo) / 2;
        assert(mid * mid <= 0xffff_ffff_ffff_ffff * 0xffff_ffff_ffff_ffff) by (nonlinear_arith)
            requires
                mid <= 0xffff_ffff_ffff_ffff,
        ;
        if mid * mid <= n {
            lo = mid;
        } else {
            hi = mid;
        }
    }
    proof {
        lemma_sqrt_floor_is(n as nat, lo as nat);
    }
    lo as u64
}

} // verus!
