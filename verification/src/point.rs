//! Lattice points and the distance between them.

use vstd::prelude::*;

verus! {

/// Upper bound on the distance between any two points.
pub const MAX_DISTANCE: u64 = 0x2_0000_0000;

/// `r` is the square root of `n`, rounded up.
pub open spec fn is_ceil_sqrt(n: nat, r: nat) -> bool {
    n <= r * r && (r == 0 || (r - 1) * (r - 1) < n)
}

/// The square root of `n`, rounded up.
pub open spec fn ceil_sqrt(n: nat) -> nat {
    choose|r: nat| is_ceil_sqrt(n, r)
}

/// Every natural number has a rounded-up square root.
pub proof fn lemma_ceil_sqrt_exists(n: nat)
    ensures
        is_ceil_sqrt(n, ceil_sqrt(n)),
    decreases n,
{
    if n == 0 {
        assert(is_ceil_sqrt(0, 0)) by (nonlinear_arith);
    } else {
        let m = (n - 1) as nat;
        lemma_ceil_sqrt_exists(m);
        let r = ceil_sqrt(m);
        if n <= r * r {
            assert(is_ceil_sqrt(n, r));
        } else {
            assert(n == r * r + 1);
            assert(n <= (r + 1) * (r + 1) && (r + 1 - 1) * (r + 1 - 1) < n) by (nonlinear_arith)
                requires
                    n == r * r + 1,
            ;
            assert(is_ceil_sqrt(n, r + 1));
        }
    }
}

/// The rounded-up square root is unique.
pub proof fn lemma_ceil_sqrt_unique(n: nat, r: nat)
    requires
        is_ceil_sqrt(n, r),
    ensures
        ceil_sqrt(n) == r,
{
    let q = ceil_sqrt(n);
    assert(is_ceil_sqrt(n, q));
    if q < r {
        assert(q * q <= (r - 1) * (r - 1)) by (nonlinear_arith)
            requires
                0 <= q <= r - 1,
        ;
    } else if r < q {
        assert(r * r <= (q - 1) * (q - 1)) by (nonlinear_arith)
            requires
                0 <= r <= q - 1,
        ;
    }
}

/// The rounded-up square root of `n` is the least number whose square
/// reaches `n`.
pub proof fn lemma_ceil_sqrt_least(n: nat, q: nat)
    requires
        n <= q * q,
    ensures
        ceil_sqrt(n) <= q,
{
    let r = ceil_sqrt(n);
    lemma_ceil_sqrt_exists(n);
    if q < r {
        assert(q * q <= (r - 1) * (r - 1)) by (nonlinear_arith)
            requires
                0 <= q <= r - 1,
        ;
    }
}

/// Computes the rounded-up square root by bisection.
fn integer_sqrt(n: u128) -> (r: u64)
    requires
        n < 0x4_0000_0000_0000_0000,
    ensures
        r == ceil_sqrt(n as nat),
        r <= MAX_DISTANCE,
{
    let mut lo: u128 = 0;
    let mut hi: u128 = 0x2_0000_0000;
    assert(hi * hi == 0x4_0000_0000_0000_0000) by (nonlinear_arith)
        requires
            hi == 0x2_0000_0000,
    ;
    while hi - lo > 1
        invariant
            lo < hi <= 0x2_0000_0000,
            lo * lo <= n < hi * hi,
        decreases hi - lo,
    {
        let mid: u128 = lo + (hi - lo) / 2;
        assert(mid * mid < 0x4_0000_0000_0000_0000) by (nonlinear_arith)
            requires
                mid < 0x2_0000_0000,
        ;
        if mid * mid <= n {
            lo = mid;
        } else {
            hi = mid;
        }
    }
    assert(hi == lo + 1);
    if lo * lo == n {
        proof {
            assert(lo == 0 || (lo - 1) * (lo - 1) < lo * lo) by (nonlinear_arith)
                requires
                    lo >= 0,
            ;
            assert(is_ceil_sqrt(n as nat, lo as nat));
            lemma_ceil_sqrt_unique(n as nat, lo as nat);
        }
        lo as u64
    } else {
        proof {
            assert(is_ceil_sqrt(n as nat, hi as nat));
            lemma_ceil_sqrt_unique(n as nat, hi as nat);
        }
        hi as u64
    }
}

/// A point of the lattice, in fixed-point units.
#[derive(Debug, Clone, Copy, PartialEq, Eq, Structural)]
pub struct AStarPoint {
    pub x: i32,
    pub y: i32,
    pub z: i32,
}

impl AStarPoint {
    /// The squared Euclidean distance between two points.
    pub open spec fn distance_squared(self, other: AStarPoint) -> nat {
        ((self.x - other.x) * (self.x - other.x) + (self.y - other.y) * (self.y - other.y) + (
        self.z - other.z) * (self.z - other.z)) as nat
    }

    /// The Euclidean distance between two points, rounded up.
    pub open spec fn distance(self, other: AStarPoint) -> nat {
        ceil_sqrt(self.distance_squared(other))
    }

    /// Returns the Euclidean distance to `other`, rounded up to a whole unit.
    pub fn calculate_distance(&self, other: &AStarPoint) -> (d: u64)
        ensures
            d == self.distance(*other),
            d <= MAX_DISTANCE,
    {
        let dx: i128 = self.x as i128 - other.x as i128;
        let dy: i128 = self.y as i128 - other.y as i128;
        let dz: i128 = self.z as i128 - other.z as i128;
        assert(0 <= dx * dx <= 0x1_0000_0000_0000_0000) by (nonlinear_arith)
            requires
                -0x1_0000_0000 <= dx <= 0x1_0000_0000,
        ;
        assert(0 <= dy * dy <= 0x1_0000_0000_0000_0000) by (nonlinear_arith)
            requires
                -0x1_0000_0000 <= dy <= 0x1_0000_0000,
        ;
        assert(0 <= dz * dz <= 0x1_0000_0000_0000_0000) by (nonlinear_arith)
            requires
                -0x1_0000_0000 <= dz <= 0x1_0000_0000,
        ;
        let sum: i128 = dx * dx + dy * dy + dz * dz;
        integer_sqrt(sum as u128)
    }
}

/// Distance does not depend on the order of its arguments.
pub proof fn lemma_distance_symmetric(a: AStarPoint, b: AStarPoint)
    ensures
        a.distance(b) == b.distance(a),
{
    assert((a.x - b.x) * (a.x - b.x) == (b.x - a.x) * (b.x - a.x)) by (nonlinear_arith);
    assert((a.y - b.y) * (a.y - b.y) == (b.y - a.y) * (b.y - a.y)) by (nonlinear_arith);
    assert((a.z - b.z) * (a.z - b.z) == (b.z - a.z) * (b.z - a.z)) by (nonlinear_arith);
}

/// Every point is at distance zero from itself.
pub proof fn lemma_distance_to_self(a: AStarPoint)
    ensures
        a.distance(a) == 0,
{
    assert(a.distance_squared(a) == 0) by (nonlinear_arith)
        requires
            a.distance_squared(a) == ((a.x - a.x) * (a.x - a.x) + (a.y - a.y) * (a.y - a.y) + (
            a.z - a.z) * (a.z - a.z)) as nat,
    ;
    assert(is_ceil_sqrt(0, 0)) by (nonlinear_arith);
    lemma_ceil_sqrt_unique(0, 0);
}

/// The distance between two points never exceeds `MAX_DISTANCE`.
pub proof fn lemma_distance_bounded(a: AStarPoint, b: AStarPoint)
    ensures
        a.distance(b) <= MAX_DISTANCE,
{
    let n = a.distance_squared(b);
    let r = a.distance(b);
    lemma_ceil_sqrt_exists(n);
    let dx = a.x - b.x;
    let dy = a.y - b.y;
    let dz = a.z - b.z;
    assert(0 <= dx * dx <= 0x1_0000_0000_0000_0000) by (nonlinear_arith)
        requires
            -0x1_0000_0000 <= dx <= 0x1_0000_0000,
    ;
    assert(0 <= dy * dy <= 0x1_0000_0000_0000_0000) by (nonlinear_arith)
        requires
            -0x1_0000_0000 <= dy <= 0x1_0000_0000,
    ;
    assert(0 <= dz * dz <= 0x1_0000_0000_0000_0000) by (nonlinear_arith)
        requires
            -0x1_0000_0000 <= dz <= 0x1_0000_0000,
    ;
    if r > MAX_DISTANCE {
        assert((r - 1) * (r - 1) >= 0x4_0000_0000_0000_0000) by (nonlinear_arith)
            requires
                r - 1 >= 0x2_0000_0000,
        ;
    }
}

/// Twice the product of `p q` and `u v` is at most `q² u² + p² v²`.
proof fn lemma_square_cross(u: int, v: int, p: int, q: int)
    ensures
        2 * ((p * q) * (u * v)) <= (q * q) * (u * u) + (p * p) * (v * v),
{
    let a = q * u;
    let b = p * v;
    assert((a - b) * (a - b) >= 0) by (nonlinear_arith);
    assert((a - b) * (a - b) == a * a - 2 * (a * b) + b * b) by (nonlinear_arith);
    assert(a * a == (q * q) * (u * u)) by (nonlinear_arith)
        requires
            a == q * u,
    ;
    assert(b * b == (p * p) * (v * v)) by (nonlinear_arith)
        requires
            b == p * v,
    ;
    assert(a * b == (p * q) * (u * v)) by (nonlinear_arith)
        requires
            a == q * u,
            b == p * v,
    ;
}

/// The inner product of two vectors is at most the product of bounds on
/// their lengths.
proof fn lemma_dot_bound(u1: int, u2: int, u3: int, v1: int, v2: int, v3: int, p: int, q: int)
    requires
        p >= 0,
        q >= 0,
        u1 * u1 + u2 * u2 + u3 * u3 <= p * p,
        v1 * v1 + v2 * v2 + v3 * v3 <= q * q,
    ensures
        u1 * v1 + u2 * v2 + u3 * v3 <= p * q,
{
    let uu = u1 * u1 + u2 * u2 + u3 * u3;
    let vv = v1 * v1 + v2 * v2 + v3 * v3;
    let uv = u1 * v1 + u2 * v2 + u3 * v3;
    if p == 0 {
        assert(u1 == 0 && u2 == 0 && u3 == 0) by (nonlinear_arith)
            requires
                u1 * u1 + u2 * u2 + u3 * u3 <= 0,
        ;
        assert(uv == 0) by (nonlinear_arith)
            requires
                u1 == 0 && u2 == 0 && u3 == 0,
                uv == u1 * v1 + u2 * v2 + u3 * v3,
        ;
        assert(p * q == 0) by (nonlinear_arith)
            requires
                p == 0,
        ;
    } else if q == 0 {
        assert(v1 == 0 && v2 == 0 && v3 == 0) by (nonlinear_arith)
            requires
                v1 * v1 + v2 * v2 + v3 * v3 <= 0,
        ;
        assert(uv == 0) by (nonlinear_arith)
            requires
                v1 == 0 && v2 == 0 && v3 == 0,
                uv == u1 * v1 + u2 * v2 + u3 * v3,
        ;
        assert(p * q == 0) by (nonlinear_arith)
            requires
                q == 0,
        ;
    } else {
        let k = p * q;
        lemma_square_cross(u1, v1, p, q);
        lemma_square_cross(u2, v2, p, q);
        lemma_square_cross(u3, v3, p, q);
        let pp = p * p;
        let qq = q * q;
        assert(qq * (u1 * u1) + qq * (u2 * u2) + qq * (u3 * u3) == qq * uu) by (nonlinear_arith)
            requires
                uu == u1 * u1 + u2 * u2 + u3 * u3,
        ;
        assert(pp * (v1 * v1) + pp * (v2 * v2) + pp * (v3 * v3) == pp * vv) by (nonlinear_arith)
            requires
                vv == v1 * v1 + v2 * v2 + v3 * v3,
        ;
        assert(k * (u1 * v1) + k * (u2 * v2) + k * (u3 * v3) == k * uv) by (nonlinear_arith)
            requires
                uv == u1 * v1 + u2 * v2 + u3 * v3,
        ;
        assert(2 * (k * uv) <= qq * uu + pp * vv);
        assert(qq * uu <= qq * pp) by (nonlinear_arith)
            requires
                uu <= pp,
                qq >= 0,
        ;
        assert(qq >= 0 && pp >= 0) by (nonlinear_arith)
            requires
                qq == q * q,
                pp == p * p,
        ;
        assert(pp * vv <= pp * qq) by (nonlinear_arith)
            requires
                vv <= qq,
                pp >= 0,
        ;
        assert(qq * pp == k * k && pp * qq == k * k) by (nonlinear_arith)
            requires
                qq == q * q,
                pp == p * p,
                k == p * q,
        ;
        assert(k * uv <= k * k);
        assert(k > 0) by (nonlinear_arith)
            requires
                k == p * q,
                p > 0,
                q > 0,
        ;
        assert(uv <= k) by (nonlinear_arith)
            requires
                k > 0,
                k * uv <= k * k,
        ;
    }
}

/// The distance obeys the triangle inequality.
pub proof fn lemma_distance_triangle(a: AStarPoint, b: AStarPoint, c: AStarPoint)
    ensures
        a.distance(c) <= a.distance(b) + b.distance(c),
{
    let u1 = a.x - b.x;
    let u2 = a.y - b.y;
    let u3 = a.z - b.z;
    let v1 = b.x - c.x;
    let v2 = b.y - c.y;
    let v3 = b.z - c.z;
    let p = a.distance(b) as int;
    let q = b.distance(c) as int;
    lemma_ceil_sqrt_exists(a.distance_squared(b));
    lemma_ceil_sqrt_exists(b.distance_squared(c));
    assert(u1 * u1 >= 0 && u2 * u2 >= 0 && u3 * u3 >= 0) by (nonlinear_arith);
    assert(v1 * v1 >= 0 && v2 * v2 >= 0 && v3 * v3 >= 0) by (nonlinear_arith);
    assert(u1 * u1 + u2 * u2 + u3 * u3 <= p * p);
    assert(v1 * v1 + v2 * v2 + v3 * v3 <= q * q);
    lemma_dot_bound(u1, u2, u3, v1, v2, v3, p, q);
    let w1 = a.x - c.x;
    let w2 = a.y - c.y;
    let w3 = a.z - c.z;
    assert(w1 * w1 == u1 * u1 + 2 * (u1 * v1) + v1 * v1) by (nonlinear_arith)
        requires
            w1 == u1 + v1,
    ;
    assert(w2 * w2 == u2 * u2 + 2 * (u2 * v2) + v2 * v2) by (nonlinear_arith)
        requires
            w2 == u2 + v2,
    ;
    assert(w3 * w3 == u3 * u3 + 2 * (u3 * v3) + v3 * v3) by (nonlinear_arith)
        requires
            w3 == u3 + v3,
    ;
    assert((p + q) * (p + q) == p * p + 2 * (p * q) + q * q) by (nonlinear_arith);
    assert(w1 * w1 >= 0 && w2 * w2 >= 0 && w3 * w3 >= 0) by (nonlinear_arith);
    assert(w1 * w1 + w2 * w2 + w3 * w3 <= (p + q) * (p + q));
    assert(a.distance_squared(c) == w1 * w1 + w2 * w2 + w3 * w3);
    lemma_ceil_sqrt_least(a.distance_squared(c), (p + q) as nat);
}

} // verus!
