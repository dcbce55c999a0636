use vstd::prelude::*;

verus! {

/// Largest magnitude allowed for any coordinate of a position or velocity.
pub const COORD_LIMIT: i64 = 4611686018427387904;

/// A 3-vector of integer components (micrometres or micrometres per second).
#[derive(Clone, Copy, Debug, PartialEq, Eq, Structural)]
pub struct Vec3 {
    pub x: i64,
    pub y: i64,
    pub z: i64,
}

/// Truncating division of an integer by a positive divisor (rounds toward zero).
pub open spec fn tdiv(a: int, b: int) -> int
    recommends
        b > 0,
{
    if a >= 0 {
        a / b
    } else {
        -((-a) / b)
    }
}

pub open spec fn in_limit(a: int) -> bool {
    -COORD_LIMIT <= a <= COORD_LIMIT
}

pub open spec fn sq(a: int) -> int {
    a * a
}

/// Floor of the square root: the unique `r >= 0` with `r*r <= n < (r+1)*(r+1)`.
pub open spec fn is_isqrt(n: int, r: int) -> bool {
    0 <= r && r * r <= n < (r + 1) * (r + 1)
}

pub open spec fn isqrt(n: nat) -> nat
    decreases n,
{
    if n == 0 {
        0
    } else {
        let s = isqrt((n - 1) as nat);
        if (s + 1) * (s + 1) <= n {
            (s + 1) as nat
        } else {
            s
        }
    }
}

/// `isqrt` meets its defining bounds.
pub proof fn lemma_isqrt(n: nat)
    ensures
        is_isqrt(n as int, isqrt(n) as int),
    decreases n,
{
    if n > 0 {
        lemma_isqrt((n - 1) as nat);
        let s = isqrt((n - 1) as nat) as int;
        assert((s + 1) * (s + 1) < (s + 2) * (s + 2)) by (nonlinear_arith)
            requires s >= 0;
    }
}

/// The bounds of `is_isqrt` single out `isqrt`.
pub proof fn lemma_isqrt_unique(n: nat, r: int)
    requires
        is_isqrt(n as int, r),
    ensures
        r == isqrt(n),
{
    lemma_isqrt(n);
    let s = isqrt(n) as int;
    if r < s {
        assert((r + 1) * (r + 1) <= s * s) by (nonlinear_arith)
            requires 0 <= r, r + 1 <= s;
    } else if r > s {
        assert((s + 1) * (s + 1) <= r * r) by (nonlinear_arith)
            requires 0 <= s, s + 1 <= r;
    }
}

/// A coordinate is at most the integer square root of the squared norm.
pub proof fn lemma_coord_le_root(a: int, n: int, r: int)
    requires
        is_isqrt(n, r),
        a * a <= n,
    ensures
        -r <= a <= r,
{
    if a > r {
        assert((r + 1) * (r + 1) <= a * a) by (nonlinear_arith)
            requires r >= 0, a >= r + 1;
    }
    if a < -r {
        assert((r + 1) * (r + 1) <= a * a) by (nonlinear_arith)
            requires r >= 0, -a >= r + 1;
    }
}

impl Vec3 {
    pub open spec fn in_range(self) -> bool {
        in_limit(self.x as int) && in_limit(self.y as int) && in_limit(self.z as int)
    }

    /// Squared Euclidean norm.
    pub open spec fn norm2(self) -> int {
        sq(self.x as int) + sq(self.y as int) + sq(self.z as int)
    }

    pub open spec fn dist2(self, o: Vec3) -> int {
        sq(self.x - o.x) + sq(self.y - o.y) + sq(self.z - o.z)
    }

    pub fn new(x: i64, y: i64, z: i64) -> (r: Vec3)
        ensures
            r == (Vec3 { x, y, z }),
    {
        Vec3 { x, y, z }
    }

    pub fn zero() -> (r: Vec3)
        ensures
            r == (Vec3 { x: 0, y: 0, z: 0 }),
    {
        Vec3 { x: 0, y: 0, z: 0 }
    }

    /// Squared distance between two in-range points.
    pub fn distance_squared(&self, o: &Vec3) -> (r: u128)
        requires
            self.in_range(),
            o.in_range(),
        ensures
            r as int == self.dist2(*o),
    {
        let dx = (self.x as i128 - o.x as i128);
        let dy = (self.y as i128 - o.y as i128);
        let dz = (self.z as i128 - o.z as i128);
        let ax: u128 = if dx >= 0 { dx as u128 } else { (-dx) as u128 };
        let ay: u128 = if dy >= 0 { dy as u128 } else { (-dy) as u128 };
        let az: u128 = if dz >= 0 { dz as u128 } else { (-dz) as u128 };
        proof {
            lemma_sq_bound(ax as int);
            lemma_sq_bound(ay as int);
            lemma_sq_bound(az as int);
            assert(sq(ax as int) == sq(dx as int)) by (nonlinear_arith)
                requires ax as int == dx || ax as int == -dx;
            assert(sq(ay as int) == sq(dy as int)) by (nonlinear_arith)
                requires ay as int == dy || ay as int == -dy;
            assert(sq(az as int) == sq(dz as int)) by (nonlinear_arith)
                requires az as int == dz || az as int == -dz;
        }
        ax * ax + ay * ay + az * az
    }

    /// Squared norm of an in-range vector.
    pub fn length_squared(&self) -> (r: u128)
        requires
            self.in_range(),
        ensures
            r as int == self.norm2(),
    {
        let z = Vec3::zero();
        let r = self.distance_squared(&z);
        assert(self.dist2(z) == self.norm2());
        r
    }
}

/// A magnitude of at most twice the coordinate limit squares to less than 2^126.
pub proof fn lemma_sq_bound(a: int)
    requires
        0 <= a <= 2 * COORD_LIMIT,
    ensures
        0 <= sq(a) <= 0x4000_0000_0000_0000_0000_0000_0000_0000,
{
    assert(0 <= a * a <= 0x8000_0000_0000_0000 * 0x8000_0000_0000_0000) by (nonlinear_arith)
        requires 0 <= a <= 0x8000_0000_0000_0000;
}

/// Integer square root, rounded down.
pub fn isqrt_u128(n: u128) -> (r: u64)
    ensures
        is_isqrt(n as int, r as int),
{
    // invariant: lo*lo <= n < hi*hi
    let mut lo: u128 = 0;
    let mut hi: u128 = 0x1_0000_0000_0000_0000;
    assert(n < hi * hi) by (nonlinear_arith)
        requires hi == 0x1_0000_0000_0000_0000u128, n <= u128::MAX;
    while hi - lo > 1
        invariant
            lo < hi <= 0x1_0000_0000_0000_0000,
            lo * lo <= n,
            n < hi * hi,
        decreases hi - lo,
    {
        let mid: u128 = lo + (hi - lo) / 2;
        assert(mid * mid <= 0xffff_ffff_ffff_ffff_ffff_ffff_ffff_ffff) by (nonlinear_arith)
            requires mid < 0x1_0000_0000_0000_0000u128;
        if mid * mid <= n {
            lo = mid;
        } else {
            hi = mid;
        }
    }
    assert(hi == lo + 1);
    lo as u64
}

} // verus!
