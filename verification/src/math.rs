//! Integer vector algebra and the arithmetic helpers the intersection
//! routines are built on: exact floor/ceiling division and an integer
//! square root, plus the uniform random sources the scene code consumes.
//!
//! All geometry in this crate lives on an integer lattice.  Shape
//! parameters are bounded by [`COORD_MAX`], ray origins by [`ORIGIN_MAX`],
//! ray directions by [`DIR_MAX`]; these bounds keep every intermediate
//! product of the intersection arithmetic inside `i128`.

use vstd::prelude::*;

verus! {

use vstd::arithmetic::div_mod::lemma_fundamental_div_mod;
use vstd::arithmetic::div_mod::lemma_mod_bound;

/// Largest magnitude allowed for a shape parameter (corner, center,
/// radius, plane offset, translation offset, time stamp).
pub const COORD_MAX: i64 = 16777216;

/// Largest magnitude allowed for a ray origin component.  Origins may
/// wander beyond `COORD_MAX` because the rigid-transform shapes re-express
/// rays in a child's local frame.
pub const ORIGIN_MAX: i64 = 4294967296;

/// Largest magnitude allowed for a ray direction component.
pub const DIR_MAX: i64 = 67108864;

/// Largest magnitude allowed for the ends of a query interval `[t_min, t_max]`.
pub const T_QUERY_MAX: i64 = 134217728;

/// Interval end that stands in for "unbounded" when a shape needs the
/// nearest boundary hit over the whole ray.
pub const T_OPEN: i64 = 67108864;

/// Scale of the fractional draws used by the participating medium:
/// probabilities are integers in `[0, FRACTION_ONE)`.
pub const FRACTION_ONE: u32 = 65536;

pub open spec fn bounded(x: int, b: int) -> bool {
    -b <= x <= b
}

/// A 3-component integer vector, used interchangeably as a point, a
/// direction, and a color.
#[derive(Clone, Copy, PartialEq, Eq, Structural, Debug)]
pub struct Vector3 {
    pub x: i64,
    pub y: i64,
    pub z: i64,
}

pub open spec fn vec_bounded(v: Vector3, b: int) -> bool {
    bounded(v.x as int, b) && bounded(v.y as int, b) && bounded(v.z as int, b)
}

/// Mathematical dot product of two vectors.
pub open spec fn dot_spec(u: Vector3, v: Vector3) -> int {
    u.x * v.x + u.y * v.y + u.z * v.z
}

impl Vector3 {
    pub fn new(x: i64, y: i64, z: i64) -> (v: Vector3)
        ensures
            v == (Vector3 { x, y, z }),
    {
        Vector3 { x, y, z }
    }

    pub fn zero() -> (v: Vector3)
        ensures
            v == (Vector3 { x: 0i64, y: 0i64, z: 0i64 }),
    {
        Vector3 { x: 0, y: 0, z: 0 }
    }

    pub fn as_array(&self) -> (a: [i64; 3])
        ensures
            a[0] == self.x,
            a[1] == self.y,
            a[2] == self.z,
    {
        [self.x, self.y, self.z]
    }

    /// Component along the given axis: 0 is x, 1 is y, anything else z.
    pub fn axis(&self, n: u8) -> (r: i64)
        ensures
            r == axis_spec(*self, n),
    {
        if n == 0 {
            self.x
        } else if n == 1 {
            self.y
        } else {
            self.z
        }
    }

    pub fn add(self, rhs: Vector3) -> (r: Vector3)
        requires
            bounded(self.x + rhs.x, i64::MAX as int),
            bounded(self.y + rhs.y, i64::MAX as int),
            bounded(self.z + rhs.z, i64::MAX as int),
        ensures
            r.x == self.x + rhs.x,
            r.y == self.y + rhs.y,
            r.z == self.z + rhs.z,
    {
        Vector3 { x: self.x + rhs.x, y: self.y + rhs.y, z: self.z + rhs.z }
    }

    pub fn sub(self, rhs: Vector3) -> (r: Vector3)
        requires
            bounded(self.x - rhs.x, i64::MAX as int),
            bounded(self.y - rhs.y, i64::MAX as int),
            bounded(self.z - rhs.z, i64::MAX as int),
        ensures
            r.x == self.x - rhs.x,
            r.y == self.y - rhs.y,
            r.z == self.z - rhs.z,
    {
        Vector3 { x: self.x - rhs.x, y: self.y - rhs.y, z: self.z - rhs.z }
    }

    pub fn neg(self) -> (r: Vector3)
        requires
            self.x > i64::MIN,
            self.y > i64::MIN,
            self.z > i64::MIN,
        ensures
            r.x == -self.x,
            r.y == -self.y,
            r.z == -self.z,
    {
        Vector3 { x: -self.x, y: -self.y, z: -self.z }
    }

    /// Dot product, computed in `i128` so that any bounded arguments fit.
    pub fn dot(u: &Vector3, v: &Vector3) -> (r: i128)
        requires
            vec_bounded(*u, 0x100000000000000i64 as int),
            vec_bounded(*v, 0x100000000000000i64 as int),
        ensures
            r == dot_spec(*u, *v),
            bounded(r as int, 0x30000000000000000000000000000i128 as int),
    {
        proof {
            lemma_mul_bound(u.x as int, v.x as int, 0x100000000000000);
            lemma_mul_bound(u.y as int, v.y as int, 0x100000000000000);
            lemma_mul_bound(u.z as int, v.z as int, 0x100000000000000);
        }
        (u.x as i128) * (v.x as i128) + (u.y as i128) * (v.y as i128) + (u.z as i128) * (v.z
            as i128)
    }

    pub fn length_squared(&self) -> (r: i128)
        requires
            vec_bounded(*self, 0x100000000000000i64 as int),
        ensures
            r == dot_spec(*self, *self),
            r >= 0,
            bounded(r as int, 0x30000000000000000000000000000i128 as int),
    {
        let r = Self::dot(self, self);
        proof {
            lemma_square_nonneg(self.x as int);
            lemma_square_nonneg(self.y as int);
            lemma_square_nonneg(self.z as int);
        }
        r
    }

    /// Euclidean length, rounded down to an integer.
    pub fn length(&self) -> (r: i64)
        requires
            vec_bounded(*self, 0x100000000000000i64 as int),
        ensures
            0 <= r,
            r * r <= dot_spec(*self, *self) < (r + 1) * (r + 1),
    {
        let sq = self.length_squared();
        let s = isqrt(sq as u128);
        proof {
            assert(s * s <= sq < (s + 1) * (s + 1));
        }
        s as i64
    }

    pub fn cross(u: &Vector3, v: &Vector3) -> (r: Vector3)
        requires
            vec_bounded(*u, 0x40000000 as int),
            vec_bounded(*v, 0x40000000 as int),
        ensures
            r.x == u.y * v.z - u.z * v.y,
            r.y == u.z * v.x - u.x * v.z,
            r.z == u.x * v.y - u.y * v.x,
    {
        proof {
            lemma_mul_bound(u.y as int, v.z as int, 0x40000000);
            lemma_mul_bound(u.z as int, v.y as int, 0x40000000);
            lemma_mul_bound(u.z as int, v.x as int, 0x40000000);
            lemma_mul_bound(u.x as int, v.z as int, 0x40000000);
            lemma_mul_bound(u.x as int, v.y as int, 0x40000000);
            lemma_mul_bound(u.y as int, v.x as int, 0x40000000);
        }
        let rx = (u.y as i128) * (v.z as i128) - (u.z as i128) * (v.y as i128);
        let ry = (u.z as i128) * (v.x as i128) - (u.x as i128) * (v.z as i128);
        let rz = (u.x as i128) * (v.y as i128) - (u.y as i128) * (v.x as i128);
        Vector3 { x: rx as i64, y: ry as i64, z: rz as i64 }
    }

    /// On the lattice a vector is "near zero" exactly when it is zero.
    pub fn near_zero(&self) -> (r: bool)
        ensures
            r == (self.x == 0 && self.y == 0 && self.z == 0),
    {
        self.x == 0 && self.y == 0 && self.z == 0
    }
}

pub open spec fn axis_spec(v: Vector3, n: u8) -> int {
    if n == 0 {
        v.x as int
    } else if n == 1 {
        v.y as int
    } else {
        v.z as int
    }
}

pub proof fn lemma_square_nonneg(x: int)
    by (nonlinear_arith)
    ensures
        x * x >= 0,
{
}

pub proof fn lemma_mul_bound(x: int, y: int, b: int)
    by (nonlinear_arith)
    requires
        0 <= b,
        -b <= x <= b,
        -b <= y <= b,
    ensures
        -(b * b) <= x * y <= b * b,
{
}

/// Asymmetric product bound: `|x| <= bx` and `|y| <= by` give
/// `|x * y| <= bx * by`.
pub proof fn lemma_mul_bound2(x: int, y: int, bx: int, by: int)
    by (nonlinear_arith)
    requires
        0 <= bx,
        0 <= by,
        -bx <= x <= bx,
        -by <= y <= by,
    ensures
        -(bx * by) <= x * y <= bx * by,
{
}

/// Multiplying by a positive `d` preserves order, strictly so for `x < y`.
pub proof fn lemma_mul_mono(x: int, y: int, d: int)
    by (nonlinear_arith)
    requires
        0 < d,
    ensures
        x <= y ==> x * d <= y * d,
        x < y ==> x * d + d <= y * d,
{
}

/// Floor division by a positive divisor, characterised by
/// `q * d <= n < (q + 1) * d`.
pub fn div_floor(n: i128, d: i128) -> (q: i128)
    requires
        1 <= d,
        -0x40000000000000000000000000000000i128 < n < 0x40000000000000000000000000000000i128,
        d < 0x40000000000000000000000000000000i128,
    ensures
        q * d <= n < (q + 1) * d,
        n >= 0 ==> 0 <= q <= n,
        n < 0 ==> n <= q <= 0,
{
    if n >= 0 {
        let q = (n as u128) / (d as u128);
        proof {
            lemma_u128_div_mod(n as u128, d as u128);
            assert(q <= n) by (nonlinear_arith)
                requires
                    q * (d as int) <= n,
                    d >= 1,
                    q >= 0,
            ;
        }
        q as i128
    } else {
        let m = (-n) as u128;
        let du = d as u128;
        let q0 = m / du;
        let r0 = m % du;
        proof {
            lemma_u128_div_mod(m, du);
        }
        if r0 == 0 {
            let q = -(q0 as i128);
            proof {
                assert(q * d <= n < (q + 1) * d && n <= q <= 0) by (nonlinear_arith)
                    requires
                        (q0 as int) * (du as int) <= m < (q0 as int + 1) * (du as int),
                        m == (q0 as int) * (du as int),
                        n == -(m as int),
                        q == -(q0 as int),
                        d == du as int,
                        d >= 1,
                        n < 0,
                ;
            }
            q
        } else {
            let q = -(q0 as i128) - 1;
            proof {
                assert(q * d <= n < (q + 1) * d && n <= q <= 0) by (nonlinear_arith)
                    requires
                        m == (q0 as int) * (du as int) + r0,
                        0 < r0 < du,
                        n == -(m as int),
                        q == -(q0 as int) - 1,
                        d == du as int,
                        d >= 1,
                        n < 0,
                ;
            }
            q
        }
    }
}

/// Ceiling division by a positive divisor, characterised by
/// `(q - 1) * d < n <= q * d`.
pub fn div_ceil(n: i128, d: i128) -> (q: i128)
    requires
        1 <= d,
        -0x40000000000000000000000000000000i128 < n < 0x40000000000000000000000000000000i128,
        d < 0x40000000000000000000000000000000i128,
    ensures
        (q - 1) * d < n <= q * d,
        n > 0 ==> 0 <= q <= n,
        n <= 0 ==> n <= q <= 0,
{
    let f = div_floor(-n, d);
    proof {
        assert((-f - 1) * d < n <= (-f) * d) by (nonlinear_arith)
            requires
                f * d <= -n < (f + 1) * d,
        ;
    }
    -f
}

proof fn lemma_u128_div_mod(n: u128, d: u128)
    requires
        d >= 1,
    ensures
        n == (n / d) * d + (n % d),
        (n % d) < d,
        (n / d) * d <= n < (n / d + 1) * d,
{
    lemma_fundamental_div_mod(n as int, d as int);
    lemma_mod_bound(n as int, d as int);
    assert(n == (n / d) * d + (n % d) && (n / d) * d <= n < (n / d + 1) * d)
        by (nonlinear_arith)
        requires
            n as int == (d as int) * ((n as int) / (d as int)) + ((n as int) % (d as int)),
            0 <= (n as int) % (d as int) < d as int,
            (n / d) as int == (n as int) / (d as int),
            (n % d) as int == (n as int) % (d as int),
            d >= 1,
    ;
}

/// Integer square root: the unique `s` with `s * s <= n < (s + 1) * (s + 1)`.
pub fn isqrt(n: u128) -> (s: u128)
    requires
        n < 0x40000000000000000000000000000000u128,
    ensures
        s * s <= n < (s + 1) * (s + 1),
        s < 0x8000000000000000u128,
{
    let mut lo: u128 = 0;
    let mut hi: u128 = 0x8000000000000000;
    proof {
        assert(hi * hi == 0x40000000000000000000000000000000u128) by (nonlinear_arith)
            requires
                hi == 0x8000000000000000u128,
        ;
    }
    while lo + 1 < hi
        invariant
            lo < hi <= 0x8000000000000000u128,
            lo * lo <= n,
            n < hi * hi,
        decreases hi - lo,
    {
        let mid = lo + (hi - lo) / 2;
        proof {
            lemma_mul_bound(mid as int, mid as int, 0x8000000000000000);
            lemma_mul_mono(mid as int, hi as int, hi as int);
        }
        if mid * mid <= n {
            lo = mid;
        } else {
            hi = mid;
        }
    }
    proof {
        assert(hi == lo + 1);
    }
    lo
}

/// Relies on `rand::Rng::gen_range` over `rand::thread_rng`: a uniform
/// integer in the inclusive range `[min, max]`.
#[verifier::external_body]
fn rand_range_inclusive(min: i32, max: i32) -> (r: i32)
    requires
        min <= max,
    ensures
        min <= r <= max,
{
    let mut rng = rand::thread_rng();
    rand::Rng::gen_range(&mut rng, min..=max)
}

/// A uniform integer in the inclusive range `[min, max]`.
pub fn random_int_range(min: i32, max: i32) -> (r: i32)
    requires
        min <= max,
    ensures
        min <= r <= max,
{
    rand_range_inclusive(min, max)
}

/// Relies on `rand::Rng::gen_range` over `rand::thread_rng`: a uniform
/// fraction drawn as an integer in `[0, FRACTION_ONE)`.
#[verifier::external_body]
pub fn random_fraction() -> (r: u32)
    ensures
        r < FRACTION_ONE,
{
    let mut rng = rand::thread_rng();
    rand::Rng::gen_range(&mut rng, 0..FRACTION_ONE)
}

} // verus!
