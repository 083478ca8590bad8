//! The closed family of scene primitives and their ray queries: spheres
//! (static and moving), axis-aligned rectangles and boxes, rigid
//! transforms, a homogeneous participating medium, and the
//! bounding-volume-hierarchy node, each answering `hit` and
//! `bounding_box`.
//!
//! Geometry is exact on the integer lattice: a shape is hit at the
//! integer ray parameters whose ray point lies on (or, for solids, in)
//! the shape, and `hit` reports the nearest such parameter in
//! `(t_min, t_max]`.

use vstd::prelude::*;

verus! {

use crate::math::{Vector3, bounded, vec_bounded, dot_spec, div_floor, div_ceil, isqrt,
    lemma_mul_mono, lemma_mul_bound, lemma_mul_bound2, lemma_square_nonneg};
use crate::math::{COORD_MAX, ORIGIN_MAX, DIR_MAX, T_QUERY_MAX};
use crate::ray::{Ray, ray_wf, ray_x, ray_y, ray_z, point_on};
use crate::aabb::Aabb;
use crate::aabb::aabb_wf;
use vstd::arithmetic::div_mod::lemma_fundamental_div_mod_converse;
use vstd::multiset::Multiset;

/// Opaque key into the host program's material table; the default value
/// means "no material assigned".
#[derive(Clone, Copy, PartialEq, Eq, Structural, Debug)]
pub struct MaterialHandle(pub u64);

impl Default for MaterialHandle {
    fn default() -> (r: MaterialHandle)
        ensures
            r == MaterialHandle(0u64),
    {
        MaterialHandle(0)
    }
}

/// Result of a successful intersection: the hit point, the oriented
/// surface normal, the ray parameter, which side the ray came from, and
/// the material of the surface.
/// Surface texture coordinates are fractions scaled by `FRACTION_ONE`:
/// the rectangles set them exactly; the sphere's need `acos`/`atan2`,
/// which the lattice cannot hold, so spheres report zero and the host
/// derives them from the normal.
#[derive(Clone, Copy, PartialEq, Eq, Structural, Debug)]
pub struct HitRecord {
    pub point: Vector3,
    pub normal: Vector3,
    pub t: i64,
    pub front_face: bool,
    pub mat_handle: MaterialHandle,
    pub u: i64,
    pub v: i64,
}

/// The oriented normal a record carries once `set_face_normal` ran with
/// geometric (outward) normal `outward`: flipped against the ray.
pub open spec fn oriented_normal(direction: Vector3, outward: Vector3) -> Vector3 {
    if dot_spec(direction, outward) < 0 {
        outward
    } else {
        Vector3 { x: (-(outward.x as int)) as i64, y: (-(outward.y as int)) as i64, z: (-(
        outward.z as int)) as i64 }
    }
}

impl HitRecord {
    /// A blank record: everything zeroed, no material.
    pub fn new() -> (r: HitRecord)
        ensures
            r == (HitRecord {
                point: Vector3 { x: 0i64, y: 0i64, z: 0i64 },
                normal: Vector3 { x: 0i64, y: 0i64, z: 0i64 },
                t: 0i64,
                front_face: false,
                mat_handle: MaterialHandle(0u64),
                u: 0i64,
                v: 0i64,
            }),
    {
        HitRecord {
            point: Vector3 { x: 0, y: 0, z: 0 },
            normal: Vector3 { x: 0, y: 0, z: 0 },
            t: 0,
            front_face: false,
            mat_handle: MaterialHandle(0),
            u: 0,
            v: 0,
        }
    }

    /// Store `outward_normal` oriented against the incoming ray:
    /// `front_face` records whether the geometric normal already pointed
    /// toward the ray origin.
    pub fn set_face_normal(&mut self, ray: &Ray, outward_normal: &Vector3)
        requires
            vec_bounded(ray.direction, 0x100000000000000i64 as int),
            vec_bounded(*outward_normal, 0x100000000000000i64 as int),
        ensures
            final(self).front_face == (dot_spec(ray.direction, *outward_normal) < 0),
            final(self).normal == oriented_normal(ray.direction, *outward_normal),
            final(self).point == old(self).point,
            final(self).t == old(self).t,
            final(self).mat_handle == old(self).mat_handle,
            final(self).u == old(self).u,
            final(self).v == old(self).v,
    {
        let d = Vector3::dot(&ray.direction, outward_normal);
        self.front_face = d < 0;
        self.normal = if self.front_face {
            *outward_normal
        } else {
            Vector3 { x: -outward_normal.x, y: -outward_normal.y, z: -outward_normal.z }
        };
    }
}

/// The closed set of primitive kinds.  `BvhNode` children exclusively
/// own their subtrees; the transform and medium wrappers exclusively own
/// one child each.
pub enum Hittable {
    Sphere { mat_handle: MaterialHandle, center: Vector3, radius: i64 },
    MovingSphere {
        mat_handle: MaterialHandle,
        center_0: Vector3,
        center_1: Vector3,
        time_0: i64,
        time_1: i64,
        radius: i64,
    },
    BvhNode { left: Box<Hittable>, right: Box<Hittable>, aabb_box: Aabb },
    XYRect { mat_handle: MaterialHandle, x0: i64, x1: i64, y0: i64, y1: i64, k: i64 },
    XZRect { mat_handle: MaterialHandle, x0: i64, x1: i64, z0: i64, z1: i64, k: i64 },
    YZRect { mat_handle: MaterialHandle, y0: i64, y1: i64, z0: i64, z1: i64, k: i64 },
    BoxShape { mat_handle: MaterialHandle, min: Vector3, max: Vector3 },
    Translate { offset: Vector3, ptr: Box<Hittable> },
    RotateY {
        sin_num: i64,
        cos_num: i64,
        denom: i64,
        has_box: bool,
        bbox: Aabb,
        ptr: Box<Hittable>,
    },
    /// Homogeneous medium: the ray survives each unit step of the ray
    /// parameter inside the boundary with probability
    /// `survive_per_step / FRACTION_ONE`.  Density is per parameter
    /// step, not per physical path length: a caller that wants a
    /// per-distance density folds the direction length into
    /// `survive_per_step` when building the medium.
    ConstantMedium {
        phase_function: MaterialHandle,
        boundary: Box<Hittable>,
        survive_per_step: u32,
    },
}

/// Parameter bounds under which every query is overflow-free.
pub open spec fn hittable_wf(h: Hittable) -> bool
    decreases h,
{
    match h {
        Hittable::Sphere { center, radius, .. } => vec_bounded(center, COORD_MAX as int) && 1
            <= radius <= COORD_MAX,
        Hittable::MovingSphere { center_0, center_1, time_0, time_1, radius, .. } => {
            &&& vec_bounded(center_0, COORD_MAX as int)
            &&& vec_bounded(center_1, COORD_MAX as int)
            &&& bounded(time_0 as int, COORD_MAX as int)
            &&& bounded(time_1 as int, COORD_MAX as int)
            &&& time_0 != time_1
            &&& 1 <= radius <= COORD_MAX
        },
        Hittable::BvhNode { left, right, aabb_box } => hittable_wf(*left) && hittable_wf(*right)
            && aabb_wf(aabb_box),
        Hittable::XYRect { x0, x1, y0, y1, k, .. } => x0 <= x1 && y0 <= y1 && bounded(
            x0 as int,
            COORD_MAX as int,
        ) && bounded(x1 as int, COORD_MAX as int) && bounded(y0 as int, COORD_MAX as int)
            && bounded(y1 as int, COORD_MAX as int) && bounded(k as int, COORD_MAX as int),
        Hittable::XZRect { x0, x1, z0, z1, k, .. } => x0 <= x1 && z0 <= z1 && bounded(
            x0 as int,
            COORD_MAX as int,
        ) && bounded(x1 as int, COORD_MAX as int) && bounded(z0 as int, COORD_MAX as int)
            && bounded(z1 as int, COORD_MAX as int) && bounded(k as int, COORD_MAX as int),
        Hittable::YZRect { y0, y1, z0, z1, k, .. } => y0 <= y1 && z0 <= z1 && bounded(
            y0 as int,
            COORD_MAX as int,
        ) && bounded(y1 as int, COORD_MAX as int) && bounded(z0 as int, COORD_MAX as int)
            && bounded(z1 as int, COORD_MAX as int) && bounded(k as int, COORD_MAX as int),
        Hittable::BoxShape { min, max, .. } => min.x <= max.x && min.y <= max.y && min.z
            <= max.z && vec_bounded(min, COORD_MAX as int) && vec_bounded(max, COORD_MAX as int),
        Hittable::Translate { offset, ptr } => vec_bounded(offset, COORD_MAX as int)
            && hittable_wf(*ptr),
        Hittable::RotateY { sin_num, cos_num, denom, bbox, ptr, .. } => {
            &&& 1 <= denom <= 65536
            &&& sin_num * sin_num + cos_num * cos_num <= denom * denom
            &&& aabb_wf(bbox)
            &&& hittable_wf(*ptr)
        },
        Hittable::ConstantMedium { boundary, survive_per_step, .. } => survive_per_step
            < crate::math::FRACTION_ONE && hittable_wf(*boundary),
    }
}

/// A query on a deterministic primitive is a pure function of the ray;
/// only the participating medium samples randomness at query time.
pub open spec fn deterministic(h: Hittable) -> bool
    decreases h,
{
    match h {
        Hittable::BvhNode { left, right, .. } => deterministic(*left) && deterministic(*right),
        Hittable::Translate { ptr, .. } => deterministic(*ptr),
        Hittable::RotateY { ptr, .. } => deterministic(*ptr),
        Hittable::ConstantMedium { .. } => false,
        _ => true,
    }
}

/// The primitives at the leaves of a BVH subtree, left to right; a
/// non-node primitive is its own single leaf.
pub open spec fn leaf_seq(h: Hittable) -> Seq<Hittable>
    decreases h,
{
    match h {
        Hittable::BvhNode { left, right, .. } => leaf_seq(*left) + leaf_seq(*right),
        _ => seq![h],
    }
}

/// A sequence element is in the whole exactly when it is in one of the
/// two halves split at `mid`.
proof fn lemma_subrange_split_contains(s: Seq<Hittable>, mid: int, x: Hittable)
    requires
        0 <= mid <= s.len(),
    ensures
        s.contains(x) <==> (s.subrange(0, mid).contains(x) || s.subrange(
            mid,
            s.len() as int,
        ).contains(x)),
{
    let a = s.subrange(0, mid);
    let b = s.subrange(mid, s.len() as int);
    if s.contains(x) {
        let i = choose|i: int| 0 <= i < s.len() && s[i] == x;
        if i < mid {
            assert(a[i] == x);
        } else {
            assert(b[i - mid] == x);
        }
    }
    if a.contains(x) {
        let i = choose|i: int| 0 <= i < a.len() && a[i] == x;
        assert(s[i] == x);
    }
    if b.contains(x) {
        let i = choose|i: int| 0 <= i < b.len() && b[i] == x;
        assert(s[i + mid] == x);
    }
}

// ---------------------------------------------------------------------
// Sphere intersection.
//
// A sphere is hit at the integer parameters whose ray point lies in the
// closed ball; `hit` returns the least such parameter in (t_min, t_max].
// ---------------------------------------------------------------------

/// The ray's point at parameter `t` lies in the closed ball around
/// `center` with radius `radius`.
pub open spec fn in_ball(center: Vector3, radius: i64, r: Ray, t: int) -> bool {
    (ray_x(r, t) - center.x) * (ray_x(r, t) - center.x) + (ray_y(r, t) - center.y) * (ray_y(
        r,
        t,
    ) - center.y) + (ray_z(r, t) - center.z) * (ray_z(r, t) - center.z) <= radius * radius
}

/// The least parameter in `[t, t_max]` that lands in the ball, if any.
pub open spec fn first_ball_t(center: Vector3, radius: i64, r: Ray, t: int, t_max: int) -> Option<
    int,
>
    decreases t_max + 1 - t,
{
    if t > t_max {
        None
    } else if in_ball(center, radius, r, t) {
        Some(t)
    } else {
        first_ball_t(center, radius, r, t + 1, t_max)
    }
}

/// If `u` is a ball parameter and nothing before it is, the scan finds `u`.
pub proof fn lemma_first_ball_some(center: Vector3, radius: i64, r: Ray, t0: int, t_max: int, u: int)
    requires
        t0 <= u <= t_max,
        in_ball(center, radius, r, u),
        forall|v: int| t0 <= v < u ==> !#[trigger] in_ball(center, radius, r, v),
    ensures
        first_ball_t(center, radius, r, t0, t_max) == Some(u),
    decreases u - t0,
{
    if t0 == u {
    } else {
        assert(!in_ball(center, radius, r, t0));
        lemma_first_ball_some(center, radius, r, t0 + 1, t_max, u);
    }
}

/// If no parameter of `[t0, t_max]` lands in the ball, the scan is empty.
pub proof fn lemma_first_ball_none(center: Vector3, radius: i64, r: Ray, t0: int, t_max: int)
    requires
        forall|v: int| t0 <= v <= t_max ==> !#[trigger] in_ball(center, radius, r, v),
    ensures
        first_ball_t(center, radius, r, t0, t_max) is None,
    decreases t_max + 1 - t0,
{
    if t0 <= t_max {
        assert(!in_ball(center, radius, r, t0));
        lemma_first_ball_none(center, radius, r, t0 + 1, t_max);
    }
}

/// One axis of the squared distance, expanded in `t`.
proof fn lemma_sq_expand(o: i64, d: i64, c: i64, t: int)
    by (nonlinear_arith)
    ensures
        (o + t * d - c) * (o + t * d - c) == (o - c) * (o - c) + 2 * (t * ((o - c) * d)) + (t
            * t) * (d * d),
{
}

/// Ball membership at `t` is the sign of the ray/sphere quadratic
/// `a * t^2 + 2 * half_b * t + cc`.
pub proof fn lemma_ball_quadratic(center: Vector3, radius: i64, r: Ray, a: int, hb: int, cc: int,
    t: int)
    requires
        a == dot_spec(r.direction, r.direction),
        hb == (r.origin.x - center.x) * r.direction.x + (r.origin.y - center.y) * r.direction.y
            + (r.origin.z - center.z) * r.direction.z,
        cc == (r.origin.x - center.x) * (r.origin.x - center.x) + (r.origin.y - center.y) * (
        r.origin.y - center.y) + (r.origin.z - center.z) * (r.origin.z - center.z) - radius
            * radius,
    ensures
        in_ball(center, radius, r, t) <==> a * (t * t) + 2 * hb * t + cc <= 0,
{
    lemma_sq_expand(r.origin.x, r.direction.x, center.x, t);
    lemma_sq_expand(r.origin.y, r.direction.y, center.y, t);
    lemma_sq_expand(r.origin.z, r.direction.z, center.z, t);
    assert(t * ((r.origin.x - center.x) * r.direction.x) + t * ((r.origin.y - center.y)
        * r.direction.y) + t * ((r.origin.z - center.z) * r.direction.z) == t * hb)
        by (nonlinear_arith)
        requires
            hb == (r.origin.x - center.x) * r.direction.x + (r.origin.y - center.y)
                * r.direction.y + (r.origin.z - center.z) * r.direction.z,
    ;
    assert((t * t) * (r.direction.x * r.direction.x) + (t * t) * (r.direction.y * r.direction.y)
        + (t * t) * (r.direction.z * r.direction.z) == (t * t) * a) by (nonlinear_arith)
        requires
            a == r.direction.x * r.direction.x + r.direction.y * r.direction.y + r.direction.z
                * r.direction.z,
    ;
    assert(a * (t * t) == (t * t) * a) by (nonlinear_arith);
    assert(2 * hb * t == 2 * (t * hb)) by (nonlinear_arith);
}

/// Membership in the ball is membership in the integer root interval
/// `[lo, hi]` of the ray/sphere quadratic.
pub proof fn lemma_ball_interval(center: Vector3, radius: i64, r: Ray, a: int, hb: int, cc: int,
    disc: int, s: int, lo: int, hi: int, t: int)
    requires
        a == dot_spec(r.direction, r.direction),
        a >= 1,
        hb == (r.origin.x - center.x) * r.direction.x + (r.origin.y - center.y) * r.direction.y
            + (r.origin.z - center.z) * r.direction.z,
        cc == (r.origin.x - center.x) * (r.origin.x - center.x) + (r.origin.y - center.y) * (
        r.origin.y - center.y) + (r.origin.z - center.z) * (r.origin.z - center.z) - radius
            * radius,
        disc == hb * hb - a * cc,
        disc >= 0,
        s >= 0,
        s * s <= disc < (s + 1) * (s + 1),
        (lo - 1) * a < -hb - s <= lo * a,
        hi * a <= -hb + s < (hi + 1) * a,
    ensures
        in_ball(center, radius, r, t) <==> (lo <= t <= hi),
{
    lemma_ball_quadratic(center, radius, r, a, hb, cc, t);
    let f = a * (t * t) + 2 * hb * t + cc;
    let v = a * t + hb;
    assert(a * f == v * v - disc) by (nonlinear_arith)
        requires
            v == a * t + hb,
            disc == hb * hb - a * cc,
            f == a * (t * t) + 2 * hb * t + cc,
    ;
    assert((f <= 0) <==> (v * v <= disc)) by (nonlinear_arith)
        requires
            a >= 1,
            a * f == v * v - disc,
    ;
    assert((v * v <= disc) <==> (-s <= v <= s)) by (nonlinear_arith)
        requires
            s >= 0,
            s * s <= disc < (s + 1) * (s + 1),
    ;
    lemma_mul_mono(lo, t, a);
    lemma_mul_mono(t, hi, a);
    lemma_mul_mono(t, lo - 1, a);
    lemma_mul_mono(hi + 1, t, a);
}

/// A negative discriminant leaves the whole ray outside the ball.
pub proof fn lemma_ball_empty(center: Vector3, radius: i64, r: Ray, a: int, hb: int, cc: int,
    t: int)
    requires
        a == dot_spec(r.direction, r.direction),
        a >= 1,
        hb == (r.origin.x - center.x) * r.direction.x + (r.origin.y - center.y) * r.direction.y
            + (r.origin.z - center.z) * r.direction.z,
        cc == (r.origin.x - center.x) * (r.origin.x - center.x) + (r.origin.y - center.y) * (
        r.origin.y - center.y) + (r.origin.z - center.z) * (r.origin.z - center.z) - radius
            * radius,
        hb * hb - a * cc < 0,
    ensures
        !in_ball(center, radius, r, t),
{
    lemma_ball_quadratic(center, radius, r, a, hb, cc, t);
    let f = a * (t * t) + 2 * hb * t + cc;
    let v = a * t + hb;
    assert(a * f == v * v - (hb * hb - a * cc)) by (nonlinear_arith)
        requires
            v == a * t + hb,
            f == a * (t * t) + 2 * hb * t + cc,
    ;
    assert(!(f <= 0)) by (nonlinear_arith)
        requires
            a >= 1,
            a * f == v * v - (hb * hb - a * cc),
            hb * hb - a * cc < 0,
    ;
}

/// Texture fraction of `w` within `[w0, w1]`, scaled by `FRACTION_ONE`
/// and floor-rounded; a degenerate extent reports zero.
pub open spec fn tex_frac(w: int, w0: i64, w1: i64) -> int {
    if w0 < w1 {
        ((w - w0) * (crate::math::FRACTION_ONE as int)) / (w1 - w0)
    } else {
        0
    }
}

/// The record a sphere hit at parameter `t` produces: the ray point, the
/// outward radial vector `p - center` oriented against the ray (the
/// lattice holds no unit vectors, so the normal is unnormalized), and
/// the sphere's material.
pub open spec fn sphere_record(mat_handle: MaterialHandle, center: Vector3, radius: i64, r: Ray,
    t: int) -> HitRecord {
    let p = Vector3 {
        x: ray_x(r, t) as i64,
        y: ray_y(r, t) as i64,
        z: ray_z(r, t) as i64,
    };
    let outward = Vector3 {
        x: (p.x - center.x) as i64,
        y: (p.y - center.y) as i64,
        z: (p.z - center.z) as i64,
    };
    HitRecord {
        point: p,
        normal: oriented_normal(r.direction, outward),
        t: t as i64,
        front_face: dot_spec(r.direction, outward) < 0,
        mat_handle,
        u: 0i64,
        v: 0i64,
    }
}

/// What a sphere query returns: the record at the least ball parameter
/// in `(t_min, t_max]`, or nothing; a zero direction never hits.
pub open spec fn sphere_model(mat_handle: MaterialHandle, center: Vector3, radius: i64, r: Ray,
    t_min: int, t_max: int) -> Option<HitRecord> {
    if r.direction == (Vector3 { x: 0i64, y: 0i64, z: 0i64 }) {
        None
    } else {
        match first_ball_t(center, radius, r, t_min + 1, t_max) {
            Some(t) => Some(sphere_record(mat_handle, center, radius, r, t)),
            None => None,
        }
    }
}

/// Floor quotient equals Euclidean division by a positive divisor.
proof fn lemma_div_from_bounds(n: int, d: int, q: int)
    requires
        d >= 1,
        q * d <= n < (q + 1) * d,
    ensures
        q == n / d,
{
    assert(n < q * d + d) by (nonlinear_arith)
        requires
            n < (q + 1) * d,
    ;
    lemma_fundamental_div_mod_converse(n, d, q, n - q * d);
}

/// Sphere intersection for a sphere possibly re-centred by motion: the
/// nearest ball parameter in `(t_min, t_max]`.  `center` may lie beyond
/// `COORD_MAX` (an interpolated centre), but within `ORIGIN_MAX`.
fn sphere_hit(center: &Vector3, radius: i64, ray: &Ray, t_min: i64, t_max: i64,
    mat_handle: MaterialHandle) -> (res: Option<HitRecord>)
    requires
        vec_bounded(*center, ORIGIN_MAX as int),
        1 <= radius <= COORD_MAX,
        ray_wf(*ray),
        bounded(t_min as int, T_QUERY_MAX as int),
        bounded(t_max as int, T_QUERY_MAX as int),
    ensures
        res == sphere_model(mat_handle, *center, radius, *ray, t_min as int, t_max as int),
        res matches Some(rec) ==> t_min < rec.t <= t_max && vec_bounded(rec.point,
            0x80000000000000i64 as int) && vec_bounded(rec.normal, 0x80000000000000i64 as int),
{
    let dir = ray.direction;
    if dir.x == 0 && dir.y == 0 && dir.z == 0 {
        return None;
    }
    let ocx = (ray.origin.x as i128) - (center.x as i128);
    let ocy = (ray.origin.y as i128) - (center.y as i128);
    let ocz = (ray.origin.z as i128) - (center.z as i128);
    proof {
        lemma_mul_bound(dir.x as int, dir.x as int, DIR_MAX as int);
        lemma_mul_bound(dir.y as int, dir.y as int, DIR_MAX as int);
        lemma_mul_bound(dir.z as int, dir.z as int, DIR_MAX as int);
        lemma_mul_bound2(ocx as int, dir.x as int, 0x200000000i64 as int, DIR_MAX as int);
        lemma_mul_bound2(ocy as int, dir.y as int, 0x200000000i64 as int, DIR_MAX as int);
        lemma_mul_bound2(ocz as int, dir.z as int, 0x200000000i64 as int, DIR_MAX as int);
        lemma_mul_bound(ocx as int, ocx as int, 0x200000000i64 as int);
        lemma_mul_bound(ocy as int, ocy as int, 0x200000000i64 as int);
        lemma_mul_bound(ocz as int, ocz as int, 0x200000000i64 as int);
        lemma_mul_bound(radius as int, radius as int, COORD_MAX as int);
        lemma_square_nonneg(dir.x as int);
        lemma_square_nonneg(dir.y as int);
        lemma_square_nonneg(dir.z as int);
    }
    let a = (dir.x as i128) * (dir.x as i128) + (dir.y as i128) * (dir.y as i128) + (dir.z
        as i128) * (dir.z as i128);
    let half_b = ocx * (dir.x as i128) + ocy * (dir.y as i128) + ocz * (dir.z as i128);
    let c = ocx * ocx + ocy * ocy + ocz * ocz - (radius as i128) * (radius as i128);
    proof {
        if a == 0 {
            assert(dir.x as int * dir.x as int == 0 ==> dir.x as int == 0) by (nonlinear_arith);
            assert(dir.y as int * dir.y as int == 0 ==> dir.y as int == 0) by (nonlinear_arith);
            assert(dir.z as int * dir.z as int == 0 ==> dir.z as int == 0) by (nonlinear_arith);
            assert(false);
        }
        lemma_mul_bound(half_b as int, half_b as int, 0x2000000000000000i64 as int);
        lemma_mul_bound2(a as int, c as int, 0x40000000000000i64 as int,
            0x100000000000000000i128 as int);
    }
    let discriminant = half_b * half_b - a * c;
    if discriminant < 0 {
        proof {
            assert forall|t: int| t_min < t <= t_max implies !in_ball(*center, radius, *ray,
                t) by {
                lemma_ball_empty(*center, radius, *ray, a as int, half_b as int, c as int, t);
            }
            lemma_first_ball_none(*center, radius, *ray, t_min as int + 1, t_max as int);
        }
        return None;
    }
    let sqrtd = isqrt(discriminant as u128) as i128;
    let lo = div_ceil(-half_b - sqrtd, a);
    let hi = div_floor(-half_b + sqrtd, a);
    let t_first: i128 = if lo > (t_min as i128) + 1 {
        lo
    } else {
        (t_min as i128) + 1
    };
    proof {
        assert forall|t: int| #[trigger] in_ball(*center, radius, *ray, t) <==> (lo <= t
            <= hi) by {
            lemma_ball_interval(*center, radius, *ray, a as int, half_b as int, c as int,
                discriminant as int, sqrtd as int, lo as int, hi as int, t);
        }
    }
    if t_first > hi || t_first > (t_max as i128) {
        proof {
            lemma_first_ball_none(*center, radius, *ray, t_min as int + 1, t_max as int);
        }
        return None;
    }
    proof {
        lemma_first_ball_some(*center, radius, *ray, t_min as int + 1, t_max as int,
            t_first as int);
    }
    let t = t_first as i64;
    let point = ray.at(t);
    proof {
        lemma_mul_bound2(t as int, dir.x as int, T_QUERY_MAX as int, DIR_MAX as int);
        lemma_mul_bound2(t as int, dir.y as int, T_QUERY_MAX as int, DIR_MAX as int);
        lemma_mul_bound2(t as int, dir.z as int, T_QUERY_MAX as int, DIR_MAX as int);
    }
    let outward = Vector3 {
        x: point.x - center.x,
        y: point.y - center.y,
        z: point.z - center.z,
    };
    let mut rec = HitRecord::new();
    rec.mat_handle = mat_handle;
    rec.t = t;
    rec.point = point;
    rec.set_face_normal(ray, &outward);
    Some(rec)
}


// ---------------------------------------------------------------------
// Axis-aligned rectangles.
//
// A rectangle lying in the plane `axis == k` is hit exactly at the
// integer parameter at which the ray crosses the plane, when that
// crossing is exact on the lattice and lands within the rectangle's 2D
// extent.  A ray parallel to the plane never hits.
// ---------------------------------------------------------------------

/// Candidate integer parameter at which `o + t * d` reaches `k`,
/// written with a positive divisor so that Euclidean division is the
/// floor.  Meaningful only for `d != 0`; the caller checks exactness by
/// multiplying back.
pub open spec fn cross_t(o: i64, d: i64, k: i64) -> int {
    if d > 0 {
        (k - o) / (d as int)
    } else {
        (o - k) / (-(d as int))
    }
}

/// What an XY-rectangle query returns: the exact plane crossing, if it
/// is on the lattice, in `(t_min, t_max]`, and within the rectangle.
pub open spec fn rect_xy_model(mat_handle: MaterialHandle, x0: i64, x1: i64, y0: i64, y1: i64,
    k: i64, r: Ray, t_min: int, t_max: int) -> Option<HitRecord> {
    let d = r.direction.z;
    if d == 0 {
        None
    } else {
        let t = cross_t(r.origin.z, d, k);
        if r.origin.z + t * d == k && t_min < t <= t_max && x0 <= ray_x(r, t) <= x1 && y0
            <= ray_y(r, t) <= y1 {
            Some(HitRecord {
                point: Vector3 { x: ray_x(r, t) as i64, y: ray_y(r, t) as i64, z: k },
                normal: oriented_normal(r.direction, Vector3 { x: 0i64, y: 0i64, z: 1i64 }),
                t: t as i64,
                front_face: dot_spec(r.direction, Vector3 { x: 0i64, y: 0i64, z: 1i64 }) < 0,
                mat_handle,
                u: tex_frac(ray_x(r, t), x0, x1) as i64,
                v: tex_frac(ray_y(r, t), y0, y1) as i64,
            })
        } else {
            None
        }
    }
}

/// What an XZ-rectangle query returns.
pub open spec fn rect_xz_model(mat_handle: MaterialHandle, x0: i64, x1: i64, z0: i64, z1: i64,
    k: i64, r: Ray, t_min: int, t_max: int) -> Option<HitRecord> {
    let d = r.direction.y;
    if d == 0 {
        None
    } else {
        let t = cross_t(r.origin.y, d, k);
        if r.origin.y + t * d == k && t_min < t <= t_max && x0 <= ray_x(r, t) <= x1 && z0
            <= ray_z(r, t) <= z1 {
            Some(HitRecord {
                point: Vector3 { x: ray_x(r, t) as i64, y: k, z: ray_z(r, t) as i64 },
                normal: oriented_normal(r.direction, Vector3 { x: 0i64, y: 1i64, z: 0i64 }),
                t: t as i64,
                front_face: dot_spec(r.direction, Vector3 { x: 0i64, y: 1i64, z: 0i64 }) < 0,
                mat_handle,
                u: tex_frac(ray_x(r, t), x0, x1) as i64,
                v: tex_frac(ray_z(r, t), z0, z1) as i64,
            })
        } else {
            None
        }
    }
}

/// What a YZ-rectangle query returns.
pub open spec fn rect_yz_model(mat_handle: MaterialHandle, y0: i64, y1: i64, z0: i64, z1: i64,
    k: i64, r: Ray, t_min: int, t_max: int) -> Option<HitRecord> {
    let d = r.direction.x;
    if d == 0 {
        None
    } else {
        let t = cross_t(r.origin.x, d, k);
        if r.origin.x + t * d == k && t_min < t <= t_max && y0 <= ray_y(r, t) <= y1 && z0
            <= ray_z(r, t) <= z1 {
            Some(HitRecord {
                point: Vector3 { x: k, y: ray_y(r, t) as i64, z: ray_z(r, t) as i64 },
                normal: oriented_normal(r.direction, Vector3 { x: 1i64, y: 0i64, z: 0i64 }),
                t: t as i64,
                front_face: dot_spec(r.direction, Vector3 { x: 1i64, y: 0i64, z: 0i64 }) < 0,
                mat_handle,
                u: tex_frac(ray_y(r, t), y0, y1) as i64,
                v: tex_frac(ray_z(r, t), z0, z1) as i64,
            })
        } else {
            None
        }
    }
}

/// Exact lattice crossing of one coordinate plane: `Some(t)` with
/// `o + t * d == k` when such an integer `t` exists and `d != 0`.
fn plane_cross(o: i64, d: i64, k: i64) -> (res: Option<i64>)
    requires
        bounded(o as int, ORIGIN_MAX as int),
        bounded(d as int, DIR_MAX as int),
        bounded(k as int, COORD_MAX as int),
        d != 0,
    ensures
        res matches Some(t) ==> t == cross_t(o, d, k) && o + t * d == k,
        res is None ==> o + cross_t(o, d, k) * d != k,
    {
    let num: i128 = if d > 0 {
        (k as i128) - (o as i128)
    } else {
        (o as i128) - (k as i128)
    };
    let dp: i128 = if d > 0 {
        d as i128
    } else {
        -(d as i128)
    };
    let q = div_floor(num, dp);
    proof {
        lemma_div_from_bounds(num as int, dp as int, q as int);
        assert(q * dp == num ==> o + q * d == k) by (nonlinear_arith)
            requires
                (d > 0 ==> num == k - o && dp == d) && (d < 0 ==> num == o - k && dp == -(
                d as int)),
                d != 0,
        ;
        assert(q * dp != num ==> o + q * d != k) by (nonlinear_arith)
            requires
                (d > 0 ==> num == k - o && dp == d) && (d < 0 ==> num == o - k && dp == -(
                d as int)),
                d != 0,
        ;
    }
    proof {
        lemma_mul_bound2(q as int, dp as int, 0x200000000i64 as int, DIR_MAX as int);
    }
    let back = q * dp;
    if back == num {
        Some(q as i64)
    } else {
        None
    }
}


/// Texture fraction of a coordinate within a rectangle extent.
fn tex_frac_exec(w: i64, w0: i64, w1: i64) -> (r: i64)
    requires
        bounded(w0 as int, COORD_MAX as int),
        bounded(w1 as int, COORD_MAX as int),
        w0 <= w <= w1,
    ensures
        r as int == tex_frac(w as int, w0, w1),
{
    if w0 < w1 {
        proof {
            lemma_mul_bound2((w - w0) as int, crate::math::FRACTION_ONE as int,
                0x4000000i64 as int, 65536);
        }
        let q = div_floor(((w as i128) - (w0 as i128)) * (crate::math::FRACTION_ONE as i128), (
        w1 as i128) - (w0 as i128));
        proof {
            lemma_div_from_bounds(((w as int) - (w0 as int)) * (crate::math::FRACTION_ONE
                as int), (w1 as int) - (w0 as int), q as int);
        }
        q as i64
    } else {
        0
    }
}

/// XY-rectangle intersection: the exact crossing of the plane `z == k`.
fn xy_rect_hit(x0: i64, x1: i64, y0: i64, y1: i64, k: i64, ray: &Ray, t_min: i64,
    t_max: i64, mat_handle: MaterialHandle) -> (res: Option<HitRecord>)
    requires
        bounded(x0 as int, COORD_MAX as int),
        bounded(x1 as int, COORD_MAX as int),
        bounded(y0 as int, COORD_MAX as int),
        bounded(y1 as int, COORD_MAX as int),
        bounded(k as int, COORD_MAX as int),
        ray_wf(*ray),
        bounded(t_min as int, T_QUERY_MAX as int),
        bounded(t_max as int, T_QUERY_MAX as int),
    ensures
        res == rect_xy_model(mat_handle, x0, x1, y0, y1, k, *ray, t_min as int,
            t_max as int),
        res matches Some(rec) ==> t_min < rec.t <= t_max,
{
    let d = ray.direction.z;
    if d == 0 {
        return None;
    }
    match plane_cross(ray.origin.z, d, k) {
        None => None,
        Some(t) => {
            if t <= t_min || t > t_max {
                return None;
            }
            let point = ray.at(t);
            if point.x < x0 || point.x > x1 || point.y < y0 || point.y
                > y1 {
                return None;
            }
            let outward = Vector3 { x: 0, y: 0, z: 1 };
            let mut rec = HitRecord::new();
            rec.mat_handle = mat_handle;
            rec.t = t;
            rec.point = point;
            rec.u = tex_frac_exec(point.x, x0, x1);
            rec.v = tex_frac_exec(point.y, y0, y1);
            rec.set_face_normal(ray, &outward);
            Some(rec)
        },
    }
}

/// XZ-rectangle intersection: the exact crossing of the plane `y == k`.
fn xz_rect_hit(x0: i64, x1: i64, z0: i64, z1: i64, k: i64, ray: &Ray, t_min: i64,
    t_max: i64, mat_handle: MaterialHandle) -> (res: Option<HitRecord>)
    requires
        bounded(x0 as int, COORD_MAX as int),
        bounded(x1 as int, COORD_MAX as int),
        bounded(z0 as int, COORD_MAX as int),
        bounded(z1 as int, COORD_MAX as int),
        bounded(k as int, COORD_MAX as int),
        ray_wf(*ray),
        bounded(t_min as int, T_QUERY_MAX as int),
        bounded(t_max as int, T_QUERY_MAX as int),
    ensures
        res == rect_xz_model(mat_handle, x0, x1, z0, z1, k, *ray, t_min as int,
            t_max as int),
        res matches Some(rec) ==> t_min < rec.t <= t_max,
{
    let d = ray.direction.y;
    if d == 0 {
        return None;
    }
    match plane_cross(ray.origin.y, d, k) {
        None => None,
        Some(t) => {
            if t <= t_min || t > t_max {
                return None;
            }
            let point = ray.at(t);
            if point.x < x0 || point.x > x1 || point.z < z0 || point.z
                > z1 {
                return None;
            }
            let outward = Vector3 { x: 0, y: 1, z: 0 };
            let mut rec = HitRecord::new();
            rec.mat_handle = mat_handle;
            rec.t = t;
            rec.point = point;
            rec.u = tex_frac_exec(point.x, x0, x1);
            rec.v = tex_frac_exec(point.z, z0, z1);
            rec.set_face_normal(ray, &outward);
            Some(rec)
        },
    }
}

/// YZ-rectangle intersection: the exact crossing of the plane `x == k`.
fn yz_rect_hit(y0: i64, y1: i64, z0: i64, z1: i64, k: i64, ray: &Ray, t_min: i64,
    t_max: i64, mat_handle: MaterialHandle) -> (res: Option<HitRecord>)
    requires
        bounded(y0 as int, COORD_MAX as int),
        bounded(y1 as int, COORD_MAX as int),
        bounded(z0 as int, COORD_MAX as int),
        bounded(z1 as int, COORD_MAX as int),
        bounded(k as int, COORD_MAX as int),
        ray_wf(*ray),
        bounded(t_min as int, T_QUERY_MAX as int),
        bounded(t_max as int, T_QUERY_MAX as int),
    ensures
        res == rect_yz_model(mat_handle, y0, y1, z0, z1, k, *ray, t_min as int,
            t_max as int),
        res matches Some(rec) ==> t_min < rec.t <= t_max,
{
    let d = ray.direction.x;
    if d == 0 {
        return None;
    }
    match plane_cross(ray.origin.x, d, k) {
        None => None,
        Some(t) => {
            if t <= t_min || t > t_max {
                return None;
            }
            let point = ray.at(t);
            if point.y < y0 || point.y > y1 || point.z < z0 || point.z
                > z1 {
                return None;
            }
            let outward = Vector3 { x: 1, y: 0, z: 0 };
            let mut rec = HitRecord::new();
            rec.mat_handle = mat_handle;
            rec.t = t;
            rec.point = point;
            rec.u = tex_frac_exec(point.y, y0, y1);
            rec.v = tex_frac_exec(point.z, z0, z1);
            rec.set_face_normal(ray, &outward);
            Some(rec)
        },
    }
}


// ---------------------------------------------------------------------
// The full query model and the dispatching queries themselves.
// ---------------------------------------------------------------------

/// Keep the newer result when it exists; narrowing guarantees the newer
/// one is the nearer one.
pub open spec fn prefer_second(cur: Option<HitRecord>, nxt: Option<HitRecord>) -> Option<
    HitRecord,
> {
    if nxt is Some {
        nxt
    } else {
        cur
    }
}

/// Upper query bound while scanning: the best `t` so far, else `t_max`.
pub open spec fn closest_bound(cur: Option<HitRecord>, t_max: int) -> int {
    match cur {
        Some(rec) => rec.t as int,
        None => t_max,
    }
}

/// Linear interpolation of one centre coordinate at `time`, with the
/// quotient taken as a floor; the keyframes may come in either time
/// order.
pub open spec fn lerp_coord(c0: i64, c1: i64, t0: i64, t1: i64, time: i64) -> int {
    if t0 < t1 {
        c0 + ((c1 - c0) * (time - t0)) / (t1 - t0)
    } else {
        c1 + ((c0 - c1) * (time - t1)) / (t0 - t1)
    }
}

/// The six faces of an axis-aligned box, scanned in a fixed order with a
/// shrinking upper bound: the nearest face crossing wins.
pub open spec fn box_model(mat_handle: MaterialHandle, min: Vector3, max: Vector3, r: Ray,
    t_min: int, t_max: int) -> Option<HitRecord> {
    let s1 = rect_xy_model(mat_handle, min.x, max.x, min.y, max.y, max.z, r, t_min, t_max);
    let c1 = prefer_second(None, s1);
    let s2 = rect_xy_model(mat_handle, min.x, max.x, min.y, max.y, min.z, r, t_min,
        closest_bound(c1, t_max));
    let c2 = prefer_second(c1, s2);
    let s3 = rect_xz_model(mat_handle, min.x, max.x, min.z, max.z, max.y, r, t_min,
        closest_bound(c2, t_max));
    let c3 = prefer_second(c2, s3);
    let s4 = rect_xz_model(mat_handle, min.x, max.x, min.z, max.z, min.y, r, t_min,
        closest_bound(c3, t_max));
    let c4 = prefer_second(c3, s4);
    let s5 = rect_yz_model(mat_handle, min.y, max.y, min.z, max.z, max.x, r, t_min,
        closest_bound(c4, t_max));
    let c5 = prefer_second(c4, s5);
    let s6 = rect_yz_model(mat_handle, min.y, max.y, min.z, max.z, min.x, r, t_min,
        closest_bound(c5, t_max));
    prefer_second(c5, s6)
}

/// What `hit` returns on a deterministic primitive.  The participating
/// medium is not deterministic; its arm here is a fixed value that no
/// contract refers to.
pub open spec fn hit_model(h: Hittable, r: Ray, t_min: int, t_max: int) -> Option<HitRecord>
    decreases h,
{
    match h {
        Hittable::Sphere { mat_handle, center, radius } => sphere_model(mat_handle, center,
            radius, r, t_min, t_max),
        Hittable::MovingSphere { mat_handle, center_0, center_1, time_0, time_1, radius } => {
            let cx = lerp_coord(center_0.x, center_1.x, time_0, time_1, r.time);
            let cy = lerp_coord(center_0.y, center_1.y, time_0, time_1, r.time);
            let cz = lerp_coord(center_0.z, center_1.z, time_0, time_1, r.time);
            if bounded(cx, ORIGIN_MAX as int) && bounded(cy, ORIGIN_MAX as int) && bounded(
                cz,
                ORIGIN_MAX as int,
            ) {
                sphere_model(mat_handle, Vector3 { x: cx as i64, y: cy as i64, z: cz as i64 },
                    radius, r, t_min, t_max)
            } else {
                None
            }
        },
        Hittable::BvhNode { left, right, aabb_box } => {
            if !crate::aabb::slab_hit(aabb_box, r, t_min, t_max) {
                None
            } else {
                match hit_model(*left, r, t_min, t_max) {
                    Some(hl) => match hit_model(*right, r, t_min, hl.t as int) {
                        Some(hr) => Some(hr),
                        None => Some(hl),
                    },
                    None => hit_model(*right, r, t_min, t_max),
                }
            }
        },
        Hittable::XYRect { mat_handle, x0, x1, y0, y1, k } => rect_xy_model(mat_handle, x0, x1,
            y0, y1, k, r, t_min, t_max),
        Hittable::XZRect { mat_handle, x0, x1, z0, z1, k } => rect_xz_model(mat_handle, x0, x1,
            z0, z1, k, r, t_min, t_max),
        Hittable::YZRect { mat_handle, y0, y1, z0, z1, k } => rect_yz_model(mat_handle, y0, y1,
            z0, z1, k, r, t_min, t_max),
        Hittable::BoxShape { mat_handle, min, max } => box_model(mat_handle, min, max, r, t_min,
            t_max),
        Hittable::Translate { offset, ptr } => {
            let ox = r.origin.x - offset.x;
            let oy = r.origin.y - offset.y;
            let oz = r.origin.z - offset.z;
            if bounded(ox, ORIGIN_MAX as int) && bounded(oy, ORIGIN_MAX as int) && bounded(
                oz,
                ORIGIN_MAX as int,
            ) {
                let moved = Ray {
                    origin: Vector3 { x: ox as i64, y: oy as i64, z: oz as i64 },
                    direction: r.direction,
                    time: r.time,
                };
                match hit_model(*ptr, moved, t_min, t_max) {
                    Some(rec) => {
                        let px = rec.point.x + offset.x;
                        let py = rec.point.y + offset.y;
                        let pz = rec.point.z + offset.z;
                        if bounded(px, 0x80000000000000i64 as int) && bounded(
                            py,
                            0x80000000000000i64 as int,
                        ) && bounded(pz, 0x80000000000000i64 as int) {
                            Some(HitRecord {
                                point: Vector3 { x: px as i64, y: py as i64, z: pz as i64 },
                                normal: oriented_normal(moved.direction, rec.normal),
                                t: rec.t,
                                front_face: dot_spec(moved.direction, rec.normal) < 0,
                                mat_handle: rec.mat_handle,
                                u: rec.u,
                                v: rec.v,
                            })
                        } else {
                            None
                        }
                    },
                    None => None,
                }
            } else {
                None
            }
        },
        Hittable::RotateY { sin_num, cos_num, denom, ptr, .. } => {
            let den = denom as int;
            let rox = (cos_num * r.origin.x - sin_num * r.origin.z) / den;
            let roz = (sin_num * r.origin.x + cos_num * r.origin.z) / den;
            let rdx = (cos_num * r.direction.x - sin_num * r.direction.z) / den;
            let rdz = (sin_num * r.direction.x + cos_num * r.direction.z) / den;
            if bounded(rox, ORIGIN_MAX as int) && bounded(roz, ORIGIN_MAX as int) && bounded(
                rdx,
                DIR_MAX as int,
            ) && bounded(rdz, DIR_MAX as int) {
                let rotated = Ray {
                    origin: Vector3 { x: rox as i64, y: r.origin.y, z: roz as i64 },
                    direction: Vector3 { x: rdx as i64, y: r.direction.y, z: rdz as i64 },
                    time: r.time,
                };
                match hit_model(*ptr, rotated, t_min, t_max) {
                    Some(rec) => {
                        let bx = (cos_num * rec.point.x + sin_num * rec.point.z) / den;
                        let bz = (-sin_num * rec.point.x + cos_num * rec.point.z) / den;
                        let nx = (cos_num * rec.normal.x + sin_num * rec.normal.z) / den;
                        let nz = (-sin_num * rec.normal.x + cos_num * rec.normal.z) / den;
                        if bounded(bx, 0x80000000000000i64 as int) && bounded(
                            bz,
                            0x80000000000000i64 as int,
                        ) && bounded(nx, 0x80000000000000i64 as int) && bounded(
                            nz,
                            0x80000000000000i64 as int,
                        ) {
                            let n2 = Vector3 { x: nx as i64, y: rec.normal.y, z: nz as i64 };
                            Some(HitRecord {
                                point: Vector3 { x: bx as i64, y: rec.point.y, z: bz as i64 },
                                normal: oriented_normal(rotated.direction, n2),
                                t: rec.t,
                                front_face: dot_spec(rotated.direction, n2) < 0,
                                mat_handle: rec.mat_handle,
                                u: rec.u,
                                v: rec.v,
                            })
                        } else {
                            None
                        }
                    },
                    None => None,
                }
            } else {
                None
            }
        },
        Hittable::ConstantMedium { .. } => None,
    }
}

/// What the bounding-box query returns: a box covering the primitive
/// over `[time_0, time_1]`, or nothing when it is unbounded or its
/// extent leaves the representable range.
pub open spec fn bbox_model(h: Hittable, time_0: i64, time_1: i64) -> Option<Aabb>
    decreases h,
{
    match h {
        Hittable::Sphere { center, radius, .. } => Some(Aabb {
            minimum: Vector3 {
                x: (center.x - radius) as i64,
                y: (center.y - radius) as i64,
                z: (center.z - radius) as i64,
            },
            maximum: Vector3 {
                x: (center.x + radius) as i64,
                y: (center.y + radius) as i64,
                z: (center.z + radius) as i64,
            },
        }),
        Hittable::MovingSphere { center_0, center_1, radius, .. } => {
            let b0 = Aabb {
                minimum: Vector3 {
                    x: (center_0.x - radius) as i64,
                    y: (center_0.y - radius) as i64,
                    z: (center_0.z - radius) as i64,
                },
                maximum: Vector3 {
                    x: (center_0.x + radius) as i64,
                    y: (center_0.y + radius) as i64,
                    z: (center_0.z + radius) as i64,
                },
            };
            let b1 = Aabb {
                minimum: Vector3 {
                    x: (center_1.x - radius) as i64,
                    y: (center_1.y - radius) as i64,
                    z: (center_1.z - radius) as i64,
                },
                maximum: Vector3 {
                    x: (center_1.x + radius) as i64,
                    y: (center_1.y + radius) as i64,
                    z: (center_1.z + radius) as i64,
                },
            };
            Some(crate::aabb::box_union(b0, b1))
        },
        Hittable::BvhNode { aabb_box, .. } => Some(aabb_box),
        Hittable::XYRect { x0, x1, y0, y1, k, .. } => Some(Aabb {
            minimum: Vector3 { x: x0, y: y0, z: (k - 1) as i64 },
            maximum: Vector3 { x: x1, y: y1, z: (k + 1) as i64 },
        }),
        Hittable::XZRect { x0, x1, z0, z1, k, .. } => Some(Aabb {
            minimum: Vector3 { x: x0, y: (k - 1) as i64, z: z0 },
            maximum: Vector3 { x: x1, y: (k + 1) as i64, z: z1 },
        }),
        Hittable::YZRect { y0, y1, z0, z1, k, .. } => Some(Aabb {
            minimum: Vector3 { x: (k - 1) as i64, y: y0, z: z0 },
            maximum: Vector3 { x: (k + 1) as i64, y: y1, z: z1 },
        }),
        Hittable::BoxShape { min, max, .. } => Some(Aabb { minimum: min, maximum: max }),
        Hittable::Translate { offset, ptr } => match bbox_model(*ptr, time_0, time_1) {
            Some(b) => {
                let mnx = b.minimum.x + offset.x;
                let mny = b.minimum.y + offset.y;
                let mnz = b.minimum.z + offset.z;
                let mxx = b.maximum.x + offset.x;
                let mxy = b.maximum.y + offset.y;
                let mxz = b.maximum.z + offset.z;
                if bounded(mnx, crate::aabb::BOX_MAX as int) && bounded(
                    mny,
                    crate::aabb::BOX_MAX as int,
                ) && bounded(mnz, crate::aabb::BOX_MAX as int) && bounded(
                    mxx,
                    crate::aabb::BOX_MAX as int,
                ) && bounded(mxy, crate::aabb::BOX_MAX as int) && bounded(
                    mxz,
                    crate::aabb::BOX_MAX as int,
                ) {
                    Some(Aabb {
                        minimum: Vector3 { x: mnx as i64, y: mny as i64, z: mnz as i64 },
                        maximum: Vector3 { x: mxx as i64, y: mxy as i64, z: mxz as i64 },
                    })
                } else {
                    None
                }
            },
            None => None,
        },
        Hittable::RotateY { has_box, bbox, .. } => if has_box {
            Some(bbox)
        } else {
            None
        },
        Hittable::ConstantMedium { boundary, .. } => bbox_model(*boundary, time_0, time_1),
    }
}

impl Hittable {
    /// Centre of a moving sphere at `time`, interpolated between the two
    /// keyframes with floor rounding.
    fn get_center_at_time(center_0: &Vector3, center_1: &Vector3, time_0: i64, time_1: i64,
        time: i64) -> (c: Vector3)
        requires
            vec_bounded(*center_0, COORD_MAX as int),
            vec_bounded(*center_1, COORD_MAX as int),
            bounded(time_0 as int, COORD_MAX as int),
            bounded(time_1 as int, COORD_MAX as int),
            bounded(time as int, COORD_MAX as int),
            time_0 != time_1,
        ensures
            c.x as int == lerp_coord(center_0.x, center_1.x, time_0, time_1, time),
            c.y as int == lerp_coord(center_0.y, center_1.y, time_0, time_1, time),
            c.z as int == lerp_coord(center_0.z, center_1.z, time_0, time_1, time),
    {
        let (ca, cb, ta, tb) = if time_0 < time_1 {
            (center_0, center_1, time_0, time_1)
        } else {
            (center_1, center_0, time_1, time_0)
        };
        let dt = (tb as i128) - (ta as i128);
        let ft = (time as i128) - (ta as i128);
        proof {
            lemma_mul_bound2((cb.x - ca.x) as int, ft as int, 0x2000000i64 as int * 2,
                0x2000000i64 as int * 2);
            lemma_mul_bound2((cb.y - ca.y) as int, ft as int, 0x2000000i64 as int * 2,
                0x2000000i64 as int * 2);
            lemma_mul_bound2((cb.z - ca.z) as int, ft as int, 0x2000000i64 as int * 2,
                0x2000000i64 as int * 2);
        }
        let qx = div_floor(((cb.x as i128) - (ca.x as i128)) * ft, dt);
        let qy = div_floor(((cb.y as i128) - (ca.y as i128)) * ft, dt);
        let qz = div_floor(((cb.z as i128) - (ca.z as i128)) * ft, dt);
        proof {
            lemma_div_from_bounds(((cb.x as int) - (ca.x as int)) * (ft as int), dt as int,
                qx as int);
            lemma_div_from_bounds(((cb.y as int) - (ca.y as int)) * (ft as int), dt as int,
                qy as int);
            lemma_div_from_bounds(((cb.z as int) - (ca.z as int)) * (ft as int), dt as int,
                qz as int);
        }
        Vector3 {
            x: (ca.x as i128 + qx) as i64,
            y: (ca.y as i128 + qy) as i64,
            z: (ca.z as i128 + qz) as i64,
        }
    }

    /// Nearest intersection with parametric distance in `(t_min, t_max]`,
    /// or nothing.  On deterministic primitives the result is exactly
    /// [`hit_model`]; the participating medium additionally samples its
    /// scatter distance, and every outcome satisfies the bounds below.
    pub fn hit(&self, ray: &Ray, t_min: i64, t_max: i64) -> (res: Option<HitRecord>)
        requires
            hittable_wf(*self),
            ray_wf(*ray),
            bounded(t_min as int, T_QUERY_MAX as int),
            bounded(t_max as int, T_QUERY_MAX as int),
        ensures
            deterministic(*self) ==> res == hit_model(*self, *ray, t_min as int, t_max as int),
            res matches Some(rec) ==> t_min <= rec.t <= t_max && vec_bounded(rec.point,
                0x80000000000000i64 as int) && vec_bounded(rec.normal,
                0x80000000000000i64 as int),
            self matches Hittable::ConstantMedium { phase_function, .. } ==> (res matches Some(
            rec) ==> point_on(*ray, rec.t as int, rec.point) && rec.normal == (Vector3 {
                x: 1i64,
                y: 0i64,
                z: 0i64,
            }) && rec.front_face && rec.mat_handle == phase_function),
            self matches Hittable::ConstantMedium { boundary, .. } ==> (deterministic(
                *(*boundary),
            ) ==> (hit_model(*(*boundary), *ray, -(crate::math::T_OPEN as int),
            crate::math::T_OPEN as int) is None ==> res is None)),
        decreases *self,
    {
        match self {
            Hittable::Sphere { mat_handle, center, radius } => sphere_hit(center, *radius, ray,
                t_min, t_max, *mat_handle),
            Hittable::MovingSphere { mat_handle, center_0, center_1, time_0, time_1, radius } => {
                let c = Self::get_center_at_time(center_0, center_1, *time_0, *time_1,
                    ray.time);
                if c.x < -ORIGIN_MAX || c.x > ORIGIN_MAX || c.y < -ORIGIN_MAX || c.y
                    > ORIGIN_MAX || c.z < -ORIGIN_MAX || c.z > ORIGIN_MAX {
                    None
                } else {
                    sphere_hit(&c, *radius, ray, t_min, t_max, *mat_handle)
                }
            },
            Hittable::BvhNode { left, right, aabb_box } => {
                if !aabb_box.hit(ray, t_min, t_max) {
                    None
                } else {
                    match left.hit(ray, t_min, t_max) {
                        Some(hl) => match right.hit(ray, t_min, hl.t) {
                            Some(hr) => Some(hr),
                            None => Some(hl),
                        },
                        None => right.hit(ray, t_min, t_max),
                    }
                }
            },
            Hittable::XYRect { mat_handle, x0, x1, y0, y1, k } => xy_rect_hit(*x0, *x1, *y0,
                *y1, *k, ray, t_min, t_max, *mat_handle),
            Hittable::XZRect { mat_handle, x0, x1, z0, z1, k } => xz_rect_hit(*x0, *x1, *z0,
                *z1, *k, ray, t_min, t_max, *mat_handle),
            Hittable::YZRect { mat_handle, y0, y1, z0, z1, k } => yz_rect_hit(*y0, *y1, *z0,
                *z1, *k, ray, t_min, t_max, *mat_handle),
            Hittable::BoxShape { mat_handle, min, max } => {
                let mut cur: Option<HitRecord> = None;
                let mut closest: i64 = t_max;
                let s1 = xy_rect_hit(min.x, max.x, min.y, max.y, max.z, ray, t_min, closest,
                    *mat_handle);
                if let Some(rec) = s1 {
                    closest = rec.t;
                    cur = s1;
                }
                let s2 = xy_rect_hit(min.x, max.x, min.y, max.y, min.z, ray, t_min, closest,
                    *mat_handle);
                if let Some(rec) = s2 {
                    closest = rec.t;
                    cur = s2;
                }
                let s3 = xz_rect_hit(min.x, max.x, min.z, max.z, max.y, ray, t_min, closest,
                    *mat_handle);
                if let Some(rec) = s3 {
                    closest = rec.t;
                    cur = s3;
                }
                let s4 = xz_rect_hit(min.x, max.x, min.z, max.z, min.y, ray, t_min, closest,
                    *mat_handle);
                if let Some(rec) = s4 {
                    closest = rec.t;
                    cur = s4;
                }
                let s5 = yz_rect_hit(min.y, max.y, min.z, max.z, max.x, ray, t_min, closest,
                    *mat_handle);
                if let Some(rec) = s5 {
                    closest = rec.t;
                    cur = s5;
                }
                let s6 = yz_rect_hit(min.y, max.y, min.z, max.z, min.x, ray, t_min, closest,
                    *mat_handle);
                if let Some(rec) = s6 {
                    closest = rec.t;
                    cur = s6;
                }
                cur
            },
            Hittable::Translate { offset, ptr } => {
                let ox = (ray.origin.x as i128) - (offset.x as i128);
                let oy = (ray.origin.y as i128) - (offset.y as i128);
                let oz = (ray.origin.z as i128) - (offset.z as i128);
                if ox < -(ORIGIN_MAX as i128) || ox > (ORIGIN_MAX as i128) || oy < -(ORIGIN_MAX
                    as i128) || oy > (ORIGIN_MAX as i128) || oz < -(ORIGIN_MAX as i128) || oz
                    > (ORIGIN_MAX as i128) {
                    None
                } else {
                    let moved = Ray::with_time(Vector3 { x: ox as i64, y: oy as i64, z: oz
                        as i64 }, ray.direction, ray.time);
                    match ptr.hit(&moved, t_min, t_max) {
                        Some(rec0) => {
                            let px = (rec0.point.x as i128) + (offset.x as i128);
                            let py = (rec0.point.y as i128) + (offset.y as i128);
                            let pz = (rec0.point.z as i128) + (offset.z as i128);
                            let pb = 0x80000000000000i128;
                            if px < -pb || px > pb || py < -pb || py > pb || pz < -pb || pz
                                > pb {
                                None
                            } else {
                                let mut rec = rec0;
                                rec.point = Vector3 { x: px as i64, y: py as i64, z: pz
                                    as i64 };
                                let normal = rec0.normal;
                                rec.set_face_normal(&moved, &normal);
                                Some(rec)
                            }
                        },
                        None => None,
                    }
                }
            },
            Hittable::RotateY { sin_num, cos_num, denom, has_box: _, bbox: _, ptr } => {
                let sn = *sin_num;
                let cn = *cos_num;
                let den = *denom;
                proof {
                    lemma_abs_le_of_sq(sn as int, cn as int, den as int);
                    lemma_mul_bound2(cn as int, ray.origin.x as int, 65536, ORIGIN_MAX as int);
                    lemma_mul_bound2(sn as int, ray.origin.z as int, 65536, ORIGIN_MAX as int);
                    lemma_mul_bound2(sn as int, ray.origin.x as int, 65536, ORIGIN_MAX as int);
                    lemma_mul_bound2(cn as int, ray.origin.z as int, 65536, ORIGIN_MAX as int);
                    lemma_mul_bound2(cn as int, ray.direction.x as int, 65536, DIR_MAX as int);
                    lemma_mul_bound2(sn as int, ray.direction.z as int, 65536, DIR_MAX as int);
                    lemma_mul_bound2(sn as int, ray.direction.x as int, 65536, DIR_MAX as int);
                    lemma_mul_bound2(cn as int, ray.direction.z as int, 65536, DIR_MAX as int);
                }
                let rox = div_floor((cn as i128) * (ray.origin.x as i128) - (sn as i128) * (
                ray.origin.z as i128), den as i128);
                let roz = div_floor((sn as i128) * (ray.origin.x as i128) + (cn as i128) * (
                ray.origin.z as i128), den as i128);
                let rdx = div_floor((cn as i128) * (ray.direction.x as i128) - (sn as i128) * (
                ray.direction.z as i128), den as i128);
                let rdz = div_floor((sn as i128) * (ray.direction.x as i128) + (cn as i128) * (
                ray.direction.z as i128), den as i128);
                proof {
                    lemma_div_from_bounds((cn as int) * (ray.origin.x as int) - (sn as int) * (
                    ray.origin.z as int), den as int, rox as int);
                    lemma_div_from_bounds((sn as int) * (ray.origin.x as int) + (cn as int) * (
                    ray.origin.z as int), den as int, roz as int);
                    lemma_div_from_bounds((cn as int) * (ray.direction.x as int) - (sn as int)
                        * (ray.direction.z as int), den as int, rdx as int);
                    lemma_div_from_bounds((sn as int) * (ray.direction.x as int) + (cn as int)
                        * (ray.direction.z as int), den as int, rdz as int);
                }
                if rox < -(ORIGIN_MAX as i128) || rox > (ORIGIN_MAX as i128) || roz < -(
                ORIGIN_MAX as i128) || roz > (ORIGIN_MAX as i128) || rdx < -(DIR_MAX as i128)
                    || rdx > (DIR_MAX as i128) || rdz < -(DIR_MAX as i128) || rdz > (DIR_MAX
                    as i128) {
                    None
                } else {
                    let rotated = Ray::with_time(Vector3 { x: rox as i64, y: ray.origin.y, z:
                        roz as i64 }, Vector3 { x: rdx as i64, y: ray.direction.y, z: rdz
                        as i64 }, ray.time);
                    match ptr.hit(&rotated, t_min, t_max) {
                        Some(rec0) => {
                            let pb = 0x80000000000000i128;
                            proof {
                                lemma_mul_bound2(cn as int, rec0.point.x as int, 65536,
                                    0x80000000000000i64 as int);
                                lemma_mul_bound2(sn as int, rec0.point.z as int, 65536,
                                    0x80000000000000i64 as int);
                                lemma_mul_bound2(sn as int, rec0.point.x as int, 65536,
                                    0x80000000000000i64 as int);
                                lemma_mul_bound2(cn as int, rec0.point.z as int, 65536,
                                    0x80000000000000i64 as int);
                                lemma_mul_bound2(cn as int, rec0.normal.x as int, 65536,
                                    0x80000000000000i64 as int);
                                lemma_mul_bound2(sn as int, rec0.normal.z as int, 65536,
                                    0x80000000000000i64 as int);
                                lemma_mul_bound2(sn as int, rec0.normal.x as int, 65536,
                                    0x80000000000000i64 as int);
                                lemma_mul_bound2(cn as int, rec0.normal.z as int, 65536,
                                    0x80000000000000i64 as int);
                                lemma_mul_bound2(-(sn as int), rec0.point.x as int, 65536,
                                    0x80000000000000i64 as int);
                                lemma_mul_bound2(-(sn as int), rec0.normal.x as int, 65536,
                                    0x80000000000000i64 as int);
                            }
                            let bx = div_floor((cn as i128) * (rec0.point.x as i128) + (sn
                                as i128) * (rec0.point.z as i128), den as i128);
                            let bz = div_floor(-(sn as i128) * (rec0.point.x as i128) + (cn
                                as i128) * (rec0.point.z as i128), den as i128);
                            let nx = div_floor((cn as i128) * (rec0.normal.x as i128) + (sn
                                as i128) * (rec0.normal.z as i128), den as i128);
                            let nz = div_floor(-(sn as i128) * (rec0.normal.x as i128) + (cn
                                as i128) * (rec0.normal.z as i128), den as i128);
                            proof {
                                lemma_div_from_bounds((cn as int) * (rec0.point.x as int) + (sn
                                    as int) * (rec0.point.z as int), den as int, bx as int);
                                lemma_div_from_bounds(-(sn as int) * (rec0.point.x as int) + (
                                cn as int) * (rec0.point.z as int), den as int, bz as int);
                                lemma_div_from_bounds((cn as int) * (rec0.normal.x as int) + (
                                sn as int) * (rec0.normal.z as int), den as int, nx as int);
                                lemma_div_from_bounds(-(sn as int) * (rec0.normal.x as int) + (
                                cn as int) * (rec0.normal.z as int), den as int, nz as int);
                            }
                            if bx < -pb || bx > pb || bz < -pb || bz > pb || nx < -pb || nx
                                > pb || nz < -pb || nz > pb {
                                None
                            } else {
                                let n2 = Vector3 { x: nx as i64, y: rec0.normal.y, z: nz
                                    as i64 };
                                let mut rec = rec0;
                                rec.point = Vector3 { x: bx as i64, y: rec0.point.y, z: bz
                                    as i64 };
                                rec.set_face_normal(&rotated, &n2);
                                Some(rec)
                            }
                        },
                        None => None,
                    }
                }
            },
            Hittable::ConstantMedium { phase_function, boundary, survive_per_step } => {
                match boundary.hit(ray, -crate::math::T_OPEN, crate::math::T_OPEN) {
                    None => None,
                    Some(rec1) => {
                        let mut t1 = rec1.t;
                        if t1 < t_min {
                            t1 = t_min;
                        }
                        if t1 < 0 {
                            t1 = 0;
                        }
                        if t1 > t_max {
                            return None;
                        }
                        let mut i = t1;
                        let mut scat: Option<i64> = None;
                        #[verifier::loop_isolation(false)]
                        while i <= t_max
                            invariant
                                hittable_wf(*(*boundary)),
                                ray_wf(*ray),
                                0 <= t1 <= i <= t_max + 1,
                                t_min <= t1,
                                bounded(t_max as int, T_QUERY_MAX as int),
                                scat matches Some(u) ==> t1 <= u <= t_max,
                            decreases t_max - i + 1,
                        {
                            // step only while the lattice point is still
                            // inside the boundary: its first exit ends the
                            // medium span
                            match boundary.hit(ray, i - 1, i) {
                                None => {
                                    break;
                                },
                                Some(_) => {
                                },
                            }
                            let draw = crate::math::random_fraction();
                            if draw >= *survive_per_step {
                                scat = Some(i);
                                break;
                            }
                            i = i + 1;
                        }
                        match scat {
                            None => None,
                            Some(ts) => {
                                proof {
                                    lemma_mul_bound2(ts as int, ray.direction.x as int,
                                        T_QUERY_MAX as int, DIR_MAX as int);
                                    lemma_mul_bound2(ts as int, ray.direction.y as int,
                                        T_QUERY_MAX as int, DIR_MAX as int);
                                    lemma_mul_bound2(ts as int, ray.direction.z as int,
                                        T_QUERY_MAX as int, DIR_MAX as int);
                                }
                                let mut rec = HitRecord::new();
                                rec.t = ts;
                                rec.point = ray.at(ts);
                                rec.normal = Vector3 { x: 1, y: 0, z: 0 };
                                rec.front_face = true;
                                rec.mat_handle = *phase_function;
                                Some(rec)
                            },
                        }
                    },
                }
            },
        }
    }

    /// A box covering the primitive across `[time_0, time_1]`, or nothing
    /// if it is unbounded or its extent leaves the representable range.
    pub fn bounding_box(&self, time_0: i64, time_1: i64) -> (res: Option<Aabb>)
        requires
            hittable_wf(*self),
            bounded(time_0 as int, COORD_MAX as int),
            bounded(time_1 as int, COORD_MAX as int),
        ensures
            res == bbox_model(*self, time_0, time_1),
            res matches Some(b) ==> aabb_wf(b),
        decreases *self,
    {
        match self {
            Hittable::Sphere { mat_handle: _, center, radius } => Self::sphere_bounding_box(
                center, *radius),
            Hittable::MovingSphere { mat_handle: _, center_0, center_1, time_0, time_1, radius,
            } => Self::moving_sphere_bounding_box(center_0, center_1, *radius, *time_0,
                *time_1),
            Hittable::BvhNode { left: _, right: _, aabb_box } => Some(*aabb_box),
            Hittable::XYRect { mat_handle: _, x0, x1, y0, y1, k } => Some(Aabb {
                minimum: Vector3 { x: *x0, y: *y0, z: *k - 1 },
                maximum: Vector3 { x: *x1, y: *y1, z: *k + 1 },
            }),
            Hittable::XZRect { mat_handle: _, x0, x1, z0, z1, k } => Some(Aabb {
                minimum: Vector3 { x: *x0, y: *k - 1, z: *z0 },
                maximum: Vector3 { x: *x1, y: *k + 1, z: *z1 },
            }),
            Hittable::YZRect { mat_handle: _, y0, y1, z0, z1, k } => Some(Aabb {
                minimum: Vector3 { x: *k - 1, y: *y0, z: *z0 },
                maximum: Vector3 { x: *k + 1, y: *y1, z: *z1 },
            }),
            Hittable::BoxShape { mat_handle: _, min, max } => Some(Aabb {
                minimum: *min,
                maximum: *max,
            }),
            Hittable::Translate { offset, ptr } => match ptr.bounding_box(time_0, time_1) {
                Some(b) => {
                    let bm = crate::aabb::BOX_MAX as i128;
                    let mnx = (b.minimum.x as i128) + (offset.x as i128);
                    let mny = (b.minimum.y as i128) + (offset.y as i128);
                    let mnz = (b.minimum.z as i128) + (offset.z as i128);
                    let mxx = (b.maximum.x as i128) + (offset.x as i128);
                    let mxy = (b.maximum.y as i128) + (offset.y as i128);
                    let mxz = (b.maximum.z as i128) + (offset.z as i128);
                    if mnx < -bm || mnx > bm || mny < -bm || mny > bm || mnz < -bm || mnz > bm
                        || mxx < -bm || mxx > bm || mxy < -bm || mxy > bm || mxz < -bm || mxz
                        > bm {
                        None
                    } else {
                        Some(Aabb {
                            minimum: Vector3 { x: mnx as i64, y: mny as i64, z: mnz as i64 },
                            maximum: Vector3 { x: mxx as i64, y: mxy as i64, z: mxz as i64 },
                        })
                    }
                },
                None => None,
            },
            Hittable::RotateY { sin_num: _, cos_num: _, denom: _, has_box, bbox, ptr: _ } => {
                if *has_box {
                    Some(*bbox)
                } else {
                    None
                }
            },
            Hittable::ConstantMedium { phase_function: _, boundary, survive_per_step: _ } => {
                boundary.bounding_box(time_0, time_1)
            },
        }
    }

    /// Box of a static sphere: the centre displaced by the radius.
    fn sphere_bounding_box(center: &Vector3, radius: i64) -> (res: Option<Aabb>)
        requires
            vec_bounded(*center, COORD_MAX as int),
            1 <= radius <= COORD_MAX,
        ensures
            res matches Some(b) && b == (Aabb {
                minimum: Vector3 {
                    x: (center.x - radius) as i64,
                    y: (center.y - radius) as i64,
                    z: (center.z - radius) as i64,
                },
                maximum: Vector3 {
                    x: (center.x + radius) as i64,
                    y: (center.y + radius) as i64,
                    z: (center.z + radius) as i64,
                },
            }),
            res matches Some(b) ==> aabb_wf(b),
    {
        Some(Aabb {
            minimum: Vector3 { x: center.x - radius, y: center.y - radius, z: center.z
                - radius },
            maximum: Vector3 { x: center.x + radius, y: center.y + radius, z: center.z
                + radius },
        })
    }

    /// Box of a moving sphere: the union of its boxes at the two
    /// keyframe times.
    fn moving_sphere_bounding_box(center_0: &Vector3, center_1: &Vector3, radius: i64,
        time_0: i64, time_1: i64) -> (res: Option<Aabb>)
        requires
            vec_bounded(*center_0, COORD_MAX as int),
            vec_bounded(*center_1, COORD_MAX as int),
            bounded(time_0 as int, COORD_MAX as int),
            bounded(time_1 as int, COORD_MAX as int),
            time_0 != time_1,
            1 <= radius <= COORD_MAX,
        ensures
            res matches Some(b) && b == crate::aabb::box_union(
                Aabb {
                    minimum: Vector3 {
                        x: (center_0.x - radius) as i64,
                        y: (center_0.y - radius) as i64,
                        z: (center_0.z - radius) as i64,
                    },
                    maximum: Vector3 {
                        x: (center_0.x + radius) as i64,
                        y: (center_0.y + radius) as i64,
                        z: (center_0.z + radius) as i64,
                    },
                },
                Aabb {
                    minimum: Vector3 {
                        x: (center_1.x - radius) as i64,
                        y: (center_1.y - radius) as i64,
                        z: (center_1.z - radius) as i64,
                    },
                    maximum: Vector3 {
                        x: (center_1.x + radius) as i64,
                        y: (center_1.y + radius) as i64,
                        z: (center_1.z + radius) as i64,
                    },
                },
            ),
            res matches Some(b) ==> aabb_wf(b),
    {
        let c0 = Self::get_center_at_time(center_0, center_1, time_0, time_1, time_0);
        let c1 = Self::get_center_at_time(center_0, center_1, time_0, time_1, time_1);
        proof {
            lemma_lerp_ends(center_0.x, center_1.x, time_0, time_1);
            lemma_lerp_ends(center_0.y, center_1.y, time_0, time_1);
            lemma_lerp_ends(center_0.z, center_1.z, time_0, time_1);
        }
        let box0 = Aabb {
            minimum: Vector3 { x: c0.x - radius, y: c0.y - radius, z: c0.z - radius },
            maximum: Vector3 { x: c0.x + radius, y: c0.y + radius, z: c0.z + radius },
        };
        let box1 = Aabb {
            minimum: Vector3 { x: c1.x - radius, y: c1.y - radius, z: c1.z - radius },
            maximum: Vector3 { x: c1.x + radius, y: c1.y + radius, z: c1.z + radius },
        };
        Some(Aabb::surrounding_box(&box0, &box1))
    }
}

/// `sin^2 <= den^2` bounds both rotation coefficients by `den`.
proof fn lemma_abs_le_of_sq(s: int, c: int, den: int)
    by (nonlinear_arith)
    requires
        den >= 1,
        s * s + c * c <= den * den,
    ensures
        -den <= s <= den,
        -den <= c <= den,
{
}

/// The interpolated centre reproduces the keyframes at the keyframe
/// times, whichever way round they come.
proof fn lemma_lerp_ends(c0: i64, c1: i64, t0: i64, t1: i64)
    requires
        t0 != t1,
    ensures
        lerp_coord(c0, c1, t0, t1, t0) == c0,
        lerp_coord(c0, c1, t0, t1, t1) == c1,
{
    if t0 < t1 {
        lemma_lerp_ends_ordered(c0, c1, t0, t1);
    } else {
        lemma_lerp_ends_ordered(c1, c0, t1, t0);
    }
}

/// The ordered half of `lemma_lerp_ends`.
proof fn lemma_lerp_ends_ordered(ca: i64, cb: i64, ta: i64, tb: i64)
    requires
        ta < tb,
    ensures
        ca + ((cb - ca) * (ta - ta)) / (tb - ta) == ca,
        ca + ((cb - ca) * (tb - ta)) / (tb - ta) == cb,
{
    assert(((cb - ca) * (ta - ta)) == 0) by (nonlinear_arith);
    assert(0int / (tb - ta) == 0) by {
        lemma_div_from_bounds(0, tb - ta, 0);
    }
    assert(((cb - ca) * (tb - ta)) / (tb - ta) == cb - ca) by {
        assert((cb - ca) * (tb - ta) >= (cb - ca) * (tb - ta)) by (nonlinear_arith);
        assert((cb - ca) * (tb - ta) < ((cb - ca) + 1) * (tb - ta)) by (nonlinear_arith)
            requires
                tb - ta >= 1,
        ;
        lemma_div_from_bounds((cb - ca) * (tb - ta), tb - ta, cb - ca);
    }
}



// ---------------------------------------------------------------------
// Scene-level linear dispatch.
// ---------------------------------------------------------------------

pub open spec fn all_wf(s: Seq<Hittable>) -> bool {
    forall|i: int| 0 <= i < s.len() ==> hittable_wf(#[trigger] s[i])
}

pub open spec fn all_deterministic(s: Seq<Hittable>) -> bool {
    forall|i: int| 0 <= i < s.len() ==> deterministic(#[trigger] s[i])
}

/// What the linear scan returns: each member queried in order with the
/// best `t` so far as the upper bound, the last success winning.
pub open spec fn scan_model(s: Seq<Hittable>, r: Ray, t_min: int, t_max: int) -> Option<
    HitRecord,
>
    decreases s.len(),
{
    if s.len() == 0 {
        None
    } else {
        match hit_model(s[0], r, t_min, t_max) {
            Some(rec) => match scan_model(s.drop_first(), r, t_min, rec.t as int) {
                Some(r2) => Some(r2),
                None => Some(rec),
            },
            None => scan_model(s.drop_first(), r, t_min, t_max),
        }
    }
}

/// The nearest hit over an unordered list of primitives, found by a
/// single scan with a shrinking "closest so far" upper bound.
pub fn hit_hittables(hittables: &Vec<Hittable>, ray: &Ray, t_min: i64, t_max: i64) -> (res:
    Option<HitRecord>)
    requires
        all_wf(hittables@),
        ray_wf(*ray),
        bounded(t_min as int, T_QUERY_MAX as int),
        bounded(t_max as int, T_QUERY_MAX as int),
    ensures
        all_deterministic(hittables@) ==> res == scan_model(hittables@, *ray, t_min as int,
            t_max as int),
        res matches Some(rec) ==> t_min <= rec.t <= t_max,
{
    let ghost full = hittables@;
    let mut closest_so_far: i64 = t_max;
    let mut rec: Option<HitRecord> = None;
    let n = hittables.len();
    proof {
        assert(full.skip(0) =~= full);
    }
    let mut idx: usize = 0;
    while idx < n
        invariant
            n == full.len(),
            hittables@ == full,
            all_wf(full),
            ray_wf(*ray),
            bounded(t_min as int, T_QUERY_MAX as int),
            bounded(t_max as int, T_QUERY_MAX as int),
            0 <= idx <= n,
            match rec {
                Some(r0) => closest_so_far == r0.t && t_min <= r0.t <= t_max,
                None => closest_so_far == t_max,
            },
            all_deterministic(full) ==> scan_model(full, *ray, t_min as int, t_max as int)
                == (match scan_model(full.skip(idx as int), *ray, t_min as int,
                closest_so_far as int) {
                Some(r2) => Some(r2),
                None => rec,
            }),
        decreases n - idx,
    {
        let h = &hittables[idx];
        let ghost prev_rec = rec;
        let ghost prev_closest = closest_so_far;
        let this = h.hit(ray, t_min, closest_so_far);
        if let Some(record) = this {
            closest_so_far = record.t;
            rec = Some(record);
        }
        proof {
            assert(full.skip(idx as int).drop_first() =~= full.skip(idx as int + 1));
            assert(full.skip(idx as int)[0] == full[idx as int]);
        }
        idx = idx + 1;
    }
    proof {
        assert(full.skip(n as int) =~= Seq::<Hittable>::empty());
    }
    rec
}

/// Left fold of box unions over a suffix, starting from `acc`; fails
/// as soon as a member has no box.
pub open spec fn fold_bbox(acc: Aabb, s: Seq<Hittable>, time_0: i64, time_1: i64) -> Option<
    Aabb,
>
    decreases s.len(),
{
    if s.len() == 0 {
        Some(acc)
    } else {
        match bbox_model(s[0], time_0, time_1) {
            None => None,
            Some(b) => fold_bbox(crate::aabb::box_union(acc, b), s.drop_first(), time_0,
                time_1),
        }
    }
}

/// Union of every member's bounding box over the list, or nothing when
/// the list is empty or any member is unbounded.
pub open spec fn list_bbox_model(s: Seq<Hittable>, time_0: i64, time_1: i64) -> Option<Aabb> {
    if s.len() == 0 {
        None
    } else {
        match bbox_model(s[0], time_0, time_1) {
            None => None,
            Some(b) => fold_bbox(b, s.drop_first(), time_0, time_1),
        }
    }
}

/// Bounding box of a whole list: the union of every member's box.
pub fn hittables_bounding_box(hittables: &Vec<Hittable>, time_0: i64, time_1: i64) -> (res:
    Option<Aabb>)
    requires
        all_wf(hittables@),
        bounded(time_0 as int, COORD_MAX as int),
        bounded(time_1 as int, COORD_MAX as int),
    ensures
        res == list_bbox_model(hittables@, time_0, time_1),
        res matches Some(b) ==> aabb_wf(b),
{
    let ghost full = hittables@;
    let n = hittables.len();
    if n == 0 {
        return None;
    }
    let mut acc: Aabb;
    match hittables[0].bounding_box(time_0, time_1) {
        None => {
            return None;
        },
        Some(b) => {
            acc = b;
        },
    }
    proof {
        assert(full.skip(1) =~= full.drop_first());
    }
    let mut idx: usize = 1;
    while idx < n
        invariant
            n == full.len(),
            hittables@ == full,
            all_wf(full),
            bounded(time_0 as int, COORD_MAX as int),
            bounded(time_1 as int, COORD_MAX as int),
            1 <= idx <= n,
            aabb_wf(acc),
            list_bbox_model(full, time_0, time_1) == fold_bbox(acc, full.skip(idx as int),
                time_0, time_1),
        decreases n - idx,
    {
        let h = &hittables[idx];
        proof {
            assert(full.skip(idx as int).drop_first() =~= full.skip(idx as int + 1));
            assert(full.skip(idx as int)[0] == full[idx as int]);
        }
        match h.bounding_box(time_0, time_1) {
            None => {
                return None;
            },
            Some(b) => {
                acc = Aabb::surrounding_box(&acc, &b);
            },
        }
        idx = idx + 1;
    }
    proof {
        assert(full.skip(n as int) =~= Seq::<Hittable>::empty());
    }
    Some(acc)
}

// ---------------------------------------------------------------------
// Construction: composite shapes and the BVH builder.
// ---------------------------------------------------------------------

impl Clone for Hittable {
    /// Deep copy; the copy is equal to the original.
    fn clone(&self) -> (r: Self)
        ensures
            r == *self,
        decreases self,
    {
        match self {
            Hittable::Sphere { mat_handle, center, radius } => Hittable::Sphere {
                mat_handle: *mat_handle,
                center: *center,
                radius: *radius,
            },
            Hittable::MovingSphere { mat_handle, center_0, center_1, time_0, time_1, radius }
                => Hittable::MovingSphere {
                mat_handle: *mat_handle,
                center_0: *center_0,
                center_1: *center_1,
                time_0: *time_0,
                time_1: *time_1,
                radius: *radius,
            },
            Hittable::BvhNode { left, right, aabb_box } => Hittable::BvhNode {
                left: Box::new((**left).clone()),
                right: Box::new((**right).clone()),
                aabb_box: *aabb_box,
            },
            Hittable::XYRect { mat_handle, x0, x1, y0, y1, k } => Hittable::XYRect {
                mat_handle: *mat_handle,
                x0: *x0,
                x1: *x1,
                y0: *y0,
                y1: *y1,
                k: *k,
            },
            Hittable::XZRect { mat_handle, x0, x1, z0, z1, k } => Hittable::XZRect {
                mat_handle: *mat_handle,
                x0: *x0,
                x1: *x1,
                z0: *z0,
                z1: *z1,
                k: *k,
            },
            Hittable::YZRect { mat_handle, y0, y1, z0, z1, k } => Hittable::YZRect {
                mat_handle: *mat_handle,
                y0: *y0,
                y1: *y1,
                z0: *z0,
                z1: *z1,
                k: *k,
            },
            Hittable::BoxShape { mat_handle, min, max } => Hittable::BoxShape {
                mat_handle: *mat_handle,
                min: *min,
                max: *max,
            },
            Hittable::Translate { offset, ptr } => Hittable::Translate {
                offset: *offset,
                ptr: Box::new((**ptr).clone()),
            },
            Hittable::RotateY { sin_num, cos_num, denom, has_box, bbox, ptr } =>
                Hittable::RotateY {
                sin_num: *sin_num,
                cos_num: *cos_num,
                denom: *denom,
                has_box: *has_box,
                bbox: *bbox,
                ptr: Box::new((**ptr).clone()),
            },
            Hittable::ConstantMedium { phase_function, boundary, survive_per_step } =>
                Hittable::ConstantMedium {
                phase_function: *phase_function,
                boundary: Box::new((**boundary).clone()),
                survive_per_step: *survive_per_step,
            },
        }
    }
}

/// Sort key for BVH partitioning: the minimum corner of the primitive's
/// box along the chosen axis, with a degenerate zero stand-in for a
/// boxless primitive.
pub open spec fn min_corner_axis(h: Hittable, axis: u8) -> int {
    match bbox_model(h, 0, 1) {
        Some(b) => crate::math::axis_spec(b.minimum, axis),
        None => 0,
    }
}

/// Order two primitives by the minimum corner of their boxes along one
/// axis; a primitive without a box sorts as if at the origin.
pub fn box_compare(a: &Hittable, b: &Hittable, axis: u8) -> (r: bool)
    requires
        hittable_wf(*a),
        hittable_wf(*b),
    ensures
        r == (min_corner_axis(*a, axis) <= min_corner_axis(*b, axis)),
{
    let ba = a.bounding_box(0, 1);
    let bb = b.bounding_box(0, 1);
    let va: i64 = match ba {
        Some(bx) => bx.minimum.axis(axis),
        None => 0,
    };
    let vb: i64 = match bb {
        Some(bx) => bx.minimum.axis(axis),
        None => 0,
    };
    va <= vb
}

/// Copies of the members of `[start, end)`, in order.
fn clone_range(v: &Vec<Hittable>, start: usize, end: usize) -> (r: Vec<Hittable>)
    requires
        start <= end <= v.len(),
    ensures
        r@ == v@.subrange(start as int, end as int),
{
    let mut out: Vec<Hittable> = Vec::new();
    let mut i = start;
    while i < end
        invariant
            start <= i <= end <= v.len(),
            out@ == v@.subrange(start as int, i as int),
        decreases end - i,
    {
        out.push(v[i].clone());
        proof {
            assert(out@ =~= v@.subrange(start as int, i as int + 1));
        }
        i = i + 1;
    }
    out
}

/// Selection sort by the axis comparator: a permutation of the input,
/// ordered by the minimum box corner along the chosen axis.
fn sort_by_axis(v: Vec<Hittable>, axis: u8) -> (r: Vec<Hittable>)
    requires
        all_wf(v@),
    ensures
        all_wf(r@),
        r@.len() == v@.len(),
        r@.to_multiset() == v@.to_multiset(),
        forall|i: int, j: int|
            0 <= i <= j < r@.len() ==> min_corner_axis(#[trigger] r@[i], axis)
                <= min_corner_axis(#[trigger] r@[j], axis),
{
    broadcast use vstd::seq_lib::group_to_multiset_ensures;
    broadcast use vstd::multiset::group_multiset_axioms;

    let ghost orig = v@;
    let mut src = v;
    let mut out: Vec<Hittable> = Vec::new();
    proof {
        assert(out@.to_multiset().add(src@.to_multiset()) =~= orig.to_multiset());
    }
    while src.len() > 0
        invariant
            all_wf(src@),
            all_wf(out@),
            out@.len() + src@.len() == orig.len(),
            out@.to_multiset().add(src@.to_multiset()) == orig.to_multiset(),
            forall|i: int, j: int|
                0 <= i <= j < out@.len() ==> min_corner_axis(#[trigger] out@[i], axis)
                    <= min_corner_axis(#[trigger] out@[j], axis),
            forall|i: int, k: int|
                0 <= i < out@.len() && 0 <= k < src@.len() ==> min_corner_axis(
                    #[trigger] out@[i],
                    axis,
                ) <= min_corner_axis(#[trigger] src@[k], axis),
        decreases src.len(),
    {
        let mut mi: usize = 0;
        let mut j: usize = 1;
        while j < src.len()
            invariant
                src.len() > 0,
                0 <= mi < src@.len(),
                1 <= j <= src@.len(),
                all_wf(src@),
                forall|k: int|
                    0 <= k < j ==> min_corner_axis(src@[mi as int], axis) <= min_corner_axis(
                        #[trigger] src@[k],
                        axis,
                    ),
            decreases src.len() - j,
        {
            if box_compare(&src[j], &src[mi], axis) {
                mi = j;
            }
            j = j + 1;
        }
        let ghost before = src@;
        let ghost bout = out@;
        let x = src.remove(mi);
        out.push(x);
        proof {
            assert(before.contains(before[mi as int]));
            vstd::seq_lib::to_multiset_contains(before, x);
            vstd::seq_lib::to_multiset_build(bout, x);
            vstd::seq_lib::to_multiset_remove(before, mi as int);
            assert(before.to_multiset().count(x) > 0);
            assert(out@.to_multiset() == bout.to_multiset().insert(x));
            assert(src@.to_multiset() == before.to_multiset().remove(x));
            assert(out@.to_multiset().add(src@.to_multiset()) =~= orig.to_multiset());
            assert forall|i: int| 0 <= i < src@.len() implies hittable_wf(#[trigger] src@[i])
                by {
                if i < mi {
                    assert(src@[i] == before[i]);
                } else {
                    assert(src@[i] == before[i + 1]);
                }
            }
            assert forall|i: int, k: int|
                0 <= i < out@.len() && 0 <= k < src@.len() implies min_corner_axis(
                #[trigger] out@[i],
                axis,
            ) <= min_corner_axis(#[trigger] src@[k], axis) by {
                if k < mi {
                    assert(src@[k] == before[k]);
                } else {
                    assert(src@[k] == before[k + 1]);
                }
                if i < bout.len() {
                    assert(out@[i] == bout[i]);
                } else {
                    assert(out@[i] == x);
                }
            }
            assert forall|i: int, j2: int|
                0 <= i <= j2 < out@.len() implies min_corner_axis(#[trigger] out@[i], axis)
                <= min_corner_axis(#[trigger] out@[j2], axis) by {
                if j2 < bout.len() {
                    assert(out@[i] == bout[i] && out@[j2] == bout[j2]);
                } else {
                    assert(out@[j2] == x && x == before[mi as int]);
                    if i < bout.len() {
                        assert(out@[i] == bout[i]);
                    }
                }
            }
        }
    }
    proof {
        assert(src@.to_multiset() =~= Multiset::<Hittable>::empty());
        assert(out@.to_multiset() =~= orig.to_multiset());
    }
    out
}

/// Ceiling of `n / d` for a positive divisor, as a spec value.
pub open spec fn div_up(n: int, d: int) -> int {
    -((-n) / d)
}

/// The box a Y-rotation stores for a child box `cb`: the ranges of the
/// forward-rotated coordinates `(cos*x + sin*z)/den` and
/// `(-sin*x + cos*z)/den` over the corners of `cb`, floor/ceiling
/// rounded — the same map `hit` applies to local hit points — or
/// nothing when the rotated extent leaves the representable range.
pub open spec fn rotate_y_box_model(sin_num: i64, cos_num: i64, denom: i64, cb: Aabb) -> Option<
    Aabb,
> {
    let cx0 = cos_num * cb.minimum.x;
    let cx1 = cos_num * cb.maximum.x;
    let sz0 = sin_num * cb.minimum.z;
    let sz1 = sin_num * cb.maximum.z;
    let sx0 = sin_num * cb.minimum.x;
    let sx1 = sin_num * cb.maximum.x;
    let cz0 = cos_num * cb.minimum.z;
    let cz1 = cos_num * cb.maximum.z;
    let xnum_min = (if cx0 < cx1 { cx0 } else { cx1 }) + (if sz0 < sz1 { sz0 } else { sz1 });
    let xnum_max = (if cx0 > cx1 { cx0 } else { cx1 }) + (if sz0 > sz1 { sz0 } else { sz1 });
    let znum_min = (if -sx0 < -sx1 { -sx0 } else { -sx1 }) + (if cz0 < cz1 { cz0 } else { cz1 });
    let znum_max = (if -sx0 > -sx1 { -sx0 } else { -sx1 }) + (if cz0 > cz1 { cz0 } else { cz1 });
    let xmin = xnum_min / (denom as int);
    let xmax = div_up(xnum_max, denom as int);
    let zmin = znum_min / (denom as int);
    let zmax = div_up(znum_max, denom as int);
    if -(crate::aabb::BOX_MAX as int) <= xmin && xmax <= crate::aabb::BOX_MAX as int && -(
    crate::aabb::BOX_MAX as int) <= zmin && zmax <= crate::aabb::BOX_MAX as int && xmin <= xmax
        && zmin <= zmax {
        Some(Aabb {
            minimum: Vector3 { x: xmin as i64, y: cb.minimum.y, z: zmin as i64 },
            maximum: Vector3 { x: xmax as i64, y: cb.maximum.y, z: zmax as i64 },
        })
    } else {
        None
    }
}

/// Ceiling quotient from its bounds, as the spec `div_up`.
proof fn lemma_div_up_from_bounds(n: int, d: int, q: int)
    requires
        d >= 1,
        (q - 1) * d < n <= q * d,
    ensures
        q == div_up(n, d),
{
    assert((-q) * d <= -n < (-q + 1) * d) by (nonlinear_arith)
        requires
            (q - 1) * d < n <= q * d,
    ;
    lemma_div_from_bounds(-n, d, -q);
}

impl Hittable {
    /// An axis-aligned box spanning `min` to `max`; its six faces answer
    /// the intersection query.
    pub fn new_box(min: Vector3, max: Vector3, mat_handle: MaterialHandle) -> (h: Hittable)
        requires
            min.x <= max.x,
            min.y <= max.y,
            min.z <= max.z,
            vec_bounded(min, COORD_MAX as int),
            vec_bounded(max, COORD_MAX as int),
        ensures
            h == (Hittable::BoxShape { mat_handle, min, max }),
            hittable_wf(h),
    {
        Hittable::BoxShape { mat_handle, min, max }
    }

    /// A homogeneous medium bounded by a closed shape; per unit step of
    /// the ray parameter inside the boundary, the ray survives with
    /// probability `survive_per_step / FRACTION_ONE`.  The convention is
    /// per parameter step, not per physical path length: fold the
    /// direction length into the survival probability where a
    /// per-distance density is meant.
    pub fn new_constant_medium(hittable: Hittable, survive_per_step: u32,
        mat_handle: MaterialHandle) -> (h: Hittable)
        requires
            hittable_wf(hittable),
            survive_per_step < crate::math::FRACTION_ONE,
        ensures
            h matches Hittable::ConstantMedium { phase_function, boundary, survive_per_step:
                sp } && phase_function == mat_handle && *boundary == hittable && sp
                == survive_per_step,
            hittable_wf(h),
    {
        Hittable::ConstantMedium {
            phase_function: mat_handle,
            boundary: Box::new(hittable),
            survive_per_step,
        }
    }

    /// A child rotated about the Y axis.  The rotation is the rational
    /// `(cos_num/denom, sin_num/denom)`; the stored box is the child's
    /// box with its corners taken through the forward rotation that
    /// `hit` applies to local hit points, absent when the child is
    /// unbounded or the rotated extent leaves range.
    #[verifier::rlimit(40)]
    pub fn new_rotate_y(sin_num: i64, cos_num: i64, denom: i64, hittable: Hittable) -> (h:
        Hittable)
        requires
            hittable_wf(hittable),
            1 <= denom <= 65536,
            sin_num * sin_num + cos_num * cos_num <= denom * denom,
        ensures
            h matches Hittable::RotateY { sin_num: s, cos_num: c, denom: d, has_box, bbox,
                ptr } && s == sin_num && c == cos_num && d == denom && *ptr == hittable && {
                match bbox_model(hittable, 0, 1) {
                    None => !has_box && bbox == (Aabb {
                        minimum: Vector3 { x: 0i64, y: 0i64, z: 0i64 },
                        maximum: Vector3 { x: 0i64, y: 0i64, z: 0i64 },
                    }),
                    Some(cb) => match rotate_y_box_model(sin_num, cos_num, denom, cb) {
                        None => !has_box && bbox == (Aabb {
                            minimum: Vector3 { x: 0i64, y: 0i64, z: 0i64 },
                            maximum: Vector3 { x: 0i64, y: 0i64, z: 0i64 },
                        }),
                        Some(b) => has_box && bbox == b,
                    },
                }
            },
            hittable_wf(h),
    {
        proof {
            lemma_abs_le_of_sq(sin_num as int, cos_num as int, denom as int);
        }
        let zero_box = Aabb {
            minimum: Vector3 { x: 0, y: 0, z: 0 },
            maximum: Vector3 { x: 0, y: 0, z: 0 },
        };
        let has_box: bool;
        let bbox: Aabb;
        match hittable.bounding_box(0, 1) {
            None => {
                has_box = false;
                bbox = zero_box;
            },
            Some(child_box) => {
                let bm = crate::aabb::BOX_MAX as i128;
                let sn = sin_num as i128;
                let cn = cos_num as i128;
                let den = denom as i128;
                proof {
                    lemma_mul_bound2(cos_num as int, child_box.minimum.x as int, 65536,
                        crate::aabb::BOX_MAX as int);
                    lemma_mul_bound2(cos_num as int, child_box.maximum.x as int, 65536,
                        crate::aabb::BOX_MAX as int);
                    lemma_mul_bound2(sin_num as int, child_box.minimum.z as int, 65536,
                        crate::aabb::BOX_MAX as int);
                    lemma_mul_bound2(sin_num as int, child_box.maximum.z as int, 65536,
                        crate::aabb::BOX_MAX as int);
                    lemma_mul_bound2(sin_num as int, child_box.minimum.x as int, 65536,
                        crate::aabb::BOX_MAX as int);
                    lemma_mul_bound2(sin_num as int, child_box.maximum.x as int, 65536,
                        crate::aabb::BOX_MAX as int);
                    lemma_mul_bound2(cos_num as int, child_box.minimum.z as int, 65536,
                        crate::aabb::BOX_MAX as int);
                    lemma_mul_bound2(cos_num as int, child_box.maximum.z as int, 65536,
                        crate::aabb::BOX_MAX as int);
                }
                let cx0 = cn * (child_box.minimum.x as i128);
                let cx1 = cn * (child_box.maximum.x as i128);
                let sz0 = sn * (child_box.minimum.z as i128);
                let sz1 = sn * (child_box.maximum.z as i128);
                let sx0 = sn * (child_box.minimum.x as i128);
                let sx1 = sn * (child_box.maximum.x as i128);
                let cz0 = cn * (child_box.minimum.z as i128);
                let cz1 = cn * (child_box.maximum.z as i128);
                let xnum_min = (if cx0 < cx1 { cx0 } else { cx1 }) + (if sz0 < sz1 { sz0 } else {
                    sz1
                });
                let xnum_max = (if cx0 > cx1 { cx0 } else { cx1 }) + (if sz0 > sz1 { sz0 } else {
                    sz1
                });
                let znum_min = (if -sx0 < -sx1 { -sx0 } else { -sx1 }) + (if cz0 < cz1 { cz0
                } else {
                    cz1
                });
                let znum_max = (if -sx0 > -sx1 { -sx0 } else { -sx1 }) + (if cz0 > cz1 { cz0
                } else {
                    cz1
                });
                let xmin = div_floor(xnum_min, den);
                let xmax = div_ceil(xnum_max, den);
                let zmin = div_floor(znum_min, den);
                let zmax = div_ceil(znum_max, den);
                proof {
                    lemma_div_from_bounds(xnum_min as int, den as int, xmin as int);
                    lemma_div_up_from_bounds(xnum_max as int, den as int, xmax as int);
                    lemma_div_from_bounds(znum_min as int, den as int, zmin as int);
                    lemma_div_up_from_bounds(znum_max as int, den as int, zmax as int);
                }
                if xmin < -bm || xmax > bm || zmin < -bm || zmax > bm || xmin > xmax || zmin
                    > zmax {
                    has_box = false;
                    bbox = zero_box;
                } else {
                    has_box = true;
                    bbox = Aabb {
                        minimum: Vector3 { x: xmin as i64, y: child_box.minimum.y, z: zmin
                            as i64 },
                        maximum: Vector3 { x: xmax as i64, y: child_box.maximum.y, z: zmax
                            as i64 },
                    };
                }
            },
        }
        Hittable::RotateY {
            sin_num,
            cos_num,
            denom,
            has_box,
            bbox,
            ptr: Box::new(hittable),
        }
    }

    /// Recursive median-split BVH build over `[start, end)`: a random
    /// axis orders the span, the two halves become subtrees, and the
    /// node's box is the union of theirs (degenerate when a child is
    /// unbounded).  A span of one duplicates its primitive as both
    /// children, keeping every node binary; a span of two is ordered by
    /// the axis comparator.
    pub fn new_bvh_node(list: &Vec<Hittable>, start: usize, end: usize, time_0: i64,
        time_1: i64) -> (h: Hittable)
        requires
            all_wf(list@),
            start < end <= list.len(),
            bounded(time_0 as int, COORD_MAX as int),
            bounded(time_1 as int, COORD_MAX as int),
        ensures
            hittable_wf(h),
            h matches Hittable::BvhNode { left, right, aabb_box } && (bbox_model(*left,
                time_0, time_1) matches Some(bl) ==> (bbox_model(*right, time_0, time_1)
                matches Some(br) ==> aabb_box == crate::aabb::box_union(bl, br))),
            h matches Hittable::BvhNode { left, right, aabb_box } && ((bbox_model(*left,
                time_0, time_1) is None || bbox_model(*right, time_0, time_1) is None)
                ==> aabb_box == (Aabb {
                minimum: Vector3 { x: 0i64, y: 0i64, z: 0i64 },
                maximum: Vector3 { x: 0i64, y: 0i64, z: 0i64 },
            })),
            end - start == 1 ==> (h matches Hittable::BvhNode { left, right, .. } && *left
                == list@[start as int] && *right == list@[start as int]),
            end - start == 2 ==> (h matches Hittable::BvhNode { left, right, .. } && ((*left
                == list@[start as int] && *right == list@[start as int + 1]) || (*left
                == list@[start as int + 1] && *right == list@[start as int])) && (exists|
                ax: u8,
            |
                #[trigger] min_corner_axis(*left, ax) <= min_corner_axis(*right, ax))),
            (forall|i: int| start <= i < end ==> !((#[trigger] list@[i]) is BvhNode)) ==> (
            forall|x: Hittable|
                #[trigger] leaf_seq(h).contains(x) <==> list@.subrange(start as int,
                end as int).contains(x)),
        decreases end - start,
    {
        let ghost sub0 = list@.subrange(start as int, end as int);
        let ghost no_nodes = forall|i: int|
            start <= i < end ==> !((#[trigger] list@[i]) is BvhNode);
        let axis_i = crate::math::random_int_range(0, 2);
        let axis: u8 = if axis_i == 0 {
            0
        } else if axis_i == 1 {
            1
        } else {
            2
        };
        let span = end - start;
        let sub = clone_range(list, start, end);
        proof {
            assert forall|i: int| 0 <= i < sub@.len() implies hittable_wf(#[trigger] sub@[i])
                by {
                assert(sub@[i] == list@[start + i]);
            }
        }
        let l: Hittable;
        let r: Hittable;
        if span == 1 {
            l = sub[0].clone();
            r = sub[0].clone();
            proof {
                assert(l == sub0[0] && sub0[0] == list@[start as int]);
                if no_nodes {
                    assert(!(list@[start as int] is BvhNode));
                    assert(leaf_seq(l) =~= seq![l]);
                    assert forall|x: Hittable|
                        #[trigger] (leaf_seq(l) + leaf_seq(r)).contains(x) <==> sub0.contains(
                        x) by {
                        vstd::seq_lib::lemma_seq_concat_contains_all_elements(leaf_seq(l),
                            leaf_seq(r), x);
                        if seq![l].contains(x) {
                            let i = choose|i: int| 0 <= i < 1 && seq![l][i] == x;
                            assert(x == l);
                        }
                        if sub0.contains(x) {
                            let i = choose|i: int| 0 <= i < sub0.len() && sub0[i] == x;
                            assert(x == l);
                        }
                        if x == l {
                            assert(seq![l][0] == x);
                            assert(sub0[0] == x);
                        }
                    }
                }
            }
        } else if span == 2 {
            if box_compare(&sub[0], &sub[1], axis) {
                l = sub[0].clone();
                r = sub[1].clone();
            } else {
                l = sub[1].clone();
                r = sub[0].clone();
            }
            proof {
                assert(min_corner_axis(l, axis) <= min_corner_axis(r, axis));
                assert(sub0[0] == list@[start as int] && sub0[1] == list@[start as int + 1]);
                if no_nodes {
                    assert(!(list@[start as int] is BvhNode) && !(list@[start as int + 1]
                        is BvhNode));
                    assert(leaf_seq(l) =~= seq![l] && leaf_seq(r) =~= seq![r]);
                    assert forall|x: Hittable|
                        #[trigger] (leaf_seq(l) + leaf_seq(r)).contains(x) <==> sub0.contains(
                        x) by {
                        vstd::seq_lib::lemma_seq_concat_contains_all_elements(leaf_seq(l),
                            leaf_seq(r), x);
                        if seq![l].contains(x) {
                            let i = choose|i: int| 0 <= i < 1 && seq![l][i] == x;
                        }
                        if seq![r].contains(x) {
                            let i = choose|i: int| 0 <= i < 1 && seq![r][i] == x;
                        }
                        if sub0.contains(x) {
                            let i = choose|i: int| 0 <= i < sub0.len() && sub0[i] == x;
                            assert(x == sub0[0] || x == sub0[1]);
                        }
                        if x == l {
                            assert(seq![l][0] == x);
                        }
                        if x == r {
                            assert(seq![r][0] == x);
                        }
                        if x == sub0[0] {
                            assert(sub0[0] == x);
                        }
                        if x == sub0[1] {
                            assert(sub0[1] == x);
                        }
                    }
                }
            }
        } else {
            let ghost sub_v = sub@;
            let sorted = sort_by_axis(sub, axis);
            let ghost sorted_v = sorted@;
            let mid = span / 2;
            proof {
                if no_nodes {
                    assert forall|i: int| 0 <= i < sorted_v.len() implies !((
                    #[trigger] sorted_v[i]) is BvhNode) by {
                        assert(sorted_v[i] == sorted_v[i]);
                        assert(sorted_v.contains(sorted_v[i]));
                        vstd::seq_lib::to_multiset_contains(sorted_v, sorted_v[i]);
                        vstd::seq_lib::to_multiset_contains(sub_v, sorted_v[i]);
                        let j = choose|j: int| 0 <= j < sub_v.len() && sub_v[j] == sorted_v[i];
                        assert(sub_v[j] == list@[start + j]);
                    }
                }
            }
            l = Self::new_bvh_node(&sorted, 0, mid, time_0, time_1);
            r = Self::new_bvh_node(&sorted, mid, span, time_0, time_1);
            proof {
                if no_nodes {
                    assert forall|x: Hittable|
                        #[trigger] (leaf_seq(l) + leaf_seq(r)).contains(x) <==> sub0.contains(
                        x) by {
                        vstd::seq_lib::lemma_seq_concat_contains_all_elements(leaf_seq(l),
                            leaf_seq(r), x);
                        lemma_subrange_split_contains(sorted_v, mid as int, x);
                        vstd::seq_lib::to_multiset_contains(sorted_v, x);
                        vstd::seq_lib::to_multiset_contains(sub_v, x);
                    }
                }
            }
        }
        let aabb_box: Aabb;
        let lb = l.bounding_box(time_0, time_1);
        let rb = r.bounding_box(time_0, time_1);
        match (lb, rb) {
            (Some(bl), Some(br)) => {
                aabb_box = Aabb::surrounding_box(&bl, &br);
            },
            _ => {
                aabb_box = Aabb {
                    minimum: Vector3 { x: 0, y: 0, z: 0 },
                    maximum: Vector3 { x: 0, y: 0, z: 0 },
                };
            },
        }
        proof {
            assert(bbox_model(l, time_0, time_1) matches Some(bl) ==> (bbox_model(r, time_0,
                time_1) matches Some(br) ==> aabb_box == crate::aabb::box_union(bl, br)));
        }
        let node = Hittable::BvhNode { left: Box::new(l), right: Box::new(r), aabb_box };
        proof {
            assert(node matches Hittable::BvhNode { left, right, .. } && *left == l && *right
                == r);
            assert(leaf_seq(node) == leaf_seq(l) + leaf_seq(r));
            if no_nodes {
                assert forall|x: Hittable| #[trigger] leaf_seq(node).contains(x)
                    <==> list@.subrange(start as int, end as int).contains(x) by {
                    assert((leaf_seq(l) + leaf_seq(r)).contains(x) <==> sub0.contains(x));
                }
            }
        }
        node
    }
}

} // verus!
