//! General properties of the intersection engine, stated and proved
//! once for all inputs: when a sphere must be hit, how the discriminant
//! classifies tangency and misses, that the union of two boxes is the
//! tightest box containing both, and that rigid transforms round-trip.

use vstd::prelude::*;

verus! {

use crate::math::{Vector3, bounded, vec_bounded, dot_spec};
use crate::math::DIR_MAX;
use crate::math::{COORD_MAX, ORIGIN_MAX, T_QUERY_MAX};
use crate::ray::{Ray, ray_x, ray_y, ray_z};
use crate::aabb::{Aabb, aabb_wf, box_union, box_encloses, contains_point};
use crate::hittable::{Hittable, MaterialHandle, in_ball, first_ball_t, sphere_model,
    rect_xy_model, hit_model, lemma_ball_quadratic, lemma_ball_empty};

/// Quadratic coefficient `a` of the ray/sphere equation: the squared
/// direction length.
pub open spec fn sphere_a(r: Ray) -> int {
    dot_spec(r.direction, r.direction)
}

/// Quadratic coefficient `half_b`: the offset-to-centre dotted with the
/// direction.
pub open spec fn sphere_half_b(center: Vector3, r: Ray) -> int {
    (r.origin.x - center.x) * r.direction.x + (r.origin.y - center.y) * r.direction.y + (
    r.origin.z - center.z) * r.direction.z
}

/// Quadratic coefficient `c`: the squared offset minus the squared
/// radius.
pub open spec fn sphere_c(center: Vector3, radius: i64, r: Ray) -> int {
    (r.origin.x - center.x) * (r.origin.x - center.x) + (r.origin.y - center.y) * (r.origin.y
        - center.y) + (r.origin.z - center.z) * (r.origin.z - center.z) - radius * radius
}

/// Discriminant of the ray/sphere quadratic in its half-angle form.
pub open spec fn sphere_discriminant(center: Vector3, radius: i64, r: Ray) -> int {
    sphere_half_b(center, r) * sphere_half_b(center, r) - sphere_a(r) * sphere_c(center,
        radius, r)
}

/// The scan over `[t0, t_max]` succeeds when any ball parameter lies in
/// the range.
proof fn lemma_first_ball_finds(center: Vector3, radius: i64, r: Ray, t0: int, t_max: int,
    w: int)
    requires
        t0 <= w <= t_max,
        in_ball(center, radius, r, w),
    ensures
        first_ball_t(center, radius, r, t0, t_max) is Some,
    decreases w - t0,
{
    if !in_ball(center, radius, r, t0) {
        lemma_first_ball_finds(center, radius, r, t0 + 1, t_max, w);
    }
}

/// What the scan returns lies in the range and in the ball.
proof fn lemma_first_ball_props(center: Vector3, radius: i64, r: Ray, t0: int, t_max: int)
    ensures
        first_ball_t(center, radius, r, t0, t_max) matches Some(u) ==> t0 <= u <= t_max
            && in_ball(center, radius, r, u),
    decreases t_max + 1 - t0,
{
    if t0 <= t_max && !in_ball(center, radius, r, t0) {
        lemma_first_ball_props(center, radius, r, t0 + 1, t_max);
    }
}

/// A ray fired from outside a sphere straight at its centre hits it, at
/// a strictly positive parameter, and the reported parameter lands in
/// the closed ball.
pub proof fn lemma_aimed_ray_hits(mat_handle: MaterialHandle, center: Vector3, radius: i64,
    r: Ray, t_min: int, t_max: int)
    requires
        1 <= radius,
        bounded(t_min, T_QUERY_MAX as int),
        bounded(t_max, T_QUERY_MAX as int),
        sphere_c(center, radius, r) > 0,
        r.direction.x == center.x - r.origin.x,
        r.direction.y == center.y - r.origin.y,
        r.direction.z == center.z - r.origin.z,
        !(r.direction.x == 0 && r.direction.y == 0 && r.direction.z == 0),
        t_min <= 0,
        t_max >= 1,
    ensures
        sphere_model(mat_handle, center, radius, r, t_min, t_max) is Some,
        sphere_model(mat_handle, center, radius, r, t_min, t_max) matches Some(rec) ==> rec.t
            > 0 && in_ball(center, radius, r, rec.t as int),
{
    assert(ray_x(r, 1) == center.x);
    assert(ray_y(r, 1) == center.y);
    assert(ray_z(r, 1) == center.z);
    assert(in_ball(center, radius, r, 1)) by {
        assert((0int) * (0int) == 0) by (nonlinear_arith);
        assert(radius * radius >= 1) by (nonlinear_arith)
            requires
                radius >= 1,
        ;
    }
    lemma_first_ball_finds(center, radius, r, t_min + 1, t_max, 1);
    lemma_first_ball_props(center, radius, r, t_min + 1, t_max);
    let a = sphere_a(r);
    let hb = sphere_half_b(center, r);
    let cc = sphere_c(center, radius, r);
    assert(a >= 0 && hb <= 0) by (nonlinear_arith)
        requires
            a == r.direction.x * r.direction.x + r.direction.y * r.direction.y + r.direction.z
                * r.direction.z,
            hb == (r.origin.x - center.x) * r.direction.x + (r.origin.y - center.y)
                * r.direction.y + (r.origin.z - center.z) * r.direction.z,
            r.direction.x == center.x - r.origin.x,
            r.direction.y == center.y - r.origin.y,
            r.direction.z == center.z - r.origin.z,
    ;
    assert forall|t: int| t <= 0 implies !in_ball(center, radius, r, t) by {
        lemma_ball_quadratic(center, radius, r, a, hb, cc, t);
        assert(a * (t * t) + 2 * hb * t + cc > 0) by (nonlinear_arith)
            requires
                a >= 0,
                hb <= 0,
                cc > 0,
                t <= 0,
        ;
    }
}

/// A negative discriminant means the ray misses the sphere outright,
/// whatever the query range.
pub proof fn lemma_negative_discriminant_misses(mat_handle: MaterialHandle, center: Vector3,
    radius: i64, r: Ray, t_min: int, t_max: int)
    requires
        sphere_discriminant(center, radius, r) < 0,
        sphere_a(r) >= 1,
    ensures
        sphere_model(mat_handle, center, radius, r, t_min, t_max) is None,
        forall|t: int| !in_ball(center, radius, r, t),
{
    assert forall|t: int| !in_ball(center, radius, r, t) by {
        lemma_ball_empty(center, radius, r, sphere_a(r), sphere_half_b(center, r), sphere_c(
            center, radius, r), t);
    }
    if first_ball_t(center, radius, r, t_min + 1, t_max) is Some {
        lemma_first_ball_props(center, radius, r, t_min + 1, t_max);
    }
}

/// A zero discriminant leaves at most one ball parameter on the whole
/// ray: the tangent point is degenerate.
pub proof fn lemma_tangent_single_root(center: Vector3, radius: i64, r: Ray, t1: int, t2: int)
    requires
        sphere_discriminant(center, radius, r) == 0,
        sphere_a(r) >= 1,
        in_ball(center, radius, r, t1),
        in_ball(center, radius, r, t2),
    ensures
        t1 == t2,
{
    let a = sphere_a(r);
    let hb = sphere_half_b(center, r);
    let cc = sphere_c(center, radius, r);
    lemma_ball_quadratic(center, radius, r, a, hb, cc, t1);
    lemma_ball_quadratic(center, radius, r, a, hb, cc, t2);
    assert(t1 == t2) by (nonlinear_arith)
        requires
            a >= 1,
            hb * hb - a * cc == 0,
            a * (t1 * t1) + 2 * hb * t1 + cc <= 0,
            a * (t2 * t2) + 2 * hb * t2 + cc <= 0,
    ;
}

/// The union of two boxes contains both, and each of its faces lies on
/// one of the two inputs.
pub proof fn lemma_box_union_covers(a: Aabb, b: Aabb)
    requires
        aabb_wf(a),
        aabb_wf(b),
    ensures
        box_encloses(box_union(a, b), a),
        box_encloses(box_union(a, b), b),
        box_union(a, b).minimum.x == a.minimum.x || box_union(a, b).minimum.x == b.minimum.x,
        box_union(a, b).minimum.y == a.minimum.y || box_union(a, b).minimum.y == b.minimum.y,
        box_union(a, b).minimum.z == a.minimum.z || box_union(a, b).minimum.z == b.minimum.z,
        box_union(a, b).maximum.x == a.maximum.x || box_union(a, b).maximum.x == b.maximum.x,
        box_union(a, b).maximum.y == a.maximum.y || box_union(a, b).maximum.y == b.maximum.y,
        box_union(a, b).maximum.z == a.maximum.z || box_union(a, b).maximum.z == b.maximum.z,
{
}

/// The union of two boxes is the tightest box containing both: any box
/// that contains both contains the union.
pub proof fn lemma_box_union_tightest(a: Aabb, b: Aabb, outer: Aabb)
    requires
        aabb_wf(a),
        aabb_wf(b),
        box_encloses(outer, a),
        box_encloses(outer, b),
    ensures
        box_encloses(outer, box_union(a, b)),
{
}

/// An exact Y-rotation undoes itself: when both rotated coordinates
/// divide evenly, rotating a point into the local frame and back yields
/// the original point.
pub proof fn lemma_rotate_y_round_trip(sin_num: i64, cos_num: i64, denom: i64, x: i64, z: i64,
    xr: int, zr: int)
    requires
        1 <= denom,
        sin_num * sin_num + cos_num * cos_num == denom * denom,
        xr * denom == cos_num * x - sin_num * z,
        zr * denom == sin_num * x + cos_num * z,
    ensures
        (cos_num * xr + sin_num * zr) / (denom as int) == x,
        (-sin_num * xr + cos_num * zr) / (denom as int) == z,
{
    let sn = sin_num as int;
    let cn = cos_num as int;
    let dn = denom as int;
    let xi = x as int;
    let zi = z as int;
    assert((cn * xr + sn * zr) * dn == cn * (xr * dn) + sn * (zr * dn)) by (nonlinear_arith);
    assert(cn * (cn * xi - sn * zi) == (cn * cn) * xi - (cn * sn) * zi) by (nonlinear_arith);
    assert(sn * (sn * xi + cn * zi) == (sn * sn) * xi + (sn * cn) * zi) by (nonlinear_arith);
    assert((cn * sn) * zi == (sn * cn) * zi) by (nonlinear_arith);
    assert((cn * cn) * xi + (sn * sn) * xi == (cn * cn + sn * sn) * xi) by (nonlinear_arith);
    assert((cn * cn + sn * sn) * xi == (dn * dn) * xi) by (nonlinear_arith)
        requires
            cn * cn + sn * sn == dn * dn,
    ;
    assert((dn * dn) * xi == (xi * dn) * dn) by (nonlinear_arith);
    assert((cn * xr + sn * zr) * dn == (xi * dn) * dn);
    assert(cn * xr + sn * zr == xi * dn) by (nonlinear_arith)
        requires
            (cn * xr + sn * zr) * dn == (xi * dn) * dn,
            dn >= 1,
    ;
    assert((-sn * xr + cn * zr) * dn == (-sn) * (xr * dn) + cn * (zr * dn)) by (nonlinear_arith);
    assert((-sn) * (cn * xi - sn * zi) == -((sn * cn) * xi) + (sn * sn) * zi) by (nonlinear_arith);
    assert(cn * (sn * xi + cn * zi) == (cn * sn) * xi + (cn * cn) * zi) by (nonlinear_arith);
    assert(-((sn * cn) * xi) + (cn * sn) * xi == 0) by (nonlinear_arith);
    assert((sn * sn) * zi + (cn * cn) * zi == (cn * cn + sn * sn) * zi) by (nonlinear_arith);
    assert((cn * cn + sn * sn) * zi == (dn * dn) * zi) by (nonlinear_arith)
        requires
            cn * cn + sn * sn == dn * dn,
    ;
    assert((dn * dn) * zi == (zi * dn) * dn) by (nonlinear_arith);
    assert((-sn * xr + cn * zr) * dn == (zi * dn) * dn);
    assert(-sn * xr + cn * zr == zi * dn) by (nonlinear_arith)
        requires
            (-sn * xr + cn * zr) * dn == (zi * dn) * dn,
            dn >= 1,
    ;
    lemma_exact_div(xi, dn);
    lemma_exact_div(zi, dn);
}

/// `(q * d) / d == q` for a positive divisor.
proof fn lemma_exact_div(q: int, d: int)
    requires
        d >= 1,
    ensures
        (q * d) / d == q,
{
    assert(q * d <= q * d < (q + 1) * d) by (nonlinear_arith)
        requires
            d >= 1,
    ;
    vstd::arithmetic::div_mod::lemma_fundamental_div_mod_converse(q * d, d, q, 0);
}

/// Translating by `v` and then by `-v` is the identity on hit results
/// but for the face orientation, which is recomputed against the same
/// direction both times: parameter, point and material all agree, and
/// the two queries succeed together.
pub proof fn lemma_translate_round_trip(outer: Hittable, mid: Hittable, inner: Hittable,
    v: Vector3, r: Ray, t_min: int, t_max: int)
    requires
        outer matches Hittable::Translate { offset: vo, ptr: po } && vo == v && *po == mid,
        mid matches Hittable::Translate { offset: vi, ptr: pi } && vi.x == -v.x && vi.y == -v.y
            && vi.z == -v.z && *pi == inner,
        vec_bounded(r.origin, ORIGIN_MAX as int),
        vec_bounded(v, COORD_MAX as int),
        bounded(r.origin.x - v.x, ORIGIN_MAX as int),
        bounded(r.origin.y - v.y, ORIGIN_MAX as int),
        bounded(r.origin.z - v.z, ORIGIN_MAX as int),
        hit_model(inner, r, t_min, t_max) matches Some(rec) ==> {
            &&& bounded(rec.point.x - v.x, 0x80000000000000i64 as int)
            &&& bounded(rec.point.y - v.y, 0x80000000000000i64 as int)
            &&& bounded(rec.point.z - v.z, 0x80000000000000i64 as int)
            &&& bounded(rec.point.x as int, 0x80000000000000i64 as int)
            &&& bounded(rec.point.y as int, 0x80000000000000i64 as int)
            &&& bounded(rec.point.z as int, 0x80000000000000i64 as int)
        },
    ensures
        (hit_model(outer, r, t_min, t_max) is Some) == (hit_model(inner, r, t_min, t_max)
            is Some),
        hit_model(outer, r, t_min, t_max) matches Some(a) ==> hit_model(inner, r, t_min,
            t_max) matches Some(b) && a.t == b.t && a.point == b.point && a.mat_handle
            == b.mat_handle,
{
    let moved = Ray {
        origin: Vector3 {
            x: (r.origin.x - v.x) as i64,
            y: (r.origin.y - v.y) as i64,
            z: (r.origin.z - v.z) as i64,
        },
        direction: r.direction,
        time: r.time,
    };
    let back = Ray {
        origin: Vector3 {
            x: (moved.origin.x + v.x) as i64,
            y: (moved.origin.y + v.y) as i64,
            z: (moved.origin.z + v.z) as i64,
        },
        direction: r.direction,
        time: r.time,
    };
    assert(back == r);
    match hit_model(inner, r, t_min, t_max) {
        Some(rec) => {
            let p_mid = Vector3 {
                x: (rec.point.x - v.x) as i64,
                y: (rec.point.y - v.y) as i64,
                z: (rec.point.z - v.z) as i64,
            };
            assert(hit_model(mid, moved, t_min, t_max) matches Some(m) && m.point == p_mid
                && m.t == rec.t && m.mat_handle == rec.mat_handle);
            assert(hit_model(outer, r, t_min, t_max) matches Some(a) && a.point == rec.point
                && a.t == rec.t && a.mat_handle == rec.mat_handle);
        },
        None => {
            assert(hit_model(mid, moved, t_min, t_max) is None);
            assert(hit_model(outer, r, t_min, t_max) is None);
        },
    }
}


/// A sphere hit point lies inside the sphere's own bounding box
/// `[center - radius, center + radius]`: a hit parameter is a ball
/// parameter, and no ball point strays further than the radius on any
/// axis.
pub proof fn lemma_sphere_hit_in_box(mat_handle: MaterialHandle, center: Vector3, radius: i64,
    r: Ray, t_min: int, t_max: int)
    requires
        vec_bounded(center, COORD_MAX as int),
        1 <= radius <= COORD_MAX,
        vec_bounded(r.origin, ORIGIN_MAX as int),
        vec_bounded(r.direction, DIR_MAX as int),
        bounded(t_min, T_QUERY_MAX as int),
        bounded(t_max, T_QUERY_MAX as int),
    ensures
        sphere_model(mat_handle, center, radius, r, t_min, t_max) matches Some(rec)
            ==> contains_point(
            Aabb {
                minimum: Vector3 {
                    x: (center.x - radius) as i64,
                    y: (center.y - radius) as i64,
                    z: (center.z - radius) as i64,
                },
                maximum: Vector3 {
                    x: (center.x + radius) as i64,
                    y: (center.y + radius) as i64,
                    z: (center.z + radius) as i64,
                },
            },
            rec.point,
        ),
{
    lemma_first_ball_props(center, radius, r, t_min + 1, t_max);
    match first_ball_t(center, radius, r, t_min + 1, t_max) {
        Some(t) => {
            let dx = ray_x(r, t) - center.x;
            let dy = ray_y(r, t) - center.y;
            let dz = ray_z(r, t) - center.z;
            assert(-radius <= dx <= radius && -radius <= dy <= radius && -radius <= dz
                <= radius) by (nonlinear_arith)
                requires
                    dx * dx + dy * dy + dz * dz <= radius * radius,
                    radius >= 1,
            ;
            assert(bounded(t * r.direction.x, 0x20000000000000i64 as int) && bounded(
                t * r.direction.y,
                0x20000000000000i64 as int,
            ) && bounded(t * r.direction.z, 0x20000000000000i64 as int)) by (nonlinear_arith)
                requires
                    -(T_QUERY_MAX as int) <= t <= T_QUERY_MAX as int,
                    vec_bounded(r.direction, DIR_MAX as int),
            ;
        },
        None => {
        },
    }
}

/// An XY-rectangle hit point lies inside the rectangle's padded
/// bounding box.
pub proof fn lemma_rect_xy_hit_in_box(mat_handle: MaterialHandle, x0: i64, x1: i64, y0: i64,
    y1: i64, k: i64, r: Ray, t_min: int, t_max: int)
    requires
        bounded(x0 as int, COORD_MAX as int),
        bounded(x1 as int, COORD_MAX as int),
        bounded(y0 as int, COORD_MAX as int),
        bounded(y1 as int, COORD_MAX as int),
        bounded(k as int, COORD_MAX as int),
    ensures
        rect_xy_model(mat_handle, x0, x1, y0, y1, k, r, t_min, t_max) matches Some(rec)
            ==> contains_point(
            Aabb {
                minimum: Vector3 { x: x0, y: y0, z: (k - 1) as i64 },
                maximum: Vector3 { x: x1, y: y1, z: (k + 1) as i64 },
            },
            rec.point,
        ),
{
}

} // verus!
