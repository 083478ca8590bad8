//! Axis-aligned bounding boxes: an ordered pair of corners, the slab
//! intersection test, and the union of two boxes.
//!
//! The slab test is exact on the lattice: `hit` returns true precisely
//! when some integer ray parameter in `[t_min, t_max]` lands inside the
//! box on all three axes at once.

use vstd::prelude::*;

verus! {

use crate::math::{Vector3, bounded, vec_bounded, div_floor, div_ceil, lemma_mul_mono};
use crate::math::{ORIGIN_MAX, DIR_MAX, T_QUERY_MAX};
use crate::ray::{Ray, ray_wf, ray_x, ray_y, ray_z};

/// Largest magnitude allowed for a box corner component.
pub const BOX_MAX: i64 = 4294967296;

#[derive(Clone, Copy, PartialEq, Eq, Structural, Debug)]
pub struct Aabb {
    pub minimum: Vector3,
    pub maximum: Vector3,
}

/// Corner order and coordinate bounds.
pub open spec fn aabb_wf(b: Aabb) -> bool {
    &&& b.minimum.x <= b.maximum.x
    &&& b.minimum.y <= b.maximum.y
    &&& b.minimum.z <= b.maximum.z
    &&& vec_bounded(b.minimum, BOX_MAX as int)
    &&& vec_bounded(b.maximum, BOX_MAX as int)
}

/// The point `(x, y, z)` lies inside the box (boundary included).
pub open spec fn inside_box(b: Aabb, x: int, y: int, z: int) -> bool {
    &&& b.minimum.x <= x <= b.maximum.x
    &&& b.minimum.y <= y <= b.maximum.y
    &&& b.minimum.z <= z <= b.maximum.z
}

pub open spec fn contains_point(b: Aabb, p: Vector3) -> bool {
    inside_box(b, p.x as int, p.y as int, p.z as int)
}

/// Componentwise union of two boxes.
pub open spec fn box_union(a: Aabb, b: Aabb) -> Aabb {
    Aabb {
        minimum: Vector3 {
            x: if a.minimum.x <= b.minimum.x { a.minimum.x } else { b.minimum.x },
            y: if a.minimum.y <= b.minimum.y { a.minimum.y } else { b.minimum.y },
            z: if a.minimum.z <= b.minimum.z { a.minimum.z } else { b.minimum.z },
        },
        maximum: Vector3 {
            x: if a.maximum.x >= b.maximum.x { a.maximum.x } else { b.maximum.x },
            y: if a.maximum.y >= b.maximum.y { a.maximum.y } else { b.maximum.y },
            z: if a.maximum.z >= b.maximum.z { a.maximum.z } else { b.maximum.z },
        },
    }
}

/// Box `outer` contains box `inner`.
pub open spec fn box_encloses(outer: Aabb, inner: Aabb) -> bool {
    contains_point(outer, inner.minimum) && contains_point(outer, inner.maximum)
}

/// The ray's parametric interval `[t_min, t_max]` meets the box: some
/// integer parameter lands inside it on every axis simultaneously.
pub open spec fn slab_hit(b: Aabb, r: Ray, t_min: int, t_max: int) -> bool {
    exists|t: int|
        t_min <= t <= t_max && #[trigger] inside_box(b, ray_x(r, t), ray_y(r, t), ray_z(r, t))
}

/// One axis of the slab test: the ray coordinate `o + t * d` lies within
/// `[mn, mx]` at parameter `t`.
pub open spec fn axis_ok(o: i64, d: i64, mn: i64, mx: i64, t: int) -> bool {
    mn <= o + t * d <= mx
}

/// Quantifier-free description of the interval `[r0, r1]` that one axis
/// clip produces from the incoming interval `[lo, hi]`.
pub open spec fn clip_post(o: i64, d: i64, mn: i64, mx: i64, lo: int, hi: int, r0: int,
    r1: int) -> bool {
    if d == 0 {
        if mn <= o <= mx {
            r0 == lo && r1 == hi
        } else {
            r0 > r1
        }
    } else if d > 0 {
        &&& r0 >= lo && r1 <= hi
        &&& mn - o <= r0 * d && r1 * d <= mx - o
        &&& (r0 == lo || (r0 - 1) * d < mn - o)
        &&& (r1 == hi || mx - o < (r1 + 1) * d)
    } else {
        &&& r0 >= lo && r1 <= hi
        &&& o - mx <= r0 * (-d) && r1 * (-d) <= o - mn
        &&& (r0 == lo || (r0 - 1) * (-d) < o - mx)
        &&& (r1 == hi || o - mn < (r1 + 1) * (-d))
    }
}

/// A clipped interval holds exactly the parameters of `[lo, hi]` that
/// pass the axis slab.
pub proof fn lemma_clip_point(o: i64, d: i64, mn: i64, mx: i64, lo: int, hi: int, r0: int,
    r1: int, t: int)
    requires
        clip_post(o, d, mn, mx, lo, hi, r0, r1),
    ensures
        (r0 <= t <= r1) <==> (lo <= t <= hi && axis_ok(o, d, mn, mx, t)),
{
    if d > 0 {
        lemma_mul_mono(r0, t, d as int);
        lemma_mul_mono(t, r1, d as int);
        lemma_mul_mono(t, r0 - 1, d as int);
        lemma_mul_mono(r1 + 1, t, d as int);
    } else if d < 0 {
        let nd = -(d as int);
        assert(t * nd == -(t * (d as int))) by (nonlinear_arith)
            requires
                nd == -(d as int),
        ;
        lemma_mul_mono(r0, t, nd);
        lemma_mul_mono(t, r1, nd);
        lemma_mul_mono(t, r0 - 1, nd);
        lemma_mul_mono(r1 + 1, t, nd);
    }
}

/// Clip the running parameter interval `[lo, hi]` against one axis slab.
fn clip_axis(o: i64, d: i64, mn: i64, mx: i64, lo: i128, hi: i128) -> (r: (i128, i128))
    requires
        bounded(o as int, ORIGIN_MAX as int),
        bounded(d as int, DIR_MAX as int),
        bounded(mn as int, BOX_MAX as int),
        bounded(mx as int, BOX_MAX as int),
        bounded(lo as int, 0x400000000i128 as int),
        bounded(hi as int, 0x400000000i128 as int),
    ensures
        bounded(r.0 as int, 0x400000000i128 as int),
        bounded(r.1 as int, 0x400000000i128 as int),
        clip_post(o, d, mn, mx, lo as int, hi as int, r.0 as int, r.1 as int),
{
    if d == 0 {
        if o < mn || o > mx {
            (1, 0)
        } else {
            (lo, hi)
        }
    } else if d > 0 {
        let al = div_ceil((mn as i128) - (o as i128), d as i128);
        let ah = div_floor((mx as i128) - (o as i128), d as i128);
        let rl: i128 = if al > lo { al } else { lo };
        let rh: i128 = if ah < hi { ah } else { hi };
        proof {
            lemma_mul_mono(al as int, rl as int, d as int);
            lemma_mul_mono(rh as int, ah as int, d as int);
        }
        (rl, rh)
    } else {
        let nd = -(d as i128);
        let al = div_ceil((o as i128) - (mx as i128), nd);
        let ah = div_floor((o as i128) - (mn as i128), nd);
        let rl: i128 = if al > lo { al } else { lo };
        let rh: i128 = if ah < hi { ah } else { hi };
        proof {
            lemma_mul_mono(al as int, rl as int, nd as int);
            lemma_mul_mono(rh as int, ah as int, nd as int);
        }
        (rl, rh)
    }
}

impl Aabb {
    pub fn new(minimum: Vector3, maximum: Vector3) -> (b: Aabb)
        requires
            aabb_wf(Aabb { minimum, maximum }),
        ensures
            b == (Aabb { minimum, maximum }),
    {
        Aabb { minimum, maximum }
    }

    /// Slab intersection test, exact on the lattice: true iff some integer
    /// parameter in `[t_min, t_max]` puts the ray inside the box.
    pub fn hit(&self, ray: &Ray, t_min: i64, t_max: i64) -> (r: bool)
        requires
            aabb_wf(*self),
            ray_wf(*ray),
            bounded(t_min as int, T_QUERY_MAX as int),
            bounded(t_max as int, T_QUERY_MAX as int),
        ensures
            r == slab_hit(*self, *ray, t_min as int, t_max as int),
    {
        let c0 = clip_axis(ray.origin.x, ray.direction.x, self.minimum.x, self.maximum.x,
            t_min as i128, t_max as i128);
        let c1 = clip_axis(ray.origin.y, ray.direction.y, self.minimum.y, self.maximum.y, c0.0,
            c0.1);
        let c2 = clip_axis(ray.origin.z, ray.direction.z, self.minimum.z, self.maximum.z, c1.0,
            c1.1);
        proof {
            if c2.0 <= c2.1 {
                let t0 = c2.0 as int;
                lemma_clip_point(ray.origin.z, ray.direction.z, self.minimum.z, self.maximum.z,
                    c1.0 as int, c1.1 as int, c2.0 as int, c2.1 as int, t0);
                lemma_clip_point(ray.origin.y, ray.direction.y, self.minimum.y, self.maximum.y,
                    c0.0 as int, c0.1 as int, c1.0 as int, c1.1 as int, t0);
                lemma_clip_point(ray.origin.x, ray.direction.x, self.minimum.x, self.maximum.x,
                    t_min as int, t_max as int, c0.0 as int, c0.1 as int, t0);
                assert(t_min <= t0 <= t_max && inside_box(*self, ray_x(*ray, t0), ray_y(
                    *ray,
                    t0,
                ), ray_z(*ray, t0)));
            } else {
                assert forall|t: int| t_min <= t <= t_max implies !inside_box(*self, ray_x(
                    *ray,
                    t,
                ), ray_y(*ray, t), ray_z(*ray, t)) by {
                    lemma_clip_point(ray.origin.z, ray.direction.z, self.minimum.z,
                        self.maximum.z, c1.0 as int, c1.1 as int, c2.0 as int, c2.1 as int, t);
                    lemma_clip_point(ray.origin.y, ray.direction.y, self.minimum.y,
                        self.maximum.y, c0.0 as int, c0.1 as int, c1.0 as int, c1.1 as int, t);
                    lemma_clip_point(ray.origin.x, ray.direction.x, self.minimum.x,
                        self.maximum.x, t_min as int, t_max as int, c0.0 as int, c0.1 as int,
                        t);
                }
            }
        }
        c2.0 <= c2.1
    }

    /// Componentwise union: the smallest box containing both arguments.
    pub fn surrounding_box(a: &Aabb, b: &Aabb) -> (r: Aabb)
        requires
            aabb_wf(*a),
            aabb_wf(*b),
        ensures
            aabb_wf(r),
            r == box_union(*a, *b),
            r.minimum.x == if a.minimum.x <= b.minimum.x { a.minimum.x } else { b.minimum.x },
            r.minimum.y == if a.minimum.y <= b.minimum.y { a.minimum.y } else { b.minimum.y },
            r.minimum.z == if a.minimum.z <= b.minimum.z { a.minimum.z } else { b.minimum.z },
            r.maximum.x == if a.maximum.x >= b.maximum.x { a.maximum.x } else { b.maximum.x },
            r.maximum.y == if a.maximum.y >= b.maximum.y { a.maximum.y } else { b.maximum.y },
            r.maximum.z == if a.maximum.z >= b.maximum.z { a.maximum.z } else { b.maximum.z },
            box_encloses(r, *a),
            box_encloses(r, *b),
    {
        let minimum = Vector3 {
            x: if a.minimum.x <= b.minimum.x { a.minimum.x } else { b.minimum.x },
            y: if a.minimum.y <= b.minimum.y { a.minimum.y } else { b.minimum.y },
            z: if a.minimum.z <= b.minimum.z { a.minimum.z } else { b.minimum.z },
        };
        let maximum = Vector3 {
            x: if a.maximum.x >= b.maximum.x { a.maximum.x } else { b.maximum.x },
            y: if a.maximum.y >= b.maximum.y { a.maximum.y } else { b.maximum.y },
            z: if a.maximum.z >= b.maximum.z { a.maximum.z } else { b.maximum.z },
        };
        Aabb { minimum, maximum }
    }
}

} // verus!
