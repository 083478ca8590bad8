//! Rays: an origin, a direction and a time stamp (the time supports
//! motion blur).  A ray is produced by the integrator and passed by
//! read-only reference into every geometric query.

use vstd::prelude::*;

verus! {

use crate::math::{Vector3, bounded, vec_bounded, ORIGIN_MAX, DIR_MAX, COORD_MAX, T_QUERY_MAX};
use crate::math::lemma_mul_bound;

#[derive(Clone, Copy, PartialEq, Eq, Structural, Debug)]
pub struct Ray {
    pub origin: Vector3,
    pub direction: Vector3,
    pub time: i64,
}

/// Bounds under which every intersection routine is overflow-free.
pub open spec fn ray_wf(r: Ray) -> bool {
    &&& vec_bounded(r.origin, ORIGIN_MAX as int)
    &&& vec_bounded(r.direction, DIR_MAX as int)
    &&& bounded(r.time as int, COORD_MAX as int)
}

/// Coordinates of the point the ray reaches at parameter `t`.
pub open spec fn ray_x(r: Ray, t: int) -> int {
    r.origin.x + t * r.direction.x
}

pub open spec fn ray_y(r: Ray, t: int) -> int {
    r.origin.y + t * r.direction.y
}

pub open spec fn ray_z(r: Ray, t: int) -> int {
    r.origin.z + t * r.direction.z
}

/// `p` is exactly the point the ray reaches at parameter `t`.
pub open spec fn point_on(r: Ray, t: int, p: Vector3) -> bool {
    p.x == ray_x(r, t) && p.y == ray_y(r, t) && p.z == ray_z(r, t)
}

impl Ray {
    pub fn new(origin: Vector3, direction: Vector3) -> (r: Ray)
        ensures
            r == (Ray { origin, direction, time: 0i64 }),
    {
        Ray { origin, direction, time: 0 }
    }

    pub fn with_time(origin: Vector3, direction: Vector3, time: i64) -> (r: Ray)
        ensures
            r == (Ray { origin, direction, time }),
    {
        Ray { origin, direction, time }
    }

    /// The point reached at parameter `t`.
    pub fn at(&self, t: i64) -> (p: Vector3)
        requires
            ray_wf(*self),
            bounded(t as int, T_QUERY_MAX as int),
        ensures
            point_on(*self, t as int, p),
    {
        proof {
            lemma_mul_bound(t as int, self.direction.x as int, T_QUERY_MAX as int);
            lemma_mul_bound(t as int, self.direction.y as int, T_QUERY_MAX as int);
            lemma_mul_bound(t as int, self.direction.z as int, T_QUERY_MAX as int);
        }
        let x = (self.origin.x as i128) + (t as i128) * (self.direction.x as i128);
        let y = (self.origin.y as i128) + (t as i128) * (self.direction.y as i128);
        let z = (self.origin.z as i128) + (t as i128) * (self.direction.z as i128);
        Vector3 { x: x as i64, y: y as i64, z: z as i64 }
    }
}

} // verus!
