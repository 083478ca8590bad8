use ray_geom::aabb::Aabb;
use ray_geom::hittable::{HitRecord, Hittable, MaterialHandle};
use ray_geom::math::{random_int_range, Vector3};
use ray_geom::ray::Ray;

fn sphere(cx: i64, cy: i64, cz: i64, r: i64, m: u64) -> Hittable {
    Hittable::Sphere {
        mat_handle: MaterialHandle(m),
        center: Vector3::new(cx, cy, cz),
        radius: r,
    }
}

#[test]
fn off_axis_normal_keeps_direction() {
    // The outward normal is the exact radial vector P - C, unnormalized:
    // an off-axis hit keeps its direction.
    let s = sphere(0, 0, 0, 5, 1);
    let ray = Ray::new(Vector3::new(3, 0, -100), Vector3::new(0, 0, 1));
    let rec = s.hit(&ray, 0, 1_000_000).expect("must hit the side");
    assert_eq!(rec.point, Vector3::new(3, 0, -4));
    assert_eq!(rec.normal, Vector3::new(3, 0, -4));
    assert!(rec.front_face);
}

#[test]
fn unit_sphere_head_on() {
    // Unit sphere at the origin; ray from (0,0,-5) along +z.
    let s = sphere(0, 0, 0, 1, 7);
    let ray = Ray::new(Vector3::new(0, 0, -5), Vector3::new(0, 0, 1));
    let rec = s.hit(&ray, 0, 1_000_000).expect("must hit");
    assert_eq!(rec.t, 4);
    assert_eq!(rec.point, Vector3::new(0, 0, -1));
    assert_eq!(rec.normal, Vector3::new(0, 0, -1));
    assert!(rec.front_face);
    assert_eq!(rec.mat_handle, MaterialHandle(7));
}

#[test]
fn aimed_ray_from_outside_hits() {
    // Direction exactly towards the centre from outside: always a hit
    // with positive parameter.
    let s = sphere(30, -40, 120, 2, 1);
    let origin = Vector3::new(-500, 300, -700);
    let dir = Vector3::new(30 - (-500), -40 - 300, 120 - (-700));
    let ray = Ray::new(origin, dir);
    let rec = s.hit(&ray, -10, 1_000_000).expect("must hit");
    assert!(rec.t > 0);
}

#[test]
fn tangent_ray_single_root() {
    // Ray grazing the unit sphere at x == 1: discriminant is zero and
    // the single lattice hit is the tangent point.
    let s = sphere(0, 0, 0, 1, 1);
    let ray = Ray::new(Vector3::new(1, 0, -5), Vector3::new(0, 0, 1));
    let rec = s.hit(&ray, 0, 1_000_000).expect("tangent must touch");
    assert_eq!(rec.t, 5);
    assert_eq!(rec.point, Vector3::new(1, 0, 0));
}

#[test]
fn missing_ray_no_hit() {
    let s = sphere(0, 0, 0, 1, 1);
    let ray = Ray::new(Vector3::new(2, 0, -5), Vector3::new(0, 0, 1));
    assert!(s.hit(&ray, 0, 1_000_000).is_none());
}

#[test]
fn hit_respects_range() {
    // The same geometry misses when the interval excludes the root.
    let s = sphere(0, 0, 0, 1, 1);
    let ray = Ray::new(Vector3::new(0, 0, -5), Vector3::new(0, 0, 1));
    assert!(s.hit(&ray, 0, 3).is_none());
    // The interval is open at t_min: the entry point t == 4 is excluded,
    // and the next lattice point inside the ball is reported instead.
    assert_eq!(s.hit(&ray, 4, 10).unwrap().t, 5);
    assert_eq!(s.hit(&ray, 3, 10).unwrap().t, 4);
}

#[test]
fn surrounding_box_contains_and_is_tight() {
    let a = Aabb::new(Vector3::new(-3, 0, 2), Vector3::new(1, 5, 4));
    let b = Aabb::new(Vector3::new(-1, -2, 3), Vector3::new(6, 1, 9));
    let u = Aabb::surrounding_box(&a, &b);
    assert_eq!(u.minimum, Vector3::new(-3, -2, 2));
    assert_eq!(u.maximum, Vector3::new(6, 5, 9));
    // Every face coordinate comes from one of the inputs.
    for (got, fa, fb) in [
        (u.minimum.x, a.minimum.x, b.minimum.x),
        (u.minimum.y, a.minimum.y, b.minimum.y),
        (u.minimum.z, a.minimum.z, b.minimum.z),
        (u.maximum.x, a.maximum.x, b.maximum.x),
        (u.maximum.y, a.maximum.y, b.maximum.y),
        (u.maximum.z, a.maximum.z, b.maximum.z),
    ] {
        assert!(got == fa || got == fb);
    }
}

#[test]
fn aabb_slab_test_exact() {
    let b = Aabb::new(Vector3::new(-10, -10, -10), Vector3::new(10, 10, 10));
    let hit_ray = Ray::new(Vector3::new(0, 0, -100), Vector3::new(0, 0, 1));
    assert!(b.hit(&hit_ray, 0, 1000));
    let miss_ray = Ray::new(Vector3::new(50, 0, -100), Vector3::new(0, 0, 1));
    assert!(!b.hit(&miss_ray, 0, 1000));
    // Out of range: the box lies beyond t_max.
    assert!(!b.hit(&hit_ray, 0, 80));
}

#[test]
fn rect_exact_crossing() {
    let r = Hittable::XYRect {
        mat_handle: MaterialHandle(3),
        x0: -5,
        x1: 5,
        y0: -5,
        y1: 5,
        k: 10,
    };
    let ray = Ray::new(Vector3::new(1, 2, 0), Vector3::new(0, 0, 2));
    let rec = r.hit(&ray, 0, 1000).expect("must cross");
    assert_eq!(rec.t, 5);
    assert_eq!(rec.point, Vector3::new(1, 2, 10));
    assert!(!rec.front_face);
    assert_eq!(rec.normal, Vector3::new(0, 0, -1));
    // Texture fractions, scaled by 65536: (1 - -5)/10 and (2 - -5)/10.
    assert_eq!(rec.u, 6 * 65536 / 10);
    assert_eq!(rec.v, 7 * 65536 / 10);
    // Parallel ray: no hit, even when it lies in the plane.
    let par = Ray::new(Vector3::new(0, 0, 10), Vector3::new(1, 0, 0));
    assert!(r.hit(&par, 0, 1000).is_none());
}

#[test]
fn box_nearest_face() {
    let b = Hittable::new_box(
        Vector3::new(-10, -10, -10),
        Vector3::new(10, 10, 10),
        MaterialHandle(9),
    );
    let ray = Ray::new(Vector3::new(0, 0, -100), Vector3::new(0, 0, 1));
    let rec = b.hit(&ray, 0, 10_000).expect("must hit front face");
    assert_eq!(rec.t, 90);
    assert_eq!(rec.point, Vector3::new(0, 0, -10));
    assert!(!rec.front_face);
    assert_eq!(rec.normal, Vector3::new(0, 0, -1));
}

#[test]
fn translate_round_trip_identity() {
    // Translate by v and then by -v: hit parameter and point revert to
    // the bare sphere's.
    let v = Vector3::new(17, -4, 200);
    let inner = sphere(0, 0, 0, 1, 7);
    let mid = Hittable::Translate {
        offset: Vector3::new(-v.x, -v.y, -v.z),
        ptr: Box::new(inner.clone()),
    };
    let outer = Hittable::Translate {
        offset: v,
        ptr: Box::new(mid),
    };
    let ray = Ray::new(Vector3::new(0, 0, -5), Vector3::new(0, 0, 1));
    let direct = inner.hit(&ray, 0, 1_000_000).unwrap();
    let round = outer.hit(&ray, 0, 1_000_000).unwrap();
    assert_eq!(round.t, direct.t);
    assert_eq!(round.point, direct.point);
    assert_eq!(round.mat_handle, direct.mat_handle);
}

#[test]
fn translate_moves_hit_point() {
    let t = Hittable::Translate {
        offset: Vector3::new(100, 0, 0),
        ptr: Box::new(sphere(0, 0, 0, 1, 7)),
    };
    let ray = Ray::new(Vector3::new(100, 0, -5), Vector3::new(0, 0, 1));
    let rec = t.hit(&ray, 0, 1_000_000).unwrap();
    assert_eq!(rec.t, 4);
    assert_eq!(rec.point, Vector3::new(100, 0, -1));
}

#[test]
fn rotate_y_quarter_turn() {
    // A 90-degree rotation (sin=1, cos=0) of a sphere at (1000,0,0):
    // a ray along +z from below strikes the rotated copy where the
    // unrotated sphere would sit at (0,0,-1000).
    let inner = sphere(1000, 0, 0, 10, 5);
    let rot = Hittable::new_rotate_y(1, 0, 1, inner);
    let ray = Ray::new(Vector3::new(0, 0, -5000), Vector3::new(0, 0, 100));
    let rec = rot.hit(&ray, 0, 100_000).expect("rotated sphere must be hit");
    assert_eq!(rec.t, 40);
    assert_eq!(rec.point, Vector3::new(0, 0, -1000));
}

#[test]
fn rotate_y_box_covers_hits() {
    // The stored box of a rotated shape must sit where the rotated
    // geometry sits: a quarter turn moves the sphere at (1000,0,0) to
    // around (0,0,-1000), and the box must contain the hit point.
    let inner = sphere(1000, 0, 0, 10, 5);
    let rot = Hittable::new_rotate_y(1, 0, 1, inner);
    let b = rot.bounding_box(0, 1).expect("rotated sphere keeps a box");
    assert_eq!(b.minimum, Vector3::new(-10, -10, -1010));
    assert_eq!(b.maximum, Vector3::new(10, 10, -990));
    let ray = Ray::new(Vector3::new(0, 0, -5000), Vector3::new(0, 0, 100));
    let rec = rot.hit(&ray, 0, 100_000).unwrap();
    assert!(b.minimum.x <= rec.point.x && rec.point.x <= b.maximum.x);
    assert!(b.minimum.y <= rec.point.y && rec.point.y <= b.maximum.y);
    assert!(b.minimum.z <= rec.point.z && rec.point.z <= b.maximum.z);
}

#[test]
fn rotate_y_identity() {
    let inner = sphere(0, 0, 0, 1, 5);
    let rot = Hittable::new_rotate_y(0, 1, 1, inner.clone());
    let ray = Ray::new(Vector3::new(0, 0, -5), Vector3::new(0, 0, 1));
    let a = inner.hit(&ray, 0, 1_000_000).unwrap();
    let b = rot.hit(&ray, 0, 1_000_000).unwrap();
    assert_eq!(a.t, b.t);
    assert_eq!(a.point, b.point);
    assert_eq!(a.normal, b.normal);
}

#[test]
fn moving_sphere_follows_time() {
    let m = Hittable::MovingSphere {
        mat_handle: MaterialHandle(2),
        center_0: Vector3::new(0, 0, 0),
        center_1: Vector3::new(100, 0, 0),
        time_0: 0,
        time_1: 10,
        radius: 1,
    };
    let early = Ray::with_time(Vector3::new(0, 0, -5), Vector3::new(0, 0, 1), 0);
    let late = Ray::with_time(Vector3::new(100, 0, -5), Vector3::new(0, 0, 1), 10);
    assert_eq!(m.hit(&early, 0, 1000).unwrap().t, 4);
    assert_eq!(m.hit(&late, 0, 1000).unwrap().t, 4);
    assert!(m.hit(&late, 0, 1000).is_some());
    let late_at_origin = Ray::with_time(Vector3::new(0, 0, -5), Vector3::new(0, 0, 1), 10);
    assert!(m.hit(&late_at_origin, 0, 1000).is_none());
}

#[test]
fn moving_sphere_reversed_keyframes() {
    // The keyframes may come in either time order.
    let m = Hittable::MovingSphere {
        mat_handle: MaterialHandle(2),
        center_0: Vector3::new(100, 0, 0),
        center_1: Vector3::new(0, 0, 0),
        time_0: 10,
        time_1: 0,
        radius: 1,
    };
    let early = Ray::with_time(Vector3::new(0, 0, -5), Vector3::new(0, 0, 1), 0);
    let late = Ray::with_time(Vector3::new(100, 0, -5), Vector3::new(0, 0, 1), 10);
    assert_eq!(m.hit(&early, 0, 1000).unwrap().t, 4);
    assert_eq!(m.hit(&late, 0, 1000).unwrap().t, 4);
}

#[test]
fn list_scan_returns_nearest() {
    let list = vec![
        sphere(0, 0, 100, 1, 1),
        sphere(0, 0, 10, 1, 2),
        sphere(0, 0, 50, 1, 3),
    ];
    let ray = Ray::new(Vector3::new(0, 0, 0), Vector3::new(0, 0, 1));
    let rec = ray_geom::hittable::hit_hittables(&list, &ray, 0, 1_000_000).unwrap();
    assert_eq!(rec.t, 9);
    assert_eq!(rec.mat_handle, MaterialHandle(2));
    let empty: Vec<Hittable> = Vec::new();
    assert!(ray_geom::hittable::hit_hittables(&empty, &ray, 0, 1000).is_none());
}

#[test]
fn list_bounding_box_union() {
    let list = vec![sphere(0, 0, 0, 1, 1), sphere(10, 10, 10, 2, 2)];
    let b = ray_geom::hittable::hittables_bounding_box(&list, 0, 1).unwrap();
    assert_eq!(b.minimum, Vector3::new(-1, -1, -1));
    assert_eq!(b.maximum, Vector3::new(12, 12, 12));
    let empty: Vec<Hittable> = Vec::new();
    assert!(ray_geom::hittable::hittables_bounding_box(&empty, 0, 1).is_none());
}

#[test]
fn random_int_range_inclusive() {
    for _ in 0..200 {
        let v = random_int_range(-3, 3);
        assert!((-3..=3).contains(&v));
    }
}

#[test]
fn hit_record_blank() {
    let r = HitRecord::new();
    assert_eq!(r.t, 0);
    assert_eq!(r.mat_handle, MaterialHandle(0));
    assert!(!r.front_face);
    assert_eq!((r.u, r.v), (0, 0));
}

#[test]
fn vector_ops() {
    let a = Vector3::new(1, 2, 3);
    let b = Vector3::new(-4, 5, 6);
    assert_eq!(a.add(b), Vector3::new(-3, 7, 9));
    assert_eq!(a.sub(b), Vector3::new(5, -3, -3));
    assert_eq!(Vector3::dot(&a, &b), (1 * -4 + 2 * 5 + 3 * 6) as i128);
    assert_eq!(Vector3::cross(&a, &b), Vector3::new(2 * 6 - 3 * 5, 3 * -4 - 1 * 6, 1 * 5 - 2 * -4));
    assert_eq!(Vector3::new(3, 4, 0).length(), 5);
    assert_eq!(Vector3::new(3, 4, 1).length(), 5);
    assert!(Vector3::new(0, 0, 0).near_zero());
    assert!(!Vector3::new(0, 1, 0).near_zero());
    assert_eq!(a.as_array(), [1, 2, 3]);
}
