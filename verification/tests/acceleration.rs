use rand::rngs::StdRng;
use rand::{Rng, SeedableRng};
use ray_geom::hittable::{hit_hittables, Hittable, MaterialHandle};
use ray_geom::math::Vector3;
use ray_geom::ray::Ray;

fn random_scene(rng: &mut StdRng, n: usize) -> Vec<Hittable> {
    let mut out = Vec::new();
    for i in 0..n {
        let cx = rng.gen_range(-2000..2000);
        let cy = rng.gen_range(-2000..2000);
        let cz = rng.gen_range(-2000..2000);
        let r = rng.gen_range(1..40);
        out.push(Hittable::Sphere {
            mat_handle: MaterialHandle(i as u64),
            center: Vector3::new(cx, cy, cz),
            radius: r,
        });
    }
    out
}

#[test]
fn bvh_matches_linear_scan() {
    // The accelerated traversal and the brute-force scan must agree on
    // the nearest hit, over many randomized configurations.
    let mut rng = StdRng::seed_from_u64(0x5eed);
    for config in 0..100 {
        let n = 2 + (config % 12);
        let scene = random_scene(&mut rng, n);
        let bvh = Hittable::new_bvh_node(&scene, 0, scene.len(), 0, 1);
        for _ in 0..20 {
            let origin = Vector3::new(
                rng.gen_range(-3000..3000),
                rng.gen_range(-3000..3000),
                -3000,
            );
            let dir = Vector3::new(rng.gen_range(-50..50), rng.gen_range(-50..50), 100);
            let ray = Ray::new(origin, dir);
            let linear = hit_hittables(&scene, &ray, 0, 1_000_000);
            let tree = bvh.hit(&ray, 0, 1_000_000);
            match (&linear, &tree) {
                (None, None) => {}
                (Some(a), Some(b)) => {
                    assert_eq!(a.t, b.t, "nearest parameter must agree");
                    assert_eq!(a.point, b.point, "hit point must agree");
                }
                _ => panic!("one traversal hit while the other missed"),
            }
        }
    }
}

#[test]
fn bvh_single_primitive() {
    let scene = vec![Hittable::Sphere {
        mat_handle: MaterialHandle(1),
        center: Vector3::new(0, 0, 0),
        radius: 1,
    }];
    let bvh = Hittable::new_bvh_node(&scene, 0, 1, 0, 1);
    let ray = Ray::new(Vector3::new(0, 0, -5), Vector3::new(0, 0, 1));
    let rec = bvh.hit(&ray, 0, 1000).expect("tree of one sphere must hit");
    assert_eq!(rec.t, 4);
    let b = bvh.bounding_box(0, 1).unwrap();
    assert_eq!(b.minimum, Vector3::new(-1, -1, -1));
    assert_eq!(b.maximum, Vector3::new(1, 1, 1));
}

#[test]
fn bvh_prunes_rotated_shapes_correctly() {
    // Rotated shapes sit far from their children's original places; the
    // tree's boxes must follow the rotated geometry, so traversal still
    // agrees with the scan.
    let rot = |cx: i64, m: u64| {
        Hittable::new_rotate_y(
            1,
            0,
            1,
            Hittable::Sphere {
                mat_handle: MaterialHandle(m),
                center: Vector3::new(cx, 0, 0),
                radius: 10,
            },
        )
    };
    let scene = vec![rot(1000, 1), rot(2000, 2)];
    let bvh = Hittable::new_bvh_node(&scene, 0, scene.len(), 0, 1);
    let ray = Ray::new(Vector3::new(0, 0, -5000), Vector3::new(0, 0, 100));
    let linear = hit_hittables(&scene, &ray, 0, 1_000_000).expect("scan must hit");
    let tree = bvh.hit(&ray, 0, 1_000_000).expect("traversal must hit");
    assert_eq!(linear.t, tree.t);
    assert_eq!(linear.point, tree.point);
    assert_eq!(tree.t, 30, "the nearer rotated image sits at z == -2000");
}

#[test]
fn constant_medium_entry_rate() {
    // A homogeneous medium in a sphere of radius 64, crossed along a
    // diameter: 128 lattice steps inside.  With per-step survival
    // q = 65024/65536, the entry probability is 1 - q^128, about 0.634.
    let boundary = Hittable::Sphere {
        mat_handle: MaterialHandle(0),
        center: Vector3::new(0, 0, 0),
        radius: 64,
    };
    let medium = Hittable::new_constant_medium(boundary, 65024, MaterialHandle(9));
    let ray = Ray::new(Vector3::new(0, 0, -1000), Vector3::new(0, 0, 1));
    let trials = 2000;
    let mut hits = 0;
    for _ in 0..trials {
        if let Some(rec) = medium.hit(&ray, 0, 10_000_000) {
            assert_eq!(rec.mat_handle, MaterialHandle(9));
            assert!(rec.t >= 936 && rec.t <= 1064, "scatter inside the chord");
            hits += 1;
        }
    }
    let rate = hits as f64 / trials as f64;
    assert!(
        (0.55..=0.72).contains(&rate),
        "entry rate {} inconsistent with 1 - exp(-density * chord) = 0.634",
        rate
    );
}
