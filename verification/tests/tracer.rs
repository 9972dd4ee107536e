use pathtracer::fixed::{FP_ONE, FP_SQ};
use pathtracer::vec3::Vec3;
use pathtracer::ray::Ray;
use pathtracer::aabb::AaBb;
use pathtracer::sphere::Sphere;
use pathtracer::material::{Material, Lambertian, Metal, Dielectric, schlick, reflect};
use pathtracer::material::{random_in_unit_sphere, scatter};
use pathtracer::hittable::HittableList;
use pathtracer::bvh::BVHNode;
use pathtracer::camera::Camera;
use pathtracer::trace::{ray_color, quantize, render_image};
use pathtracer::rng::get_rng;

fn v(x: i64, y: i64, z: i64) -> Vec3 {
    Vec3 { x, y, z }
}

fn gray() -> Material {
    Material::Lambertian(Lambertian::from(v(FP_ONE / 2, FP_ONE / 2, FP_ONE / 2)))
}

fn boxed(ax: i64, ay: i64, az: i64, bx: i64, by: i64, bz: i64) -> AaBb {
    AaBb { min: v(ax, ay, az), max: v(bx, by, bz) }
}

#[test]
fn union_is_commutative() {
    let a = boxed(-FP_ONE, 0, 0, FP_ONE, FP_ONE, FP_ONE);
    let b = boxed(0, -FP_ONE, 0, 2 * FP_ONE, 0, 3 * FP_ONE);
    assert_eq!(AaBb::surrounding_box(&a, &b), AaBb::surrounding_box(&b, &a));
}

#[test]
fn union_is_associative() {
    let a = boxed(-FP_ONE, 0, 0, FP_ONE, FP_ONE, FP_ONE);
    let b = boxed(0, -FP_ONE, 0, 2 * FP_ONE, 0, 3 * FP_ONE);
    let c = boxed(-3 * FP_ONE, 5, -7, 0, 9 * FP_ONE, FP_ONE);
    let ab_c = AaBb::surrounding_box(&AaBb::surrounding_box(&a, &b), &c);
    let a_bc = AaBb::surrounding_box(&a, &AaBb::surrounding_box(&b, &c));
    assert_eq!(ab_c, a_bc);
}

#[test]
fn union_with_empty_is_identity() {
    let b = boxed(-FP_ONE, -2, -3, FP_ONE, 2, 3);
    assert_eq!(AaBb::surrounding_box(&b, &AaBb::empty()), b);
    assert_eq!(AaBb::surrounding_box(&AaBb::empty(), &b), b);
}

#[test]
fn split_axis_picks_longest_with_x_priority() {
    let b = boxed(0, 0, 0, 2 * FP_ONE, 2 * FP_ONE, FP_ONE);
    assert_eq!(b.split_axis(), 0);
    let c = boxed(0, 0, 0, FP_ONE, 2 * FP_ONE, 2 * FP_ONE);
    assert_eq!(c.split_axis(), 1);
    let d = boxed(0, 0, 0, FP_ONE, FP_ONE, 2 * FP_ONE);
    assert_eq!(d.split_axis(), 2);
}

#[test]
fn slab_hit_from_inside() {
    let b = boxed(-FP_ONE, -FP_ONE, -FP_ONE, FP_ONE, FP_ONE, FP_ONE);
    let r = Ray::from(v(0, 0, 0), v(17, -3, 5));
    assert!(b.hit(&r, 0, i64::MAX / 2));
    let r2 = Ray::from(v(0, 0, 0), v(0, 0, 0));
    assert!(b.hit(&r2, 0, i64::MAX / 2));
}

#[test]
fn slab_miss_receding_ray() {
    let b = boxed(-FP_ONE, -FP_ONE, -FP_ONE, FP_ONE, FP_ONE, FP_ONE);
    let r = Ray::from(v(3 * FP_ONE, 0, 0), v(FP_ONE, 0, 0));
    assert!(!b.hit(&r, 0, i64::MAX / 2));
}

#[test]
fn sphere_round_trip_exact() {
    let s = Sphere::from(v(0, 0, 0), 5 * FP_ONE, gray());
    let origin = v(9 * FP_ONE, 12 * FP_ONE, 0);
    let target = v(3 * FP_ONE, 4 * FP_ONE, 0);
    let r = Ray::from(origin, v(target.x - origin.x, target.y - origin.y, 0));
    let hit = s.hit(&r, 0, i64::MAX / 4).expect("must hit");
    assert_eq!(hit.distance, FP_ONE);
    assert_eq!(hit.position, target);
    assert_eq!(hit.normal, v(3 * FP_ONE / 5, 4 * FP_ONE / 5, 0));
}

#[test]
fn sphere_hit_axis_pole() {
    // An axis-aligned ray straight through the center: the classic
    // instance, hitting the near pole exactly.
    let s = Sphere::from(v(0, 0, 0), FP_ONE, gray());
    let r = Ray::from(v(0, 0, -3 * FP_ONE), v(0, 0, FP_ONE));
    let hit = s.hit(&r, 65, i64::MAX / 4).expect("must hit");
    assert_eq!(hit.distance, 2 * FP_ONE);
    assert_eq!(hit.position, v(0, 0, -FP_ONE));
    assert_eq!(hit.normal, v(0, 0, -FP_ONE));
}

#[test]
fn sphere_round_trip_pole() {
    // A surface point reached along the x-axis: the pole round trip.
    let s = Sphere::from(v(0, 0, 0), FP_ONE, gray());
    let origin = v(3 * FP_ONE, 0, 0);
    let target = v(FP_ONE, 0, 0);
    let r = Ray::from(origin, v(target.x - origin.x, 0, 0));
    let hit = s.hit(&r, 0, i64::MAX / 4).expect("must hit");
    assert_eq!(hit.distance, FP_ONE);
    assert_eq!(hit.position, target);
    assert_eq!(hit.normal, v(FP_ONE, 0, 0));
}

#[test]
fn sphere_miss_behind() {
    let s = Sphere::from(v(0, 0, 0), FP_ONE, gray());
    let r = Ray::from(v(3 * FP_ONE, 0, 0), v(FP_ONE, 0, 0));
    assert!(s.hit(&r, 0, i64::MAX / 4).is_none());
}

#[test]
fn reflection_law_concrete() {
    let vv = v(FP_ONE, FP_ONE, 0);
    let n = v(0, FP_ONE, 0);
    let r = reflect(&vv, &n);
    assert_eq!(r, v(FP_ONE, -FP_ONE, 0));
    let din = vv.dot(&n);
    let dout = r.dot(&n);
    assert!((dout + din).abs() <= 3 * FP_ONE);
}

#[test]
fn schlick_grazing_is_one() {
    assert_eq!(schlick(0, 3 * FP_ONE / 2), FP_ONE);
}

#[test]
fn schlick_normal_incidence_is_r0() {
    assert_eq!(schlick(FP_ONE, 3 * FP_ONE / 2), 2621);
}

#[test]
fn schlick_never_increases_with_cosine() {
    let ri = 3 * FP_ONE / 2;
    let mut prev = schlick(0, ri);
    let mut c: i64 = 0;
    while c < FP_ONE {
        c += FP_ONE / 8;
        let cur = schlick(c.min(FP_ONE), ri);
        assert!(cur <= prev);
        prev = cur;
    }
}

#[test]
fn dielectric_sub_unity_index_scatters() {
    // Leaving a dense medium: index below one.
    let mat = Material::Dielectric(Dielectric::from(FP_ONE / 2));
    let mut rng = get_rng(Some(21));
    let s = Sphere::from(v(0, 0, 0), FP_ONE, mat);
    let r = Ray::from(v(3 * FP_ONE, FP_ONE / 2, 0), v(-FP_ONE, 0, 0));
    let hit = s.hit(&r, 0, i64::MAX / 4).expect("must hit");
    let (_, att) = scatter(&mat, &r, &hit, &mut rng).expect("glass always scatters");
    assert_eq!(att, v(FP_ONE, FP_ONE, FP_ONE));
}

#[test]
fn metal_fuzz_is_clamped() {
    let m = Metal::from(v(FP_ONE, FP_ONE, FP_ONE), 2 * FP_ONE);
    assert_eq!(m.fuzz, FP_ONE);
}

#[test]
fn unit_ball_samples_are_inside() {
    let mut rng = get_rng(Some(7));
    for _ in 0..50 {
        let p = random_in_unit_sphere(&mut rng);
        assert!(p.dot(&p) < FP_SQ);
    }
}

#[test]
fn lambertian_scatter_keeps_albedo() {
    let alb = v(FP_ONE / 4, FP_ONE / 2, FP_ONE / 8);
    let mat = Material::Lambertian(Lambertian::from(alb));
    let mut rng = get_rng(Some(9));
    let s = Sphere::from(v(0, 0, 0), FP_ONE, mat);
    let r = Ray::from(v(3 * FP_ONE, FP_ONE / 2, 0), v(-FP_ONE, 0, 0));
    let hit = s.hit(&r, 0, i64::MAX / 4).expect("must hit");
    let (scattered, att) = scatter(&mat, &r, &hit, &mut rng).expect("diffuse always scatters");
    assert_eq!(att, alb);
    assert_eq!(scattered.origin, hit.position);
}

#[test]
fn dielectric_scatter_is_white() {
    let mat = Material::Dielectric(Dielectric::from(3 * FP_ONE / 2));
    let mut rng = get_rng(Some(11));
    let s = Sphere::from(v(0, 0, 0), FP_ONE, mat);
    let r = Ray::from(v(3 * FP_ONE, FP_ONE / 2, 0), v(-FP_ONE, 0, 0));
    let hit = s.hit(&r, 0, i64::MAX / 4).expect("must hit");
    let (_, att) = scatter(&mat, &r, &hit, &mut rng).expect("glass always scatters");
    assert_eq!(att, v(FP_ONE, FP_ONE, FP_ONE));
}

fn sample_scene() -> HittableList {
    let mut list = HittableList::new();
    let mut k: i64 = 0;
    for ix in -2..3i64 {
        for iz in -2..3i64 {
            k += 1;
            let mat = if k % 3 == 0 {
                Material::Metal(Metal::from(v(FP_ONE / 2, FP_ONE / 2, FP_ONE), FP_ONE / 4))
            } else if k % 3 == 1 {
                gray()
            } else {
                Material::Dielectric(Dielectric::from(3 * FP_ONE / 2))
            };
            list.push(Sphere::from(
                v(ix * 3 * FP_ONE, (k % 2) * FP_ONE, iz * 3 * FP_ONE),
                FP_ONE,
                mat,
            ));
        }
    }
    list
}

fn collect_objects(node: &BVHNode, out: &mut Vec<Sphere>) {
    match node {
        BVHNode::Leaf { objects } => out.extend_from_slice(objects),
        BVHNode::Node { left, right, .. } => {
            collect_objects(left, out);
            collect_objects(right, out);
        }
    }
}

#[test]
fn build_small_list_is_one_leaf() {
    let mut list = HittableList::new();
    for k in 0..5i64 {
        list.push(Sphere::from(v(k * FP_ONE, 0, 0), FP_ONE, gray()));
    }
    match BVHNode::build(list.list.clone()) {
        BVHNode::Leaf { objects } => assert_eq!(objects, list.list),
        BVHNode::Node { .. } => panic!("a small list must stay one leaf"),
    }
}

#[test]
fn build_large_list_splits_at_median_by_longest_axis() {
    let list = sample_scene();
    let n = list.list.len();
    assert!(n > 7);
    match BVHNode::build(list.list.clone()) {
        BVHNode::Leaf { .. } => panic!("a large list must split"),
        BVHNode::Node { left, right, .. } => {
            let mut l = Vec::new();
            let mut r = Vec::new();
            collect_objects(&left, &mut l);
            collect_objects(&right, &mut r);
            assert_eq!(l.len(), n / 2);
            assert_eq!(l.len() + r.len(), n);
            // The scene spans x and z equally; ties resolve to x.
            let key = |s: &Sphere| s.center.x - s.radius;
            let lmax = l.iter().map(key).max().unwrap();
            let rmin = r.iter().map(key).min().unwrap();
            assert!(lmax <= rmin);
        }
    }
}

#[test]
fn bvh_matches_linear_scan() {
    let list = sample_scene();
    let tree = BVHNode::build(list.list.clone());
    let dirs = [
        v(-FP_ONE, 0, 0),
        v(FP_ONE, FP_ONE / 3, -FP_ONE / 5),
        v(0, -FP_ONE, 0),
        v(FP_ONE / 7, FP_ONE / 9, FP_ONE),
        v(-FP_ONE / 2, -FP_ONE / 3, -FP_ONE / 4),
    ];
    let origins = [
        v(9 * FP_ONE, FP_ONE / 2, FP_ONE / 3),
        v(0, 5 * FP_ONE, 0),
        v(-8 * FP_ONE, -FP_ONE, 7 * FP_ONE),
    ];
    for o in origins.iter() {
        for d in dirs.iter() {
            let r = Ray::from(*o, *d);
            let brute = list.hit(&r, 65, i64::MAX / 4);
            let fast = tree.hit(&r, 65, i64::MAX / 4);
            match (brute, fast) {
                (None, None) => {}
                (Some(b), Some(f)) => assert_eq!(b.distance, f.distance),
                (b, f) => panic!("disagreement: {:?} vs {:?}", b, f),
            }
        }
    }
}

fn test_camera() -> Camera {
    // Looking straight down the negative z-axis from the origin, pinhole.
    Camera::from(
        v(0, 0, 0),
        v(-2 * FP_ONE, -FP_ONE, -FP_ONE),
        v(4 * FP_ONE, 0, 0),
        v(0, 2 * FP_ONE, 0),
        v(FP_ONE, 0, 0),
        v(0, FP_ONE, 0),
        0,
    )
}

#[test]
fn depth_cutoff_returns_black() {
    let mut list = HittableList::new();
    list.push(Sphere::from(v(0, 0, -3 * FP_ONE), FP_ONE, gray()));
    let tree = BVHNode::build(list.list);
    let mut rng = get_rng(Some(5));
    let r = Ray::from(v(0, 0, 0), v(0, 0, -FP_ONE));
    assert!(tree.hit(&r, 65, i64::MAX / 4).is_some());
    let c = ray_color(&r, &tree, 0, 0, &mut rng);
    assert_eq!(c, v(0, 0, 0));
}

#[test]
fn empty_scene_returns_exact_background() {
    let tree = BVHNode::build(Vec::new());
    let mut rng = get_rng(Some(5));
    let r = Ray::from(v(0, 0, 0), v(0, 0, -FP_ONE));
    let c = ray_color(&r, &tree, 0, 50, &mut rng);
    assert_eq!(c, v(49152, 55705, 65536));
    let up = Ray::from(v(0, 0, 0), v(0, FP_ONE, 0));
    let cu = ray_color(&up, &tree, 0, 50, &mut rng);
    // Straight up: t = 1, the pure sky color.
    assert_eq!(cu, v(FP_ONE / 2, 45875, FP_ONE));
}

#[test]
fn radiance_is_energy_bounded() {
    let list = sample_scene();
    let tree = BVHNode::build(list.list);
    let mut rng = get_rng(Some(13));
    let dirs = [v(-FP_ONE, -FP_ONE / 5, 0), v(0, -FP_ONE, 0), v(FP_ONE / 2, 0, FP_ONE)];
    for d in dirs.iter() {
        let r = Ray::from(v(8 * FP_ONE, FP_ONE, 0), *d);
        let c = ray_color(&r, &tree, 0, 50, &mut rng);
        assert!(0 <= c.x && c.x <= FP_ONE);
        assert!(0 <= c.y && c.y <= FP_ONE);
        assert!(0 <= c.z && c.z <= FP_ONE);
    }
}

#[test]
fn quantize_endpoints() {
    assert_eq!(quantize(FP_ONE, 1), 255);
    assert_eq!(quantize(0, 1), 0);
    assert_eq!(quantize(FP_ONE / 4, 1), 127);
}

#[test]
fn render_is_reproducible_with_fixed_seed() {
    let mut list = HittableList::new();
    list.push(Sphere::from(v(0, 0, -3 * FP_ONE), FP_ONE, gray()));
    let tree = BVHNode::build(list.list);
    let cam = test_camera();
    let a = render_image(&tree, &cam, 2, 2, 1, 50, Some(171));
    let b = render_image(&tree, &cam, 2, 2, 1, 50, Some(171));
    assert_eq!(a, b);
    assert_eq!(a.len(), 12);
    let c = render_image(&tree, &cam, 2, 2, 1, 50, Some(999));
    assert_eq!(c.len(), 12);
}

#[test]
fn pinhole_camera_ray_is_deterministic() {
    let cam = test_camera();
    let mut rng1 = get_rng(Some(1));
    let mut rng2 = get_rng(Some(2));
    let r1 = cam.camera_ray(FP_ONE / 2, FP_ONE / 2, &mut rng1);
    let r2 = cam.camera_ray(FP_ONE / 2, FP_ONE / 2, &mut rng2);
    assert_eq!(r1, r2);
}

#[test]
fn clone_sphere_copies_everything() {
    let s = Sphere::from(v(1, 2, 3), FP_ONE, gray());
    assert_eq!(s.clone_sphere(), s);
}
