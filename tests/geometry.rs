use raytracer::sphere::{nearest_hit, shadow_blocked, Ray, Sphere};
use raytracer::vec::Vec3;

fn v(x: i64, y: i64, z: i64) -> Vec3<i64> {
    Vec3 { x, y, z }
}

fn ball(center: Vec3<i64>, radius: i64) -> Sphere<i64> {
    Sphere::new(center, radius, v(1, 1, 1), v(0, 0, 0), 0, 0)
}

fn down_z() -> Ray<i64> {
    Ray { origin: v(0, 0, 5), direction: v(0, 0, -1) }
}

#[test]
fn new_caches_squared_radius() {
    let s = Sphere::new(v(1, 2, 3), 4, v(1, 0, 0), v(2, 0, 0), 1, 0);
    assert_eq!(s.sqr_radius, 16);
    assert_eq!(s.radius, 4);
    assert_eq!(s.emission.x, 2);
    assert_eq!(s.transparency, 1);
}

#[test]
fn axis_ray_crosses_sphere_at_origin() {
    assert_eq!(ball(v(0, 0, 0), 2).intersect(&down_z()), Some((3, 7)));
    assert_eq!(ball(v(0, 0, 0), 1).intersect(&down_z()), Some((4, 6)));
    // Origin inside the sphere: the near crossing lies behind it.
    assert_eq!(ball(v(0, 0, 0), 7).intersect(&down_z()), Some((-2, 12)));
}

#[test]
fn sphere_behind_the_ray_is_missed() {
    let ray = Ray { origin: v(0, 0, 5), direction: v(0, 0, 1) };
    assert_eq!(ball(v(0, 0, 0), 2).intersect(&ray), None);
    // Even when the origin lies inside it, a sphere centered behind is missed.
    assert_eq!(ball(v(0, 0, 0), 10).intersect(&ray), None);
}

#[test]
fn ray_passing_beside_the_sphere_misses() {
    assert_eq!(ball(v(3, 0, 0), 2).intersect(&down_z()), None);
    assert_eq!(ball(v(2, 0, 0), 2).intersect(&down_z()), Some((5, 5)));
}

#[test]
fn nearest_hit_on_empty_scene_is_none() {
    assert_eq!(nearest_hit(&down_z(), &Vec::new()), None);
}

#[test]
fn nearest_hit_takes_closest_sphere() {
    let scene = vec![ball(v(0, 0, -10), 1), ball(v(0, 0, 0), 1), ball(v(9, 0, 0), 1)];
    assert_eq!(nearest_hit(&down_z(), &scene), Some((1, 4)));
}

#[test]
fn nearest_hit_tie_goes_to_first() {
    let scene = vec![ball(v(3, 0, 0), 1), ball(v(0, 0, 0), 2), ball(v(0, 0, 1), 1)];
    assert_eq!(nearest_hit(&down_z(), &scene), Some((1, 3)));
}

#[test]
fn nearest_hit_from_inside_uses_far_crossing() {
    let scene = vec![ball(v(0, 0, 0), 7), ball(v(0, 0, -5), 1)];
    assert_eq!(nearest_hit(&down_z(), &scene), Some((1, 9)));
    let scene = vec![ball(v(0, 0, 0), 7)];
    assert_eq!(nearest_hit(&down_z(), &scene), Some((0, 12)));
}

#[test]
fn shadow_ray_blocked_by_occluder() {
    // Light at index 0 on the z axis below, occluder in between at index 1.
    let light = Sphere::new(v(0, 0, -20), 2, v(0, 0, 0), v(3, 3, 3), 0, 0);
    let occluder = ball(v(0, 0, -8), 3);
    let ray = down_z();
    assert!(shadow_blocked(&ray, &vec![light, occluder], 0));
    assert!(!shadow_blocked(&ray, &vec![light], 0));
    assert!(!shadow_blocked(&ray, &vec![light, ball(v(10, 0, -8), 3)], 0));
}
