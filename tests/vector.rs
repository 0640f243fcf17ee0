use raytracer::vec::{floor_sqrt, quot, Vec3, UNIT};

fn v(x: i64, y: i64, z: i64) -> Vec3<i64> {
    Vec3 { x, y, z }
}

fn same(a: Vec3<i64>, b: Vec3<i64>) -> bool {
    a.x == b.x && a.y == b.y && a.z == b.z
}

#[test]
fn new_uniform_repeats_the_value() {
    assert!(same(Vec3::new_uniform(7i64), v(7, 7, 7)));
    let f = Vec3::new_uniform(0.5f32);
    assert_eq!((f.x, f.y, f.z), (0.5, 0.5, 0.5));
}

#[test]
fn dot_product_sums_component_products() {
    assert_eq!(v(1, 2, 3).dot_product(v(4, -5, 6)), 4 - 10 + 18);
    assert_eq!(v(0, 0, 0).dot_product(v(9, 9, 9)), 0);
}

#[test]
fn sqr_magnitude_and_magnitude() {
    assert_eq!(v(3, 4, 0).sqr_magnitude(), 25);
    assert_eq!(v(3, 4, 0).magnitude(), 5);
    assert_eq!(v(1, 1, 1).magnitude(), 1);
    assert_eq!(v(2, 3, 6).magnitude(), 7);
    assert_eq!(v(0, 0, 0).magnitude(), 0);
}

#[test]
fn floor_sqrt_rounds_down() {
    assert_eq!(floor_sqrt(0), 0);
    assert_eq!(floor_sqrt(1), 1);
    assert_eq!(floor_sqrt(15), 3);
    assert_eq!(floor_sqrt(16), 4);
    assert_eq!(floor_sqrt(u64::MAX as u128), 4294967295);
    assert_eq!(floor_sqrt(u128::MAX), u64::MAX as u128);
}

#[test]
fn quot_rounds_toward_zero() {
    assert_eq!(quot(7, 2), 3);
    assert_eq!(quot(-7, 2), -3);
    assert_eq!(quot(7, -2), -3);
    assert_eq!(quot(-7, -2), 3);
    assert_eq!(quot(i64::MIN, 1), i64::MIN);
}

#[test]
fn normalized_zero_vector_stays_zero() {
    let z = v(0, 0, 0).normalized();
    assert!(same(z, v(0, 0, 0)));
}

#[test]
fn normalized_scales_to_unit() {
    assert!(same(v(3, 4, 0).normalized(), v(39321, 52428, 0)));
    assert!(same(v(-3, 0, 4).normalized(), v(-39321, 0, 52428)));
    assert!(same(v(0, 0, -9).normalized(), v(0, 0, -UNIT)));
}

#[test]
fn normalized_has_unit_length_up_to_rounding() {
    for w in [v(3, 4, 0), v(1, 1, 1), v(-5, 12, 7), v(100000, -3, 42), v(1, 0, 1)] {
        let n = w.normalized();
        let s = n.sqr_magnitude() as f64;
        let unit = (UNIT as f64) * (UNIT as f64);
        assert!((s / unit - 1.0).abs() < 1e-3, "{} vs {}", s, unit);
        assert!(n.sqr_magnitude() < (UNIT + 1) * (UNIT + 1));
    }
    assert!(same(v(1, 1, 1).normalized(), v(37837, 37837, 37837)));
}

#[test]
fn component_wise_arithmetic() {
    let a = v(1, -2, 3);
    let b = v(4, 5, -6);
    assert!(same(a.add(b), v(5, 3, -3)));
    assert!(same(a.sub(b), v(-3, -7, 9)));
    assert!(same(a.mul(b), v(4, -10, -18)));
    assert!(same(a.scale(3), v(3, -6, 9)));
    assert!(same(v(-7, 9, 8).div(v(2, -4, 8)), v(-3, -2, 1)));
    assert!(same(a.neg(), v(-1, 2, -3)));
}

#[test]
fn assigning_arithmetic() {
    let mut a = v(1, 2, 3);
    a.add_assign(v(1, 1, 1));
    assert!(same(a, v(2, 3, 4)));
    a.sub_assign(v(3, 3, 3));
    assert!(same(a, v(-1, 0, 1)));
    a.mul_assign(v(5, 5, -5));
    assert!(same(a, v(-5, 0, -5)));
    a.div_assign(v(2, 1, -2));
    assert!(same(a, v(-2, 0, 2)));
}

#[test]
fn default_is_zero() {
    let d: Vec3<i64> = Default::default();
    assert!(same(d, v(0, 0, 0)));
}
