// Vector algebra, ray evaluation and camera geometry, on concrete
// fixed-point values (one unit is 1_000_000 raw).

use raycast::vec3::Vec3;
use raycast::ray::Ray;
use raycast::camera::Camera;

const S: i64 = 1_000_000;

#[test]
fn accessors_and_index() {
    let v = Vec3::new(1, 2, 3);
    assert_eq!(v.x(), 1);
    assert_eq!(v.y(), 2);
    assert_eq!(v.z(), 3);
    assert_eq!(v.index(0), 1);
    assert_eq!(v.index(1), 2);
    assert_eq!(v.index(2), 3);
}

#[test]
fn addition_is_commutative_and_associative() {
    let a = Vec3::new(1 * S, 2 * S, 3 * S);
    let b = Vec3::new(4 * S, 5 * S, 6 * S);
    let c = Vec3::new(-2 * S, 7 * S, 11 * S);
    assert_eq!(a.add(b), b.add(a));
    assert_eq!(a.add(b).add(c), a.add(b.add(c)));
    assert_eq!(a.add(b), Vec3::new(5 * S, 7 * S, 9 * S));
    assert_eq!(b.sub(a), Vec3::new(3 * S, 3 * S, 3 * S));
}

#[test]
fn compound_assignment_matches_the_operators() {
    let a = Vec3::new(1 * S, 2 * S, 3 * S);
    let b = Vec3::new(4 * S, 5 * S, 6 * S);
    let mut v = a;
    v.add_assign(b);
    assert_eq!(v, a.add(b));
    v.sub_assign(b);
    assert_eq!(v, a);
    v.mul_assign(b);
    assert_eq!(v, a.mul(b));
    let mut w = a;
    w.div_assign(2 * S);
    assert_eq!(w, a.scalar_div(2 * S));
}

#[test]
fn products_scale_correctly() {
    let a = Vec3::new(2 * S, 3 * S, 4 * S);
    let b = Vec3::new(5 * S, 6 * S, 7 * S);
    assert_eq!(a.mul(b), Vec3::new(10 * S, 18 * S, 28 * S));
    assert_eq!(a.scalar_mul(S / 2), Vec3::new(S, 3 * S / 2, 2 * S));
    assert_eq!(Vec3::new(3 * S, 9 * S, 30 * S).scalar_div(3 * S), Vec3::new(S, 3 * S, 10 * S));
}

#[test]
fn dot_product_is_symmetric() {
    let a = Vec3::new(1 * S, 2 * S, 3 * S);
    let b = Vec3::new(4 * S, 5 * S, 6 * S);
    assert_eq!(a.dot(b), 32 * S);
    assert_eq!(a.dot(b), b.dot(a));
}

#[test]
fn cross_product_is_antisymmetric() {
    let x = Vec3::new(S, 0, 0);
    let y = Vec3::new(0, S, 0);
    assert_eq!(x.cross(y), Vec3::new(0, 0, S));
    assert_eq!(y.cross(x), Vec3::new(0, 0, -S));
    let a = Vec3::new(1 * S, 2 * S, 3 * S);
    let b = Vec3::new(-4 * S, 5 * S, -6 * S);
    let ab = a.cross(b);
    let ba = b.cross(a);
    assert_eq!(ab, Vec3::new(-ba.x(), -ba.y(), -ba.z()));
}

#[test]
fn length_of_a_scaled_vector() {
    let a = Vec3::new(3 * S, 4 * S, 0);
    assert_eq!(a.length(), 5 * S);
    assert_eq!(a.length_squared(), 25 * S);
    assert_eq!(a.scalar_mul(2 * S).length(), 10 * S);
}

#[test]
fn normalization_gives_unit_length() {
    let a = Vec3::new(3 * S, 4 * S, 0);
    let u = a.normalized();
    assert_eq!(u, Vec3::new(600_000, 800_000, 0));
    assert_eq!(u.length(), S);
    let axis = Vec3::new(0, 0, -7 * S);
    assert_eq!(axis.normalized(), Vec3::new(0, 0, -S));
    assert_eq!(axis.normalized().length(), S);
    // A diagonal vector normalizes to unit length up to the scale's rounding.
    let diag = Vec3::new(S, S, S).normalized();
    assert!((diag.length() - S).abs() <= 4);
}

#[test]
fn format_color_averages_clamps_and_scales() {
    let accumulated = Vec3::new(50_000_000, 120_000_000, -5_000_000);
    assert_eq!(accumulated.format_color(100), (128, 255, 0));
    let half = Vec3::new(S / 2, S / 2, S / 2);
    assert_eq!(half.format_color(1), (128, 128, 128));
}

#[test]
fn ray_at_zero_and_one() {
    let origin = Vec3::new(1 * S, 2 * S, 3 * S);
    let direction = Vec3::new(4 * S, 5 * S, 6 * S);
    let r = Ray::new(origin, direction);
    assert_eq!(r.origin(), origin);
    assert_eq!(r.direction(), direction);
    assert_eq!(r.at(0), origin);
    assert_eq!(r.at(S), Vec3::new(5 * S, 7 * S, 9 * S));
    assert_eq!(r.at(-S), Vec3::new(-3 * S, -3 * S, -3 * S));
}

#[test]
fn camera_rays_pass_through_the_viewport_corners() {
    let cam = Camera::new();
    let llc = Vec3::new(-1_777_777, -S, -S);
    let horizontal = Vec3::new(3_555_554, 0, 0);
    let vertical = Vec3::new(0, 2 * S, 0);
    assert_eq!(cam.get_ray(0, 0).at(S), llc);
    assert_eq!(cam.get_ray(S, 0).at(S), llc.add(horizontal));
    assert_eq!(cam.get_ray(0, S).at(S), llc.add(vertical));
    assert_eq!(cam.get_ray(S, S).at(S), llc.add(horizontal).add(vertical));
    assert_eq!(cam.get_ray(0, 0).origin(), Vec3::new(0, 0, 0));
}
