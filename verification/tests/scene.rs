// Sphere intersection, the nearest-hit reduction, the random source, and
// the end-to-end render (one unit is 1_000_000 raw).

use raycast::vec3::Vec3;
use raycast::ray::Ray;
use raycast::sphere::Sphere;
use raycast::hit::{Hittable, World};
use raycast::camera::Camera;
use raycast::fx::T_MAX;
use raycast::render::{render, render_with_jitter};
use raycast::rng::{rng_from_seed, rng_below};

const S: i64 = 1_000_000;

#[test]
fn head_on_hit_from_outside() {
    let sphere = Sphere::new(Vec3::new(0, 0, -2 * S), S);
    let r = Ray::new(Vec3::new(0, 0, 0), Vec3::new(0, 0, -S));
    let rec = sphere.hit(&r, 0, T_MAX).unwrap();
    // distance to center 2, radius 1: the near surface is at t = 1.
    assert_eq!(rec.t, S);
    assert_eq!(rec.p, Vec3::new(0, 0, -S));
    // The normal is unit length, parallel to the ray, pointing outward.
    assert_eq!(rec.normal, Vec3::new(0, 0, S));
}

#[test]
fn hit_from_inside_returns_the_positive_root() {
    let sphere = Sphere::new(Vec3::new(0, 0, -S), 2 * S);
    let r = Ray::new(Vec3::new(0, 0, 0), Vec3::new(0, 0, -S));
    let rec = sphere.hit(&r, 0, T_MAX).unwrap();
    assert_eq!(rec.t, 3 * S);
    assert_eq!(rec.p, Vec3::new(0, 0, -3 * S));
    assert_eq!(rec.normal, Vec3::new(0, 0, -S));
}

#[test]
fn passing_ray_misses() {
    let sphere = Sphere::new(Vec3::new(2 * S, 0, -3 * S), S);
    let r = Ray::new(Vec3::new(0, 0, 0), Vec3::new(0, 0, -S));
    assert!(sphere.hit(&r, 0, T_MAX).is_none());
}

#[test]
fn nearest_hit_is_independent_of_insertion_order() {
    let near = Sphere::new(Vec3::new(0, 0, -2 * S), S);
    let far = Sphere::new(Vec3::new(0, 0, -3 * S), 3 * S / 2);
    let r = Ray::new(Vec3::new(0, 0, 0), Vec3::new(0, 0, -S));

    let mut world_a = World::new();
    world_a.push(Hittable::Sphere(near));
    world_a.push(Hittable::Sphere(far));
    let rec_a = world_a.hit(&r, 0, T_MAX).unwrap();

    let mut world_b = World::new();
    world_b.push(Hittable::Sphere(far));
    world_b.push(Hittable::Sphere(near));
    let rec_b = world_b.hit(&r, 0, T_MAX).unwrap();

    // Both spheres lie along the ray (the far one's near surface at t = 1.5);
    // the returned hit belongs to the nearer surface in either order.
    assert_eq!(rec_a.t, S);
    assert_eq!(rec_b.t, S);
    assert_eq!(rec_a.p, rec_b.p);
    assert_eq!(rec_a.normal, rec_b.normal);
}

#[test]
fn empty_world_always_misses() {
    let world = World::new();
    let r = Ray::new(Vec3::new(0, 0, 0), Vec3::new(0, 0, -S));
    assert!(world.hit(&r, 0, T_MAX).is_none());
}

#[test]
fn seeded_generator_is_reproducible_and_bounded() {
    let mut a = rng_from_seed(42);
    let mut b = rng_from_seed(42);
    for _ in 0..100 {
        let x = rng_below(&mut a, S as u64);
        let y = rng_below(&mut b, S as u64);
        assert!(x < S as u64);
        assert_eq!(x, y);
    }
    let mut c = rng_from_seed(43);
    let mut differs = false;
    let mut d = rng_from_seed(42);
    for _ in 0..100 {
        if rng_below(&mut c, S as u64) != rng_below(&mut d, S as u64) {
            differs = true;
        }
    }
    assert!(differs);
}

fn demo_world() -> World {
    let mut world = World::new();
    world.push(Hittable::Sphere(Sphere::new(Vec3::new(0, 0, -S), S / 2)));
    world.push(Hittable::Sphere(Sphere::new(Vec3::new(0, -100_500_000, -S), 100 * S)));
    world
}

#[test]
fn end_to_end_render() {
    let world = demo_world();
    let cam = Camera::new();
    let width: u64 = 256;
    let height: u64 = 144;
    let out = render(&world, &cam, width, height, 100, 7);
    assert_eq!(out.len(), 36_864);
    for px in &out {
        assert!(px.0 <= 255 && px.1 <= 255 && px.2 <= 255);
    }
    // The image center shows the normal-shaded small sphere, distinct from
    // the gradient background of the top row.
    let center = out[(height as usize / 2) * width as usize + width as usize / 2];
    let top_mid = out[width as usize / 2];
    assert_ne!(center, top_mid);
    // The top-left pixel sees sky only: a white-to-blue blend, blue-heavy.
    let top_left = out[0];
    assert!(top_left.0 >= 120 && top_left.0 <= 205);
    assert!(top_left.1 >= 160 && top_left.1 <= 230);
    assert!(top_left.2 >= 240);
    assert!(top_left.2 > top_left.0);
}

#[test]
fn fixed_seed_renders_identically() {
    let world = demo_world();
    let cam = Camera::new();
    let first = render(&world, &cam, 64, 36, 10, 12345);
    let second = render(&world, &cam, 64, 36, 10, 12345);
    assert_eq!(first, second);
}

#[test]
fn explicit_jitters_render_deterministically() {
    let world = demo_world();
    let cam = Camera::new();
    let jitters: Vec<(u64, u64)> = (0..(8 * 4 * 2)).map(|k| (k * 100, k * 200)).collect();
    let a = render_with_jitter(&world, &cam, 8, 4, 2, &jitters);
    let b = render_with_jitter(&world, &cam, 8, 4, 2, &jitters);
    assert_eq!(a.len(), 32);
    assert_eq!(a, b);
}
