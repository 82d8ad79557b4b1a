//! The fixed pinhole camera: aspect ratio 16:9, viewport height two units,
//! focal length one unit, derived once at construction.

use vstd::prelude::*;
use crate::fx::{SCALE, div_tz, div_trunc, lemma_div_tz_exact};
use crate::ray::{Ray, ray_at};
use crate::vec3::{Vec3, Point3, sc, v_add, v_sub, v_smul, lemma_prod_bound2, lemma_div_tz_fit};

verus! {

/// Viewport coordinates handed to `get_ray` stay within this many raw units
/// (one hundred viewport widths: far beyond the conventional [0, 1] range).
pub const UV_MAX: i64 = 100_000_000;

pub struct Camera {
    pub origin: Point3,
    pub lower_left_corner: Point3,
    pub horizontal: Vec3,
    pub vertical: Vec3,
}

/// The direction of the ray through viewport coordinates (u, v):
/// lower_left_corner + u * horizontal + v * vertical - origin.
pub open spec fn cam_dir(c: Camera, u: int, v: int) -> (int, int, int) {
    v_sub(
        v_add(v_add(c.lower_left_corner@, v_smul(c.horizontal@, u)), v_smul(c.vertical@, v)),
        c.origin@,
    )
}

impl Camera {
    /// The camera's derived vectors stay within a few viewport units.
    pub open spec fn wf(self) -> bool {
        &&& self.origin.bounded(4 * sc())
        &&& self.lower_left_corner.bounded(4 * sc())
        &&& self.horizontal.bounded(4 * sc())
        &&& self.vertical.bounded(4 * sc())
    }

    /// Build the fixed camera: viewport height 2, width 2 * 16 / 9, focal
    /// length 1, origin at zero, and the lower-left corner at
    /// origin - horizontal / 2 - vertical / 2 - (0, 0, focal).
    pub fn new() -> (c: Camera)
        ensures
            c.origin@ == (0int, 0int, 0int),
            c.horizontal@ == (3555554int, 0int, 0int),
            c.vertical@ == (0int, 2000000int, 0int),
            c.lower_left_corner@ == (-1777777int, -1000000int, -1000000int),
            c.wf(),
    {
        let aspect = div_trunc(16 * (SCALE as i128), 9) as i64;
        proof {
            assert(div_tz(16int * sc(), 9) == 1777777) by (nonlinear_arith)
                requires
                    sc() == 1_000_000,
            ;
        }
        let viewport_height: i64 = 2 * SCALE;
        let viewport_width = div_trunc((aspect as i128) * ((2 * SCALE) as i128), SCALE as i128)
            as i64;
        proof {
            assert(div_tz(1777777int * 2000000, sc()) == 3555554) by (nonlinear_arith)
                requires
                    sc() == 1_000_000,
            ;
        }
        let origin = Vec3::new(0, 0, 0);
        let horizontal = Vec3::new(viewport_width, 0, 0);
        let vertical = Vec3::new(0, viewport_height, 0);
        let lower_left_corner = Vec3::new(-(viewport_width / 2), -(viewport_height / 2), -SCALE);
        Camera { origin, lower_left_corner, horizontal, vertical }
    }

    /// The ray from the origin through viewport coordinates (u, v); the
    /// coordinates are conventionally in [0, 1] but are not clamped.
    pub fn get_ray(&self, u: i64, v: i64) -> (r: Ray)
        requires
            self.wf(),
            -UV_MAX <= u <= UV_MAX,
            -UV_MAX <= v <= UV_MAX,
        ensures
            r.orig@ == self.origin@,
            r.dir@ == cam_dir(*self, u as int, v as int),
            r.wf(),
    {
        proof {
            let h = self.horizontal@;
            let w = self.vertical@;
            lemma_prod_bound2(h.0, u as int, 4 * sc(), UV_MAX as int);
            lemma_prod_bound2(h.1, u as int, 4 * sc(), UV_MAX as int);
            lemma_prod_bound2(h.2, u as int, 4 * sc(), UV_MAX as int);
            lemma_prod_bound2(w.0, v as int, 4 * sc(), UV_MAX as int);
            lemma_prod_bound2(w.1, v as int, 4 * sc(), UV_MAX as int);
            lemma_prod_bound2(w.2, v as int, 4 * sc(), UV_MAX as int);
            lemma_div_tz_fit(h.0 * u, sc(), 400_000_000);
            lemma_div_tz_fit(h.1 * u, sc(), 400_000_000);
            lemma_div_tz_fit(h.2 * u, sc(), 400_000_000);
            lemma_div_tz_fit(w.0 * v, sc(), 400_000_000);
            lemma_div_tz_fit(w.1 * v, sc(), 400_000_000);
            lemma_div_tz_fit(w.2 * v, sc(), 400_000_000);
        }
        let dir = self.lower_left_corner.add(self.horizontal.scalar_mul(u)).add(
            self.vertical.scalar_mul(v),
        ).sub(self.origin);
        Ray { orig: self.origin, dir }
    }
}

/// A corner ray passes through its viewport corner: one unit along the ray
/// through (u, v), for u and v zero or one, lands at
/// lower_left_corner + u * horizontal + v * vertical.
pub proof fn lemma_camera_corner(c: Camera, u: int, v: int)
    requires
        u == 0 || u == sc(),
        v == 0 || v == sc(),
    ensures
        ray_at(c.origin@, cam_dir(c, u, v), sc()) == v_add(
            v_add(
                c.lower_left_corner@,
                if u == sc() {
                    c.horizontal@
                } else {
                    (0int, 0int, 0int)
                },
            ),
            if v == sc() {
                c.vertical@
            } else {
                (0int, 0int, 0int)
            },
        ),
{
    let d = cam_dir(c, u, v);
    lemma_smul_zero_or_one(c.horizontal@, u);
    lemma_smul_zero_or_one(c.vertical@, v);
    lemma_div_tz_exact(d.0, sc());
    lemma_div_tz_exact(d.1, sc());
    lemma_div_tz_exact(d.2, sc());
}

/// Scaling by zero gives the zero vector; scaling by one gives the vector.
proof fn lemma_smul_zero_or_one(a: (int, int, int), s: int)
    requires
        s == 0 || s == sc(),
    ensures
        s == 0 ==> v_smul(a, s) == (0int, 0int, 0int),
        s == sc() ==> v_smul(a, s) == a,
{
    if s == 0 {
        assert(a.0 * 0 == 0 && a.1 * 0 == 0 && a.2 * 0 == 0) by (nonlinear_arith);
        assert(div_tz(0, sc()) == 0) by (nonlinear_arith)
            requires
                sc() == 1_000_000,
        ;
    } else {
        lemma_div_tz_exact(a.0, sc());
        lemma_div_tz_exact(a.1, sc());
        lemma_div_tz_exact(a.2, sc());
    }
}

} // verus!
