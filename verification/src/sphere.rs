//! The sphere: one concrete hittable, intersected by the quadratic
//! ray-sphere formula.

use vstd::prelude::*;
use crate::fx::{
    SCALE, COORD_MAX, T_MAX, div_tz, div_trunc, isqrt, isqrt_r, lemma_isqrt_range,
    lemma_div_tz_mag,
};
use crate::hit::{HitRecord, HitSpec, hit_view, hit_bounded};
use crate::ray::{Ray, ray_at};
use crate::vec3::{
    Vec3, Point3, sc, v_sub, v_sdiv, dot_full, lemma_prod_bound2, lemma_square_nonneg,
};

verus! {

/// Every hit point's components stay within this bound.
pub const P_BOUND: i64 = 8_001_000_000_000;

/// Every reported normal's components stay within this bound.
pub const N_BOUND: i64 = 8_002_000_000_000_000_000;

#[derive(Clone, Copy)]
pub struct Sphere {
    pub center: Point3,
    pub radius: i64,
}

/// The hit record reported for a hit of the sphere at parameter `t`.
pub open spec fn sphere_hit_at(
    c: (int, int, int),
    rad: int,
    o: (int, int, int),
    d: (int, int, int),
    t: int,
) -> HitSpec {
    let p = ray_at(o, d, t);
    HitSpec { p, normal: v_sdiv(v_sub(p, c), rad), t }
}

/// The quadratic ray-sphere test: solve a*t^2 + 2*half_b*t + c = 0, take the
/// smaller root if it lies in the open range, else the larger, else report no
/// hit.  A direction of length zero hits nothing.
pub open spec fn sphere_hit_spec(
    c: (int, int, int),
    rad: int,
    o: (int, int, int),
    d: (int, int, int),
    t_min: int,
    t_max: int,
) -> Option<HitSpec> {
    let oc = v_sub(o, c);
    let a = dot_full(d, d);
    let half_b = dot_full(oc, d);
    let cv = dot_full(oc, oc) - rad * rad;
    let disc = half_b * half_b - a * cv;
    if a == 0 || disc < 0 {
        None
    } else {
        let sqrtd = isqrt_r(disc as nat) as int;
        let root1 = div_tz((-half_b - sqrtd) * sc(), a);
        let root2 = div_tz((-half_b + sqrtd) * sc(), a);
        if t_min < root1 && root1 < t_max {
            Some(sphere_hit_at(c, rad, o, d, root1))
        } else if t_min < root2 && root2 < t_max {
            Some(sphere_hit_at(c, rad, o, d, root2))
        } else {
            None
        }
    }
}

impl Sphere {
    /// A sphere keeps its center in scene bounds and its radius positive.
    pub open spec fn wf(self) -> bool {
        self.center.bounded(COORD_MAX as int) && 1 <= self.radius <= COORD_MAX
    }

    pub fn new(center: Point3, radius: i64) -> (s: Sphere)
        requires
            center.bounded(COORD_MAX as int),
            1 <= radius <= COORD_MAX,
        ensures
            s.center@ == center@,
            s.radius == radius,
            s.wf(),
    {
        Sphere { center, radius }
    }

    /// Attempt intersection against a ray within the open parameter range.
    pub fn hit(&self, r: &Ray, t_min: i64, t_max: i64) -> (res: Option<HitRecord>)
        requires
            self.wf(),
            r.wf(),
            -T_MAX <= t_min,
            t_max <= T_MAX,
        ensures
            hit_view(res) == sphere_hit_spec(
                self.center@,
                self.radius as int,
                r.orig@,
                r.dir@,
                t_min as int,
                t_max as int,
            ),
            res matches Some(h) ==> hit_bounded(h@) && t_min < h.t < t_max,
    {
        let oc = r.origin().sub(self.center);
        proof {
            let dv = r.dir@;
            let ocv = v_sub(r.orig@, self.center@);
            lemma_prod_bound2(dv.0, dv.0, COORD_MAX as int, COORD_MAX as int);
            lemma_prod_bound2(dv.1, dv.1, COORD_MAX as int, COORD_MAX as int);
            lemma_prod_bound2(dv.2, dv.2, COORD_MAX as int, COORD_MAX as int);
            lemma_prod_bound2(ocv.0, dv.0, 2 * COORD_MAX as int, COORD_MAX as int);
            lemma_prod_bound2(ocv.1, dv.1, 2 * COORD_MAX as int, COORD_MAX as int);
            lemma_prod_bound2(ocv.2, dv.2, 2 * COORD_MAX as int, COORD_MAX as int);
            lemma_prod_bound2(ocv.0, ocv.0, 2 * COORD_MAX as int, 2 * COORD_MAX as int);
            lemma_prod_bound2(ocv.1, ocv.1, 2 * COORD_MAX as int, 2 * COORD_MAX as int);
            lemma_prod_bound2(ocv.2, ocv.2, 2 * COORD_MAX as int, 2 * COORD_MAX as int);
            lemma_prod_bound2(self.radius as int, self.radius as int, COORD_MAX as int,
                COORD_MAX as int);
            lemma_square_nonneg(dv.0);
            lemma_square_nonneg(dv.1);
            lemma_square_nonneg(dv.2);
        }
        let a: i128 = (r.dir.e0 as i128) * (r.dir.e0 as i128) + (r.dir.e1 as i128) * (
        r.dir.e1 as i128) + (r.dir.e2 as i128) * (r.dir.e2 as i128);
        let half_b: i128 = (oc.e0 as i128) * (r.dir.e0 as i128) + (oc.e1 as i128) * (
        r.dir.e1 as i128) + (oc.e2 as i128) * (r.dir.e2 as i128);
        let cv: i128 = (oc.e0 as i128) * (oc.e0 as i128) + (oc.e1 as i128) * (oc.e1 as i128) + (
        oc.e2 as i128) * (oc.e2 as i128) - (self.radius as i128) * (self.radius as i128);
        proof {
            lemma_prod_bound2(half_b as int, half_b as int, 6_000_000_000_000_000_000,
                6_000_000_000_000_000_000);
            lemma_prod_bound2(a as int, cv as int, 3_000_000_000_000_000_000,
                13_000_000_000_000_000_000);
        }
        let disc: i128 = half_b * half_b - a * cv;
        if a == 0 || disc < 0 {
            return None;
        }
        let sqrtd_u = isqrt(disc as u128);
        proof {
            lemma_isqrt_range(disc as nat, 0, 8_700_000_000_000_000_000nat);
        }
        let sqrtd: i128 = sqrtd_u as i128;
        proof {
            lemma_prod_bound2(-(half_b as int) - sqrtd as int, SCALE as int,
                15_000_000_000_000_000_000, 1_000_000);
            lemma_prod_bound2(-(half_b as int) + sqrtd as int, SCALE as int,
                15_000_000_000_000_000_000, 1_000_000);
        }
        let root1 = div_trunc((-half_b - sqrtd) * (SCALE as i128), a);
        if (t_min as i128) < root1 && root1 < (t_max as i128) {
            return Some(self.make_record(r, root1 as i64));
        }
        let root2 = div_trunc((-half_b + sqrtd) * (SCALE as i128), a);
        if (t_min as i128) < root2 && root2 < (t_max as i128) {
            return Some(self.make_record(r, root2 as i64));
        }
        None
    }

    /// Build the record for an accepted root: the hit point and the outward
    /// unit normal, which is (point - center) / radius.
    fn make_record(&self, r: &Ray, root: i64) -> (rec: HitRecord)
        requires
            self.wf(),
            r.wf(),
            -T_MAX <= root <= T_MAX,
        ensures
            rec@ == sphere_hit_at(self.center@, self.radius as int, r.orig@, r.dir@, root as int),
            hit_bounded(rec@),
            rec.t == root,
    {
        let p = r.at(root);
        let delta = p.sub(self.center);
        proof {
            let dl = v_sub(ray_at(r.orig@, r.dir@, root as int), self.center@);
            let rad = self.radius as int;
            assert(-(N_BOUND as int) * rad <= dl.0 * sc() <= (N_BOUND as int) * rad && -(
            N_BOUND as int) * rad <= dl.1 * sc() <= (N_BOUND as int) * rad && -(N_BOUND as int)
                * rad <= dl.2 * sc() <= (N_BOUND as int) * rad) by (nonlinear_arith)
                requires
                    1 <= rad,
                    -8_002_000_000_000 <= dl.0 <= 8_002_000_000_000,
                    -8_002_000_000_000 <= dl.1 <= 8_002_000_000_000,
                    -8_002_000_000_000 <= dl.2 <= 8_002_000_000_000,
                    sc() == 1_000_000,
                    N_BOUND == 8_002_000_000_000_000_000i64,
            ;
            assert((i64::MAX as int) * rad >= (N_BOUND as int) * rad && -((i64::MAX as int) * rad)
                <= -((N_BOUND as int) * rad)) by (nonlinear_arith)
                requires
                    1 <= rad,
                    N_BOUND == 8_002_000_000_000_000_000i64,
            ;
            lemma_div_tz_mag(dl.0 * sc(), rad);
            lemma_div_tz_mag(dl.1 * sc(), rad);
            lemma_div_tz_mag(dl.2 * sc(), rad);
            crate::vec3::lemma_div_tz_fit(dl.0 * sc(), rad, N_BOUND as int);
            crate::vec3::lemma_div_tz_fit(dl.1 * sc(), rad, N_BOUND as int);
            crate::vec3::lemma_div_tz_fit(dl.2 * sc(), rad, N_BOUND as int);
        }
        let normal = delta.scalar_div(self.radius);
        HitRecord { p, normal, t: root }
    }
}

} // verus!
