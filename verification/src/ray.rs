//! A ray: an origin point and a direction vector, with the parametric
//! point-at-parameter evaluator.

use vstd::prelude::*;
use crate::fx::{SCALE, COORD_MAX, T_MAX, div_tz, div_trunc};
use crate::vec3::{Vec3, Point3, sc, v_add, v_smul, lemma_div_tz_fit, lemma_prod_bound2};

verus! {

#[derive(Clone, Copy)]
pub struct Ray {
    pub orig: Point3,
    pub dir: Vec3,
}

impl View for Ray {
    type V = ((int, int, int), (int, int, int));

    open spec fn view(&self) -> ((int, int, int), (int, int, int)) {
        (self.orig@, self.dir@)
    }
}

/// The point reached after travelling `t` along the ray.
pub open spec fn ray_at(o: (int, int, int), d: (int, int, int), t: int) -> (int, int, int) {
    v_add(o, v_smul(d, t))
}

impl Ray {
    /// A ray keeps its origin and direction within scene bounds.
    pub open spec fn wf(self) -> bool {
        self.orig.bounded(COORD_MAX as int) && self.dir.bounded(COORD_MAX as int)
    }

    pub fn new(origin: Point3, direction: Vec3) -> (r: Ray)
        ensures
            r@ == (origin@, direction@),
    {
        Ray { orig: origin, dir: direction }
    }

    pub fn origin(&self) -> (r: Point3)
        ensures
            r@ == self.orig@,
    {
        self.orig
    }

    pub fn direction(&self) -> (r: Vec3)
        ensures
            r@ == self.dir@,
    {
        self.dir
    }

    /// Evaluate origin + t * direction; `t` may be negative.
    pub fn at(&self, t: i64) -> (r: Point3)
        requires
            self.wf(),
            -T_MAX <= t <= T_MAX,
        ensures
            r@ == ray_at(self.orig@, self.dir@, t as int),
            r.bounded(COORD_MAX as int + T_MAX as int * COORD_MAX as int / SCALE as int),
    {
        proof {
            lemma_at_bounds(self.dir@, t as int);
        }
        let s0 = div_trunc((self.dir.e0 as i128) * (t as i128), SCALE as i128) as i64;
        let s1 = div_trunc((self.dir.e1 as i128) * (t as i128), SCALE as i128) as i64;
        let s2 = div_trunc((self.dir.e2 as i128) * (t as i128), SCALE as i128) as i64;
        Vec3 { e0: self.orig.e0 + s0, e1: self.orig.e1 + s1, e2: self.orig.e2 + s2 }
    }
}

/// Travelling a bounded parameter along a bounded direction stays in a
/// bounded box.
proof fn lemma_at_bounds(d: (int, int, int), t: int)
    requires
        -(COORD_MAX as int) <= d.0 <= COORD_MAX as int,
        -(COORD_MAX as int) <= d.1 <= COORD_MAX as int,
        -(COORD_MAX as int) <= d.2 <= COORD_MAX as int,
        -(T_MAX as int) <= t <= T_MAX as int,
    ensures
        -(T_MAX as int * COORD_MAX as int / SCALE as int) <= div_tz(d.0 * t, sc()) <= T_MAX as int
            * COORD_MAX as int / SCALE as int,
        -(T_MAX as int * COORD_MAX as int / SCALE as int) <= div_tz(d.1 * t, sc()) <= T_MAX as int
            * COORD_MAX as int / SCALE as int,
        -(T_MAX as int * COORD_MAX as int / SCALE as int) <= div_tz(d.2 * t, sc()) <= T_MAX as int
            * COORD_MAX as int / SCALE as int,
{
    lemma_prod_bound2(d.0, t, COORD_MAX as int, T_MAX as int);
    lemma_prod_bound2(d.1, t, COORD_MAX as int, T_MAX as int);
    lemma_prod_bound2(d.2, t, COORD_MAX as int, T_MAX as int);
    assert(COORD_MAX as int * T_MAX as int == (T_MAX as int * COORD_MAX as int / SCALE as int)
        * sc()) by (nonlinear_arith)
        requires
            COORD_MAX == 1_000_000_000i64,
            T_MAX == 8_000_000_000i64,
            SCALE == 1_000_000i64,
            sc() == 1_000_000,
    ;
    lemma_div_tz_fit(d.0 * t, sc(), T_MAX as int * COORD_MAX as int / SCALE as int);
    lemma_div_tz_fit(d.1 * t, sc(), T_MAX as int * COORD_MAX as int / SCALE as int);
    lemma_div_tz_fit(d.2 * t, sc(), T_MAX as int * COORD_MAX as int / SCALE as int);
}

/// A ray starts at its origin.
pub proof fn lemma_ray_at_zero(o: (int, int, int), d: (int, int, int))
    ensures
        ray_at(o, d, 0) == o,
{
    assert(div_tz(d.0 * 0, sc()) == 0) by (nonlinear_arith);
    assert(div_tz(d.1 * 0, sc()) == 0) by (nonlinear_arith);
    assert(div_tz(d.2 * 0, sc()) == 0) by (nonlinear_arith);
}

/// One unit along the ray lands at origin + direction.
pub proof fn lemma_ray_at_one(o: (int, int, int), d: (int, int, int))
    ensures
        ray_at(o, d, sc()) == v_add(o, d),
{
    crate::fx::lemma_div_tz_exact(d.0, sc());
    crate::fx::lemma_div_tz_exact(d.1, sc());
    crate::fx::lemma_div_tz_exact(d.2, sc());
}

} // verus!
