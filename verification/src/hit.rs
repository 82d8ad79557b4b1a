//! The hit-record protocol: what a ray-object intersection reports, the
//! closed set of scene objects, and the scene aggregate whose own hit test
//! is the nearest-hit reduction over its members.

use vstd::prelude::*;
use crate::fx::{COORD_MAX, T_MAX};
use crate::ray::Ray;
use crate::sphere::{Sphere, sphere_hit_spec, P_BOUND, N_BOUND};
use crate::vec3::{Vec3, Point3};

verus! {

/// Where and how a ray met a surface: the point, the outward unit surface
/// normal, and the ray parameter of the hit.
pub struct HitRecord {
    pub p: Point3,
    pub normal: Vec3,
    pub t: i64,
}

/// The mathematical content of a hit record.
pub struct HitSpec {
    pub p: (int, int, int),
    pub normal: (int, int, int),
    pub t: int,
}

impl View for HitRecord {
    type V = HitSpec;

    open spec fn view(&self) -> HitSpec {
        HitSpec { p: self.p@, normal: self.normal@, t: self.t as int }
    }
}

/// The view of an optional hit record.
pub open spec fn hit_view(res: Option<HitRecord>) -> Option<HitSpec> {
    match res {
        Some(h) => Some(h@),
        None => None,
    }
}

/// A hit stays within the stated coordinate and parameter bounds.
pub open spec fn hit_bounded(h: HitSpec) -> bool {
    &&& -(P_BOUND as int) <= h.p.0 <= P_BOUND as int
    &&& -(P_BOUND as int) <= h.p.1 <= P_BOUND as int
    &&& -(P_BOUND as int) <= h.p.2 <= P_BOUND as int
    &&& -(N_BOUND as int) <= h.normal.0 <= N_BOUND as int
    &&& -(N_BOUND as int) <= h.normal.1 <= N_BOUND as int
    &&& -(N_BOUND as int) <= h.normal.2 <= N_BOUND as int
}

/// A scene object: the closed set of hittable variants.
pub enum Hittable {
    Sphere(Sphere),
}

/// What a scene object's hit test reports.
pub open spec fn hittable_hit_spec(
    obj: Hittable,
    o: (int, int, int),
    d: (int, int, int),
    t_min: int,
    t_max: int,
) -> Option<HitSpec> {
    match obj {
        Hittable::Sphere(s) => sphere_hit_spec(
            s.center@,
            s.radius as int,
            o,
            d,
            t_min,
            t_max,
        ),
    }
}

impl Hittable {
    pub open spec fn wf(self) -> bool {
        match self {
            Hittable::Sphere(s) => s.wf(),
        }
    }

    /// Attempt intersection against a ray within the open parameter range.
    pub fn hit(&self, r: &Ray, t_min: i64, t_max: i64) -> (res: Option<HitRecord>)
        requires
            self.wf(),
            r.wf(),
            -T_MAX <= t_min,
            t_max <= T_MAX,
        ensures
            hit_view(res) == hittable_hit_spec(*self, r.orig@, r.dir@, t_min as int, t_max as int),
            res matches Some(h) ==> hit_bounded(h@) && t_min < h.t < t_max,
    {
        match self {
            Hittable::Sphere(s) => s.hit(r, t_min, t_max),
        }
    }
}

/// What is left to decide after the first `i` members have been folded into
/// the best hit so far: the nearest-hit reduction, member by member, each
/// later member searched only up to the closest hit already found.
pub open spec fn world_hit_from(
    objs: Seq<Hittable>,
    o: (int, int, int),
    d: (int, int, int),
    t_min: int,
    t_max: int,
    i: nat,
    best: Option<HitSpec>,
) -> Option<HitSpec>
    decreases objs.len() - i,
{
    if i >= objs.len() {
        best
    } else {
        let closest = match best {
            Some(h) => h.t,
            None => t_max,
        };
        let cur = hittable_hit_spec(objs[i as int], o, d, t_min, closest);
        let next = match cur {
            Some(h) => Some(h),
            None => best,
        };
        world_hit_from(objs, o, d, t_min, t_max, i + 1, next)
    }
}

/// The scene aggregate's hit: the nearest hit over all members, or none.
pub open spec fn world_hit_spec(
    objs: Seq<Hittable>,
    o: (int, int, int),
    d: (int, int, int),
    t_min: int,
    t_max: int,
) -> Option<HitSpec> {
    world_hit_from(objs, o, d, t_min, t_max, 0, None)
}

/// An ordered collection of scene objects with exclusive ownership.
pub struct World {
    pub objects: Vec<Hittable>,
}

impl World {
    pub open spec fn wf(self) -> bool {
        forall|k: int| 0 <= k < self.objects@.len() ==> (#[trigger] self.objects@[k]).wf()
    }

    pub fn new() -> (w: World)
        ensures
            w.objects@.len() == 0,
            w.wf(),
    {
        World { objects: Vec::new() }
    }

    pub fn push(&mut self, obj: Hittable)
        requires
            obj.wf(),
        ensures
            final(self).objects@ == old(self).objects@.push(obj),
            old(self).wf() ==> final(self).wf(),
    {
        self.objects.push(obj);
    }

    /// The nearest hit across all members within the open range, or none if
    /// the scene is empty or every member misses.
    pub fn hit(&self, r: &Ray, t_min: i64, t_max: i64) -> (res: Option<HitRecord>)
        requires
            self.wf(),
            r.wf(),
            -T_MAX <= t_min,
            t_max <= T_MAX,
        ensures
            hit_view(res) == world_hit_spec(
                self.objects@,
                r.orig@,
                r.dir@,
                t_min as int,
                t_max as int,
            ),
            res matches Some(h) ==> hit_bounded(h@) && t_min < h.t < t_max,
    {
        let ghost o = r.orig@;
        let ghost d = r.dir@;
        let mut best: Option<HitRecord> = None;
        let mut i: usize = 0;
        while i < self.objects.len()
            invariant
                o == r.orig@,
                d == r.dir@,
                self.wf(),
                r.wf(),
                -T_MAX <= t_min,
                t_max <= T_MAX,
                i <= self.objects.len(),
                best matches Some(h) ==> hit_bounded(h@) && t_min < h.t < t_max,
                world_hit_from(
                    self.objects@,
                    o,
                    d,
                    t_min as int,
                    t_max as int,
                    i as nat,
                    hit_view(best),
                ) == world_hit_spec(self.objects@, o, d, t_min as int, t_max as int),
            decreases self.objects.len() - i,
        {
            let ghost best0 = hit_view(best);
            let closest = match &best {
                Some(h) => h.t,
                None => t_max,
            };
            let obj = &self.objects[i];
            let cur = obj.hit(r, t_min, closest);
            let ghost curv = hit_view(cur);
            proof {
                assert(*obj == self.objects@[i as int]);
                assert(curv == hittable_hit_spec(*obj, o, d, t_min as int, closest as int));
            }
            match cur {
                Some(h) => {
                    best = Some(h);
                },
                None => {},
            }
            proof {
                let objs = self.objects@;
                let closest_s = match best0 {
                    Some(h) => h.t,
                    None => t_max as int,
                };
                assert(closest as int == closest_s);
                assert(curv == hittable_hit_spec(objs[i as int], o, d, t_min as int, closest_s));
                let next = match curv {
                    Some(h) => Some(h),
                    None => best0,
                };
                assert(hit_view(best) == next);
                assert(world_hit_from(objs, o, d, t_min as int, t_max as int, i as nat, best0)
                    == world_hit_from(objs, o, d, t_min as int, t_max as int, i as nat + 1, next));
            }
            i = i + 1;
        }
        best
    }
}

} // verus!
