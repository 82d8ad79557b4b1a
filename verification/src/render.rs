//! Shading and the render driver: for every pixel, for every sample, trace a
//! jittered ray, accumulate its color, then average, clamp and scale to an
//! ordered stream of 8-bit RGB triples (row-major, top to bottom).

use vstd::prelude::*;
use crate::camera::{Camera, cam_dir};
use crate::fx::{SCALE, T_MAX, div_tz, div_trunc, lemma_div_tz_lt};
use crate::hit::{World, world_hit_spec};
use crate::ray::Ray;
use crate::rng::{rng_from_seed, rng_below};
use crate::vec3::{
    Vec3, Color, sc, tone, v_add, v_smul, v_unit, dot_full, lemma_prod_bound2, lemma_div_tz_fit,
};

verus! {

/// Half a unit, at the fixed scale.
pub const HALF: i64 = 500_000;

/// Every shaded color's components stay within this bound.
pub const C_BOUND: i64 = 4_200_000_000_000_000_000;

/// Pure white, the background gradient's lower end.
pub open spec fn white() -> (int, int, int) {
    (sc(), sc(), sc())
}

/// Sky blue, the background gradient's upper end.
pub open spec fn sky_blue() -> (int, int, int) {
    (sc() / 2, 7 * sc() / 10, sc())
}

/// What color a ray yields: half the unit normal plus white on a hit within
/// [0, the horizon), else the vertical white-to-blue background gradient.
pub open spec fn ray_color_spec(
    objs: Seq<crate::hit::Hittable>,
    o: (int, int, int),
    d: (int, int, int),
) -> (int, int, int) {
    match world_hit_spec(objs, o, d, 0, T_MAX as int) {
        Some(h) => v_smul(v_add(h.normal, white()), HALF as int),
        None => {
            let ud = v_unit(d);
            let t = div_tz(ud.1 + sc(), 2);
            v_add(v_smul(white(), sc() - t), v_smul(sky_blue(), t))
        },
    }
}

/// A viewport coordinate: (index + jitter) / (extent - 1).
pub open spec fn frac_coord(k: int, jit: int, n: int) -> int {
    div_tz(k * sc() + jit, n - 1)
}

/// The color of one jittered sample of pixel (i, j).
pub open spec fn sample_color_spec(
    objs: Seq<crate::hit::Hittable>,
    cam: Camera,
    w: int,
    h: int,
    i: int,
    j: int,
    ju: int,
    jv: int,
) -> (int, int, int) {
    let u = frac_coord(i, ju, w);
    let v = frac_coord(j, jv, h);
    ray_color_spec(objs, cam.origin@, cam_dir(cam, u, v))
}

/// The sum of the first `n` sample colors of pixel (i, j), whose jitters
/// start at `base` in the jitter sequence.
pub open spec fn pixel_sum_spec(
    objs: Seq<crate::hit::Hittable>,
    cam: Camera,
    w: int,
    h: int,
    i: int,
    j: int,
    js: Seq<(u64, u64)>,
    base: int,
    n: nat,
) -> (int, int, int)
    decreases n,
{
    if n == 0 {
        (0int, 0int, 0int)
    } else {
        let jit = js[base + n - 1];
        v_add(
            pixel_sum_spec(objs, cam, w, h, i, j, js, base, (n - 1) as nat),
            sample_color_spec(objs, cam, w, h, i, j, jit.0 as int, jit.1 as int),
        )
    }
}

/// The emitted value of the pixel at position `p` of the stream: row-major
/// from the top row down, each channel tone-mapped over the sample count.
pub open spec fn pixel_at(
    objs: Seq<crate::hit::Hittable>,
    cam: Camera,
    w: int,
    h: int,
    samples: int,
    js: Seq<(u64, u64)>,
    p: int,
) -> (int, int, int) {
    let j = h - 1 - p / w;
    let i = p % w;
    let s = pixel_sum_spec(objs, cam, w, h, i, j, js, p * samples, samples as nat);
    (tone(s.0, samples), tone(s.1, samples), tone(s.2, samples))
}

/// The whole stream matches the per-pixel specification.
pub open spec fn stream_matches(
    out: Seq<(u64, u64, u64)>,
    objs: Seq<crate::hit::Hittable>,
    cam: Camera,
    w: int,
    h: int,
    samples: int,
    js: Seq<(u64, u64)>,
) -> bool {
    &&& out.len() == w * h
    &&& forall|p: int|
        0 <= p < out.len() ==> ((#[trigger] out[p]).0 as int, out[p].1 as int, out[p].2 as int)
            == pixel_at(objs, cam, w, h, samples, js, p)
}

/// Every jitter pair lies below one unit.
pub open spec fn jitters_ok(js: Seq<(u64, u64)>) -> bool {
    forall|k: int| 0 <= k < js.len() ==> (#[trigger] js[k]).0 < SCALE && js[k].1 < SCALE
}

/// The camera built by `Camera::new`, whose rays all have a direction with
/// z-component of exactly minus one unit.
pub open spec fn standard_camera(c: Camera) -> bool {
    &&& c.origin@ == (0int, 0int, 0int)
    &&& c.horizontal@ == (3555554int, 0int, 0int)
    &&& c.vertical@ == (0int, 2000000int, 0int)
    &&& c.lower_left_corner@ == (-1777777int, -1000000int, -1000000int)
}

/// A standard camera's rays point one unit into the scene.
pub proof fn lemma_standard_dir(c: Camera, u: int, v: int)
    requires
        standard_camera(c),
    ensures
        cam_dir(c, u, v).2 == -sc(),
        dot_full(cam_dir(c, u, v), cam_dir(c, u, v)) >= 1,
{
    let d = cam_dir(c, u, v);
    assert(0int * u == 0 && 0int * v == 0) by (nonlinear_arith);
    assert(div_tz(0, sc()) == 0) by (nonlinear_arith)
        requires
            sc() == 1_000_000,
    ;
    assert(d.2 == -sc());
    assert(d.0 * d.0 >= 0 && d.1 * d.1 >= 0 && d.2 * d.2 >= 1) by (nonlinear_arith)
        requires
            d.2 == -1_000_000,
    ;
}

/// The color a single ray contributes.
pub fn ray_color(r: &Ray, world: &World) -> (c: Color)
    requires
        world.wf(),
        r.wf(),
        dot_full(r.dir@, r.dir@) >= 1,
    ensures
        c@ == ray_color_spec(world.objects@, r.orig@, r.dir@),
        c.bounded(C_BOUND as int),
{
    let hit = world.hit(r, 0, T_MAX);
    match hit {
        Some(rec) => {
            proof {
                let n = rec@.normal;
                lemma_prod_bound2(n.0 + sc(), HALF as int, 8_003_000_000_000_000_000,
                    500_000);
                lemma_prod_bound2(n.1 + sc(), HALF as int, 8_003_000_000_000_000_000,
                    500_000);
                lemma_prod_bound2(n.2 + sc(), HALF as int, 8_003_000_000_000_000_000,
                    500_000);
                lemma_div_tz_fit((n.0 + sc()) * HALF as int, sc(), C_BOUND as int);
                lemma_div_tz_fit((n.1 + sc()) * HALF as int, sc(), C_BOUND as int);
                lemma_div_tz_fit((n.2 + sc()) * HALF as int, sc(), C_BOUND as int);
            }
            let c0 = div_trunc(((rec.normal.e0 as i128) + (SCALE as i128)) * (HALF as i128),
                SCALE as i128) as i64;
            let c1 = div_trunc(((rec.normal.e1 as i128) + (SCALE as i128)) * (HALF as i128),
                SCALE as i128) as i64;
            let c2 = div_trunc(((rec.normal.e2 as i128) + (SCALE as i128)) * (HALF as i128),
                SCALE as i128) as i64;
            Vec3 { e0: c0, e1: c1, e2: c2 }
        },
        None => {
            let unit_direction = r.direction().normalized();
            let t = (unit_direction.y() + SCALE) / 2;
            let white_v = Vec3::new(SCALE, SCALE, SCALE);
            let blue_v = Vec3::new(SCALE / 2, 7 * SCALE / 10, SCALE);
            proof {
                let tt = div_tz(v_unit(r.dir@).1 + sc(), 2);
                lemma_prod_bound2(sc(), sc() - tt, sc(), sc());
                lemma_prod_bound2(sc() / 2, tt, sc(), sc());
                lemma_prod_bound2(7 * sc() / 10, tt, sc(), sc());
                lemma_div_tz_fit(sc() * (sc() - tt), sc(), 1_000_000_000_000);
                lemma_div_tz_fit((sc() / 2) * tt, sc(), 1_000_000_000_000);
                lemma_div_tz_fit((7 * sc() / 10) * tt, sc(), 1_000_000_000_000);
            }
            white_v.scalar_mul(SCALE - t).add(blue_v.scalar_mul(t))
        },
    }
}

/// One tone-mapped channel of an accumulated wide sum.
fn tone_wide(c: i128, samples: u64) -> (r: u64)
    requires
        1 <= samples,
        i128::MIN < c,
    ensures
        r as int == tone(c as int, samples as int),
        r <= 255,
{
    let avg = div_trunc(c, samples as i128);
    let clamped: i128 = if avg < 0 {
        0
    } else if avg > crate::vec3::CLAMP_MAX as i128 {
        crate::vec3::CLAMP_MAX as i128
    } else {
        avg
    };
    let out = div_trunc(clamped * 256, SCALE as i128);
    proof {
        lemma_div_tz_lt(clamped as int * 256, sc(), 255);
    }
    out as u64
}

/// Render the scene with an explicit jitter sequence: one (u, v) jitter pair
/// per sample, in emission order.  The output is exactly the tone-mapped
/// per-pixel sample average, pixel by pixel.
pub fn render_with_jitter(
    world: &World,
    cam: &Camera,
    width: u64,
    height: u64,
    samples: u64,
    jitters: &Vec<(u64, u64)>,
) -> (out: Vec<(u64, u64, u64)>)
    requires
        world.wf(),
        standard_camera(*cam),
        2 <= width <= 100_000,
        2 <= height <= 100_000,
        1 <= samples <= 1_000_000_000,
        jitters@.len() == width as int * height as int * samples as int,
        jitters_ok(jitters@),
    ensures
        stream_matches(
            out@,
            world.objects@,
            *cam,
            width as int,
            height as int,
            samples as int,
            jitters@,
        ),
        forall|p: int|
            0 <= p < out@.len() ==> (#[trigger] out@[p]).0 <= 255 && out@[p].1 <= 255
                && out@[p].2 <= 255,
{
    let ghost objs = world.objects@;
    let ghost js = jitters@;
    let mut out: Vec<(u64, u64, u64)> = Vec::new();
    let mut jj: u64 = 0;
    proof {
        assert(cam.wf());
    }
    while jj < height
        invariant
            world.wf(),
            standard_camera(*cam),
            cam.wf(),
            objs == world.objects@,
            js == jitters@,
            2 <= width <= 100_000,
            2 <= height <= 100_000,
            1 <= samples <= 1_000_000_000,
            js.len() == width as int * height as int * samples as int,
            jitters_ok(js),
            jj <= height,
            out@.len() == jj as int * width as int,
            forall|p: int|
                0 <= p < out@.len() ==> ((#[trigger] out@[p]).0 as int, out@[p].1 as int,
                out@[p].2 as int) == pixel_at(
                    objs,
                    *cam,
                    width as int,
                    height as int,
                    samples as int,
                    js,
                    p,
                ),
            forall|p: int|
                0 <= p < out@.len() ==> (#[trigger] out@[p]).0 <= 255 && out@[p].1 <= 255
                    && out@[p].2 <= 255,
        decreases height - jj,
    {
        let j: u64 = height - 1 - jj;
        let mut i: u64 = 0;
        proof {
            assert(jj as int * width as int + width as int == (jj as int + 1) * width as int)
                by (nonlinear_arith);
            assert((jj as int + 1) * width as int <= height as int * width as int)
                by (nonlinear_arith)
                requires
                    jj as int + 1 <= height as int,
                    width >= 2,
            ;
        }
        while i < width
            invariant
                world.wf(),
                standard_camera(*cam),
                cam.wf(),
                objs == world.objects@,
                js == jitters@,
                2 <= width <= 100_000,
                2 <= height <= 100_000,
                1 <= samples <= 1_000_000_000,
                js.len() == width as int * height as int * samples as int,
                jitters_ok(js),
                jj < height,
                j == height - 1 - jj,
                i <= width,
                out@.len() == jj as int * width as int + i as int,
                jj as int * width as int + width as int <= height as int * width as int,
                forall|p: int|
                    0 <= p < out@.len() ==> ((#[trigger] out@[p]).0 as int, out@[p].1 as int,
                    out@[p].2 as int) == pixel_at(
                        objs,
                        *cam,
                        width as int,
                        height as int,
                        samples as int,
                        js,
                        p,
                    ),
                forall|p: int|
                    0 <= p < out@.len() ==> (#[trigger] out@[p]).0 <= 255 && out@[p].1 <= 255
                        && out@[p].2 <= 255,
            decreases width - i,
        {
            let ghost p = out@.len() as int;
            let mut sum0: i128 = 0;
            let mut sum1: i128 = 0;
            let mut sum2: i128 = 0;
            let mut s: u64 = 0;
            proof {
                assert(p < height as int * width as int);
                assert(p * samples as int + samples as int <= js.len() && p * samples as int
                    >= 0) by (nonlinear_arith)
                    requires
                        0 <= p,
                        p + 1 <= height as int * width as int,
                        js.len() == width as int * height as int * samples as int,
                        samples >= 1,
                ;
            }
            while s < samples
                invariant
                    world.wf(),
                    standard_camera(*cam),
                    cam.wf(),
                    objs == world.objects@,
                    js == jitters@,
                    2 <= width <= 100_000,
                    2 <= height <= 100_000,
                    1 <= samples <= 1_000_000_000,
                    js.len() == width as int * height as int * samples as int,
                    jitters_ok(js),
                    jj < height,
                    j == height - 1 - jj,
                    i < width,
                    s <= samples,
                    p == out@.len(),
                    0 <= p,
                    p * samples as int + samples as int <= js.len(),
                    p * samples as int >= 0,
                    -(C_BOUND as int) * s as int <= sum0 as int <= C_BOUND as int * s as int,
                    -(C_BOUND as int) * s as int <= sum1 as int <= C_BOUND as int * s as int,
                    -(C_BOUND as int) * s as int <= sum2 as int <= C_BOUND as int * s as int,
                    (sum0 as int, sum1 as int, sum2 as int) == pixel_sum_spec(
                        objs,
                        *cam,
                        width as int,
                        height as int,
                        i as int,
                        j as int,
                        js,
                        p * samples as int,
                        s as nat,
                    ),
                decreases samples - s,
            {
                proof {
                    assert((p * samples as int + s as int) < js.len());
                    assert(C_BOUND as int * s as int <= 4_200_000_000_000_000_000_000_000_000int
                        && C_BOUND as int * (s as int + 1)
                        <= 4_200_000_000_000_000_000_000_000_000int && -(C_BOUND as int) * s as int
                        >= -4_200_000_000_000_000_000_000_000_000int && -(C_BOUND as int) * (
                    s as int + 1) >= -4_200_000_000_000_000_000_000_000_000int)
                        by (nonlinear_arith)
                        requires
                            0 <= s as int,
                            s as int + 1 <= 1_000_000_000int,
                            C_BOUND == 4_200_000_000_000_000_000i64,
                    ;
                }
                let jl: usize = jitters.len();
                proof {
                    assert(out@.len() == p);
                    assert(jl == js.len());
                    assert((p * samples as int) + (s as int) >= 0);
                }
                let idx: usize = out.len() * (samples as usize) + (s as usize);
                let jit = jitters[idx];
                let ju = jit.0;
                let jv = jit.1;
                proof {
                    lemma_frac_bound(i as int, ju as int, width as int);
                    lemma_frac_bound(j as int, jv as int, height as int);
                }
                let u = div_trunc((i as i128) * (SCALE as i128) + (ju as i128), (width - 1) as i128)
                    as i64;
                let v = div_trunc((j as i128) * (SCALE as i128) + (jv as i128),
                    (height - 1) as i128) as i64;
                let r = cam.get_ray(u, v);
                proof {
                    lemma_standard_dir(*cam, u as int, v as int);
                }
                let color = ray_color(&r, world);
                proof {
                    assert(C_BOUND as int * s as int + C_BOUND as int == C_BOUND as int * (
                    s as int + 1) && -(C_BOUND as int) * s as int - C_BOUND as int == -(
                    C_BOUND as int) * (s as int + 1)) by (nonlinear_arith);
                }
                sum0 = sum0 + (color.e0 as i128);
                sum1 = sum1 + (color.e1 as i128);
                sum2 = sum2 + (color.e2 as i128);
                proof {
                    assert(js[p * samples as int + s as int] == (ju, jv));
                    assert(color@ == sample_color_spec(objs, *cam, width as int, height as int,
                        i as int, j as int, ju as int, jv as int));
                    assert((sum0 as int, sum1 as int, sum2 as int) == pixel_sum_spec(
                        objs,
                        *cam,
                        width as int,
                        height as int,
                        i as int,
                        j as int,
                        js,
                        p * samples as int,
                        (s + 1) as nat,
                    ));
                }
                s = s + 1;
            }
            proof {
                assert((C_BOUND as int * samples as int)
                    < 170_141_183_460_469_231_731_687_303_715_884_105_727int) by (nonlinear_arith)
                    requires
                        samples <= 1_000_000_000,
                        C_BOUND == 4_200_000_000_000_000_000i64,
                ;
            }
            let rgb = (tone_wide(sum0, samples), tone_wide(sum1, samples), tone_wide(sum2,
                samples));
            let ghost out_before = out@;
            out.push(rgb);
            proof {
                assert(p / width as int == jj as int && p % width as int == i as int)
                    by (nonlinear_arith)
                    requires
                        p == jj as int * width as int + i as int,
                        0 <= (i as int) < width as int,
                        0 <= jj as int,
                        width >= 2,
                ;
                assert(((out@[p]).0 as int, out@[p].1 as int, out@[p].2 as int) == pixel_at(
                    objs,
                    *cam,
                    width as int,
                    height as int,
                    samples as int,
                    js,
                    p,
                ));
                assert(forall|q: int| 0 <= q < p ==> out@[q] == out_before[q]);
            }
            i = i + 1;
        }
        jj = jj + 1;
    }
    proof {
        assert(height as int * width as int == width as int * height as int)
            by (nonlinear_arith);
    }
    out
}

/// Bounds of a viewport coordinate: with the jitter below one unit, the
/// coordinate stays within twice the unit.
proof fn lemma_frac_bound(k: int, jit: int, n: int)
    requires
        0 <= k <= n - 1,
        0 <= jit < sc(),
        2 <= n,
    ensures
        0 <= frac_coord(k, jit, n) <= 2 * sc(),
        0 <= k * sc() + jit <= 2 * sc() * (n - 1),
{
    assert(0 <= k * sc() + jit <= 2 * sc() * (n - 1)) by (nonlinear_arith)
        requires
            0 <= k <= n - 1,
            0 <= jit < sc(),
            2 <= n,
            sc() == 1_000_000,
    ;
    lemma_div_tz_fit(k * sc() + jit, n - 1, 2 * sc());
    crate::fx::lemma_div_tz_mag(k * sc() + jit, n - 1);
}

/// Render the scene with `samples` jittered rays per pixel, drawn from the
/// seeded generator: there is a jitter sequence below one unit for which the
/// output is exactly the per-pixel specification, and every channel of every
/// emitted pixel is an 8-bit value.
pub fn render(
    world: &World,
    cam: &Camera,
    width: u64,
    height: u64,
    samples: u64,
    seed: u64,
) -> (out: Vec<(u64, u64, u64)>)
    requires
        world.wf(),
        standard_camera(*cam),
        2 <= width <= 100_000,
        2 <= height <= 100_000,
        1 <= samples <= 1_000_000_000,
        width as int * height as int * samples as int <= usize::MAX as int,
    ensures
        out@.len() == width as int * height as int,
        exists|js: Seq<(u64, u64)>|
            js.len() == width as int * height as int * samples as int && jitters_ok(js)
                && stream_matches(
                out@,
                world.objects@,
                *cam,
                width as int,
                height as int,
                samples as int,
                js,
            ),
        forall|p: int|
            0 <= p < out@.len() ==> (#[trigger] out@[p]).0 <= 255 && out@[p].1 <= 255
                && out@[p].2 <= 255,
{
    let mut rng = rng_from_seed(seed);
    proof {
        assert(width as int * height as int <= width as int * height as int * samples as int
            && width as int * height as int >= 0 && width as int * height as int * samples as int
            == (width as int * height as int) * samples as int) by (nonlinear_arith)
            requires
                2 <= width,
                2 <= height,
                1 <= samples,
        ;
    }
    let total: usize = (width as usize) * (height as usize) * (samples as usize);
    let mut jitters: Vec<(u64, u64)> = Vec::new();
    let mut k: usize = 0;
    while k < total
        invariant
            k <= total,
            jitters@.len() == k,
            jitters_ok(jitters@),
        decreases total - k,
    {
        let ju = rng_below(&mut rng, SCALE as u64);
        let jv = rng_below(&mut rng, SCALE as u64);
        jitters.push((ju, jv));
        k = k + 1;
    }
    let out = render_with_jitter(world, cam, width, height, samples, &jitters);
    proof {
        assert(out@.len() == width as int * height as int);
    }
    out
}

} // verus!
