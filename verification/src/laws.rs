//! The library's algebraic and geometric laws, stated over the same spec
//! functions that the executable contracts use.

use vstd::prelude::*;
use crate::fx::{
    COORD_MAX, T_MAX, div_tz, isqrt_r, lemma_div_tz_exact, lemma_div_tz_neg, lemma_div_tz_mono,
    lemma_isqrt_bounds, lemma_isqrt_range, lemma_isqrt_squeeze,
};
use crate::hit::{Hittable, HitSpec, hittable_hit_spec, world_hit_spec, world_hit_from};
use crate::sphere::{sphere_hit_spec, sphere_hit_at};
use crate::vec3::{sc, v_add, v_sub, v_neg, v_smul, v_cross, v_dot, v_len, v_unit, dot_full};

verus! {

/// Vector addition is commutative.
pub proof fn lemma_add_comm(a: (int, int, int), b: (int, int, int))
    ensures
        v_add(a, b) == v_add(b, a),
{
}

/// Vector addition is associative.
pub proof fn lemma_add_assoc(a: (int, int, int), b: (int, int, int), c: (int, int, int))
    ensures
        v_add(v_add(a, b), c) == v_add(a, v_add(b, c)),
{
}

/// The inner product is symmetric.
pub proof fn lemma_dot_comm(a: (int, int, int), b: (int, int, int))
    ensures
        v_dot(a, b) == v_dot(b, a),
{
    assert(dot_full(a, b) == dot_full(b, a)) by (nonlinear_arith);
}

/// The cross product is antisymmetric.
pub proof fn lemma_cross_antisym(a: (int, int, int), b: (int, int, int))
    ensures
        v_cross(a, b) == v_neg(v_cross(b, a)),
{
    assert(a.1 * b.2 - a.2 * b.1 == -(b.1 * a.2 - b.2 * a.1) && a.2 * b.0 - a.0 * b.2 == -(b.2
        * a.0 - b.0 * a.2) && a.0 * b.1 - a.1 * b.0 == -(b.0 * a.1 - b.1 * a.0))
        by (nonlinear_arith);
    lemma_div_tz_neg(b.1 * a.2 - b.2 * a.1, sc());
    lemma_div_tz_neg(b.2 * a.0 - b.0 * a.2, sc());
    lemma_div_tz_neg(b.0 * a.1 - b.1 * a.0, sc());
}

/// Scaling by a whole number of units scales each component exactly, and
/// scales the length exactly up to the scale's rounding: the length of `k`
/// times a vector lies within `k - 1` raw steps of `k` times its length.
#[verifier::rlimit(30)]
pub proof fn lemma_length_scalar(a: (int, int, int), k: int)
    requires
        1 <= k,
    ensures
        v_smul(a, k * sc()) == (k * a.0, k * a.1, k * a.2),
        k * v_len(a) <= v_len((k * a.0, k * a.1, k * a.2)),
        v_len((k * a.0, k * a.1, k * a.2)) <= k * v_len(a) + (k - 1),
{
    assert(a.0 * (k * sc()) == (a.0 * k) * sc() && a.1 * (k * sc()) == (a.1 * k) * sc() && a.2 * (
    k * sc()) == (a.2 * k) * sc() && a.0 * k == k * a.0 && a.1 * k == k * a.1 && a.2 * k == k
        * a.2) by (nonlinear_arith);
    lemma_div_tz_exact(a.0 * k, sc());
    lemma_div_tz_exact(a.1 * k, sc());
    lemma_div_tz_exact(a.2 * k, sc());
    let n = dot_full(a, a);
    let m = dot_full((k * a.0, k * a.1, k * a.2), (k * a.0, k * a.1, k * a.2));
    assert(n >= 0 && m == k * k * n) by (nonlinear_arith)
        requires
            n == a.0 * a.0 + a.1 * a.1 + a.2 * a.2,
            m == (k * a.0) * (k * a.0) + (k * a.1) * (k * a.1) + (k * a.2) * (k * a.2),
    ;
    let r = isqrt_r(n as nat) as int;
    lemma_isqrt_bounds(n as nat);
    assert((k * r) * (k * r) <= m && m < (k * r + k) * (k * r + k)) by (nonlinear_arith)
        requires
            m == k * k * n,
            r * r <= n,
            n < (r + 1) * (r + 1),
            k >= 1,
            r >= 0,
    ;
    lemma_isqrt_range(m as nat, (k * r) as nat, (k * r + k) as nat);
}

/// The two facts of one nonzero scalar that the axis law needs: its square's
/// root is its magnitude, and one unit scaled by it and divided by its
/// magnitude is the unit, with the scalar's sign.
proof fn lemma_axis_scalar(x: int)
    requires
        x != 0,
    ensures
        isqrt_r((x * x) as nat) == (if x >= 0 {
            x
        } else {
            -x
        }),
        div_tz(x * sc(), if x >= 0 {
            x
        } else {
            -x
        }) == (if x >= 0 {
            sc()
        } else {
            -sc()
        }),
{
    let ax = if x >= 0 {
        x
    } else {
        -x
    };
    assert(ax * ax == x * x && ax >= 1 && x * x >= 1 && x * x < (ax + 1) * (ax + 1))
        by (nonlinear_arith)
        requires
            x != 0,
            ax == (if x >= 0 {
                x
            } else {
                -x
            }),
    ;
    lemma_isqrt_squeeze((x * x) as nat, ax as nat);
    lemma_div_tz_exact(sc(), ax);
    assert(sc() * ax == ax * sc()) by (nonlinear_arith);
    if x >= 0 {
        assert(x * sc() == ax * sc());
    } else {
        assert(x * sc() == -(ax * sc()));
        lemma_div_tz_neg(ax * sc(), ax);
    }
}

/// An axis-aligned vector normalizes to a vector of length exactly one unit.
pub proof fn lemma_unit_axis(a: (int, int, int))
    requires
        (a.1 == 0 && a.2 == 0 && a.0 != 0) || (a.0 == 0 && a.2 == 0 && a.1 != 0) || (a.0 == 0
            && a.1 == 0 && a.2 != 0),
    ensures
        v_len(v_unit(a)) == sc(),
{
    assert(0int * 0 == 0) by (nonlinear_arith);
    let u = v_unit(a);
    if a.1 == 0 && a.2 == 0 && a.0 != 0 {
        let x = a.0;
        assert(dot_full(a, a) == x * x) by (nonlinear_arith)
            requires
                a.1 == 0 && a.2 == 0 && x == a.0,
        ;
        lemma_axis_scalar(x);
        let len = v_len(a);
        assert(0 * sc() == 0 && div_tz(0, len) == 0) by (nonlinear_arith)
            requires
                len >= 1,
        ;
        assert(u.1 == 0 && u.2 == 0);
        assert(dot_full(u, u) == sc() * sc()) by (nonlinear_arith)
            requires
                u.1 == 0 && u.2 == 0 && (u.0 == sc() || u.0 == -sc()),
        ;
    } else if a.0 == 0 && a.2 == 0 && a.1 != 0 {
        let x = a.1;
        assert(dot_full(a, a) == x * x) by (nonlinear_arith)
            requires
                a.0 == 0 && a.2 == 0 && x == a.1,
        ;
        lemma_axis_scalar(x);
        let len = v_len(a);
        assert(0 * sc() == 0 && div_tz(0, len) == 0) by (nonlinear_arith)
            requires
                len >= 1,
        ;
        assert(u.0 == 0 && u.2 == 0);
        assert(dot_full(u, u) == sc() * sc()) by (nonlinear_arith)
            requires
                u.0 == 0 && u.2 == 0 && (u.1 == sc() || u.1 == -sc()),
        ;
    } else {
        let x = a.2;
        assert(dot_full(a, a) == x * x) by (nonlinear_arith)
            requires
                a.0 == 0 && a.1 == 0 && x == a.2,
        ;
        lemma_axis_scalar(x);
        let len = v_len(a);
        assert(0 * sc() == 0 && div_tz(0, len) == 0) by (nonlinear_arith)
            requires
                len >= 1,
        ;
        assert(u.0 == 0 && u.1 == 0);
        assert(dot_full(u, u) == sc() * sc()) by (nonlinear_arith)
            requires
                u.0 == 0 && u.1 == 0 && (u.2 == sc() || u.2 == -sc()),
        ;
    }
    assert(sc() * sc() < (sc() + 1) * (sc() + 1)) by (nonlinear_arith);
    lemma_isqrt_squeeze((sc() * sc()) as nat, sc() as nat);
}

/// The quotient of one scaled component by the length: its magnitude stands
/// to the scaled component's magnitude as a floor quotient to its numerator.
proof fn lemma_scaled_quot_facts(ai: int, len: int)
    requires
        len >= 1,
    ensures
        ({
            let q = div_tz(ai * sc(), len);
            let qa = if q >= 0 {
                q
            } else {
                -q
            };
            let aa = if ai >= 0 {
                ai
            } else {
                -ai
            };
            &&& qa * len <= aa * sc()
            &&& aa * sc() < (qa + 1) * len
            &&& qa >= 0
            &&& aa >= 0
            &&& qa * qa == q * q
            &&& aa * aa == ai * ai
        }),
{
    let q = div_tz(ai * sc(), len);
    let qa = if q >= 0 {
        q
    } else {
        -q
    };
    let aa = if ai >= 0 {
        ai
    } else {
        -ai
    };
    let m = aa * sc();
    if ai >= 0 {
        assert(aa == ai);
        assert(m >= 0 && ai * sc() == m && aa * aa == ai * ai) by (nonlinear_arith)
            requires
                aa == ai,
                ai >= 0,
                m == aa * sc(),
                sc() == 1_000_000,
        ;
    } else {
        assert(aa == -ai);
        assert(m > 0 && ai * sc() == -m && aa * aa == ai * ai) by (nonlinear_arith)
            requires
                aa == -ai,
                ai < 0,
                m == aa * sc(),
                sc() == 1_000_000,
        ;
    }
    assert(qa == m / len);
    assert((m / len) * len <= m && m < (m / len + 1) * len) by (nonlinear_arith)
        requires
            m >= 0,
            len >= 1,
    ;
    assert(qa * qa == q * q) by (nonlinear_arith)
        requires
            qa == q || qa == -q,
    ;
}

/// Normalization yields a vector of unit length, up to the scale's rounding:
/// the result's length never falls more than a few raw steps below one unit,
/// and exceeds one unit only by a factor below (len + 1) / len.
pub proof fn lemma_unit_length_tolerance(a: (int, int, int))
    requires
        dot_full(a, a) >= 1,
    ensures
        v_len(v_unit(a)) >= sc() - 4,
        v_len(v_unit(a)) * v_len(a) < (v_len(a) + 1) * sc(),
{
    let n = dot_full(a, a);
    crate::vec3::lemma_component_le_len(a);
    let len = v_len(a);
    lemma_isqrt_bounds(n as nat);
    assert(len * len <= n && n < (len + 1) * (len + 1) && len >= 1);
    let u = v_unit(a);
    lemma_scaled_quot_facts(a.0, len);
    lemma_scaled_quot_facts(a.1, len);
    lemma_scaled_quot_facts(a.2, len);
    let q0 = if u.0 >= 0 {
        u.0
    } else {
        -u.0
    };
    let q1 = if u.1 >= 0 {
        u.1
    } else {
        -u.1
    };
    let q2 = if u.2 >= 0 {
        u.2
    } else {
        -u.2
    };
    let aa0 = if a.0 >= 0 {
        a.0
    } else {
        -a.0
    };
    let aa1 = if a.1 >= 0 {
        a.1
    } else {
        -a.1
    };
    let aa2 = if a.2 >= 0 {
        a.2
    } else {
        -a.2
    };
    let su = dot_full(u, u);
    assert(su == q0 * q0 + q1 * q1 + q2 * q2 && n == aa0 * aa0 + aa1 * aa1 + aa2 * aa2)
        by (nonlinear_arith)
        requires
            su == u.0 * u.0 + u.1 * u.1 + u.2 * u.2,
            n == a.0 * a.0 + a.1 * a.1 + a.2 * a.2,
            q0 * q0 == u.0 * u.0 && q1 * q1 == u.1 * u.1 && q2 * q2 == u.2 * u.2,
            aa0 * aa0 == a.0 * a.0 && aa1 * aa1 == a.1 * a.1 && aa2 * aa2 == a.2 * a.2,
    ;
    // Upper bound: each scaled quotient is at most its numerator over the
    // length, so the squared sum scales by at most (scale / length) squared.
    let el2 = len * len;
    let s2 = sc() * sc();
    assert((q0 * q0) * el2 <= (aa0 * aa0) * s2) by (nonlinear_arith)
        requires
            q0 * len <= aa0 * sc(),
            q0 >= 0 && aa0 >= 0 && len >= 1,
            el2 == len * len,
            s2 == sc() * sc(),
            sc() == 1_000_000,
    ;
    assert((q1 * q1) * el2 <= (aa1 * aa1) * s2) by (nonlinear_arith)
        requires
            q1 * len <= aa1 * sc(),
            q1 >= 0 && aa1 >= 0 && len >= 1,
            el2 == len * len,
            s2 == sc() * sc(),
            sc() == 1_000_000,
    ;
    assert((q2 * q2) * el2 <= (aa2 * aa2) * s2) by (nonlinear_arith)
        requires
            q2 * len <= aa2 * sc(),
            q2 >= 0 && aa2 >= 0 && len >= 1,
            el2 == len * len,
            s2 == sc() * sc(),
            sc() == 1_000_000,
    ;
    assert(su * el2 == (q0 * q0) * el2 + (q1 * q1) * el2 + (q2 * q2) * el2 && n * s2 == (aa0
        * aa0) * s2 + (aa1 * aa1) * s2 + (aa2 * aa2) * s2) by (nonlinear_arith)
        requires
            su == q0 * q0 + q1 * q1 + q2 * q2,
            n == aa0 * aa0 + aa1 * aa1 + aa2 * aa2,
    ;
    assert(su * (len * len) <= n * (sc() * sc()));
    let r = v_len(u);
    lemma_isqrt_bounds(su as nat);
    assert(r * r <= su && su < (r + 1) * (r + 1) && r >= 0);
    assert(r * len < (len + 1) * sc()) by (nonlinear_arith)
        requires
            r * r <= su,
            su * (len * len) <= n * (sc() * sc()),
            n < (len + 1) * (len + 1),
            r >= 0,
            len >= 1,
            sc() == 1_000_000,
    ;
    // Lower bound: each numerator is below (quotient + 1) times the length,
    // so the squared sum cannot fall far below the scale squared.
    assert(q0 <= sc() && q1 <= sc() && q2 <= sc()) by (nonlinear_arith)
        requires
            q0 * len <= aa0 * sc() && q1 * len <= aa1 * sc() && q2 * len <= aa2 * sc(),
            aa0 <= len && aa1 <= len && aa2 <= len,
            q0 >= 0 && q1 >= 0 && q2 >= 0,
            len >= 1,
            sc() == 1_000_000,
    ;
    let z = (q0 + 1) * (q0 + 1) + (q1 + 1) * (q1 + 1) + (q2 + 1) * (q2 + 1);
    assert((aa0 * aa0) * s2 < ((q0 + 1) * (q0 + 1)) * el2) by (nonlinear_arith)
        requires
            aa0 * sc() < (q0 + 1) * len,
            q0 >= 0 && aa0 >= 0 && len >= 1,
            el2 == len * len,
            s2 == sc() * sc(),
            sc() == 1_000_000,
    ;
    assert((aa1 * aa1) * s2 < ((q1 + 1) * (q1 + 1)) * el2) by (nonlinear_arith)
        requires
            aa1 * sc() < (q1 + 1) * len,
            q1 >= 0 && aa1 >= 0 && len >= 1,
            el2 == len * len,
            s2 == sc() * sc(),
            sc() == 1_000_000,
    ;
    assert((aa2 * aa2) * s2 < ((q2 + 1) * (q2 + 1)) * el2) by (nonlinear_arith)
        requires
            aa2 * sc() < (q2 + 1) * len,
            q2 >= 0 && aa2 >= 0 && len >= 1,
            el2 == len * len,
            s2 == sc() * sc(),
            sc() == 1_000_000,
    ;
    assert(z * el2 == ((q0 + 1) * (q0 + 1)) * el2 + ((q1 + 1) * (q1 + 1)) * el2 + ((q2 + 1) * (q2
        + 1)) * el2) by (nonlinear_arith)
        requires
            z == (q0 + 1) * (q0 + 1) + (q1 + 1) * (q1 + 1) + (q2 + 1) * (q2 + 1),
    ;
    assert(n * s2 < z * el2);
    assert(z == su + 2 * q0 + 2 * q1 + 2 * q2 + 3 && z >= 3) by (nonlinear_arith)
        requires
            z == (q0 + 1) * (q0 + 1) + (q1 + 1) * (q1 + 1) + (q2 + 1) * (q2 + 1),
            su == q0 * q0 + q1 * q1 + q2 * q2,
            q0 >= 0 && q1 >= 0 && q2 >= 0,
    ;
    assert(el2 >= 1 && s2 >= 1) by (nonlinear_arith)
        requires
            len >= 1,
            el2 == len * len,
            s2 == sc() * sc(),
            sc() == 1_000_000,
    ;
    assert(s2 < z) by (nonlinear_arith)
        requires
            n * s2 < z * el2,
            el2 <= n,
            el2 >= 1,
            s2 >= 1,
            z >= 0,
    ;
    assert(su > sc() * sc() - 6 * sc() - 3) by (nonlinear_arith)
        requires
            s2 < z,
            z == su + 2 * q0 + 2 * q1 + 2 * q2 + 3,
            q0 <= sc() && q1 <= sc() && q2 <= sc(),
            s2 == sc() * sc(),
            sc() == 1_000_000,
    ;
    assert(r >= sc() - 4) by (nonlinear_arith)
        requires
            su < (r + 1) * (r + 1),
            su > sc() * sc() - 6 * sc() - 3,
            r >= 0,
            sc() == 1_000_000,
    ;
}

/// A ray fired straight at a sphere's center from outside hits the near
/// surface at the distance to the center minus the radius, with the unit
/// normal pointing straight back at the ray; fired from inside the sphere it
/// hits at the positive (far) root instead.
pub proof fn lemma_head_on_hit(dist: int, rad: int)
    requires
        1 <= rad <= COORD_MAX as int,
        1 <= dist <= COORD_MAX as int,
        dist != rad,
    ensures
        dist > rad ==> sphere_hit_spec(
            (0int, 0int, -dist),
            rad,
            (0int, 0int, 0int),
            (0int, 0int, -sc()),
            0,
            T_MAX as int,
        ) == Some(HitSpec { p: (0int, 0int, -(dist - rad)), normal: (0int, 0int, sc()), t: dist - rad }),
        dist < rad ==> sphere_hit_spec(
            (0int, 0int, -dist),
            rad,
            (0int, 0int, 0int),
            (0int, 0int, -sc()),
            0,
            T_MAX as int,
        ) == Some(
            HitSpec { p: (0int, 0int, -(dist + rad)), normal: (0int, 0int, -sc()), t: dist + rad },
        ),
{
    let o = (0int, 0int, 0int);
    let d = (0int, 0int, -sc());
    let c = (0int, 0int, -dist);
    let oc = v_sub(o, c);
    let a = dot_full(d, d);
    let hb = dot_full(oc, d);
    let cv = dot_full(oc, oc) - rad * rad;
    let disc = hb * hb - a * cv;
    assert(oc == (0int, 0int, dist));
    assert(a == sc() * sc() && hb == -(dist * sc()) && dot_full(oc, oc) == dist * dist && disc
        == (sc() * rad) * (sc() * rad) && disc < (sc() * rad + 1) * (sc() * rad + 1) && a >= 1
        && disc >= 0 && sc() * rad >= 1) by (nonlinear_arith)
        requires
            a == dot_full(d, d),
            hb == dot_full(oc, d),
            cv == dot_full(oc, oc) - rad * rad,
            disc == hb * hb - a * cv,
            oc == (0int, 0int, dist),
            d == (0int, 0int, -sc()),
            sc() == 1_000_000,
            1 <= rad,
            1 <= dist,
    ;
    lemma_isqrt_squeeze(disc as nat, (sc() * rad) as nat);
    let sqrtd = sc() * rad;
    assert((-hb - sqrtd) * sc() == (dist - rad) * (sc() * sc()) && (-hb + sqrtd) * sc() == (dist
        + rad) * (sc() * sc())) by (nonlinear_arith)
        requires
            hb == -(dist * sc()),
            sqrtd == sc() * rad,
    ;
    lemma_div_tz_exact(dist - rad, sc() * sc());
    lemma_div_tz_exact(dist + rad, sc() * sc());
    let root1 = div_tz((-hb - sqrtd) * sc(), a);
    let root2 = div_tz((-hb + sqrtd) * sc(), a);
    assert(root1 == dist - rad && root2 == dist + rad);
    assert(dist + rad < T_MAX as int);
    if dist > rad {
        lemma_axial_record(dist, rad, dist - rad);
    } else {
        assert(!(0 < root1));
        lemma_axial_record(dist, rad, dist + rad);
    }
}

/// The record of an axial hit at parameter `t`: the point is `t` back along
/// the axis and the normal is the unit vector from the center to it.
proof fn lemma_axial_record(dist: int, rad: int, t: int)
    requires
        1 <= rad,
        t == dist - rad || t == dist + rad,
    ensures
        sphere_hit_at((0int, 0int, -dist), rad, (0int, 0int, 0int), (0int, 0int, -sc()), t) == (
        HitSpec {
            p: (0int, 0int, -t),
            normal: (0int, 0int, if t == dist - rad {
                sc()
            } else {
                -sc()
            }),
            t,
        }),
{
    let o = (0int, 0int, 0int);
    let d = (0int, 0int, -sc());
    assert(0int * t == 0 && div_tz(0, sc()) == 0 && -sc() * t == -(t * sc()) && 0int * sc() == 0
        && div_tz(0, rad) == 0) by (nonlinear_arith)
        requires
            sc() == 1_000_000,
            rad >= 1,
    ;
    lemma_div_tz_exact(t, sc());
    lemma_div_tz_neg(t * sc(), sc());
    let p = crate::ray::ray_at(o, d, t);
    assert(p == (0int, 0int, -t));
    let delta = v_sub(p, (0int, 0int, -dist));
    assert(delta == (0int, 0int, dist - t));
    if t == dist - rad {
        assert(delta.2 == rad);
        assert(rad * sc() == sc() * rad) by (nonlinear_arith);
        lemma_div_tz_exact(sc(), rad);
    } else {
        assert(delta.2 == -rad);
        assert(-rad * sc() == -(sc() * rad) && rad * sc() == sc() * rad) by (nonlinear_arith);
        lemma_div_tz_exact(sc(), rad);
        lemma_div_tz_neg(sc() * rad, rad);
    }
}

/// A ray that passes a sphere at a perpendicular distance greater than the
/// radius reports no hit.
pub proof fn lemma_perpendicular_miss(b: int, dist: int, rad: int)
    requires
        1 <= rad < b <= COORD_MAX as int,
        0 <= dist <= COORD_MAX as int,
    ensures
        sphere_hit_spec(
            (b, 0int, -dist),
            rad,
            (0int, 0int, 0int),
            (0int, 0int, -sc()),
            0,
            T_MAX as int,
        ) is None,
{
    let o = (0int, 0int, 0int);
    let d = (0int, 0int, -sc());
    let c = (b, 0int, -dist);
    let oc = v_sub(o, c);
    let a = dot_full(d, d);
    let hb = dot_full(oc, d);
    let cv = dot_full(oc, oc) - rad * rad;
    assert(oc == (-b, 0int, dist));
    assert(hb * hb - a * cv < 0) by (nonlinear_arith)
        requires
            a == dot_full(d, d),
            hb == dot_full(oc, d),
            cv == dot_full(oc, oc) - rad * rad,
            oc == (-b, 0int, dist),
            d == (0int, 0int, -sc()),
            sc() == 1_000_000,
            1 <= rad < b,
    ;
}

/// Narrowing the far end of the search range keeps a hit that lies before
/// the new end and discards everything else.
pub proof fn lemma_hit_narrow(
    c: (int, int, int),
    rad: int,
    o: (int, int, int),
    d: (int, int, int),
    t_min: int,
    t_max: int,
    t_cut: int,
)
    requires
        t_cut <= t_max,
    ensures
        sphere_hit_spec(c, rad, o, d, t_min, t_cut) == (match sphere_hit_spec(
            c,
            rad,
            o,
            d,
            t_min,
            t_max,
        ) {
            Some(h) => if h.t < t_cut {
                Some(h)
            } else {
                None
            },
            None => None::<HitSpec>,
        }),
{
    let oc = v_sub(o, c);
    let a = dot_full(d, d);
    let hb = dot_full(oc, d);
    let cv = dot_full(oc, oc) - rad * rad;
    let disc = hb * hb - a * cv;
    if a == 0 || disc < 0 {
    } else {
        let sqrtd = isqrt_r(disc as nat) as int;
        assert(a >= 1) by (nonlinear_arith)
            requires
                a == dot_full(d, d),
                a != 0,
        ;
        assert((-hb - sqrtd) * sc() <= (-hb + sqrtd) * sc()) by (nonlinear_arith)
            requires
                sqrtd >= 0,
                sc() == 1_000_000,
        ;
        lemma_div_tz_mono((-hb - sqrtd) * sc(), (-hb + sqrtd) * sc(), a);
    }
}

/// The same narrowing fact, for any scene object.
pub proof fn lemma_hittable_narrow(
    obj: Hittable,
    o: (int, int, int),
    d: (int, int, int),
    t_min: int,
    t_max: int,
    t_cut: int,
)
    requires
        t_cut <= t_max,
    ensures
        hittable_hit_spec(obj, o, d, t_min, t_cut) == (match hittable_hit_spec(
            obj,
            o,
            d,
            t_min,
            t_max,
        ) {
            Some(h) => if h.t < t_cut {
                Some(h)
            } else {
                None
            },
            None => None::<HitSpec>,
        }),
{
    match obj {
        Hittable::Sphere(s) => lemma_hit_narrow(
            s.center@,
            s.radius as int,
            o,
            d,
            t_min,
            t_max,
            t_cut,
        ),
    }
}

/// Nearest-hit correctness for a scene of two objects: the reported hit
/// parameter does not depend on the insertion order, and where the two hit
/// parameters differ, the whole record is the one of the geometrically
/// closer surface in either order.
pub proof fn lemma_nearest_order_independent(
    x: Hittable,
    y: Hittable,
    o: (int, int, int),
    d: (int, int, int),
    t_min: int,
    t_max: int,
)
    ensures
        ({
            let hx = hittable_hit_spec(x, o, d, t_min, t_max);
            let hy = hittable_hit_spec(y, o, d, t_min, t_max);
            let rxy = world_hit_spec(seq![x, y], o, d, t_min, t_max);
            let ryx = world_hit_spec(seq![y, x], o, d, t_min, t_max);
            &&& (match rxy {
                Some(h) => Some(h.t),
                None => None::<int>,
            }) == (match ryx {
                Some(h) => Some(h.t),
                None => None::<int>,
            })
            &&& (hx is Some && hy is None) ==> rxy == hx && ryx == hx
            &&& (hx is None && hy is Some) ==> rxy == hy && ryx == hy
            &&& (hx is None && hy is None) ==> rxy is None && ryx is None
            &&& (hx is Some && hy is Some && hx->0.t < hy->0.t) ==> rxy == hx && ryx == hx
            &&& (hx is Some && hy is Some && hy->0.t < hx->0.t) ==> rxy == hy && ryx == hy
        }),
{
    let hx = hittable_hit_spec(x, o, d, t_min, t_max);
    let hy = hittable_hit_spec(y, o, d, t_min, t_max);
    let sxy = seq![x, y];
    let syx = seq![y, x];
    assert(sxy.len() == 2 && sxy[0] == x && sxy[1] == y);
    assert(syx.len() == 2 && syx[0] == y && syx[1] == x);
    lemma_two_member_fold(sxy, o, d, t_min, t_max);
    lemma_two_member_fold(syx, o, d, t_min, t_max);
    match hx {
        Some(h) => lemma_hittable_narrow(y, o, d, t_min, t_max, h.t),
        None => (),
    }
    match hy {
        Some(h) => lemma_hittable_narrow(x, o, d, t_min, t_max, h.t),
        None => (),
    }
}

/// Unfold the nearest-hit reduction over a two-member scene.
proof fn lemma_two_member_fold(
    objs: Seq<Hittable>,
    o: (int, int, int),
    d: (int, int, int),
    t_min: int,
    t_max: int,
)
    requires
        objs.len() == 2,
    ensures
        world_hit_spec(objs, o, d, t_min, t_max) == ({
            let h0 = hittable_hit_spec(objs[0], o, d, t_min, t_max);
            match h0 {
                Some(f) => {
                    match hittable_hit_spec(objs[1], o, d, t_min, f.t) {
                        Some(g) => Some(g),
                        None => Some(f),
                    }
                },
                None => hittable_hit_spec(objs[1], o, d, t_min, t_max),
            }
        }),
{
    let h0 = hittable_hit_spec(objs[0], o, d, t_min, t_max);
    let b1 = match h0 {
        Some(f) => Some(f),
        None => None::<HitSpec>,
    };
    assert(world_hit_from(objs, o, d, t_min, t_max, 0, None) == world_hit_from(
        objs,
        o,
        d,
        t_min,
        t_max,
        1,
        b1,
    ));
    let closest1 = match b1 {
        Some(f) => f.t,
        None => t_max,
    };
    let h1 = hittable_hit_spec(objs[1], o, d, t_min, closest1);
    let b2 = match h1 {
        Some(g) => Some(g),
        None => b1,
    };
    assert(world_hit_from(objs, o, d, t_min, t_max, 1, b1) == world_hit_from(
        objs,
        o,
        d,
        t_min,
        t_max,
        2,
        b2,
    ));
    assert(world_hit_from(objs, o, d, t_min, t_max, 2, b2) == b2);
}

} // verus!
