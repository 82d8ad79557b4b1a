//! Three-component fixed-point vectors, used as geometric vectors, points
//! and RGB colors alike.

use vstd::prelude::*;
use crate::fx::{
    SCALE, div_tz, isqrt_r, lemma_isqrt_range, lemma_div_tz_lt, div_trunc, isqrt,
};

verus! {

/// Componentwise operands of the scaled products are kept below this bound,
/// so every intermediate fits the machine integers.
pub const OP_MAX: i64 = 1_500_000_000_000;

/// The clamp ceiling of the tone map: 0.999 at the fixed scale.
pub const CLAMP_MAX: i64 = 999_000;

#[derive(Clone, Copy, PartialEq, Eq, Structural, Debug)]
pub struct Vec3 {
    pub e0: i64,
    pub e1: i64,
    pub e2: i64,
}

/// A point in space: the same algebra, read as a location.
pub type Point3 = Vec3;

/// An RGB color: the same algebra, read as a color.
pub type Color = Vec3;

impl View for Vec3 {
    type V = (int, int, int);

    open spec fn view(&self) -> (int, int, int) {
        (self.e0 as int, self.e1 as int, self.e2 as int)
    }
}

pub open spec fn sc() -> int {
    SCALE as int
}

pub open spec fn v_add(a: (int, int, int), b: (int, int, int)) -> (int, int, int) {
    (a.0 + b.0, a.1 + b.1, a.2 + b.2)
}

pub open spec fn v_sub(a: (int, int, int), b: (int, int, int)) -> (int, int, int) {
    (a.0 - b.0, a.1 - b.1, a.2 - b.2)
}

pub open spec fn v_neg(a: (int, int, int)) -> (int, int, int) {
    (-a.0, -a.1, -a.2)
}

/// Componentwise product of two fixed-point vectors.
pub open spec fn v_mul(a: (int, int, int), b: (int, int, int)) -> (int, int, int) {
    (div_tz(a.0 * b.0, sc()), div_tz(a.1 * b.1, sc()), div_tz(a.2 * b.2, sc()))
}

/// Product with a fixed-point scalar.
pub open spec fn v_smul(a: (int, int, int), s: int) -> (int, int, int) {
    (div_tz(a.0 * s, sc()), div_tz(a.1 * s, sc()), div_tz(a.2 * s, sc()))
}

/// Quotient by a fixed-point scalar.
pub open spec fn v_sdiv(a: (int, int, int), d: int) -> (int, int, int) {
    (div_tz(a.0 * sc(), d), div_tz(a.1 * sc(), d), div_tz(a.2 * sc(), d))
}

/// The inner product before rescaling: a value at scale squared.
pub open spec fn dot_full(a: (int, int, int), b: (int, int, int)) -> int {
    a.0 * b.0 + a.1 * b.1 + a.2 * b.2
}

/// The fixed-point inner product.
pub open spec fn v_dot(a: (int, int, int), b: (int, int, int)) -> int {
    div_tz(dot_full(a, b), sc())
}

/// The fixed-point Euclidean length: the floor root of the raw inner square.
pub open spec fn v_len(a: (int, int, int)) -> int {
    isqrt_r(dot_full(a, a) as nat) as int
}

/// The right-handed cross product.
pub open spec fn v_cross(a: (int, int, int), b: (int, int, int)) -> (int, int, int) {
    (
        div_tz(a.1 * b.2 - a.2 * b.1, sc()),
        div_tz(a.2 * b.0 - a.0 * b.2, sc()),
        div_tz(a.0 * b.1 - a.1 * b.0, sc()),
    )
}

/// The direction of `a`, rescaled to unit length.
pub open spec fn v_unit(a: (int, int, int)) -> (int, int, int) {
    v_sdiv(a, v_len(a))
}

/// One channel of the tone map: average over the samples, clamp to
/// [0, 0.999], scale by 256 and truncate.
pub open spec fn tone(c: int, samples: int) -> int {
    let avg = div_tz(c, samples);
    let clamped = if avg < 0 {
        0
    } else if avg > CLAMP_MAX as int {
        CLAMP_MAX as int
    } else {
        avg
    };
    div_tz(clamped * 256, sc())
}

impl Vec3 {
    pub fn new(e0: i64, e1: i64, e2: i64) -> (r: Self)
        ensures
            r@ == (e0 as int, e1 as int, e2 as int),
    {
        Vec3 { e0, e1, e2 }
    }

    pub fn x(self) -> (r: i64)
        ensures
            r as int == self@.0,
    {
        self.e0
    }

    pub fn y(self) -> (r: i64)
        ensures
            r as int == self@.1,
    {
        self.e1
    }

    pub fn z(self) -> (r: i64)
        ensures
            r as int == self@.2,
    {
        self.e2
    }

    /// Component read by index; only 0, 1 and 2 are meaningful.
    pub fn index(self, idx: usize) -> (r: i64)
        requires
            idx < 3,
        ensures
            idx == 0 ==> r as int == self@.0,
            idx == 1 ==> r as int == self@.1,
            idx == 2 ==> r as int == self@.2,
    {
        if idx == 0 {
            self.e0
        } else if idx == 1 {
            self.e1
        } else {
            self.e2
        }
    }

    pub open spec fn bounded(self, m: int) -> bool {
        -m <= self@.0 <= m && -m <= self@.1 <= m && -m <= self@.2 <= m
    }

    pub fn add(self, other: Vec3) -> (r: Vec3)
        requires
            i64::MIN <= self@.0 + other@.0 <= i64::MAX,
            i64::MIN <= self@.1 + other@.1 <= i64::MAX,
            i64::MIN <= self@.2 + other@.2 <= i64::MAX,
        ensures
            r@ == v_add(self@, other@),
    {
        Vec3 { e0: self.e0 + other.e0, e1: self.e1 + other.e1, e2: self.e2 + other.e2 }
    }

    pub fn sub(self, other: Vec3) -> (r: Vec3)
        requires
            i64::MIN <= self@.0 - other@.0 <= i64::MAX,
            i64::MIN <= self@.1 - other@.1 <= i64::MAX,
            i64::MIN <= self@.2 - other@.2 <= i64::MAX,
        ensures
            r@ == v_sub(self@, other@),
    {
        Vec3 { e0: self.e0 - other.e0, e1: self.e1 - other.e1, e2: self.e2 - other.e2 }
    }

    pub fn add_assign(&mut self, other: Vec3)
        requires
            i64::MIN <= old(self)@.0 + other@.0 <= i64::MAX,
            i64::MIN <= old(self)@.1 + other@.1 <= i64::MAX,
            i64::MIN <= old(self)@.2 + other@.2 <= i64::MAX,
        ensures
            final(self)@ == v_add(old(self)@, other@),
    {
        self.e0 = self.e0 + other.e0;
        self.e1 = self.e1 + other.e1;
        self.e2 = self.e2 + other.e2;
    }

    pub fn sub_assign(&mut self, other: Vec3)
        requires
            i64::MIN <= old(self)@.0 - other@.0 <= i64::MAX,
            i64::MIN <= old(self)@.1 - other@.1 <= i64::MAX,
            i64::MIN <= old(self)@.2 - other@.2 <= i64::MAX,
        ensures
            final(self)@ == v_sub(old(self)@, other@),
    {
        self.e0 = self.e0 - other.e0;
        self.e1 = self.e1 - other.e1;
        self.e2 = self.e2 - other.e2;
    }

    /// Componentwise fixed-point product.
    pub fn mul(self, other: Vec3) -> (r: Vec3)
        requires
            self.bounded(OP_MAX as int),
            other.bounded(OP_MAX as int),
        ensures
            r@ == v_mul(self@, other@),
    {
        Vec3 {
            e0: fp_scaled_product(self.e0, other.e0),
            e1: fp_scaled_product(self.e1, other.e1),
            e2: fp_scaled_product(self.e2, other.e2),
        }
    }

    pub fn mul_assign(&mut self, other: Vec3)
        requires
            old(self).bounded(OP_MAX as int),
            other.bounded(OP_MAX as int),
        ensures
            final(self)@ == v_mul(old(self)@, other@),
    {
        self.e0 = fp_scaled_product(self.e0, other.e0);
        self.e1 = fp_scaled_product(self.e1, other.e1);
        self.e2 = fp_scaled_product(self.e2, other.e2);
    }

    /// Product with a fixed-point scalar (either operand order of the
    /// scalar product reads the same way).
    pub fn scalar_mul(self, s: i64) -> (r: Vec3)
        requires
            self.bounded(OP_MAX as int),
            -OP_MAX <= s <= OP_MAX,
        ensures
            r@ == v_smul(self@, s as int),
    {
        Vec3 {
            e0: fp_scaled_product(self.e0, s),
            e1: fp_scaled_product(self.e1, s),
            e2: fp_scaled_product(self.e2, s),
        }
    }

    /// Quotient by a positive fixed-point scalar.
    pub fn scalar_div(self, d: i64) -> (r: Vec3)
        requires
            d >= 1,
            -(i64::MAX as int) * d <= self@.0 * sc() <= (i64::MAX as int) * d,
            -(i64::MAX as int) * d <= self@.1 * sc() <= (i64::MAX as int) * d,
            -(i64::MAX as int) * d <= self@.2 * sc() <= (i64::MAX as int) * d,
        ensures
            r@ == v_sdiv(self@, d as int),
    {
        Vec3 {
            e0: fp_scaled_quotient(self.e0, d),
            e1: fp_scaled_quotient(self.e1, d),
            e2: fp_scaled_quotient(self.e2, d),
        }
    }

    pub fn div_assign(&mut self, d: i64)
        requires
            d >= 1,
            -(i64::MAX as int) * d <= old(self)@.0 * sc() <= (i64::MAX as int) * d,
            -(i64::MAX as int) * d <= old(self)@.1 * sc() <= (i64::MAX as int) * d,
            -(i64::MAX as int) * d <= old(self)@.2 * sc() <= (i64::MAX as int) * d,
        ensures
            final(self)@ == v_sdiv(old(self)@, d as int),
    {
        self.e0 = fp_scaled_quotient(self.e0, d);
        self.e1 = fp_scaled_quotient(self.e1, d);
        self.e2 = fp_scaled_quotient(self.e2, d);
    }

    /// The fixed-point inner product.
    pub fn dot(self, other: Vec3) -> (r: i64)
        requires
            self.bounded(OP_MAX as int),
            other.bounded(OP_MAX as int),
        ensures
            r as int == v_dot(self@, other@),
    {
        proof {
            lemma_prod_bound(self@.0, other@.0, OP_MAX as int);
            lemma_prod_bound(self@.1, other@.1, OP_MAX as int);
            lemma_prod_bound(self@.2, other@.2, OP_MAX as int);
            lemma_div_tz_fit(dot_full(self@, other@), sc(), i64::MAX as int);
        }
        let full: i128 = (self.e0 as i128) * (other.e0 as i128) + (self.e1 as i128) * (
        other.e1 as i128) + (self.e2 as i128) * (other.e2 as i128);
        let q = div_trunc(full, SCALE as i128);
        q as i64
    }

    /// The inner square, as a fixed-point scalar.
    pub fn length_squared(self) -> (r: i64)
        requires
            self.bounded(OP_MAX as int),
        ensures
            r as int == v_dot(self@, self@),
    {
        self.dot(self)
    }

    /// The Euclidean length, as a fixed-point scalar.
    pub fn length(self) -> (r: i64)
        requires
            self.bounded(OP_MAX as int),
        ensures
            r as int == v_len(self@),
            0 <= r,
            r <= 3 * OP_MAX,
    {
        proof {
            lemma_prod_bound(self@.0, self@.0, OP_MAX as int);
            lemma_prod_bound(self@.1, self@.1, OP_MAX as int);
            lemma_prod_bound(self@.2, self@.2, OP_MAX as int);
            lemma_square_nonneg(self@.0);
            lemma_square_nonneg(self@.1);
            lemma_square_nonneg(self@.2);
        }
        let full: i128 = (self.e0 as i128) * (self.e0 as i128) + (self.e1 as i128) * (
        self.e1 as i128) + (self.e2 as i128) * (self.e2 as i128);
        let r = isqrt(full as u128);
        proof {
            let n = dot_full(self@, self@) as nat;
            let m = OP_MAX as int;
            assert(n < ((3 * m + 1) * (3 * m + 1)) as nat) by (nonlinear_arith)
                requires
                    n <= 3 * (m * m),
                    m == 1_500_000_000_000,
            ;
            lemma_isqrt_range(n, 0, (3 * OP_MAX + 1) as nat);
        }
        r as i64
    }

    /// The right-handed cross product.
    pub fn cross(self, other: Vec3) -> (r: Vec3)
        requires
            self.bounded(OP_MAX as int),
            other.bounded(OP_MAX as int),
        ensures
            r@ == v_cross(self@, other@),
    {
        proof {
            lemma_prod_bound(self@.1, other@.2, OP_MAX as int);
            lemma_prod_bound(self@.2, other@.1, OP_MAX as int);
            lemma_prod_bound(self@.2, other@.0, OP_MAX as int);
            lemma_prod_bound(self@.0, other@.2, OP_MAX as int);
            lemma_prod_bound(self@.0, other@.1, OP_MAX as int);
            lemma_prod_bound(self@.1, other@.0, OP_MAX as int);
            lemma_div_tz_fit(self@.1 * other@.2 - self@.2 * other@.1, sc(), i64::MAX as int);
            lemma_div_tz_fit(self@.2 * other@.0 - self@.0 * other@.2, sc(), i64::MAX as int);
            lemma_div_tz_fit(self@.0 * other@.1 - self@.1 * other@.0, sc(), i64::MAX as int);
        }
        let c0: i128 = (self.e1 as i128) * (other.e2 as i128) - (self.e2 as i128) * (
        other.e1 as i128);
        let c1: i128 = (self.e2 as i128) * (other.e0 as i128) - (self.e0 as i128) * (
        other.e2 as i128);
        let c2: i128 = (self.e0 as i128) * (other.e1 as i128) - (self.e1 as i128) * (
        other.e0 as i128);
        Vec3 {
            e0: div_trunc(c0, SCALE as i128) as i64,
            e1: div_trunc(c1, SCALE as i128) as i64,
            e2: div_trunc(c2, SCALE as i128) as i64,
        }
    }

    /// The unit-length direction of a vector of positive length.
    pub fn normalized(self) -> (r: Vec3)
        requires
            self.bounded(OP_MAX as int),
            dot_full(self@, self@) >= 1,
        ensures
            r@ == v_unit(self@),
            r.bounded(SCALE as int),
    {
        let l = self.length();
        proof {
            lemma_component_le_len(self@);
            lemma_sdiv_unit_bounded(self@, v_len(self@));
        }
        self.scalar_div(l)
    }

    /// Average the accumulated color over the sample count, clamp each
    /// channel to [0, 0.999] and scale to an 8-bit value.
    pub fn format_color(self, samples_per_pixel: u64) -> (r: (u64, u64, u64))
        requires
            1 <= samples_per_pixel,
        ensures
            r.0 as int == tone(self@.0, samples_per_pixel as int),
            r.1 as int == tone(self@.1, samples_per_pixel as int),
            r.2 as int == tone(self@.2, samples_per_pixel as int),
            r.0 <= 255 && r.1 <= 255 && r.2 <= 255,
    {
        (
            tone_channel(self.e0, samples_per_pixel),
            tone_channel(self.e1, samples_per_pixel),
            tone_channel(self.e2, samples_per_pixel),
        )
    }
}

/// One channel of the tone map.
fn tone_channel(c: i64, samples: u64) -> (r: u64)
    requires
        1 <= samples,
    ensures
        r as int == tone(c as int, samples as int),
        r <= 255,
{
    let avg = div_trunc(c as i128, samples as i128);
    let clamped: i128 = if avg < 0 {
        0
    } else if avg > CLAMP_MAX as i128 {
        CLAMP_MAX as i128
    } else {
        avg
    };
    let out = div_trunc(clamped * 256, SCALE as i128);
    proof {
        lemma_div_tz_lt(clamped as int * 256, sc(), 255);
    }
    out as u64
}

/// The scaled product of two bounded fixed-point scalars.
fn fp_scaled_product(a: i64, b: i64) -> (r: i64)
    requires
        -OP_MAX <= a <= OP_MAX,
        -OP_MAX <= b <= OP_MAX,
    ensures
        r as int == div_tz(a as int * b as int, sc()),
{
    proof {
        lemma_prod_bound(a as int, b as int, OP_MAX as int);
    }
    div_trunc((a as i128) * (b as i128), SCALE as i128) as i64
}

/// The scaled quotient of a fixed-point scalar by a positive one.
fn fp_scaled_quotient(a: i64, d: i64) -> (r: i64)
    requires
        d >= 1,
        -(i64::MAX as int) * d <= a as int * sc() <= (i64::MAX as int) * d,
    ensures
        r as int == div_tz(a as int * sc(), d as int),
{
    proof {
        assert(-((i64::MAX as int + 1) * sc()) <= a as int * sc() <= (i64::MAX as int + 1) * sc())
            by (nonlinear_arith)
            requires
                i64::MIN as int <= a as int <= i64::MAX as int,
                sc() == 1_000_000,
        ;
        lemma_div_tz_fit(a as int * sc(), d as int, i64::MAX as int);
    }
    div_trunc((a as i128) * (SCALE as i128), d as i128) as i64
}

/// A product of operands below a bound stays below its square.
pub proof fn lemma_prod_bound(a: int, b: int, m: int)
    requires
        m >= 0,
        -m <= a <= m,
        -m <= b <= m,
    ensures
        -(m * m) <= a * b <= m * m,
        -(m * m) <= div_tz(a * b, sc()) <= m * m,
{
    assert(-(m * m) <= a * b <= m * m) by (nonlinear_arith)
        requires
            m >= 0,
            -m <= a <= m,
            -m <= b <= m,
    ;
    lemma_div_tz_fit(a * b, sc(), m * m);
}

/// A product of operands below two bounds stays below their product.
pub proof fn lemma_prod_bound2(a: int, b: int, ma: int, mb: int)
    requires
        ma >= 0,
        mb >= 0,
        -ma <= a <= ma,
        -mb <= b <= mb,
    ensures
        -(ma * mb) <= a * b <= ma * mb,
{
    assert(-(ma * mb) <= a * b <= ma * mb) by (nonlinear_arith)
        requires
            ma >= 0,
            mb >= 0,
            -ma <= a <= ma,
            -mb <= b <= mb,
    ;
}

/// A square is never negative.
pub proof fn lemma_square_nonneg(a: int)
    ensures
        a * a >= 0,
{
    assert(a * a >= 0) by (nonlinear_arith);
}

/// A quotient of a bounded numerator stays within the bound.
pub proof fn lemma_div_tz_fit(n: int, d: int, m: int)
    requires
        d >= 1,
        m >= 0,
        -(m * d) <= n <= m * d,
    ensures
        -m <= div_tz(n, d) <= m,
{
    if n >= 0 {
        assert(n / d <= m) by (nonlinear_arith)
            requires
                d >= 1,
                m >= 0,
                n <= m * d,
                n >= 0,
        ;
        assert(n / d >= 0) by (nonlinear_arith)
            requires
                d >= 1,
                n >= 0,
        ;
    } else {
        assert((-n) / d <= m && (-n) / d >= 0) by (nonlinear_arith)
            requires
                d >= 1,
                m >= 0,
                -n <= m * d,
                -n > 0,
        ;
    }
}

/// No component of a vector exceeds the vector's length.
pub proof fn lemma_component_le_len(a: (int, int, int))
    ensures
        v_len(a) >= 0,
        -v_len(a) <= a.0 <= v_len(a),
        -v_len(a) <= a.1 <= v_len(a),
        -v_len(a) <= a.2 <= v_len(a),
        dot_full(a, a) >= 1 ==> v_len(a) >= 1,
{
    let n = dot_full(a, a);
    assert(a.0 * a.0 <= n && a.1 * a.1 <= n && a.2 * a.2 <= n && n >= 0) by (nonlinear_arith)
        requires
            n == a.0 * a.0 + a.1 * a.1 + a.2 * a.2,
    ;
    let r = isqrt_r(n as nat);
    crate::fx::lemma_isqrt_bounds(n as nat);
    assert(-(r as int) <= a.0 <= r as int && -(r as int) <= a.1 <= r as int && -(r as int) <= a.2
        <= r as int) by (nonlinear_arith)
        requires
            a.0 * a.0 <= n,
            a.1 * a.1 <= n,
            a.2 * a.2 <= n,
            n < (r + 1) * (r + 1),
            r >= 0,
    ;
    if n >= 1 {
        assert(r >= 1) by (nonlinear_arith)
            requires
                r * r <= n,
                n >= 1,
                n < (r + 1) * (r + 1),
                r >= 0,
        ;
    }
}

/// The normalized vector's components never exceed one unit.
proof fn lemma_sdiv_unit_bounded(a: (int, int, int), len: int)
    requires
        len >= 1,
        -len <= a.0 <= len,
        -len <= a.1 <= len,
        -len <= a.2 <= len,
    ensures
        -sc() <= div_tz(a.0 * sc(), len) <= sc(),
        -sc() <= div_tz(a.1 * sc(), len) <= sc(),
        -sc() <= div_tz(a.2 * sc(), len) <= sc(),
        -(i64::MAX as int) * len <= a.0 * sc() <= (i64::MAX as int) * len,
        -(i64::MAX as int) * len <= a.1 * sc() <= (i64::MAX as int) * len,
        -(i64::MAX as int) * len <= a.2 * sc() <= (i64::MAX as int) * len,
{
    assert(-(sc() * len) <= a.0 * sc() <= sc() * len && -(sc() * len) <= a.1 * sc() <= sc() * len
        && -(sc() * len) <= a.2 * sc() <= sc() * len && sc() * len <= (i64::MAX as int) * len
        && -((i64::MAX as int) * len) <= -(sc() * len)) by (nonlinear_arith)
        requires
            len >= 1,
            -len <= a.0 <= len,
            -len <= a.1 <= len,
            -len <= a.2 <= len,
            sc() == 1_000_000,
    ;
    lemma_div_tz_fit(a.0 * sc(), len, sc());
    lemma_div_tz_fit(a.1 * sc(), len, sc());
    lemma_div_tz_fit(a.2 * sc(), len, sc());
}

} // verus!
