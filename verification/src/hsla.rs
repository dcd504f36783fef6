//! The HSLA color engine: fixed-point hue/saturation/lightness/alpha.
//!
//! Hue is a fraction of a full turn; saturation, lightness and alpha lie on
//! the unit interval. All four fields are stored as numerators over
//! [`ONE`](crate::fixed::ONE). Construction is a plain data copy and accepts
//! out-of-range values; operations whose math would misbehave on such values
//! clamp at their own boundary instead.

use crate::fixed::{
    lemma_round_div_exact, lemma_round_div_mono, lemma_round_div_nonneg, round_div, round_div64,
    HALF, ONE,
};
use crate::rgba::{hsla_of_rgba, Rgba};
use vstd::prelude::*;

verus! {

/// A color as hue, saturation, lightness and alpha, each a fixed-point
/// fraction with denominator [`ONE`]. Plain data: two values with equal
/// fields are interchangeable.
#[derive(Clone, Copy, Debug, PartialEq, Eq, Structural)]
pub struct Hsla {
    pub h: u32,
    pub s: u32,
    pub l: u32,
    pub a: u32,
}

/// Linear interpolation from `x` (weight `ONE - w`) to `y` (weight `w`),
/// rounded to the nearest fixed-point step.
pub open spec fn lerp_spec(x: int, y: int, w: int) -> int {
    round_div(x * (ONE - w) + y * w, ONE as int)
}

/// The interpolation weight a blend takes from the covering color's alpha,
/// clamped to the unit interval.
pub open spec fn blend_weight(top: Hsla) -> int {
    if top.a > ONE {
        ONE as int
    } else {
        top.a as int
    }
}

/// Hue interpolation along the shorter arc of the circle: both hues are
/// first reduced to one turn; when they lie more than half a turn apart the
/// interpolation runs through the wrap point instead of across the circle.
pub open spec fn hue_blend_spec(h1: int, h2: int, w: int) -> int {
    let m1 = h1 % (ONE as int);
    let m2 = h2 % (ONE as int);
    if m2 >= m1 {
        if m2 - m1 > HALF {
            lerp_spec(m1 + ONE, m2, w) % (ONE as int)
        } else {
            lerp_spec(m1, m2, w)
        }
    } else {
        if m1 - m2 > HALF {
            lerp_spec(m1, m2 + ONE, w) % (ONE as int)
        } else {
            lerp_spec(m1, m2, w)
        }
    }
}

/// What blending `top` over `base` returns: hue along the shorter arc,
/// saturation and lightness interpolated toward `top` with weight `top.a`,
/// and the larger of the two alphas.
pub open spec fn blend_spec(base: Hsla, top: Hsla) -> Hsla {
    let w = blend_weight(top);
    Hsla {
        h: hue_blend_spec(base.h as int, top.h as int, w) as u32,
        s: lerp_spec(base.s as int, top.s as int, w) as u32,
        l: lerp_spec(base.l as int, top.l as int, w) as u32,
        a: if base.a >= top.a {
            base.a
        } else {
            top.a
        },
    }
}

/// Grayscale forces saturation to zero and keeps every other field.
pub open spec fn grayscale_spec(x: Hsla) -> Hsla {
    Hsla { h: x.h, s: 0, l: x.l, a: x.a }
}

/// The alpha that scaling by `factor` produces: `a * factor`, rounded, and
/// capped at the largest representable value.
pub open spec fn opacity_spec(a: int, factor: int) -> int {
    let v = round_div(a * factor, ONE as int);
    if v > u32::MAX {
        u32::MAX as int
    } else {
        v
    }
}

/// Fixed-point linear interpolation; the result never leaves the interval
/// spanned by its endpoints.
fn lerp_fp(x: u32, y: u32, w: u32) -> (r: u32)
    requires
        w <= ONE,
    ensures
        r == lerp_spec(x as int, y as int, w as int),
        r <= x || r <= y,
{
    proof {
        assert((x as int) * ((ONE - w) as int) <= 0xffff_ffff * 130560
            && (y as int) * (w as int) <= 0xffff_ffff * 130560) by (nonlinear_arith)
            requires
                x < 0x1_0000_0000,
                y < 0x1_0000_0000,
                w <= ONE,
                ONE == 130560,
        ;
    }
    let n: u64 = (x as u64) * ((ONE - w) as u64) + (y as u64) * (w as u64);
    let m: u32 = if x >= y {
        x
    } else {
        y
    };
    proof {
        assert(n <= (m as int) * (ONE as int)) by (nonlinear_arith)
            requires
                n == (x as int) * (ONE - w) + (y as int) * (w as int),
                x <= m,
                y <= m,
                0 <= w <= ONE,
        ;
        lemma_round_div_mono(n as int, (m as int) * (ONE as int), ONE as int);
        lemma_round_div_exact(m as int, 0, ONE as int);
    }
    let q: u64 = round_div64(n, ONE as u64);
    q as u32
}

impl Hsla {
    /// All four fields lie in their canonical range: hue within one turn,
    /// the rest within the unit interval.
    pub open spec fn canonical(self) -> bool {
        self.h < ONE && self.s <= ONE && self.l <= ONE && self.a <= ONE
    }

    /// Direct field copy; no clamping happens here.
    pub fn new(h: u32, s: u32, l: u32, a: u32) -> (c: Self)
        ensures
            c == (Hsla { h, s, l, a }),
    {
        Hsla { h, s, l, a }
    }

    /// The HSLA reading of an RGBA color.
    pub fn from_rgba(rgba: &Rgba) -> (c: Self)
        ensures
            c == hsla_of_rgba(*rgba),
    {
        rgba.to_hsla()
    }

    /// Blends `other` over `self`: hue along the shorter arc, saturation
    /// and lightness interpolated toward `other` with weight `other.a`,
    /// alpha the larger of the two.
    pub fn blend(&self, other: &Self) -> (c: Self)
        ensures
            c == blend_spec(*self, *other),
    {
        let w: u32 = if other.a > ONE {
            ONE
        } else {
            other.a
        };
        let m1: u32 = self.h % ONE;
        let m2: u32 = other.h % ONE;
        let h: u32 = if m2 >= m1 {
            if m2 - m1 > HALF {
                lerp_fp(m1 + ONE, m2, w) % ONE
            } else {
                lerp_fp(m1, m2, w)
            }
        } else {
            if m1 - m2 > HALF {
                lerp_fp(m1, m2 + ONE, w) % ONE
            } else {
                lerp_fp(m1, m2, w)
            }
        };
        Hsla {
            h,
            s: lerp_fp(self.s, other.s, w),
            l: lerp_fp(self.l, other.l, w),
            a: if self.a >= other.a {
                self.a
            } else {
                other.a
            },
        }
    }

    /// A copy with saturation forced to zero; hue, lightness and alpha are
    /// kept, so desaturation loses nothing else.
    pub fn grayscale(&self) -> (c: Self)
        ensures
            c == grayscale_spec(*self),
    {
        Hsla { h: self.h, s: 0, l: self.l, a: self.a }
    }

    /// A copy whose alpha is `self.a * factor` (not `factor` itself);
    /// the color fields are untouched.
    pub fn with_opacity(&self, factor: u32) -> (c: Self)
        ensures
            c.h == self.h,
            c.s == self.s,
            c.l == self.l,
            c.a == opacity_spec(self.a as int, factor as int),
    {
        Hsla { h: self.h, s: self.s, l: self.l, a: scale_alpha(self.a, factor) }
    }

    /// Scales alpha by `factor` in place; the one operation of the engine
    /// with a side effect on caller-held state.
    pub fn fade_out(&mut self, factor: u32)
        ensures
            final (self).h == old(self).h,
            final (self).s == old(self).s,
            final (self).l == old(self).l,
            final (self).a == opacity_spec(old(self).a as int, factor as int),
    {
        self.a = scale_alpha(self.a, factor);
    }

    /// The hue, as a fixed-point fraction of a turn.
    pub fn h(&self) -> (v: u32)
        ensures
            v == self.h,
    {
        self.h
    }

    /// The saturation, as a fixed-point unit fraction.
    pub fn s(&self) -> (v: u32)
        ensures
            v == self.s,
    {
        self.s
    }

    /// The lightness, as a fixed-point unit fraction.
    pub fn l(&self) -> (v: u32)
        ensures
            v == self.l,
    {
        self.l
    }

    /// The alpha, as a fixed-point unit fraction.
    pub fn a(&self) -> (v: u32)
        ensures
            v == self.a,
    {
        self.a
    }
}

/// Interpolating a value toward itself lands on it, whatever the weight.
proof fn lemma_lerp_same(v: int, w: int)
    ensures
        lerp_spec(v, v, w) == v,
{
    assert(v * (ONE - w) + v * w == v * (ONE as int)) by (nonlinear_arith);
    lemma_round_div_exact(v, 0, ONE as int);
}

/// Blending a canonical color with itself returns it unchanged, at any
/// opacity.
pub proof fn lemma_blend_self(x: Hsla)
    requires
        x.canonical(),
    ensures
        blend_spec(x, x) == x,
{
    vstd::arithmetic::div_mod::lemma_small_mod(x.h as nat, ONE as nat);
    lemma_lerp_same(x.h as int, blend_weight(x));
    lemma_lerp_same(x.s as int, blend_weight(x));
    lemma_lerp_same(x.l as int, blend_weight(x));
}

/// Desaturating twice is the same as desaturating once.
pub proof fn lemma_grayscale_idempotent(x: Hsla)
    ensures
        grayscale_spec(grayscale_spec(x)) == grayscale_spec(x),
{
}

/// A zero factor clears alpha entirely.
pub proof fn lemma_opacity_zero(a: u32)
    ensures
        opacity_spec(a as int, 0) == 0,
{
    assert((a as int) * 0 == 0) by (nonlinear_arith);
    assert(0 * (ONE as int) + 0 == 0) by (nonlinear_arith);
    lemma_round_div_exact(0, 0, ONE as int);
}

/// A full factor keeps alpha exactly.
pub proof fn lemma_opacity_full(a: u32)
    ensures
        opacity_spec(a as int, ONE as int) == a,
{
    lemma_round_div_exact(a as int, 0, ONE as int);
}

/// For factors within the unit interval the cap never engages: the result
/// is the rounded linear scaling `a * factor / ONE`, and never exceeds `a`.
pub proof fn lemma_opacity_scales(a: u32, factor: u32)
    requires
        factor <= ONE,
    ensures
        opacity_spec(a as int, factor as int) == round_div(
            (a as int) * (factor as int),
            ONE as int,
        ),
        opacity_spec(a as int, factor as int) <= a,
{
    assert((a as int) * (factor as int) <= (a as int) * (ONE as int)) by (nonlinear_arith)
        requires
            0 <= a,
            factor <= ONE,
    ;
    lemma_round_div_mono((a as int) * (factor as int), (a as int) * (ONE as int), ONE as int);
    lemma_round_div_exact(a as int, 0, ONE as int);
}

/// Scaling alpha is monotone in the factor.
pub proof fn lemma_opacity_monotone(a: u32, f1: u32, f2: u32)
    requires
        f1 <= f2,
    ensures
        opacity_spec(a as int, f1 as int) <= opacity_spec(a as int, f2 as int),
{
    assert((a as int) * (f1 as int) <= (a as int) * (f2 as int)) by (nonlinear_arith)
        requires
            0 <= a,
            f1 <= f2,
    ;
    lemma_round_div_mono((a as int) * (f1 as int), (a as int) * (f2 as int), ONE as int);
}

/// `a * factor`, rounded, saturating at the largest representable alpha.
fn scale_alpha(a: u32, factor: u32) -> (r: u32)
    ensures
        r == opacity_spec(a as int, factor as int),
{
    proof {
        assert((a as int) * (factor as int) < 0x1_0000_0000_0000_0000) by (nonlinear_arith)
            requires
                a < 0x1_0000_0000,
                factor < 0x1_0000_0000,
        ;
        lemma_round_div_nonneg((a as int) * (factor as int), ONE as int);
    }
    let n: u128 = (a as u128) * (factor as u128);
    let q: u128 = (2 * n + (ONE as u128)) / (2 * (ONE as u128));
    if q > u32::MAX as u128 {
        u32::MAX
    } else {
        q as u32
    }
}

} // verus!
