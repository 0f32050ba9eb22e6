//! Reconstruction: where it fails it says so, and what it invents stays within
//! what was rendered.

use crate::fp::facts::{
    lemma_div_key, lemma_from_whole, lemma_mul_key, lemma_one_minus, lemma_order,
    lemma_quotient_small_one, lemma_ratio_key, lemma_round_positive, lemma_round_same,
    lemma_round_top, lemma_rounded_sum_monotone, lemma_rounds_to_itself, lemma_sub_key,
};
use crate::fp::model::{lemma_pow2_le, lemma_round_monotone, units, Format};
use crate::fp::raw::{lemma_units_monotone, lemma_units_zero};
use crate::fp::round::lemma_round_zero;
use crate::fp::F32;
use crate::frame::{GBuffer, ImageBuffer};
use crate::laws::trust::in_unit;
use crate::recon::easu::{upsampled, EasuConfig, Gather};
use crate::recon::interpolate::{rejected_below, InterpolateConfig, Patch};
use crate::recon::rcas::Cross;
use crate::recon::reproject::{disoccluded, disoccluded_below, source, validity_at, warped};
use crate::recon::{relative_depth_delta, soft_validity};
use vstd::arithmetic::power2::{
    lemma2_to64, lemma_pow2_adds, lemma_pow2_pos, lemma_pow2_unfold, pow2,
};
use vstd::prelude::*;

verus! {

/// One part in some number of them, as a position.
pub proof fn lemma_part(d: u32)
    requires
        0 < d < 0x100_0000,
    ensures
        F32::ratio(1, d).is_finite(),
        F32::ratio(1, d).key() > 0,
{
    lemma_ratio_key(1, d);
    lemma_pow2_le(24, 149);
    lemma2_to64();
    assert(1 * pow2(149) == pow2(149));
    lemma_round_positive(Format::Single, pow2(149), d as nat);
}

/// A quotient of what is not negative by what is positive is not negative, if
/// it is a number.
proof fn lemma_quotient_not_negative(a: F32, b: F32)
    requires
        !a.is_nan(),
        a.key() >= 0,
        !b.is_nan(),
        b.key() > 0,
    ensures
        (a / b).is_nan() || (a / b).key() >= 0,
{
    reveal(F32::spec_div);
    let f = Format::Single;
    lemma_round_top(
        f,
        units(f, a.raw().mag as nat) * pow2(149),
        units(f, b.raw().mag as nat),
    );
    if a.raw().mag == 0 {
        lemma_units_zero(f, 0);
        assert(0 * pow2(149) == 0) by (nonlinear_arith);
        if b.is_finite() {
            lemma_units_zero(f, b.raw().mag as nat);
            lemma_round_zero(f, units(f, b.raw().mag as nat));
        }
    }
}

/// A relative depth difference is a fraction for every pair of depths, numbers
/// or not.
pub proof fn law_depth_delta_is_a_fraction(a: F32, b: F32)
    ensures
        in_unit(relative_depth_delta(a, b)),
{
    reveal(F32::spec_max);
    reveal(F32::spec_min);
    let least = F32::ratio(1, 10000);
    let scale = a.abs().max(b.abs()).max(least);
    let gap = (a - b).abs();
    lemma_part(10000);
    assert(!scale.is_nan() && scale.key() > 0);
    if gap.is_nan() {
        assert((gap / scale).is_nan()) by {
            reveal(F32::spec_div);
        }
    } else {
        lemma_quotient_not_negative(gap, scale);
    }
}

/// Validity is a fraction wherever the error is a number: all of it up to the
/// tolerance, none of it from twice the tolerance on.
pub proof fn law_validity_is_a_fraction(error: F32, tolerance: F32)
    requires
        !error.is_nan(),
    ensures
        in_unit(soft_validity(error, tolerance)),
        error.le(tolerance) ==> soft_validity(error, tolerance) == F32::one(),
{
    reveal(F32::spec_max);
    let one = F32::one();
    let least = F32::ratio(1, 1000000);
    let t = tolerance.max(least);
    lemma_part(1000000);
    assert(!t.is_nan() && t.key() > 0);
    if !error.le(t) && !error.ge(F32::two() * t) {
        lemma_ramp(error, t);
    }
}

/// The ramp between a tolerance and twice it.
proof fn lemma_ramp(error: F32, t: F32)
    requires
        !error.is_nan(),
        !t.is_nan(),
        t.key() > 0,
        t.lt(error),
        !error.ge(F32::two() * t),
    ensures
        error.is_finite(),
        t.is_finite(),
        0 <= (error - t).key() <= t.key(),
        0 <= ((error - t) / t).key() <= F32::one().key(),
        in_unit(F32::one() - (error - t) / t),
{
    if !t.is_finite() || !error.is_finite() {
        // Beyond every number there is nothing left to be below.
        reveal(F32::spec_mul);
        assert(false) by {
            let f = Format::Single;
            let u = units(f, t.raw().mag as nat);
            lemma_round_top(f, units(f, 0x4000_0000) * u, pow2(149));
        }
    }
    lemma_below_twice(error, t);
    lemma_order(error, t);
    lemma_order(t, error);
    lemma_sub_key(error, t);
    let gap = error - t;
    lemma_rounded_sum_monotone(Format::Single, 0, error.value() - t.value());
    lemma_rounds_to_itself(F32::zero());
    lemma_order(F32::zero(), t);
    lemma_rounded_sum_monotone(Format::Single, error.value() - t.value(), t.value());
    lemma_rounds_to_itself(t);
    lemma_div_key(gap, t);
    lemma_quotient_small_one(Format::Single, gap.key() as nat, t.key() as nat);
    lemma_one_minus(gap / t);
}

/// What lies below twice a number, once that is rounded, lies no higher than
/// twice the number.
proof fn lemma_below_twice(error: F32, t: F32)
    requires
        error.is_finite(),
        error.key() >= 0,
        t.is_finite(),
        t.key() > 0,
        !error.ge(F32::two() * t),
    ensures
        error.value() <= 2 * t.value(),
{
    let f = Format::Single;
    let two = F32::two();
    let u = units(f, t.key() as nat);
    lemma2_to64();
    lemma_pow2_pos(149);
    assert(0x4000_0000nat / 0x80_0000nat == 128 && 0x4000_0000nat % 0x80_0000nat == 0);
    lemma_pow2_adds(23, 127);
    lemma_pow2_unfold(150);
    assert(units(f, 0x4000_0000) == 2 * pow2(149));
    lemma_mul_key(two, t);
    assert(((2 * pow2(149)) * u) * 1 == (2 * u) * pow2(149)) by (nonlinear_arith);
    lemma_round_same(f, (2 * pow2(149)) * u, pow2(149), 2 * u, 1);
    lemma_order(error, t);
    lemma_order(t, t);
    if error.value() > 2 * t.value() {
        lemma_rounds_to_itself(error);
        lemma_rounded_sum_monotone(f, 2 * t.value(), error.value());
    }
}

/// Validity never rises with the error: it ramps down, without a step up.
pub proof fn law_validity_never_rises(less: F32, more: F32, tolerance: F32)
    requires
        less.le(more),
    ensures
        soft_validity(more, tolerance).le(soft_validity(less, tolerance)),
{
    reveal(F32::spec_max);
    let f = Format::Single;
    let one = F32::one();
    let t = tolerance.max(F32::ratio(1, 1000000));
    let twice = F32::two() * t;
    lemma_part(1000000);
    law_validity_is_a_fraction(less, tolerance);
    law_validity_is_a_fraction(more, tolerance);
    if !less.le(t) && !less.ge(twice) && !more.ge(twice) {
        lemma_ramp(less, t);
        lemma_ramp(more, t);
        let a = less - t;
        let b = more - t;
        lemma_sub_key(less, t);
        lemma_sub_key(more, t);
        lemma_order(less, more);
        lemma_rounded_sum_monotone(f, less.value() - t.value(), more.value() - t.value());
        lemma_div_key(a, t);
        lemma_div_key(b, t);
        lemma_units_monotone(f, a.key() as nat, b.key() as nat);
        lemma_units_zero(f, t.key() as nat);
        let (x, y, u, d) = (
            units(f, a.key() as nat),
            units(f, b.key() as nat),
            pow2(149),
            units(f, t.key() as nat),
        );
        assert((x * u) * d <= (y * u) * d) by (nonlinear_arith)
            requires
                x <= y,
        ;
        lemma_round_monotone(f, x * u, d, y * u, d);
        let p = a / t;
        let q = b / t;
        lemma_order(p, q);
        lemma_sub_key(one, p);
        lemma_sub_key(one, q);
        lemma_rounded_sum_monotone(f, one.value() - q.value(), one.value() - p.value());
    }
}

/// A count as a share of another is a fraction: nothing where nothing was
/// counted, and all of it where everything was.
proof fn lemma_share(part: u32, whole: u32)
    requires
        part <= whole,
        whole > 0,
    ensures
        ({
            let x = F32::from_u32(part) / F32::from_u32(whole);
            &&& in_unit(x)
            &&& part == 0 ==> x.key() == 0
            &&& part == whole ==> x.key() == F32::one().key()
        }),
{
    let f = Format::Single;
    let u = pow2(149);
    let a = F32::from_u32(part);
    let b = F32::from_u32(whole);
    lemma_pow2_pos(149);
    lemma_from_whole(part as u64);
    lemma_from_whole(whole as u64);
    assert((part as nat * u) * 1 <= (whole as nat * u) * 1) by (nonlinear_arith)
        requires
            part <= whole,
    ;
    lemma_round_monotone(f, part as nat * u, 1, whole as nat * u, 1);
    assert(whole as nat * u >= 1) by (nonlinear_arith)
        requires
            whole >= 1,
            u >= 1,
    ;
    lemma_round_positive(f, whole as nat * u, 1);
    lemma_div_key(a, b);
    lemma_quotient_small_one(f, a.key() as nat, b.key() as nat);
    if part == 0 {
        assert(part as nat * u == 0) by (nonlinear_arith)
            requires
                part == 0,
        ;
        lemma_round_zero(f, 1);
        lemma_units_zero(f, 0);
        lemma_units_zero(f, b.key() as nat);
        assert(0 * u == 0) by (nonlinear_arith);
        lemma_round_zero(f, units(f, b.key() as nat));
    }
}

/// How much of a frame lost its source is a fraction of it: none of it exactly
/// where every pixel has one, all of it where none has.
pub proof fn law_disocclusion_is_a_fraction(
    prev: &GBuffer,
    current: &GBuffer,
    tolerance: F32,
    n: nat,
)
    requires
        0 < n <= u32::MAX,
    ensures
        ({
            let lost = disoccluded_below(prev, current, tolerance, n);
            let x = F32::from_u32(lost as u32) / F32::from_u32(n as u32);
            &&& lost <= n
            &&& in_unit(x)
            &&& lost == 0 ==> x.key() == 0
            &&& lost == n ==> x.key() == F32::one().key()
        }),
{
    lemma_disoccluded_below(prev, current, tolerance, n);
    lemma_share(disoccluded_below(prev, current, tolerance, n) as u32, n as u32);
}

proof fn lemma_disoccluded_below(prev: &GBuffer, current: &GBuffer, tolerance: F32, n: nat)
    ensures
        disoccluded_below(prev, current, tolerance, n) <= n,
    decreases n,
{
    if n > 0 {
        lemma_disoccluded_below(prev, current, tolerance, (n - 1) as nat);
    }
}

/// A pixel without a usable source is never left as a hole: it shows the
/// current frame, and says that nothing is known of it. Every pixel says how
/// far it can be trusted, as a fraction.
pub proof fn law_a_lost_pixel_shows_the_current_frame(
    prev: &GBuffer,
    current: &GBuffer,
    tolerance: F32,
    x: u32,
    y: u32,
)
    ensures
        disoccluded(prev, current, tolerance, x, y) ==> warped(prev, current, tolerance, x, y)
            == current.color.px(x as int, y as int)@ && validity_at(
            prev,
            current,
            tolerance,
            x,
            y,
        ) == F32::zero(),
        in_unit(validity_at(prev, current, tolerance, x, y)),
        !disoccluded(prev, current, tolerance, x, y) ==> F32::zero().lt(
            validity_at(prev, current, tolerance, x, y),
        ),
{
    let (sx, sy) = source(current, x, y);
    let a = prev.depth.px(sx.floor().to_i32() as int, sy.floor().to_i32() as int);
    let b = current.depth.px(x as int, y as int);
    law_depth_delta_is_a_fraction(a, b);
    law_validity_is_a_fraction(relative_depth_delta(a, b), tolerance);
}

/// The disocclusion reported for a generated frame describes what was invented,
/// not what was papered over: it does not depend on how often holes are filled.
pub proof fn law_filling_never_changes_the_report(
    prev: &GBuffer,
    next: &GBuffer,
    t: F32,
    a: InterpolateConfig,
    b: InterpolateConfig,
    n: nat,
)
    requires
        a.depth_tolerance == b.depth_tolerance,
        a.photo_tolerance == b.photo_tolerance,
    ensures
        rejected_below(prev, next, t, a, n) == rejected_below(prev, next, t, b, n),
        rejected_below(prev, next, t, a, n) <= n,
    decreases n,
{
    if n > 0 {
        law_filling_never_changes_the_report(prev, next, t, a, b, (n - 1) as nat);
    }
}

/// How much of a generated frame was invented is a fraction of it.
pub proof fn law_invention_is_a_fraction(
    prev: &GBuffer,
    next: &GBuffer,
    t: F32,
    cfg: InterpolateConfig,
    n: nat,
)
    requires
        0 < n <= u32::MAX,
    ensures
        ({
            let lost = rejected_below(prev, next, t, cfg, n);
            let x = F32::from_u32(lost as u32) / F32::from_u32(n as u32);
            &&& in_unit(x)
            &&& lost == 0 ==> x.key() == 0
            &&& lost == n ==> x.key() == F32::one().key()
        }),
{
    law_filling_never_changes_the_report(prev, next, t, cfg, cfg, n);
    lemma_share(rejected_below(prev, next, t, cfg, n) as u32, n as u32);
}

/// Filling holes never touches a believable pixel, however many passes run.
pub proof fn law_filling_keeps_believable_pixels(p: Patch, n: nat, k: int)
    requires
        p.color.len() == p.valid.len(),
        0 <= k < p.valid.len(),
        p.valid[k].gt(F32::zero()),
    ensures
        p.passes(n).color[k] == p.color[k],
        p.passes(n).valid[k] == p.valid[k],
    decreases n,
{
    if n > 0 {
        law_filling_keeps_believable_pixels(p.pass(), (n - 1) as nat, k);
    }
}

/// Without sharpness nothing changes, and whatever the sharpness, alpha does
/// not.
pub proof fn law_sharpening_keeps_alpha(cross: Cross, sharpness: F32)
    requires
        cross.e.len() == 4,
    ensures
        sharpness.le(F32::zero()) ==> cross.sharpened(
            sharpness.clamp(F32::zero(), F32::one()),
        ) == cross.e,
        cross.sharpened(sharpness)[3] == cross.e[3],
        cross.sharpened(sharpness).len() == 4,
{
    reveal(F32::spec_clamp);
}

/// With deringing on, no channel of an upsampled pixel leaves the range of the
/// four source pixels nearest to it.
pub proof fn law_deringing_prevents_overshoot(
    src: &ImageBuffer,
    out_w: u32,
    out_h: u32,
    cfg: EasuConfig,
    ox: u32,
    oy: u32,
    c: int,
)
    requires
        cfg.deringing,
        Gather::at(src, out_w, out_h, ox, oy).has_range(),
        0 <= c < 4,
    ensures
        ({
            let g = Gather::at(src, out_w, out_h, ox, oy);
            let v = upsampled(src, out_w, out_h, cfg, ox, oy)[c];
            &&& g.low(c).le(g.high(c))
            &&& !v.lt(g.low(c))
            &&& !v.gt(g.high(c))
            &&& v.is_nan() || g.low(c).le(v) && v.le(g.high(c))
        }),
{
    reveal(F32::spec_clamp);
    reveal(F32::spec_min);
    reveal(F32::spec_max);
    let g = Gather::at(src, out_w, out_h, ox, oy);
    let t = g.taps;
    assert(!t[5][c].is_nan() || !t[6][c].is_nan() || !t[9][c].is_nan() || !t[10][c].is_nan());
}

} // verus!
