//! Planes and samples: what is written reads back, and pixel centers are where
//! they should be.

use crate::fp::errors::{lemma_add_close, lemma_slip, lemma_sub_close, one_unit, slip};
use crate::fp::facts::{
    lemma_add_key, lemma_div_sign, lemma_exact, lemma_from_small, lemma_from_whole, lemma_mul_one,
    lemma_mul_unit, lemma_mul_zero, lemma_one_minus, lemma_order, lemma_ratio_key,
    lemma_rounded_sum_monotone, lemma_rounds_to_itself, lemma_sub_key, lemma_unity,
};
use crate::fp::model::{lemma_quotient, lemma_quotient_bounds, units, Format};
use crate::fp::raw::{has_fraction, lemma_units_monotone, lemma_units_zero, whole_part};
use crate::fp::F32;
use crate::frame::{
    blended, clamped, lemma_place, spec_after, GBuffer, Grid, ImageBuffer, Texel,
};
use crate::laws::recon::{law_filling_keeps_believable_pixels, lemma_part};
use crate::laws::sharpening::{all_but_equal, lemma_near};
use crate::laws::trust::in_unit;
use crate::recon::interpolate::{
    blended_or_held, mixed, newer, older, rejected, rejected_below, trusted, unfilled,
    InterpolateConfig,
};
use crate::recon::reproject::{disoccluded, disoccluded_below, source, validity_at, warped};
use crate::recon::{relative_depth_delta, soft_validity};
use crate::signals::spec_luma;
use vstd::arithmetic::power2::{
    lemma2_to64, lemma_pow2_adds, lemma_pow2_pos, lemma_pow2_unfold, pow2,
};
use vstd::prelude::*;

verus! {

/// The place of a pixel among the pixels, with coordinates outside moved to the
/// edge.
pub open spec fn place_of<T>(g: &Grid<T>, x: int, y: int) -> int {
    clamped(y, g.spec_height() as int) * g.spec_width() + clamped(x, g.spec_width() as int)
}

/// A pixel that is written reads back, and no other pixel changes.
pub proof fn law_a_written_pixel_reads_back<T>(
    before: &Grid<T>,
    after: &Grid<T>,
    x: u32,
    y: u32,
    value: T,
    ox: int,
    oy: int,
)
    requires
        before.wf(),
        after.spec_width() == before.spec_width(),
        after.spec_height() == before.spec_height(),
        after.pixels() == before.pixels().update(place_of(before, x as int, y as int), value),
        0 <= ox < before.spec_width(),
        0 <= oy < before.spec_height(),
    ensures
        after.px(x as int, y as int) == value,
        x < before.spec_width() && y < before.spec_height() && (ox != x || oy != y) ==> after.px(
            ox,
            oy,
        ) == before.px(ox, oy),
{
    before.lemma_wf();
    let w = before.spec_width() as int;
    let h = before.spec_height() as int;
    lemma_place(clamped(x as int, w), clamped(y as int, h), w, h);
    lemma_place(ox, oy, w, h);
    if x < w && y < h && (ox != x || oy != y) {
        assert(oy * w + ox != y * w + x) by (nonlinear_arith)
            requires
                0 <= ox < w,
                0 <= x < w,
                ox != x || oy != y,
        ;
    }
}

/// The continuous coordinate of a pixel's center.
pub open spec fn center(v: u32) -> F32 {
    F32::from_u32(v) + F32::half()
}

/// One half, by its value.
pub proof fn lemma_half_value()
    ensures
        F32::half().value() == pow2(148),
        F32::half().is_finite(),
        pow2(149) == 2 * pow2(148),
        pow2(148) > 0,
{
    lemma2_to64();
    assert(0x3f00_0000nat / 0x80_0000nat == 126 && 0x3f00_0000nat % 0x80_0000nat == 0);
    lemma_pow2_adds(23, 125);
    lemma_pow2_unfold(149);
    lemma_pow2_pos(148);
    assert(units(Format::Single, 0x3f00_0000) == pow2(148));
}

/// The center of a pixel is held exactly, and so is what lies half a pixel
/// before it.
pub proof fn lemma_center(v: u32)
    requires
        v < 0x80_0000,
    ensures
        center(v).is_finite(),
        center(v).value() == (2 * v + 1) * pow2(148),
        center(v) - F32::half() == F32::from_u32(v),
{
    let f = Format::Single;
    let a = F32::from_u32(v);
    let half = F32::half();
    let h = pow2(148);
    lemma_half_value();
    lemma_from_small(v);
    lemma_order(a, a);
    lemma2_to64();
    let q = pow2((f.p() - 1) as nat);
    assert((148 + 2) * q <= f.top()) by (nonlinear_arith)
        requires
            q == 0x80_0000,
            f.top() == 0x7f80_0000,
    ;
    // The center.
    lemma_add_key(a, half);
    assert(v * (2 * h) + h == (2 * v + 1) * h) by (nonlinear_arith);
    let m = (2 * v + 1) as nat;
    let mag = lemma_exact(f, m, 148);
    assert(m * h > 0) by (nonlinear_arith)
        requires
            m >= 1,
            h > 0,
    ;
    let c = center(v);
    lemma_order(c, c);
    // And half a pixel before it.
    lemma_sub_key(c, half);
    let d = c - half;
    lemma_rounds_to_itself(a);
    assert(c.value() - half.value() == a.value()) by (nonlinear_arith)
        requires
            c.value() == (2 * v + 1) * h,
            half.value() == h,
            a.value() == v * (2 * h),
    ;
    assert(d.key() == a.key());
    reveal(F32::spec_from_u64);
    if v == 0 {
        assert(a.value() == 0) by (nonlinear_arith)
            requires
                a.value() == v * (2 * h),
                v == 0,
        ;
        reveal(F32::spec_sub);
        lemma_order(a, F32::zero());
        assert(d.bits == 0);
        assert(a.bits == 0);
    } else {
        assert(a.value() > 0) by (nonlinear_arith)
            requires
                a.value() == v * (2 * h),
                v >= 1,
                h > 0,
        ;
        lemma_order(a, F32::zero());
        lemma_units_zero(f, 0);
    }
}

/// A whole number is its own floor.
pub proof fn lemma_whole_floor(v: u32)
    requires
        v < 0x80_0000,
    ensures
        F32::from_u32(v).floor() == F32::from_u32(v),
        F32::from_u32(v).to_i32() == v,
{
    let f = Format::Single;
    let a = F32::from_u32(v);
    let u = pow2(149);
    lemma_from_small(v);
    lemma_pow2_pos(149);
    let n = units(f, a.key() as nat);
    assert((v as nat + 1) * u == v * u + u) by (nonlinear_arith);
    lemma_quotient(n, u, v as nat);
    assert(a.bits < 0x8000_0000) by {
        reveal(F32::spec_from_u64);
    }
    reveal(F32::spec_floor);
    reveal(F32::spec_to_i32);
    assert(F32::from_u32(v).floor() == F32::from_u32(v)) by {
        reveal(F32::spec_from_u64);
    }
}

/// Mixing in none of another number leaves a number as it was.
proof fn lemma_unmixed(a: F32, b: F32, t: F32)
    requires
        a.is_finite(),
        b.is_finite(),
        t.key() == 0,
    ensures
        (a * (F32::one() - t) + b * t).key() == a.key(),
        (a * (F32::one() - t) + b * t).is_finite(),
{
    let one = F32::one();
    lemma_one_minus(t);
    assert(one - t == one);
    lemma_mul_one(a);
    lemma_mul_zero(b, t);
    let z = b * t;
    lemma_add_key(a, z);
    lemma_order(z, F32::zero());
    lemma_order(a, a);
    lemma_rounds_to_itself(a);
}

/// Whether every pixel has a lane, and a finite number in it.
pub open spec fn lane_is_finite<T: Texel>(g: &Grid<T>, i: int) -> bool {
    forall|k: int|
        0 <= k < g.pixels().len() ==> 0 <= i < (#[trigger] g.pixels()[k]).lanes().len()
            && g.pixels()[k].lanes()[i].is_finite()
}

/// A lane that is finite everywhere is so at any place.
pub proof fn lemma_pixel_is_finite<T: Texel>(g: &Grid<T>, x: int, y: int, i: int)
    requires
        g.wf(),
        lane_is_finite(g, i),
    ensures
        0 <= i < g.px(x, y).lanes().len(),
        g.px(x, y).lanes()[i].is_finite(),
{
    g.lemma_wf();
    let w = g.spec_width() as int;
    let h = g.spec_height() as int;
    lemma_place(clamped(x, w), clamped(y, h), w, h);
    let k = clamped(y, h) * w + clamped(x, w);
    assert(0 <= k < g.pixels().len());
    assert(g.px(x, y) == g.pixels()[k]);
}

/// Sampling a pixel's center gives the pixel: each finite lane comes back as it
/// is. If this drifted, everything downstream would be half a texel soft.
pub proof fn law_sampling_a_pixel_center_is_exact<T: Texel>(g: &Grid<T>, x: u32, y: u32, i: int)
    requires
        g.wf(),
        x < g.spec_width(),
        y < g.spec_height(),
        x < 0x80_0000,
        y < 0x80_0000,
        lane_is_finite(g, i),
    ensures
        g.sampled(center(x), center(y)).len() == g.px(x as int, y as int).lanes().len(),
        g.sampled(center(x), center(y))[i].is_finite(),
        g.sampled(center(x), center(y))[i].key() == g.px(x as int, y as int).lanes()[i].key(),
{
    let fx = F32::from_u32(x);
    let fy = F32::from_u32(y);
    lemma_center(x);
    lemma_center(y);
    lemma_whole_floor(x);
    lemma_whole_floor(y);
    lemma_from_small(x);
    lemma_from_small(y);
    let tx = fx - fx;
    let ty = fy - fy;
    lemma_sub_key(fx, fx);
    lemma_sub_key(fy, fy);
    lemma_rounds_to_itself(F32::zero());
    lemma_order(F32::zero(), F32::zero());
    assert(tx.key() == 0 && ty.key() == 0);
    let x0 = x as int;
    let y0 = y as int;
    let x1 = spec_after(x as i32) as int;
    let y1 = spec_after(y as i32) as int;
    lemma_pixel_is_finite(g, x0, y0, i);
    lemma_pixel_is_finite(g, x1, y0, i);
    lemma_pixel_is_finite(g, x0, y1, i);
    lemma_pixel_is_finite(g, x1, y1, i);
    let c00 = g.px(x0, y0).lanes();
    let c10 = g.px(x1, y0).lanes();
    let c01 = g.px(x0, y1).lanes();
    let c11 = g.px(x1, y1).lanes();
    lemma_unmixed(c00[i], c10[i], tx);
    lemma_unmixed(c01[i], c11[i], tx);
    let top = blended(c00, c10, tx);
    let bot = blended(c01, c11, tx);
    assert(top[i] == c00[i] * (F32::one() - tx) + c10[i] * tx);
    let under = c01[i] * (F32::one() - tx) + c11[i] * tx;
    lemma_unmixed(top[i], under, ty);
}

/// A frame that stands still: nothing moves, and every number is finite.
pub open spec fn stands_still(g: &GBuffer) -> bool {
    &&& g.wf()
    &&& g.spec_width() < 0x80_0000
    &&& g.spec_height() < 0x80_0000
    &&& forall|x: int, y: int, i: int| 0 <= i < 2 ==> (#[trigger] g.motion.px(x, y)@[i]).key() == 0
    &&& forall|x: int, y: int| (#[trigger] g.depth.px(x, y)).is_finite()
    &&& forall|i: int| 0 <= i < 4 ==> #[trigger] lane_is_finite(&g.color, i)
}

/// Nothing added to a center leaves it where it is.
pub proof fn lemma_stays(v: u32, z: F32)
    requires
        v < 0x80_0000,
        z.key() == 0,
    ensures
        center(v) + z == center(v),
        center(v).key() > 0,
{
    let c = center(v);
    lemma_center(v);
    lemma_half_value();
    lemma_add_key(c, z);
    lemma_order(z, F32::zero());
    lemma_order(c, F32::zero());
    lemma_rounds_to_itself(c);
    assert((2 * v + 1) * pow2(148) > 0) by (nonlinear_arith)
        requires
            pow2(148) > 0,
            v >= 0,
    ;
}

/// The center of a pixel lies in the pixel.
pub proof fn lemma_center_within(v: u32, side: u32)
    requires
        v < side < 0x80_0000,
    ensures
        center(v).ge(F32::zero()),
        center(v).lt(F32::from_u32(side)),
        center(v).floor().to_i32() == v,
{
    let f = Format::Single;
    let c = center(v);
    let h = pow2(148);
    let u = pow2(149);
    lemma_half_value();
    lemma_center(v);
    lemma_stays(v, F32::zero());
    lemma_from_small(side);
    let s = F32::from_u32(side);
    lemma_order(s, c);
    lemma_order(s, s);
    lemma_order(c, c);
    assert((2 * v + 1) * h < side * (2 * h)) by (nonlinear_arith)
        requires
            v + 1 <= side,
            h > 0,
    ;
    // The floor.
    let n = units(f, c.key() as nat);
    assert(v * u <= n < (v + 1) * u) by (nonlinear_arith)
        requires
            n == (2 * v + 1) * h,
            u == 2 * h,
            h > 0,
    ;
    lemma_quotient(n, u, v as nat);
    lemma_whole_floor(v);
    assert(c.floor() == F32::from_u32(v)) by {
        reveal(F32::spec_floor);
        reveal(F32::spec_from_u64);
        lemma2_to64();
        if c.raw().mag >= f.whole() {
            // A place that high holds no halves.
            assert(0x4b00_0000nat / 0x80_0000nat == 150 && 0x4b00_0000nat % 0x80_0000nat == 0);
            lemma_pow2_adds(23, 149);
            lemma_units_monotone(f, 0x4b00_0000, c.key() as nat);
            assert((2 * v + 1) * h < 0x80_0000 * (2 * h)) by (nonlinear_arith)
                requires
                    v < 0x80_0000,
                    h > 0,
            ;
        }
    }
}

/// Nothing taken from a center leaves it where it is.
proof fn lemma_stays_back(v: u32, z: F32)
    requires
        v < 0x80_0000,
        z.key() == 0,
    ensures
        center(v) - z == center(v),
{
    let c = center(v);
    lemma_stays(v, z);
    lemma_center(v);
    lemma_sub_key(c, z);
    lemma_order(z, F32::zero());
    lemma_rounds_to_itself(c);
}

/// No error is within every tolerance.
pub proof fn lemma_no_error(error: F32, tolerance: F32)
    requires
        error.key() == 0,
    ensures
        soft_validity(error, tolerance) == F32::one(),
{
    reveal(F32::spec_max);
    lemma_part(1000000);
}

/// A depth never differs from itself.
pub proof fn lemma_same_depth(d: F32, tolerance: F32)
    requires
        d.is_finite(),
    ensures
        soft_validity(relative_depth_delta(d, d), tolerance) == F32::one(),
{
    reveal(F32::spec_max);
    reveal(F32::spec_min);
    let least = F32::ratio(1, 10000);
    let scale = d.abs().max(d.abs()).max(least);
    let gap = (d - d).abs();
    lemma_sub_key(d, d);
    lemma_rounds_to_itself(F32::zero());
    lemma_order(F32::zero(), F32::zero());
    lemma_part(10000);
    lemma_part(1000000);
    assert(gap.key() == 0);
    lemma_div_sign(gap, scale);
    assert((gap / scale).key() == 0);
}

/// A scene that stands still reprojects perfectly: no pixel loses its source,
/// every pixel is fully trusted, and each comes back as it was.
pub proof fn law_a_still_scene_reprojects_perfectly(
    g: &GBuffer,
    tolerance: F32,
    x: u32,
    y: u32,
    i: int,
)
    requires
        stands_still(g),
        x < g.spec_width(),
        y < g.spec_height(),
        0 <= i < 4,
    ensures
        !disoccluded(g, g, tolerance, x, y),
        validity_at(g, g, tolerance, x, y) == F32::one(),
        warped(g, g, tolerance, x, y)[i].key() == g.color.px(x as int, y as int)@[i].key(),
{
    let mv = g.motion.px(x as int, y as int)@;
    assert(mv[0].key() == 0 && mv[1].key() == 0);
    lemma_stays(x, mv[0]);
    lemma_stays(y, mv[1]);
    lemma_center_within(x, g.spec_width());
    lemma_center_within(y, g.spec_height());
    assert(source(g, x, y) == (center(x), center(y)));
    let d = g.depth.px(x as int, y as int);
    lemma_same_depth(d, tolerance);
    assert(lane_is_finite(&g.color, i));
    law_sampling_a_pixel_center_is_exact(&g.color, x, y, i);
}

/// A scene that stands still loses nothing.
pub proof fn law_a_still_scene_loses_nothing(g: &GBuffer, tolerance: F32, n: nat)
    requires
        stands_still(g),
        n <= g.spec_width() * g.spec_height(),
    ensures
        disoccluded_below(g, g, tolerance, n) == 0,
    decreases n,
{
    if n > 0 {
        law_a_still_scene_loses_nothing(g, tolerance, (n - 1) as nat);
        g.color.lemma_wf();
        let w = g.spec_width() as int;
        let h = g.spec_height() as int;
        let k = n - 1;
        lemma_quotient_bounds(k as nat, w as nat);
        vstd::arithmetic::div_mod::lemma_mod_bound(k, w);
        assert(k / w < h) by (nonlinear_arith)
            requires
                (k / w) * w <= k,
                k < w * h,
                w > 0,
        ;
        vstd::arithmetic::div_mod::lemma_div_pos_is_pos(k, w);
        law_a_still_scene_reprojects_perfectly(g, tolerance, (k % w) as u32, (k / w) as u32, 0);
    }
}

/// Whether two numbers are the same, or both nothing.
pub open spec fn alike(a: F32, b: F32) -> bool {
    a == b || a.key() == 0 && b.key() == 0
}

/// Sums of numbers that are alike are alike.
proof fn lemma_alike_sum(a: F32, b: F32, x: F32, y: F32)
    requires
        alike(a, x),
        alike(b, y),
    ensures
        alike(a + b, x + y),
{
    reveal(F32::spec_add);
    let f = Format::Single;
    lemma_units_zero(f, 0);
}

/// Luminances of colors that are alike are alike.
pub proof fn lemma_alike_luma(a: Seq<F32>, b: Seq<F32>)
    requires
        forall|i: int|
            0 <= i < 3 ==> #[trigger] a[i].is_finite() && b[i].is_finite() && alike(a[i], b[i]),
    ensures
        alike(spec_luma(a), spec_luma(b)),
{
    let r = F32::ratio(2126, 10000);
    let g = F32::ratio(7152, 10000);
    let l = F32::ratio(722, 10000);
    lemma_ratio_key(2126, 10000);
    lemma_ratio_key(7152, 10000);
    lemma_ratio_key(722, 10000);
    assert(a[0].is_finite() && a[1].is_finite() && a[2].is_finite());
    lemma_alike_product(r, a[0], b[0]);
    lemma_alike_product(g, a[1], b[1]);
    lemma_alike_product(l, a[2], b[2]);
    lemma_alike_sum(r * a[0], g * a[1], r * b[0], g * b[1]);
    lemma_alike_sum(r * a[0] + g * a[1], l * a[2], r * b[0] + g * b[1], l * b[2]);
}

/// Products with numbers that are alike are alike.
proof fn lemma_alike_product(w: F32, a: F32, b: F32)
    requires
        w.is_finite(),
        alike(a, b),
    ensures
        alike(w * a, w * b),
{
    if a != b {
        lemma_mul_zero(w, a);
        lemma_mul_zero(w, b);
    }
}

/// A scene that stands still generates nothing new, wherever between the two
/// frames: no pixel is rejected, every pixel is fully trusted, and each comes
/// out as it was.
pub proof fn law_a_still_scene_generates_nothing_new(
    g: &GBuffer,
    t: F32,
    cfg: InterpolateConfig,
    x: u32,
    y: u32,
    i: int,
)
    requires
        stands_still(g),
        x < g.spec_width(),
        y < g.spec_height(),
        spec_luma(g.color.px(x as int, y as int)@).is_finite(),
        in_unit(t),
        0 <= i < 4,
    ensures
        !rejected(g, g, t, cfg, x, y),
        trusted(g, g, t, cfg, x, y) == F32::one(),
        blended_or_held(g, g, t, cfg, x, y)[i].key() == g.color.px(x as int, y as int)@[i].key(),
{
    let mv = g.motion.px(x as int, y as int)@;
    assert(mv[0].key() == 0 && mv[1].key() == 0);
    // Both frames are read at the center of the pixel.
    lemma_one_minus(t);
    let rest = F32::one() - t;
    lemma_mul_zero(rest, mv[0]);
    lemma_mul_zero(rest, mv[1]);
    lemma_mul_zero(t, mv[0]);
    lemma_mul_zero(t, mv[1]);
    lemma_stays_back(x, rest * mv[0]);
    lemma_stays_back(y, rest * mv[1]);
    lemma_stays(x, t * mv[0]);
    lemma_stays(y, t * mv[1]);
    assert(newer(g, t, x, y) == (center(x), center(y)));
    assert(older(g, t, x, y) == (center(x), center(y)));
    lemma_center_within(x, g.spec_width());
    lemma_center_within(y, g.spec_height());

    // What is read there is the pixel.
    let here = g.color.px(x as int, y as int)@;
    let read = g.color.sampled(center(x), center(y));
    assert forall|j: int| 0 <= j < 4 implies #[trigger] read[j].is_finite() && here[j].is_finite()
        && alike(read[j], here[j]) && read[j].key() == here[j].key() by {
        assert(lane_is_finite(&g.color, j));
        law_sampling_a_pixel_center_is_exact(&g.color, x, y, j);
        lemma_pixel_is_finite(&g.color, x as int, y as int, j);
        assert(here == g.color.px(x as int, y as int).lanes());
    }
    lemma_alike_luma(read, here);
    let lum = spec_luma(read);
    assert(lum.is_finite());

    // Depth and luminance agree with themselves.
    let d = g.depth.px(x as int, y as int);
    lemma_same_depth(d, cfg.depth_tolerance);
    lemma_sub_key(lum, lum);
    lemma_rounds_to_itself(F32::zero());
    lemma_order(F32::zero(), F32::zero());
    lemma_no_error((lum - lum).abs(), cfg.photo_tolerance.max(F32::ratio(1, 10000)));
    lemma_mul_one(F32::one());

    // A mix of equals is the same again.
    let a = read[i];
    lemma_sub_key(a, a);
    lemma_mul_zero(t, a - a);
    let z = (a - a) * t;
    lemma_add_key(a, z);
    lemma_order(z, F32::zero());
    lemma_rounds_to_itself(a);
    assert(read[i].is_finite());
    assert(mixed(read, read, t)[i] == a + z);
}

/// A scene that stands still invents nothing.
pub proof fn law_a_still_scene_invents_nothing(g: &GBuffer, t: F32, cfg: InterpolateConfig, n: nat)
    requires
        stands_still(g),
        forall|x: int, y: int| #[trigger] spec_luma(g.color.px(x, y)@).is_finite(),
        in_unit(t),
        n <= g.spec_width() * g.spec_height(),
    ensures
        rejected_below(g, g, t, cfg, n) == 0,
    decreases n,
{
    if n > 0 {
        law_a_still_scene_invents_nothing(g, t, cfg, (n - 1) as nat);
        g.color.lemma_wf();
        let w = g.spec_width() as int;
        let h = g.spec_height() as int;
        let k = n - 1;
        lemma_quotient_bounds(k as nat, w as nat);
        vstd::arithmetic::div_mod::lemma_mod_bound(k, w);
        assert(k / w < h) by (nonlinear_arith)
            requires
                (k / w) * w <= k,
                k < w * h,
                w > 0,
        ;
        vstd::arithmetic::div_mod::lemma_div_pos_is_pos(k, w);
        let x = (k % w) as u32;
        let y = (k / w) as u32;
        assert(spec_luma(g.color.px(x as int, y as int)@).is_finite());
        law_a_still_scene_generates_nothing_new(g, t, cfg, x, y, 0);
    }
}

/// Taking the floor from a number leaves something in `0..=1`.
pub proof fn lemma_fraction_left(v: F32)
    requires
        v.is_finite(),
    ensures
        in_unit(v - v.floor()),
{
    reveal(F32::spec_floor);
    let f = Format::Single;
    let u = pow2(149);
    let n = units(f, v.raw().mag as nat);
    let down = v.floor();
    lemma_pow2_pos(149);
    lemma_unity(f);
    lemma_rounds_to_itself(F32::zero());
    lemma_rounds_to_itself(F32::one());
    lemma_order(F32::zero(), F32::zero());
    lemma_order(F32::one(), F32::one());
    if v.raw().mag >= f.whole() {
        assert(down == v);
    } else {
        let w = whole_part(f, v.raw().mag as nat);
        lemma_quotient_bounds(n, u);
        lemma_units_monotone(f, v.raw().mag as nat, 0x4b00_0000);
        lemma2_to64();
        assert(0x4b00_0000nat / 0x80_0000nat == 150 && 0x4b00_0000nat % 0x80_0000nat == 0);
        assert(units(f, 0x4b00_0000) == 0x80_0000 * u);
        assert(w <= 0x80_0000) by (nonlinear_arith)
            requires
                w * u <= n,
                n <= 0x80_0000 * u,
                u > 0,
        ;
        assert((w + 1) * u == w * u + u) by (nonlinear_arith);
        vstd::arithmetic::div_mod::lemma_fundamental_div_mod(n as int, u as int);
        assert(u * (n / u) == w * u) by (nonlinear_arith)
            requires
                w == n / u,
        ;
        let k: nat = if v.raw().neg && has_fraction(f, v.raw().mag as nat) {
            w + 1
        } else {
            w
        };
        lemma_from_small(k as u32);
        lemma_from_whole(k as u64);
        reveal(F32::spec_from_u64);
        lemma_order(F32::from_u32(k as u32), F32::from_u32(k as u32));
        assert(down.is_finite());
        assert(down.value() == if v.raw().neg {
            -(k * u)
        } else {
            (k * u) as int
        });
    }
    let d = v.value() - down.value();
    assert(0 <= d <= u);
    lemma_sub_key(v, down);
    lemma_rounded_sum_monotone(f, 0, d);
    lemma_rounded_sum_monotone(f, d, F32::one().value());
}

/// A mix of two numbers that are not negative is finite and not negative, and
/// at most the sum of their bounds.
proof fn lemma_mix_bounded(a: F32, b: F32, t: F32, most: int)
    requires
        a.is_finite(),
        b.is_finite(),
        0 <= a.key(),
        0 <= b.key(),
        a.value() <= most,
        b.value() <= most,
        in_unit(t),
        most <= 3 * one_unit(),
    ensures
        ({
            let m = a * (F32::one() - t) + b * t;
            &&& m.is_finite()
            &&& 0 <= m.key()
            &&& m.value() <= 2 * most + slip()
        }),
{
    lemma_slip();
    lemma_one_minus(t);
    let p = a * (F32::one() - t);
    let q = b * t;
    lemma_mul_unit(a, F32::one() - t);
    lemma_mul_unit(b, t);
    lemma_order(p, a);
    lemma_order(q, b);
    lemma_order(p, p);
    lemma_order(q, q);
    lemma_add_close(p, q);
    lemma_add_key(p, q);
    lemma_rounded_sum_monotone(Format::Single, 0, p.value() + q.value());
    lemma_rounds_to_itself(F32::zero());
    lemma_order(F32::zero(), F32::zero());
    lemma_order(F32::zero(), p);
    lemma_order(F32::zero(), q);
}

/// Whether every channel of a picture is in `0..=1`.
pub open spec fn displayable(img: &ImageBuffer) -> bool {
    forall|k: int, i: int|
        0 <= k < img.pixels().len() && 0 <= i < 4 ==> in_unit(#[trigger] img.pixels()[k]@[i])
}

/// A pixel of a picture within range, by its value.
pub proof fn lemma_displayable_pixel(img: &ImageBuffer, x: int, y: int, i: int)
    requires
        img.wf(),
        displayable(img),
        0 <= i < 4,
    ensures
        in_unit(img.px(x, y)@[i]),
        img.px(x, y)@[i].is_finite(),
        img.px(x, y)@[i].value() <= one_unit(),
{
    img.lemma_wf();
    let w = img.spec_width() as int;
    let h = img.spec_height() as int;
    lemma_place(clamped(x, w), clamped(y, h), w, h);
    let k = clamped(y, h) * w + clamped(x, w);
    assert(img.px(x, y) == img.pixels()[k]);
    assert(in_unit(img.pixels()[k]@[i]));
    lemma_order(img.px(x, y)@[i], F32::one());
    lemma_unity(Format::Single);
}

/// Half a pixel before a coordinate of the picture is finite.
proof fn lemma_before(x: F32)
    requires
        x.is_finite(),
        x.key() >= 0,
    ensures
        (x - F32::half()).is_finite(),
{
    let half = F32::half();
    lemma_half_value();
    lemma_sub_key(x, half);
    lemma_order(F32::zero(), x);
    lemma_order(F32::zero(), F32::zero());
    lemma_order(half, half);
    lemma_rounds_to_itself(x);
    let v = x.value() - half.value();
    lemma_rounded_sum_monotone(Format::Single, v, x.value());
    lemma_rounded_sum_monotone(Format::Single, -half.value(), v);
    let back = F32 { bits: 0xbf00_0000 };
    assert(back.value() == -half.value());
    lemma_rounds_to_itself(back);
}

/// A coordinate inside a picture is finite and not negative.
proof fn lemma_inside(img: &ImageBuffer, x: F32, y: F32)
    requires
        img.contains(x, y),
    ensures
        x.is_finite(),
        x.key() >= 0,
        y.is_finite(),
        y.key() >= 0,
{
    lemma_from_whole(img.spec_width() as u64);
    lemma_from_whole(img.spec_height() as u64);
}

/// A sample of a picture within range is finite, and not far out of it.
pub proof fn lemma_sample_bounded(img: &ImageBuffer, x: F32, y: F32, i: int)
    requires
        img.wf(),
        displayable(img),
        x.is_finite(),
        x.key() >= 0,
        y.is_finite(),
        y.key() >= 0,
        0 <= i < 4,
    ensures
        img.sampled(x, y)[i].is_finite(),
        0 <= img.sampled(x, y)[i].key(),
        img.sampled(x, y)[i].value() <= 5 * one_unit(),
{
    lemma_slip();
    lemma_before(x);
    lemma_before(y);
    let fx = x - F32::half();
    let fy = y - F32::half();
    lemma_fraction_left(fx);
    lemma_fraction_left(fy);
    let tx = fx - fx.floor();
    let ty = fy - fy.floor();
    let x0 = fx.floor().to_i32();
    let y0 = fy.floor().to_i32();
    let x1 = spec_after(x0) as int;
    let y1 = spec_after(y0) as int;
    lemma_displayable_pixel(img, x0 as int, y0 as int, i);
    lemma_displayable_pixel(img, x1, y0 as int, i);
    lemma_displayable_pixel(img, x0 as int, y1, i);
    lemma_displayable_pixel(img, x1, y1, i);
    let c00 = img.px(x0 as int, y0 as int).lanes();
    let c10 = img.px(x1, y0 as int).lanes();
    let c01 = img.px(x0 as int, y1).lanes();
    let c11 = img.px(x1, y1).lanes();
    lemma_mix_bounded(c00[i], c10[i], tx, one_unit());
    lemma_mix_bounded(c01[i], c11[i], tx, one_unit());
    let top = c00[i] * (F32::one() - tx) + c10[i] * tx;
    let bot = c01[i] * (F32::one() - tx) + c11[i] * tx;
    assert(blended(c00, c10, tx)[i] == top);
    assert(blended(c01, c11, tx)[i] == bot);
    lemma_mix_bounded(top, bot, ty, 2 * one_unit() + slip());
}

/// Two frames that frames can be generated between: one size, every channel in
/// `0..=1`, and finite motion.
pub open spec fn can_be_mixed(prev: &GBuffer, next: &GBuffer) -> bool {
    &&& prev.wf()
    &&& next.wf()
    &&& prev.spec_width() == next.spec_width() < 0x80_0000
    &&& prev.spec_height() == next.spec_height() < 0x80_0000
    &&& displayable(&prev.color)
    &&& displayable(&next.color)
    &&& forall|x: int, y: int, i: int|
        0 <= i < 2 ==> (#[trigger] next.motion.px(x, y)@[i]).is_finite()
}

proof fn lemma_lane_of_displayable(img: &ImageBuffer, i: int)
    requires
        img.wf(),
        displayable(img),
        0 <= i < 4,
    ensures
        lane_is_finite(img, i),
{
    assert forall|k: int| 0 <= k < img.pixels().len() implies 0 <= i < (
    #[trigger] img.pixels()[k]).lanes().len() && img.pixels()[k].lanes()[i].is_finite() by {
        assert(in_unit(img.pixels()[k]@[i]));
    }
}

/// The ends of the interval are the frames themselves, whatever moves between
/// them: before holes are filled, the start is the older frame exactly, and the
/// end is the newer one, but for a ten-thousandth of rounding.
pub proof fn law_endpoints_are_reproduced(
    prev: &GBuffer,
    next: &GBuffer,
    cfg: InterpolateConfig,
    x: u32,
    y: u32,
    i: int,
)
    requires
        can_be_mixed(prev, next),
        x < next.spec_width(),
        y < next.spec_height(),
        0 <= i < 4,
    ensures
        blended_or_held(prev, next, F32::zero(), cfg, x, y)[i].key() == prev.color.px(
            x as int,
            y as int,
        )@[i].key(),
        all_but_equal(
            blended_or_held(prev, next, F32::one(), cfg, x, y)[i],
            next.color.px(x as int, y as int)@[i],
        ),
{
    let mv = next.motion.px(x as int, y as int)@;
    assert(mv[0].is_finite() && mv[1].is_finite());
    let zero = F32::zero();
    let one = F32::one();
    let (cx, cy) = (center(x), center(y));
    lemma_slip();
    lemma_order(zero, zero);
    lemma_rounds_to_itself(zero);
    lemma_lane_of_displayable(&prev.color, i);
    lemma_lane_of_displayable(&next.color, i);
    lemma_mul_zero(mv[0], zero);
    lemma_mul_zero(mv[1], zero);

    // The start reads the older frame at the center.
    lemma_stays(x, zero * mv[0]);
    lemma_stays(y, zero * mv[1]);
    assert(older(next, zero, x, y) == (cx, cy));
    if !rejected(prev, next, zero, cfg, x, y) {
        let (nx, ny) = newer(next, zero, x, y);
        lemma_inside(&next.color, nx, ny);
        law_sampling_a_pixel_center_is_exact(&prev.color, x, y, i);
        lemma_displayable_pixel(&prev.color, x as int, y as int, i);
        lemma_sample_bounded(&next.color, nx, ny, i);
        let a = prev.color.sampled(cx, cy)[i];
        let b = next.color.sampled(nx, ny)[i];
        lemma_order(a, one);
        lemma_order(zero, a);
        lemma_order(zero, b);
        lemma_unity(Format::Single);
        lemma_sub_close(b, a);
        lemma_mul_zero(b - a, zero);
        let z = (b - a) * zero;
        lemma_add_key(a, z);
        lemma_order(z, zero);
        lemma_rounds_to_itself(a);
        assert(mixed(prev.color.sampled(cx, cy), next.color.sampled(nx, ny), zero)[i] == a + z);
    }

    // The end reads the newer frame at the center.
    lemma_one_minus(one);
    let none = one - one;
    lemma_mul_zero(mv[0], none);
    lemma_mul_zero(mv[1], none);
    lemma_stays_back(x, none * mv[0]);
    lemma_stays_back(y, none * mv[1]);
    assert(newer(next, one, x, y) == (cx, cy));
    lemma_displayable_pixel(&next.color, x as int, y as int, i);
    let here = next.color.px(x as int, y as int)@[i];
    if rejected(prev, next, one, cfg, x, y) {
        lemma_near(here, here);
    } else {
        let (px, py) = older(next, one, x, y);
        lemma_inside(&prev.color, px, py);
        law_sampling_a_pixel_center_is_exact(&next.color, x, y, i);
        lemma_sample_bounded(&prev.color, px, py, i);
        let a = prev.color.sampled(px, py)[i];
        let b = next.color.sampled(cx, cy)[i];
        lemma_order(b, here);
        lemma_order(here, b);
        lemma_order(zero, a);
        lemma_order(zero, b);
        lemma_sub_close(b, a);
        lemma_mul_one(b - a);
        lemma_add_close(a, b - a);
        let m = a + (b - a) * one;
        assert(mixed(prev.color.sampled(px, py), next.color.sampled(cx, cy), one)[i] == m);
        lemma_near(m, here);
    }
}

/// Filling holes leaves the ends of the interval alone wherever they are
/// believed: in the finished frame, a pixel that is not a hole is the older
/// frame's at the start, and the newer one's at the end, but for a
/// ten-thousandth of rounding.
pub proof fn law_endpoints_survive_filling(
    prev: &GBuffer,
    next: &GBuffer,
    cfg: InterpolateConfig,
    x: u32,
    y: u32,
    i: int,
)
    requires
        can_be_mixed(prev, next),
        x < next.spec_width(),
        y < next.spec_height(),
        0 <= i < 4,
    ensures
        ({
            let k = y * next.spec_width() + x;
            let n = cfg.hole_fill_passes as nat;
            let start = unfilled(prev, next, F32::zero(), cfg).passes(n).color[k];
            let end = unfilled(prev, next, F32::one(), cfg).passes(n).color[k];
            &&& trusted(prev, next, F32::zero(), cfg, x, y).gt(F32::zero()) ==> start[i].key()
                == prev.color.px(x as int, y as int)@[i].key()
            &&& trusted(prev, next, F32::one(), cfg, x, y).gt(F32::zero()) ==> all_but_equal(
                end[i],
                next.color.px(x as int, y as int)@[i],
            )
        }),
{
    let w = next.spec_width() as int;
    let k = y * w + x;
    let n = cfg.hole_fill_passes as nat;
    let start = unfilled(prev, next, F32::zero(), cfg);
    let end = unfilled(prev, next, F32::one(), cfg);
    lemma_place(x as int, y as int, w, next.spec_height() as int);
    law_endpoints_are_reproduced(prev, next, cfg, x, y, i);
    if start.valid[k].gt(F32::zero()) {
        law_filling_keeps_believable_pixels(start, n, k);
    }
    if end.valid[k].gt(F32::zero()) {
        law_filling_keeps_believable_pixels(end, n, k);
    }
}

} // verus!
