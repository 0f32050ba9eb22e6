//! Motion: what moved is found where it was, and shown where it is by then.

use crate::fp::errors::{
    lemma_add_close, lemma_div_close, lemma_mul_close, lemma_ratio_close, lemma_round_error,
    lemma_slip, lemma_sub_close, one_unit, place, slip,
};
use crate::fp::facts::{
    lemma_add_key, lemma_div_key, lemma_exact, lemma_from_small, lemma_mul_key, lemma_mul_one,
    lemma_mul_zero, lemma_order, lemma_quotient_small_one, lemma_round_same,
    lemma_rounded_sum_monotone, lemma_rounds_to_itself, lemma_sub_key, lemma_unity,
};
use crate::fp::model::{
    lemma_pow2_le, lemma_round_exact, lemma_round_monotone, round_mag, units, Format,
};
use crate::fp::raw::{lemma_units_monotone, lemma_units_zero};
use crate::fp::F32;
use crate::frame::{clamped, lemma_place, GBuffer, Texel};
use crate::laws::filling::lemma_coordinates;
use crate::laws::recon::{
    law_depth_delta_is_a_fraction, law_filling_keeps_believable_pixels, law_validity_is_a_fraction,
};
use crate::laws::sampling::{
    alike, center, displayable, lane_is_finite, law_sampling_a_pixel_center_is_exact,
    lemma_alike_luma, lemma_center, lemma_center_within, lemma_displayable_pixel, lemma_half_value,
    lemma_no_error, lemma_pixel_is_finite, lemma_same_depth, lemma_stays,
};
use crate::laws::sharpening::lemma_unit_value;
use crate::laws::trust::in_unit;
use crate::recon::interpolate::{
    agreement, blended_or_held, interpolate_midpoint, mixed, newer, older, rejected, trusted,
    unfilled, InterpolateConfig, Interpolated,
};
use crate::recon::reproject::{
    disoccluded, disoccluded_below, reproject, source, validity_at, warped, ReprojectConfig,
    Reprojected,
};
use crate::recon::{relative_depth_delta, soft_validity};
use crate::signals::spec_luma;
use vstd::arithmetic::power2::{
    lemma2_to64, lemma_pow2_adds, lemma_pow2_pos, lemma_pow2_unfold, pow2,
};
use vstd::prelude::*;

verus! {

/// Whether a number is finite and a whole one.
pub open spec fn is_whole(x: F32, k: int) -> bool {
    x.is_finite() && x.value() == k * pow2(149)
}

/// A whole step from the center of a pixel leads to the center of another.
pub proof fn lemma_step(v: u32, m: F32, k: int)
    requires
        v < 0x80_0000,
        is_whole(m, k),
        0 <= v + k < 0x80_0000,
    ensures
        center(v) + m == center((v + k) as u32),
{
    let c = center(v);
    let d = center((v + k) as u32);
    lemma_half_value();
    lemma_center(v);
    lemma_center((v + k) as u32);
    lemma_stays((v + k) as u32, F32::zero());
    lemma_add_key(c, m);
    lemma_rounds_to_itself(d);
    assert((2 * v + 1) * pow2(148) + k * (2 * pow2(148)) == (2 * (v + k) + 1) * pow2(148))
        by (nonlinear_arith);
}

/// And so does a whole step back.
proof fn lemma_step_back(v: u32, m: F32, k: int)
    requires
        v < 0x80_0000,
        is_whole(m, k),
        0 <= v - k < 0x80_0000,
    ensures
        center(v) - m == center((v - k) as u32),
{
    let c = center(v);
    let d = center((v - k) as u32);
    lemma_half_value();
    lemma_center(v);
    lemma_center((v - k) as u32);
    lemma_stays((v - k) as u32, F32::zero());
    lemma_sub_key(c, m);
    lemma_rounds_to_itself(d);
    assert((2 * v + 1) * pow2(148) - k * (2 * pow2(148)) == (2 * (v - k) + 1) * pow2(148))
        by (nonlinear_arith);
}

/// A product that is a small whole number is that number.
pub proof fn lemma_whole_product(a: F32, b: F32, n: int)
    requires
        a.is_finite(),
        b.is_finite(),
        a.value() * b.value() == n * (pow2(149) * pow2(149)),
        -0x100_0000 < n < 0x100_0000,
    ensures
        is_whole(a * b, n),
{
    reveal(F32::spec_mul);
    let f = Format::Single;
    let u = pow2(149);
    let x = units(f, a.raw().mag as nat);
    let y = units(f, b.raw().mag as nat);
    let m: nat = if n < 0 {
        (-n) as nat
    } else {
        n as nat
    };
    lemma_pow2_pos(149);
    lemma2_to64();
    assert((-x) * y == -(x * y) && x * (-y) == -(x * y) && (-x) * (-y) == x * y)
        by (nonlinear_arith);
    let s = a.value() * b.value();
    assert(s == x * y || s == -(x * y));
    assert(x * y >= 0) by (nonlinear_arith);
    assert(n >= 0 ==> n * (u * u) >= 0) by (nonlinear_arith);
    assert(n < 0 ==> n * (u * u) < 0) by (nonlinear_arith)
        requires
            u > 0,
    ;
    assert(n > 0 ==> n * (u * u) > 0) by (nonlinear_arith)
        requires
            u > 0,
    ;
    assert(m * (u * u) == (m * u) * u) by (nonlinear_arith);
    assert(n < 0 ==> m * (u * u) == -(n * (u * u))) by (nonlinear_arith)
        requires
            n < 0 ==> m == -n,
    ;
    assert(x * y == (m * u) * u);
    let h = pow2((f.p() - 1) as nat);
    assert((149 + 2) * h <= f.top()) by (nonlinear_arith)
        requires
            h == 0x80_0000,
            f.top() == 0x7f80_0000,
    ;
    assert((x * y) * 1 == (m * u) * u);
    lemma_round_same(f, x * y, u, m * u, 1);
    let mag = lemma_exact(f, m, 149);
    assert(n < 0 ==> n * u == -(m * u)) by (nonlinear_arith)
        requires
            n < 0 ==> m == -n,
    ;
    if n == 0 {
        assert(0 * u == 0);
        lemma_units_zero(f, mag);
    }
}

/// Whether a time is `j` parts of the interval cut into `2^k`.
pub open spec fn is_part(t: F32, j: int, k: nat) -> bool {
    &&& k <= 23
    &&& 0 <= j <= pow2(k)
    &&& t.is_finite()
    &&& t.value() == j * pow2((149 - k) as nat)
}

/// The rest of the interval is the other parts.
pub proof fn lemma_rest(t: F32, j: int, k: nat)
    requires
        is_part(t, j, k),
    ensures
        is_part(F32::one() - t, pow2(k) - j, k),
        in_unit(t),
{
    let f = Format::Single;
    let one = F32::one();
    let e = (149 - k) as nat;
    let r = one - t;
    lemma_unity(f);
    lemma2_to64();
    lemma_pow2_pos(k);
    lemma_pow2_pos(e);
    lemma_pow2_adds(k, e);
    lemma_pow2_le(k, 23);
    let m = (pow2(k) - j) as nat;
    assert(one.value() == pow2(k) * pow2(e));
    assert(m * pow2(e) == pow2(k) * pow2(e) - j * pow2(e)) by (nonlinear_arith)
        requires
            m == pow2(k) - j,
    ;
    lemma_sub_key(one, t);
    let h = pow2((f.p() - 1) as nat);
    assert((e + 2) * h <= f.top()) by (nonlinear_arith)
        requires
            e <= 149,
            h == 0x80_0000,
            f.top() == 0x7f80_0000,
    ;
    let mag = lemma_exact(f, m, e);
    assert(m * pow2(e) >= 0) by (nonlinear_arith);
    lemma_order(r, r);
    lemma_units_zero(f, 0);
    assert(j * pow2(e) >= 0) by (nonlinear_arith)
        requires
            j >= 0,
    ;
    lemma_order(F32::zero(), t);
    lemma_order(t, one);
}

/// A part of a motion that is a multiple of as many pixels is whole.
proof fn lemma_part_of_motion(t: F32, j: int, k: nat, mv: F32, e: int)
    requires
        is_part(t, j, k),
        is_whole(mv, e * pow2(k)),
        -0x100_0000 < j * e < 0x100_0000,
    ensures
        is_whole(t * mv, j * e),
{
    let u = pow2(149);
    let p = pow2((149 - k) as nat);
    let q = pow2(k);
    lemma_pow2_adds(k, (149 - k) as nat);
    assert((j * p) * ((e * q) * u) == (j * e) * ((q * p) * u)) by (nonlinear_arith);
    lemma_whole_product(t, mv, j * e);
}

/// Frames that can be compared pixel by pixel: of one size, and every channel
/// finite.
pub open spec fn comparable(prev: &GBuffer, next: &GBuffer) -> bool {
    &&& prev.wf()
    &&& next.wf()
    &&& prev.spec_width() == next.spec_width() < 0x80_0000
    &&& prev.spec_height() == next.spec_height() < 0x80_0000
    &&& next.spec_width() * next.spec_height() <= u32::MAX
    &&& forall|i: int| 0 <= i < 4 ==> #[trigger] lane_is_finite(&prev.color, i)
    &&& forall|i: int| 0 <= i < 4 ==> #[trigger] lane_is_finite(&next.color, i)
}

/// Whether a place lies in a frame.
pub open spec fn inside(g: &GBuffer, x: int, y: int) -> bool {
    0 <= x < g.spec_width() && 0 <= y < g.spec_height()
}

/// Exact motion vectors reproduce the frame: a pixel that moved by whole pixels,
/// along either axis or both, from a place inside the previous frame with the
/// depth that it has now, is fully trusted, and shows what was there.
pub proof fn law_exact_motion_reproduces_the_frame(
    prev: &GBuffer,
    current: &GBuffer,
    cfg: ReprojectConfig,
    r: Reprojected,
    x: u32,
    y: u32,
    mx: int,
    my: int,
    i: int,
)
    requires
        comparable(prev, current),
        call_ensures(reproject, (prev, current, cfg), r),
        inside(current, x as int, y as int),
        is_whole(current.motion.px(x as int, y as int)@[0], mx),
        is_whole(current.motion.px(x as int, y as int)@[1], my),
        inside(prev, x + mx, y + my),
        prev.depth.px(x + mx, y + my) == current.depth.px(x as int, y as int),
        current.depth.px(x as int, y as int).is_finite(),
        0 <= i < 4,
    ensures
        !disoccluded(prev, current, cfg.depth_tolerance, x, y),
        r.validity.px(x as int, y as int) == F32::one(),
        r.color.px(x as int, y as int)@[i].key() == prev.color.px(x + mx, y + my)@[i].key(),
{
    let mv = current.motion.px(x as int, y as int)@;
    let sx = (x + mx) as u32;
    let sy = (y + my) as u32;
    lemma_step(x, mv[0], mx);
    lemma_step(y, mv[1], my);
    assert(source(current, x, y) == (center(sx), center(sy)));
    lemma_center_within(sx, prev.spec_width());
    lemma_center_within(sy, prev.spec_height());
    lemma_same_depth(current.depth.px(x as int, y as int), cfg.depth_tolerance);
    assert(lane_is_finite(&prev.color, i));
    law_sampling_a_pixel_center_is_exact(&prev.color, sx, sy, i);
    assert(validity_at(prev, current, cfg.depth_tolerance, x, y) == F32::one());
    assert(warped(prev, current, cfg.depth_tolerance, x, y) == prev.color.sampled(
        center(sx),
        center(sy),
    ));
    assert(r.color.px(x as int, y as int)@ == warped(prev, current, cfg.depth_tolerance, x, y));
}

/// A pixel that came from outside the previous frame has no source.
pub proof fn law_what_was_outside_has_no_source(
    prev: &GBuffer,
    current: &GBuffer,
    cfg: ReprojectConfig,
    r: Reprojected,
    x: u32,
    y: u32,
    mx: int,
    my: int,
)
    requires
        comparable(prev, current),
        call_ensures(reproject, (prev, current, cfg), r),
        inside(current, x as int, y as int),
        is_whole(current.motion.px(x as int, y as int)@[0], mx),
        is_whole(current.motion.px(x as int, y as int)@[1], my),
        !inside(prev, x + mx, y + my),
    ensures
        disoccluded(prev, current, cfg.depth_tolerance, x, y),
        r.validity.px(x as int, y as int) == F32::zero(),
        r.color.px(x as int, y as int)@ == current.color.px(x as int, y as int)@,
{
    let mv = current.motion.px(x as int, y as int)@;
    let (sx, sy) = source(current, x, y);
    if !(0 <= x + mx < prev.spec_width()) {
        lemma_step_outside(x, mv[0], mx, prev.spec_width());
    } else {
        lemma_step_outside(y, mv[1], my, prev.spec_height());
    }
    assert(!prev.color.contains(sx, sy));
    assert(r.color.px(x as int, y as int)@ == warped(prev, current, cfg.depth_tolerance, x, y));
}

/// A whole step that leads out of a frame leads out of it.
proof fn lemma_step_outside(v: u32, m: F32, k: int, side: u32)
    requires
        v < side < 0x80_0000,
        is_whole(m, k),
        !(0 <= v + k < side),
    ensures
        !((center(v) + m).ge(F32::zero()) && (center(v) + m).lt(F32::from_u32(side))),
{
    let f = Format::Single;
    let c = center(v);
    let s = F32::from_u32(side);
    let h = pow2(148);
    lemma_half_value();
    lemma_center(v);
    lemma_add_key(c, m);
    lemma_from_small(side);
    lemma_order(s, s);
    assert((2 * v + 1) * h + k * (2 * h) == (2 * (v + k) + 1) * h) by (nonlinear_arith);
    let w = (2 * (v + k) + 1) * h;
    if v + k < 0 {
        assert(w <= -h) by (nonlinear_arith)
            requires
                v + k <= -1,
                h > 0,
                w == (2 * (v + k) + 1) * h,
        ;
        let less = F32 { bits: 0xbf00_0000 };
        assert(less.value() == -h && less.is_finite()) by {
            lemma2_to64();
            assert(0x3f00_0000nat / 0x80_0000nat == 126 && 0x3f00_0000nat % 0x80_0000nat == 0);
            lemma_pow2_adds(23, 125);
        }
        lemma_rounds_to_itself(less);
        lemma_rounded_sum_monotone(f, w, -h);
    } else {
        assert(w >= side * (2 * h)) by (nonlinear_arith)
            requires
                v + k >= side,
                h > 0,
                w == (2 * (v + k) + 1) * h,
        ;
        lemma_rounds_to_itself(s);
        lemma_rounded_sum_monotone(f, side * (2 * h), w);
    }
}

/// Reading both frames along a motion: where an output pixel at a part of the
/// interval looks, if the motion is a multiple of as many pixels.
proof fn lemma_looks(next: &GBuffer, t: F32, j: int, k: nat, x: u32, y: u32, ex: int, ey: int)
    requires
        is_part(t, j, k),
        next.wf(),
        next.spec_width() < 0x80_0000,
        next.spec_height() < 0x80_0000,
        inside(next, x as int, y as int),
        is_whole(next.motion.px(x as int, y as int)@[0], -ex * pow2(k)),
        is_whole(next.motion.px(x as int, y as int)@[1], -ey * pow2(k)),
        inside(next, x - j * ex, y - j * ey),
        inside(next, x + (pow2(k) - j) * ex, y + (pow2(k) - j) * ey),
    ensures
        older(next, t, x, y) == (center((x - j * ex) as u32), center((y - j * ey) as u32)),
        newer(next, t, x, y) == (
            center((x + (pow2(k) - j) * ex) as u32),
            center((y + (pow2(k) - j) * ey) as u32),
        ),
{
    let mv = next.motion.px(x as int, y as int)@;
    let r = pow2(k) - j;
    lemma_rest(t, j, k);
    assert(j * (-ex) == -(j * ex) && j * (-ey) == -(j * ey) && r * (-ex) == -(r * ex) && r * (-ey)
        == -(r * ey)) by (nonlinear_arith);
    lemma_part_of_motion(t, j, k, mv[0], -ex);
    lemma_part_of_motion(t, j, k, mv[1], -ey);
    lemma_part_of_motion(F32::one() - t, r, k, mv[0], -ex);
    lemma_part_of_motion(F32::one() - t, r, k, mv[1], -ey);
    lemma_step(x, t * mv[0], -(j * ex));
    lemma_step(y, t * mv[1], -(j * ey));
    lemma_step_back(x, (F32::one() - t) * mv[0], -(r * ex));
    lemma_step_back(y, (F32::one() - t) * mv[1], -(r * ey));
}

/// Whether two finite numbers are the same, or both nothing.
spec fn same_number(a: F32, b: F32) -> bool {
    &&& a.is_finite()
    &&& b.is_finite()
    &&& a.key() == b.key()
    &&& a.value() == b.value()
    &&& alike(a, b)
}

/// What the center of a pixel of a finite plane reads.
proof fn lemma_reads(g: &GBuffer, x: u32, y: u32)
    requires
        g.wf(),
        g.spec_width() < 0x80_0000,
        g.spec_height() < 0x80_0000,
        inside(g, x as int, y as int),
        forall|i: int| 0 <= i < 4 ==> #[trigger] lane_is_finite(&g.color, i),
    ensures
        g.color.contains(center(x), center(y)),
        center(x).floor().to_i32() == x,
        center(y).floor().to_i32() == y,
        forall|i: int|
            0 <= i < 4 ==> same_number(
                #[trigger] g.color.sampled(center(x), center(y))[i],
                g.color.px(x as int, y as int)@[i],
            ),
{
    lemma_center_within(x, g.spec_width());
    lemma_center_within(y, g.spec_height());
    let read = g.color.sampled(center(x), center(y));
    let here = g.color.px(x as int, y as int)@;
    assert forall|i: int| 0 <= i < 4 implies same_number(#[trigger] read[i], here[i]) by {
        assert(lane_is_finite(&g.color, i));
        law_sampling_a_pixel_center_is_exact(&g.color, x, y, i);
        lemma_pixel_is_finite(&g.color, x as int, y as int, i);
        assert(here == g.color.px(x as int, y as int).lanes());
        lemma_order(read[i], here[i]);
        lemma_order(here[i], read[i]);
    }
}

/// A surface that moves lands where it should. Let a surface move by a whole
/// number of pixels in each part of the interval, along either axis or both, and
/// show the same at its end as at its start. At the time of any part it stands
/// that much further along: the generated frame shows it there, fully trusted.
pub proof fn law_a_moving_surface_lands_where_it_should(
    prev: &GBuffer,
    next: &GBuffer,
    t: F32,
    cfg: InterpolateConfig,
    r: Interpolated,
    j: int,
    k: nat,
    x: u32,
    y: u32,
    ex: int,
    ey: int,
    i: int,
)
    requires
        comparable(prev, next),
        call_ensures(interpolate_midpoint, (prev, next, t, cfg), r),
        is_part(t, j, k),
        inside(next, x as int, y as int),
        is_whole(next.motion.px(x as int, y as int)@[0], -ex * pow2(k)),
        is_whole(next.motion.px(x as int, y as int)@[1], -ey * pow2(k)),
        inside(prev, x - j * ex, y - j * ey),
        inside(next, x + (pow2(k) - j) * ex, y + (pow2(k) - j) * ey),
        ({
            let (px, py) = (x - j * ex, y - j * ey);
            let (nx, ny) = (x + (pow2(k) - j) * ex, y + (pow2(k) - j) * ey);
            &&& next.color.px(nx, ny)@ == prev.color.px(px, py)@
            &&& next.depth.px(nx, ny) == prev.depth.px(px, py)
            &&& prev.depth.px(px, py).is_finite()
            &&& spec_luma(prev.color.px(px, py)@).is_finite()
        }),
        0 <= i < 4,
    ensures
        !rejected(prev, next, t, cfg, x, y),
        trusted(prev, next, t, cfg, x, y) == F32::one(),
        r.color.px(x as int, y as int)@[i].key() == prev.color.px(x - j * ex, y - j * ey)@[i].key(),
{
    let (px, py) = ((x - j * ex) as u32, (y - j * ey) as u32);
    let (nx, ny) = ((x + (pow2(k) - j) * ex) as u32, (y + (pow2(k) - j) * ey) as u32);
    lemma_rest(t, j, k);
    lemma_looks(next, t, j, k, x, y, ex, ey);
    lemma_reads(prev, px, py);
    lemma_reads(next, nx, ny);
    let a = prev.color.sampled(center(px), center(py));
    let b = next.color.sampled(center(nx), center(ny));
    let here = prev.color.px(px as int, py as int)@;
    assert forall|c: int| 0 <= c < 4 implies same_number(#[trigger] a[c], here[c]) && same_number(
        b[c],
        a[c],
    ) by {
        assert(same_number(b[c], next.color.px(nx as int, ny as int)@[c]));
    }
    assert forall|c: int| 0 <= c < 3 implies #[trigger] b[c].is_finite() && a[c].is_finite()
        && alike(b[c], a[c]) by {
        assert(same_number(a[c], here[c]));
    }
    lemma_alike_luma(a, here);
    lemma_alike_luma(b, a);
    lemma_agrees(prev, next, t, cfg, x, y, px, py, nx, ny);
    assert(same_number(a[i], here[i]));
    lemma_mix_of_equals(a[i], b[i], t);
    let v = blended_or_held(prev, next, t, cfg, x, y);
    assert(v == mixed(a, b, t));
    assert(v[i].key() == here[i].key());
    lemma_result(prev, next, t, cfg, r, x, y);
}

/// Two samples that agree in depth and luminance are fully believed.
proof fn lemma_agrees(
    prev: &GBuffer,
    next: &GBuffer,
    t: F32,
    cfg: InterpolateConfig,
    x: u32,
    y: u32,
    px: u32,
    py: u32,
    nx: u32,
    ny: u32,
)
    requires
        older(next, t, x, y) == (center(px), center(py)),
        newer(next, t, x, y) == (center(nx), center(ny)),
        prev.color.contains(center(px), center(py)),
        next.color.contains(center(nx), center(ny)),
        center(px).floor().to_i32() == px,
        center(py).floor().to_i32() == py,
        center(nx).floor().to_i32() == nx,
        center(ny).floor().to_i32() == ny,
        prev.depth.px(px as int, py as int) == next.depth.px(nx as int, ny as int),
        prev.depth.px(px as int, py as int).is_finite(),
        spec_luma(prev.color.sampled(center(px), center(py))).is_finite(),
        alike(
            spec_luma(next.color.sampled(center(nx), center(ny))),
            spec_luma(prev.color.sampled(center(px), center(py))),
        ),
    ensures
        agreement(prev, next, t, cfg, x, y) == F32::one(),
        !rejected(prev, next, t, cfg, x, y),
        trusted(prev, next, t, cfg, x, y) == F32::one(),
{
    let d = prev.depth.px(px as int, py as int);
    let lp = spec_luma(prev.color.sampled(center(px), center(py)));
    let ln = spec_luma(next.color.sampled(center(nx), center(ny)));
    lemma_same_depth(d, cfg.depth_tolerance);
    lemma_order(ln, lp);
    lemma_order(lp, ln);
    lemma_sub_key(ln, lp);
    lemma_rounds_to_itself(F32::zero());
    lemma_order(F32::zero(), F32::zero());
    lemma_no_error((ln - lp).abs(), cfg.photo_tolerance.max(F32::ratio(1, 10000)));
    lemma_mul_one(F32::one());
}

/// A mix of equals is the same again.
proof fn lemma_mix_of_equals(a: F32, b: F32, t: F32)
    requires
        a.is_finite(),
        b.is_finite(),
        a.value() == b.value(),
        in_unit(t),
    ensures
        (a + (b - a) * t).key() == a.key(),
{
    lemma_sub_key(b, a);
    lemma_rounds_to_itself(F32::zero());
    lemma_order(F32::zero(), F32::zero());
    lemma_mul_zero(t, b - a);
    let z = (b - a) * t;
    lemma_add_key(a, z);
    lemma_order(z, F32::zero());
    lemma_rounds_to_itself(a);
}

/// A pixel that is believed comes out of the finished frame as it went in.
proof fn lemma_result(
    prev: &GBuffer,
    next: &GBuffer,
    t: F32,
    cfg: InterpolateConfig,
    r: Interpolated,
    x: u32,
    y: u32,
)
    requires
        comparable(prev, next),
        call_ensures(interpolate_midpoint, (prev, next, t, cfg), r),
        in_unit(t),
        inside(next, x as int, y as int),
        trusted(prev, next, t, cfg, x, y).gt(F32::zero()),
    ensures
        r.color.px(x as int, y as int)@ == blended_or_held(prev, next, t, cfg, x, y),
{
    reveal(F32::spec_clamp);
    let w = next.spec_width() as int;
    let h = next.spec_height() as int;
    let k = y * w + x;
    lemma_place(x as int, y as int, w, h);
    let p = unfilled(prev, next, t, cfg);
    law_filling_keeps_believable_pixels(p, cfg.hole_fill_passes as nat, k);
    let n = (w * h) as nat;
    let done = p.passes(cfg.hole_fill_passes as nat);
    assert(done.color == Seq::new(n, |i: int| r.color.pixels()[i]@));
    assert(done.color[k] == r.color.pixels()[k]@);
    assert(clamped(x as int, w) == x && clamped(y as int, h) == y);
}

/// Whether two depths are further apart than twice a tolerance, as a share of
/// the greater one.
pub open spec fn far_apart(a: F32, b: F32, tolerance: F32) -> bool {
    let (x, y) = in_order(a.value(), b.value());
    &&& are_depths(a, b, tolerance)
    &&& (y - x) * one_unit() >= (2 * tolerance.value() + 2 * slip()) * y
}

/// Whether two depths are no further apart than a tolerance, as a share of the
/// greater one.
pub open spec fn close_by(a: F32, b: F32, tolerance: F32) -> bool {
    let (x, y) = in_order(a.value(), b.value());
    &&& are_depths(a, b, tolerance)
    &&& (y - x) * one_unit() <= (tolerance.value() - 2 * slip()) * y
}

/// Two numbers, the lesser first.
pub open spec fn in_order(a: int, b: int) -> (int, int) {
    if a <= b {
        (a, b)
    } else {
        (b, a)
    }
}

/// Ordinary depths, and a tolerance that means something: depths ahead of the
/// camera, the farther one at least `1/4096` away, and a tolerance from a
/// hundred-thousandth or so up to one half.
pub open spec fn are_depths(a: F32, b: F32, tolerance: F32) -> bool {
    &&& a.is_finite() && b.is_finite() && tolerance.is_finite()
    &&& a.value() > 0 && b.value() > 0
    &&& 4096 * a.value() >= one_unit() || 4096 * b.value() >= one_unit()
    &&& 32 * slip() <= tolerance.value()
    &&& 2 * tolerance.value() <= one_unit()
}

/// Rounding a difference moves it by a small share of itself.
proof fn lemma_gap(a: F32, b: F32)
    requires
        a.is_finite(),
        b.is_finite(),
        0 < a.value() <= b.value(),
    ensures
        (b - a).is_finite(),
        (a - b).is_finite(),
        (a - b).abs().value() == (b - a).abs().value(),
        0 <= (b - a).abs().value() <= b.value(),
        -(b.value()) <= ((b - a).abs().value() - (b.value() - a.value())) * 0x100_0000 <= b.value(),
{
    reveal(F32::spec_sub);
    let f = Format::Single;
    let n = (b.value() - a.value()) as nat;
    assert(a.raw().negated().value(f) == -a.value());
    assert(b.raw().negated().value(f) == -b.value());
    lemma_units_zero(f, 0);
    lemma_order(F32::zero(), b);
    lemma_order(b, b);
    lemma_round_exact(f, b.key() as nat);
    lemma_round_monotone(f, n, 1, units(f, b.key() as nat), 1);
    let g = round_mag(f, n, 1);
    lemma_units_monotone(f, g, b.key() as nat);
    lemma2_to64();
    lemma_round_error(f, n, 1);
    let q = place(f, n, 1);
    if n >= 0x80_0000 {
        assert(q * 0x80_0000 <= n);
    } else {
        lemma_round_at_small(n);
    }
}

/// Small numbers of units are held exactly.
proof fn lemma_round_at_small(n: nat)
    requires
        n < 0x80_0000,
    ensures
        units(Format::Single, round_mag(Format::Single, n, 1)) == n,
{
    lemma2_to64();
    assert(units(Format::Single, n) == n);
    lemma_round_exact(Format::Single, n);
}

/// The relative difference of two depths is their distance as a share of the
/// farther one.
pub proof fn lemma_delta(a: F32, b: F32, tolerance: F32)
    requires
        are_depths(a, b, tolerance),
    ensures
        ({
            let d = relative_depth_delta(a, b);
            let (x, y) = in_order(a.value(), b.value());
            &&& d.is_finite()
            &&& d.value() >= 0
            &&& -2 * (slip() * y) <= d.value() * y - (y - x) * one_unit() <= 2 * (slip() * y)
        }),
        ((a - b).abs() / a.abs().max(b.abs()).max(F32::ratio(1, 10000))).is_finite(),
{
    reveal(F32::spec_min);
    reveal(F32::spec_max);
    let e = slip();
    let u = one_unit();
    lemma_slip();
    lemma_unity(Format::Single);
    let least = F32::ratio(1, 10000);
    lemma_ratio_close(1, 10000);
    lemma_order(a, F32::zero());
    lemma_order(b, F32::zero());
    lemma_order(a, b);
    lemma_order(b, a);
    lemma_order(a, least);
    lemma_order(b, least);
    lemma_order(least, a);
    lemma_order(least, b);
    let (x, y) = in_order(a.value(), b.value());
    let scale = a.abs().max(b.abs()).max(least);
    assert(scale.value() == y && scale.is_finite());
    if a.value() <= b.value() {
        lemma_gap(a, b);
    } else {
        lemma_gap(b, a);
    }
    let gap = (a - b).abs();
    let g = gap.value();
    assert(gap.is_finite());
    lemma_div_close(gap, scale);
    let q = gap / scale;
    assert((g - (y - x)) * u <= e * y && (g - (y - x)) * u >= -(e * y)) by (nonlinear_arith)
        requires
            -y <= (g - (y - x)) * 0x100_0000 <= y,
            u == 0x20_0000 * e,
            e > 0,
    ;
    assert(g * u == (g - (y - x)) * u + (y - x) * u) by (nonlinear_arith);
    // Never more than all of it.
    lemma_order(q, F32::one());
    lemma_order(F32::one(), q);
    lemma_quotient_at_most_one(gap, scale);
}

/// A quotient by what is no less is at most one.
pub proof fn lemma_quotient_at_most_one(a: F32, b: F32)
    requires
        a.is_finite(),
        b.is_finite(),
        0 <= a.value() <= b.value(),
        b.value() > 0,
    ensures
        (a / b).key() <= F32::one().key(),
{
    lemma_order(a, F32::zero());
    lemma_order(F32::zero(), a);
    lemma_order(b, F32::zero());
    lemma_order(F32::zero(), b);
    lemma_order(a, b);
    lemma_div_key(a, b);
    lemma_quotient_small_one(Format::Single, a.key() as nat, b.key() as nat);
}

/// Depths that are far apart are different surfaces, and depths close by are
/// one.
proof fn lemma_surfaces(a: F32, b: F32, tolerance: F32)
    ensures
        far_apart(a, b, tolerance) ==> soft_validity(relative_depth_delta(a, b), tolerance)
            == F32::zero(),
        close_by(a, b, tolerance) ==> soft_validity(relative_depth_delta(a, b), tolerance)
            == F32::one(),
{
    if are_depths(a, b, tolerance) {
        reveal(F32::spec_max);
        let e = slip();
        let u = one_unit();
        let d = relative_depth_delta(a, b);
        let (x, y) = in_order(a.value(), b.value());
        let t = tolerance.value();
        lemma_slip();
        lemma_delta(a, b, tolerance);
        let least = F32::ratio(1, 1000000);
        lemma_ratio_close(1, 1000000);
        lemma_order(tolerance, least);
        lemma_order(least, tolerance);
        assert(tolerance.max(least) == tolerance);
        lemma_order(d, tolerance);
        let twice = F32::two() * tolerance;
        lemma_twice(tolerance);
        lemma_order(twice, d);
        lemma_order(d, twice);
        if far_apart(a, b, tolerance) {
            assert(d.value() >= 2 * t) by (nonlinear_arith)
                requires
                    d.value() * y >= (2 * t + 2 * e) * y - 2 * (e * y),
                    y > 0,
            ;
        }
        if close_by(a, b, tolerance) {
            assert(d.value() <= t) by (nonlinear_arith)
                requires
                    d.value() * y <= (t - 2 * e) * y + 2 * (e * y),
                    y > 0,
            ;
        }
    }
}

/// Twice a number of at most one half.
proof fn lemma_twice(t: F32)
    requires
        t.is_finite(),
        0 < t.value(),
        2 * t.value() <= one_unit(),
    ensures
        (F32::two() * t).is_finite(),
        (F32::two() * t).value() == 2 * t.value(),
{
    let f = Format::Single;
    let v = t.value() as nat;
    lemma_slip();
    lemma2_to64();
    lemma_pow2_pos(149);
    assert(0x4000_0000nat / 0x80_0000nat == 128 && 0x4000_0000nat % 0x80_0000nat == 0);
    lemma_pow2_adds(23, 127);
    lemma_pow2_adds(1, 149);
    assert(units(f, 0x4000_0000) == 2 * pow2(149));
    lemma_order(F32::zero(), t);
    lemma_order(t, t);
    lemma_mul_key(F32::two(), t);
    assert(((2 * pow2(149)) * v) * 1 == (2 * v) * pow2(149)) by (nonlinear_arith);
    lemma_round_same(f, (2 * pow2(149)) * v, pow2(149), 2 * v, 1);
    lemma_unity(f);
    lemma_order(t, F32::one());
    lemma_doubled(t.key() as nat);
}

/// Twice what is held exactly is held exactly.
proof fn lemma_doubled(mag: nat)
    requires
        mag < 0x7f00_0000,
    ensures
        units(
            Format::Single,
            round_mag(Format::Single, 2 * units(Format::Single, mag), 1),
        ) == 2 * units(Format::Single, mag),
        round_mag(Format::Single, 2 * units(Format::Single, mag), 1) < 0x7f80_0000,
{
    let f = Format::Single;
    let h = 0x80_0000nat;
    lemma2_to64();
    let twin: nat = if mag < h {
        2 * mag
    } else {
        mag + h
    };
    assert(units(f, twin) == 2 * units(f, mag)) by {
        if mag < h {
            if twin >= h {
                vstd::arithmetic::div_mod::lemma_fundamental_div_mod_converse(
                    twin as int,
                    h as int,
                    1,
                    twin - h,
                );
                assert(units(f, twin) == (h + twin % h) * pow2(0));
                assert((h + twin % h) * 1 == twin);
            }
        } else {
            vstd::arithmetic::div_mod::lemma_fundamental_div_mod(mag as int, h as int);
            let q = mag / h;
            let r = mag % h;
            vstd::arithmetic::div_mod::lemma_mod_bound(mag as int, h as int);
            assert(h * q == q * h && (q + 1) * h == q * h + h) by (nonlinear_arith);
            vstd::arithmetic::div_mod::lemma_fundamental_div_mod_converse(
                twin as int,
                h as int,
                (q + 1) as int,
                r as int,
            );
            assert(q >= 1) by (nonlinear_arith)
                requires
                    h * q + r == mag,
                    r < h,
                    mag >= h,
            ;
            lemma_pow2_unfold(q);
            assert(units(f, mag) == (h + r) * pow2((q - 1) as nat));
            assert(units(f, twin) == (h + r) * pow2(q));
            assert((h + r) * (2 * pow2((q - 1) as nat)) == 2 * ((h + r) * pow2((q - 1) as nat)))
                by (nonlinear_arith);
        }
    }
    lemma_round_exact(f, twin);
}

/// Another surface is no source: a pixel that moved by whole pixels from a place
/// whose depth is far from the one it has now keeps what it shows, and is not
/// trusted at all. One whose depth is close by is trusted fully.
pub proof fn law_another_surface_is_no_source(
    prev: &GBuffer,
    current: &GBuffer,
    cfg: ReprojectConfig,
    r: Reprojected,
    x: u32,
    y: u32,
    mx: int,
    my: int,
)
    requires
        comparable(prev, current),
        call_ensures(reproject, (prev, current, cfg), r),
        inside(current, x as int, y as int),
        is_whole(current.motion.px(x as int, y as int)@[0], mx),
        is_whole(current.motion.px(x as int, y as int)@[1], my),
        inside(prev, x + mx, y + my),
    ensures
        ({
            let was = prev.depth.px(x + mx, y + my);
            let is = current.depth.px(x as int, y as int);
            &&& far_apart(was, is, cfg.depth_tolerance) ==> {
                &&& r.validity.px(x as int, y as int) == F32::zero()
                &&& r.color.px(x as int, y as int)@ == current.color.px(x as int, y as int)@
            }
            &&& close_by(was, is, cfg.depth_tolerance) ==> r.validity.px(x as int, y as int)
                == F32::one()
        }),
{
    let mv = current.motion.px(x as int, y as int)@;
    let sx = (x + mx) as u32;
    let sy = (y + my) as u32;
    lemma_step(x, mv[0], mx);
    lemma_step(y, mv[1], my);
    assert(source(current, x, y) == (center(sx), center(sy)));
    lemma_center_within(sx, prev.spec_width());
    lemma_center_within(sy, prev.spec_height());
    lemma_surfaces(
        prev.depth.px(x + mx, y + my),
        current.depth.px(x as int, y as int),
        cfg.depth_tolerance,
    );
    assert(r.color.px(x as int, y as int)@ == warped(prev, current, cfg.depth_tolerance, x, y));
}

/// How many of the first `k` pixels of a mask are not trusted at all.
pub open spec fn untrusted(mask: Seq<F32>, k: nat) -> nat
    decreases k,
{
    if k == 0 {
        0
    } else {
        untrusted(mask, (k - 1) as nat) + if mask[k - 1].le(F32::zero()) {
            1nat
        } else {
            0nat
        }
    }
}

/// What is reported as lost is what is not trusted: the share of the pixels
/// whose confidence is nothing.
pub proof fn law_the_report_counts_what_is_not_trusted(
    prev: &GBuffer,
    current: &GBuffer,
    cfg: ReprojectConfig,
    r: Reprojected,
)
    requires
        comparable(prev, current),
        call_ensures(reproject, (prev, current, cfg), r),
    ensures
        ({
            let n = (current.spec_width() * current.spec_height()) as nat;
            r.disocclusion == F32::from_u32(untrusted(r.validity.pixels(), n) as u32)
                / F32::from_u32(n as u32)
        }),
{
    lemma_untrusted(
        prev,
        current,
        cfg,
        r,
        (current.spec_width() * current.spec_height()) as nat,
    );
}

proof fn lemma_untrusted(
    prev: &GBuffer,
    current: &GBuffer,
    cfg: ReprojectConfig,
    r: Reprojected,
    k: nat,
)
    requires
        comparable(prev, current),
        call_ensures(reproject, (prev, current, cfg), r),
        k <= current.spec_width() * current.spec_height(),
    ensures
        untrusted(r.validity.pixels(), k) == disoccluded_below(
            prev,
            current,
            cfg.depth_tolerance,
            k,
        ),
    decreases k,
{
    if k > 0 {
        lemma_untrusted(prev, current, cfg, r, (k - 1) as nat);
        current.color.lemma_wf();
        let w = current.spec_width() as int;
        let h = current.spec_height() as int;
        lemma_coordinates(k - 1, w, h);
        let x = ((k - 1) % w) as u32;
        let y = ((k - 1) / w) as u32;
        assert(r.color.px(x as int, y as int)@ == warped(prev, current, cfg.depth_tolerance, x, y));
        assert(r.validity.px(x as int, y as int) == validity_at(
            prev,
            current,
            cfg.depth_tolerance,
            x,
            y,
        ));
        assert(r.validity.px(x as int, y as int) == r.validity.pixels()[k - 1]);
    }
}

/// Ten thousand times the luminance of a color: its red, green and blue, with
/// the weights of Rec. 709.
pub open spec fn weighed(c: Seq<F32>) -> int {
    2126 * c[0].value() + 7152 * c[1].value() + 722 * c[2].value()
}

/// A channel's share of the luminance.
proof fn lemma_luma_share(w: u32, c: F32)
    requires
        w <= 10000,
        c.is_finite(),
        0 <= c.value() <= one_unit(),
    ensures
        ({
            let p = F32::ratio(w, 10000) * c;
            &&& p.is_finite()
            &&& -2 * slip() <= p.value() <= one_unit() + 2 * slip()
            &&& -(20000 * slip()) <= 10000 * p.value() - w * c.value() <= 20000 * slip()
        }),
{
    let e = slip();
    let u = one_unit();
    let r = F32::ratio(w, 10000);
    let x = r.value();
    let y = c.value();
    lemma_slip();
    lemma_ratio_close(w, 10000);
    assert(x * 10000 <= w * u + e * 10000 && x * 10000 >= w * u - e * 10000);
    assert(w * u <= 10000 * u) by (nonlinear_arith)
        requires
            w <= 10000,
            u > 0,
    ;
    assert(0 <= x * y <= 8 * u * u) by (nonlinear_arith)
        requires
            0 <= x <= 2 * u,
            0 <= y <= u,
    ;
    lemma_mul_close(r, c);
    let p = (r * c).value();
    assert(-(20000 * e) <= 10000 * p - w * y <= 20000 * e) by (nonlinear_arith)
        requires
            -e * u <= p * u - x * y <= e * u,
            w * u - e * 10000 <= x * 10000 <= w * u + e * 10000,
            0 <= y <= u,
            u > 0,
            e > 0,
    {
        assert((x * 10000) * y <= (w * u + e * 10000) * y);
        assert((x * 10000) * y >= (w * u - e * 10000) * y);
        assert((w * u) * y == (w * y) * u);
        assert((e * 10000) * y <= (e * 10000) * u);
        assert((x * 10000) * y == 10000 * (x * y));
        assert((10000 * p - w * y) * u <= (20000 * e) * u);
        assert((10000 * p - w * y) * u >= -((20000 * e) * u));
    }
    assert(0 <= w * y <= 10000 * u) by (nonlinear_arith)
        requires
            0 <= w <= 10000,
            0 <= y <= u,
    ;
}

/// Luminance is red, green and blue by the weights of Rec. 709, for every color
/// in `0..=1`, but for a few millionths of rounding.
pub proof fn law_luminance_is_rec_709(c: Seq<F32>)
    requires
        in_unit(c[0]),
        in_unit(c[1]),
        in_unit(c[2]),
    ensures
        spec_luma(c).is_finite(),
        -(80000 * slip()) <= 10000 * spec_luma(c).value() - weighed(c) <= 80000 * slip(),
{
    lemma_slip();
    lemma_unit_value(c[0]);
    lemma_unit_value(c[1]);
    lemma_unit_value(c[2]);
    lemma_luma_share(2126, c[0]);
    lemma_luma_share(7152, c[1]);
    lemma_luma_share(722, c[2]);
    let r = F32::ratio(2126, 10000) * c[0];
    let g = F32::ratio(7152, 10000) * c[1];
    let b = F32::ratio(722, 10000) * c[2];
    lemma_add_close(r, g);
    lemma_add_close(r + g, b);
}

/// Whether two colors differ in luminance by at least twice a tolerance.
pub open spec fn unlike(a: Seq<F32>, b: Seq<F32>, tolerance: F32) -> bool {
    let (x, y) = in_order(weighed(a), weighed(b));
    &&& is_tolerance(tolerance)
    &&& y - x >= 10000 * (2 * tolerance.value() + 18 * slip())
}

/// Whether two colors differ in luminance by no more than a tolerance.
pub open spec fn matching(a: Seq<F32>, b: Seq<F32>, tolerance: F32) -> bool {
    let (x, y) = in_order(weighed(a), weighed(b));
    &&& is_tolerance(tolerance)
    &&& y - x <= 10000 * (tolerance.value() - 18 * slip())
}

/// A tolerance that means something: from about a ten-thousandth up to one half.
pub open spec fn is_tolerance(tolerance: F32) -> bool {
    &&& tolerance.is_finite()
    &&& 256 * slip() <= tolerance.value()
    &&& 2 * tolerance.value() <= one_unit()
}

/// Luminances of colors in `0..=1` that differ, or do not.
proof fn lemma_luminances(a: Seq<F32>, b: Seq<F32>, tolerance: F32)
    requires
        forall|c: int| 0 <= c < 3 ==> in_unit(#[trigger] a[c]) && in_unit(b[c]),
    ensures
        ({
            let v = soft_validity(
                (spec_luma(b) - spec_luma(a)).abs(),
                tolerance.max(F32::ratio(1, 10000)),
            );
            &&& unlike(a, b, tolerance) ==> v == F32::zero()
            &&& matching(a, b, tolerance) ==> v == F32::one()
        }),
{
    if is_tolerance(tolerance) {
        reveal(F32::spec_max);
        let e = slip();
        let t = tolerance.value();
        assert(in_unit(a[0]) && in_unit(a[1]) && in_unit(a[2]));
        lemma_slip();
        law_luminance_is_rec_709(a);
        law_luminance_is_rec_709(b);
        lemma_unit_value(a[0]);
        lemma_unit_value(a[1]);
        lemma_unit_value(a[2]);
        lemma_unit_value(b[0]);
        lemma_unit_value(b[1]);
        lemma_unit_value(b[2]);
        let la = spec_luma(a);
        let lb = spec_luma(b);
        lemma_sub_close(lb, la);
        let d = lb - la;
        let gap = d.abs();
        lemma_order(d, F32::zero());
        assert(gap.is_finite());
        lemma_ratio_close(1, 10000);
        lemma_ratio_close(1, 1000000);
        let least = F32::ratio(1, 10000);
        let least2 = F32::ratio(1, 1000000);
        lemma_order(tolerance, least);
        lemma_order(tolerance, least2);
        assert(tolerance.max(least) == tolerance);
        assert(tolerance.max(least2) == tolerance);
        lemma_twice(tolerance);
        let twice = F32::two() * tolerance;
        lemma_order(gap, tolerance);
        lemma_order(twice, gap);
        assert(gap.value() == if d.value() < 0 { -d.value() } else { d.value() });
    }
}

/// Frames in `0..=1` of one size.
pub open spec fn both_displayable(prev: &GBuffer, next: &GBuffer) -> bool {
    comparable(prev, next) && displayable(&prev.color) && displayable(&next.color)
}

/// What an output pixel sees of two frames, where the motion is whole.
proof fn lemma_sees(
    prev: &GBuffer,
    next: &GBuffer,
    t: F32,
    cfg: InterpolateConfig,
    j: int,
    k: nat,
    x: u32,
    y: u32,
    ex: int,
    ey: int,
)
    requires
        both_displayable(prev, next),
        is_part(t, j, k),
        inside(next, x as int, y as int),
        is_whole(next.motion.px(x as int, y as int)@[0], -ex * pow2(k)),
        is_whole(next.motion.px(x as int, y as int)@[1], -ey * pow2(k)),
        inside(prev, x - j * ex, y - j * ey),
        inside(next, x + (pow2(k) - j) * ex, y + (pow2(k) - j) * ey),
    ensures
        ({
            let (px, py) = ((x - j * ex) as u32, (y - j * ey) as u32);
            let (nx, ny) = ((x + (pow2(k) - j) * ex) as u32, (y + (pow2(k) - j) * ey) as u32);
            let a = prev.color.sampled(center(px), center(py));
            let b = next.color.sampled(center(nx), center(ny));
            &&& older(next, t, x, y) == (center(px), center(py))
            &&& newer(next, t, x, y) == (center(nx), center(ny))
            &&& agreement(prev, next, t, cfg, x, y) == soft_validity(
                relative_depth_delta(
                    next.depth.px(nx as int, ny as int),
                    prev.depth.px(px as int, py as int),
                ),
                cfg.depth_tolerance,
            ) * soft_validity(
                (spec_luma(b) - spec_luma(a)).abs(),
                cfg.photo_tolerance.max(F32::ratio(1, 10000)),
            )
            &&& forall|c: int|
                #![trigger a[c]]
                #![trigger b[c]]
                0 <= c < 4 ==> same_number(a[c], prev.color.px(px as int, py as int)@[c])
                    && same_number(b[c], next.color.px(nx as int, ny as int)@[c]) && in_unit(a[c])
                    && in_unit(b[c])
        }),
{
    let (px, py) = ((x - j * ex) as u32, (y - j * ey) as u32);
    let (nx, ny) = ((x + (pow2(k) - j) * ex) as u32, (y + (pow2(k) - j) * ey) as u32);
    lemma_looks(next, t, j, k, x, y, ex, ey);
    lemma_reads(prev, px, py);
    lemma_reads(next, nx, ny);
    let a = prev.color.sampled(center(px), center(py));
    let b = next.color.sampled(center(nx), center(ny));
    assert forall|c: int|
        #![trigger a[c]]
        #![trigger b[c]]
        0 <= c < 4 implies same_number(a[c], prev.color.px(px as int, py as int)@[c])
        && same_number(b[c], next.color.px(nx as int, ny as int)@[c]) && in_unit(a[c]) && in_unit(
        b[c],
    ) by {
        lemma_displayable_pixel(&prev.color, px as int, py as int, c);
        lemma_displayable_pixel(&next.color, nx as int, ny as int, c);
    }
}

/// Samples that disagree are dropped. Where the two ends of a motion differ in
/// depth, as across a silhouette, or in luminance, nothing is generated: the
/// pixel is held from the frame that is nearer in time.
pub proof fn law_samples_that_disagree_are_dropped(
    prev: &GBuffer,
    next: &GBuffer,
    t: F32,
    cfg: InterpolateConfig,
    r: Interpolated,
    j: int,
    k: nat,
    x: u32,
    y: u32,
    ex: int,
    ey: int,
)
    requires
        both_displayable(prev, next),
        call_ensures(interpolate_midpoint, (prev, next, t, cfg), r),
        is_part(t, j, k),
        inside(next, x as int, y as int),
        is_whole(next.motion.px(x as int, y as int)@[0], -ex * pow2(k)),
        is_whole(next.motion.px(x as int, y as int)@[1], -ey * pow2(k)),
        inside(prev, x - j * ex, y - j * ey),
        inside(next, x + (pow2(k) - j) * ex, y + (pow2(k) - j) * ey),
        ({
            let (px, py) = (x - j * ex, y - j * ey);
            let (nx, ny) = (x + (pow2(k) - j) * ex, y + (pow2(k) - j) * ey);
            ||| far_apart(next.depth.px(nx, ny), prev.depth.px(px, py), cfg.depth_tolerance)
            ||| unlike(prev.color.px(px, py)@, next.color.px(nx, ny)@, cfg.photo_tolerance)
        }),
    ensures
        rejected(prev, next, t, cfg, x, y),
        cfg.hole_fill_passes == 0 ==> r.color.px(x as int, y as int)@ == if 2 * j < pow2(k) {
            prev.color.px(x as int, y as int)@
        } else {
            next.color.px(x as int, y as int)@
        },
{
    let (px, py) = ((x - j * ex) as u32, (y - j * ey) as u32);
    let (nx, ny) = ((x + (pow2(k) - j) * ex) as u32, (y + (pow2(k) - j) * ey) as u32);
    let a = prev.color.sampled(center(px), center(py));
    let b = next.color.sampled(center(nx), center(ny));
    let was = prev.depth.px(px as int, py as int);
    let is = next.depth.px(nx as int, ny as int);
    lemma_rest(t, j, k);
    lemma_sees(prev, next, t, cfg, j, k, x, y, ex, ey);
    assert forall|c: int| 0 <= c < 3 implies in_unit(#[trigger] a[c]) && in_unit(b[c]) by {}
    assert(weighed(a) == weighed(prev.color.px(px as int, py as int)@)) by {
        assert(same_number(a[0], prev.color.px(px as int, py as int)@[0]));
        assert(same_number(a[1], prev.color.px(px as int, py as int)@[1]));
        assert(same_number(a[2], prev.color.px(px as int, py as int)@[2]));
    }
    assert(weighed(b) == weighed(next.color.px(nx as int, ny as int)@)) by {
        assert(same_number(b[0], next.color.px(nx as int, ny as int)@[0]));
        assert(same_number(b[1], next.color.px(nx as int, ny as int)@[1]));
        assert(same_number(b[2], next.color.px(nx as int, ny as int)@[2]));
    }
    lemma_surfaces(is, was, cfg.depth_tolerance);
    lemma_luminances(a, b, cfg.photo_tolerance);
    let d = soft_validity(relative_depth_delta(is, was), cfg.depth_tolerance);
    let l = soft_validity(
        (spec_luma(b) - spec_luma(a)).abs(),
        cfg.photo_tolerance.max(F32::ratio(1, 10000)),
    );
    law_depth_delta_is_a_fraction(is, was);
    law_validity_is_a_fraction(relative_depth_delta(is, was), cfg.depth_tolerance);
    lemma_luma_gap(a, b);
    law_validity_is_a_fraction(
        (spec_luma(b) - spec_luma(a)).abs(),
        cfg.photo_tolerance.max(F32::ratio(1, 10000)),
    );
    if d == F32::zero() {
        lemma_mul_zero(l, d);
    } else {
        lemma_mul_zero(d, l);
    }
    // Which end is nearer.
    lemma_nearer_end(t, j, k);
    if cfg.hole_fill_passes == 0 {
        reveal(F32::spec_clamp);
        let w = next.spec_width() as int;
        let h = next.spec_height() as int;
        lemma_place(x as int, y as int, w, h);
        let p = unfilled(prev, next, t, cfg);
        let at = y * w + x;
        assert(p.passes(0).color == Seq::new((w * h) as nat, |n: int| r.color.pixels()[n]@));
        assert(p.color[at] == r.color.pixels()[at]@);
    }
}

/// The difference of two luminances is a number.
proof fn lemma_luma_gap(a: Seq<F32>, b: Seq<F32>)
    requires
        forall|c: int| 0 <= c < 3 ==> in_unit(#[trigger] a[c]) && in_unit(b[c]),
    ensures
        (spec_luma(b) - spec_luma(a)).is_finite(),
{
    assert(in_unit(a[0]) && in_unit(a[1]) && in_unit(a[2]));
    lemma_slip();
    law_luminance_is_rec_709(a);
    law_luminance_is_rec_709(b);
    lemma_unit_value(a[0]);
    lemma_unit_value(a[1]);
    lemma_unit_value(a[2]);
    lemma_unit_value(b[0]);
    lemma_unit_value(b[1]);
    lemma_unit_value(b[2]);
    lemma_sub_close(spec_luma(b), spec_luma(a));
}

/// Whether a time lies before the middle of the interval.
proof fn lemma_nearer_end(t: F32, j: int, k: nat)
    requires
        is_part(t, j, k),
    ensures
        t.lt(F32::half()) <==> 2 * j < pow2(k),
{
    let p = pow2((149 - k) as nat);
    lemma_half_value();
    lemma_pow2_adds(k, (149 - k) as nat);
    lemma_pow2_pos((149 - k) as nat);
    lemma_order(F32::half(), t);
    lemma_order(t, F32::half());
    let q = pow2(k);
    assert((j * p) * 2 < q * p <==> 2 * j < q) by (nonlinear_arith)
        requires
            p > 0,
    ;
}

/// Samples that agree are mixed by time: between the two ends of a whole motion
/// that match in depth and luminance, every channel is the older sample's and
/// the newer one's in proportion to how near each is, but for a few millionths of
/// rounding.
pub proof fn law_samples_that_agree_are_mixed_by_time(
    prev: &GBuffer,
    next: &GBuffer,
    t: F32,
    cfg: InterpolateConfig,
    r: Interpolated,
    j: int,
    k: nat,
    x: u32,
    y: u32,
    ex: int,
    ey: int,
    i: int,
)
    requires
        both_displayable(prev, next),
        call_ensures(interpolate_midpoint, (prev, next, t, cfg), r),
        is_part(t, j, k),
        inside(next, x as int, y as int),
        is_whole(next.motion.px(x as int, y as int)@[0], -ex * pow2(k)),
        is_whole(next.motion.px(x as int, y as int)@[1], -ey * pow2(k)),
        inside(prev, x - j * ex, y - j * ey),
        inside(next, x + (pow2(k) - j) * ex, y + (pow2(k) - j) * ey),
        ({
            let (px, py) = (x - j * ex, y - j * ey);
            let (nx, ny) = (x + (pow2(k) - j) * ex, y + (pow2(k) - j) * ey);
            &&& close_by(next.depth.px(nx, ny), prev.depth.px(px, py), cfg.depth_tolerance)
            &&& matching(prev.color.px(px, py)@, next.color.px(nx, ny)@, cfg.photo_tolerance)
        }),
        0 <= i < 4,
    ensures
        ({
            let a = prev.color.px(x - j * ex, y - j * ey)@[i].value();
            let b = next.color.px(x + (pow2(k) - j) * ex, y + (pow2(k) - j) * ey)@[i].value();
            let v = r.color.px(x as int, y as int)@[i].value();
            -(4 * slip()) * pow2(k) <= v * pow2(k) - ((pow2(k) - j) * a + j * b) <= (4 * slip())
                * pow2(k)
        }),
{
    let (px, py) = ((x - j * ex) as u32, (y - j * ey) as u32);
    let (nx, ny) = ((x + (pow2(k) - j) * ex) as u32, (y + (pow2(k) - j) * ey) as u32);
    let a = prev.color.sampled(center(px), center(py));
    let b = next.color.sampled(center(nx), center(ny));
    let was = prev.depth.px(px as int, py as int);
    let is = next.depth.px(nx as int, ny as int);
    lemma_rest(t, j, k);
    lemma_sees(prev, next, t, cfg, j, k, x, y, ex, ey);
    assert forall|c: int| 0 <= c < 3 implies in_unit(#[trigger] a[c]) && in_unit(b[c]) by {}
    assert(weighed(a) == weighed(prev.color.px(px as int, py as int)@)) by {
        assert(same_number(a[0], prev.color.px(px as int, py as int)@[0]));
        assert(same_number(a[1], prev.color.px(px as int, py as int)@[1]));
        assert(same_number(a[2], prev.color.px(px as int, py as int)@[2]));
    }
    assert(weighed(b) == weighed(next.color.px(nx as int, ny as int)@)) by {
        assert(same_number(b[0], next.color.px(nx as int, ny as int)@[0]));
        assert(same_number(b[1], next.color.px(nx as int, ny as int)@[1]));
        assert(same_number(b[2], next.color.px(nx as int, ny as int)@[2]));
    }
    lemma_surfaces(is, was, cfg.depth_tolerance);
    lemma_luminances(a, b, cfg.photo_tolerance);
    lemma_mul_one(F32::one());
    assert(agreement(prev, next, t, cfg, x, y) == F32::one());
    lemma_result(prev, next, t, cfg, r, x, y);
    assert(same_number(a[i], prev.color.px(px as int, py as int)@[i]));
    assert(same_number(b[i], next.color.px(nx as int, ny as int)@[i]));
    lemma_linear(a[i], b[i], t, j, k);
    assert(mixed(a, b, t)[i] == a[i] + (b[i] - a[i]) * t);
}

/// A mix of two numbers in `0..=1` is linear in time.
proof fn lemma_linear(a: F32, b: F32, t: F32, j: int, k: nat)
    requires
        in_unit(a),
        in_unit(b),
        is_part(t, j, k),
        in_unit(t),
    ensures
        ({
            let v = (a + (b - a) * t).value();
            let q = pow2(k);
            -(4 * slip()) * q <= v * q - ((q - j) * a.value() + j * b.value()) <= (4 * slip()) * q
        }),
{
    let e = slip();
    let u = one_unit();
    let q = pow2(k);
    let p = pow2((149 - k) as nat);
    lemma_slip();
    lemma_pow2_pos(k);
    lemma_pow2_adds(k, (149 - k) as nat);
    lemma_unit_value(a);
    lemma_unit_value(b);
    lemma_unit_value(t);
    let d = b - a;
    lemma_sub_close(b, a);
    let dv = d.value();
    let tv = t.value();
    assert(-(8 * u * u) <= dv * tv <= 8 * u * u) by (nonlinear_arith)
        requires
            -2 * u <= dv <= 2 * u,
            0 <= tv <= u,
    ;
    lemma_mul_close(d, t);
    let m = (d * t).value();
    assert(-3 * u <= m <= 3 * u) by (nonlinear_arith)
        requires
            -e * u <= m * u - dv * tv <= e * u,
            -2 * u <= dv <= 2 * u,
            0 <= tv <= u,
            u > 0,
            0 < e <= u,
    {
        assert(dv * tv <= 2 * u * u && dv * tv >= -(2 * u * u));
        if m > 3 * u {
            assert(m * u > 3 * u * u);
        }
        if m < -3 * u {
            assert(m * u < -3 * u * u);
        }
    }
    lemma_add_close(a, d * t);
    let v = (a + d * t).value();
    // In parts of the interval: m q = d j, but for rounding.
    assert(dv * tv == (dv * j) * p && u == q * p) by (nonlinear_arith)
        requires
            tv == j * p,
            u == q * p,
    ;
    lemma_pow2_pos((149 - k) as nat);
    assert(-(e * q) <= m * q - dv * j <= e * q) by (nonlinear_arith)
        requires
            -e * u <= m * u - (dv * j) * p <= e * u,
            u == q * p,
            p > 0,
    {
        assert(m * u == (m * q) * p && e * u == (e * q) * p);
        assert((m * q - dv * j) * p == m * u - (dv * j) * p);
    }
    assert(-(e * q) <= (dv - (b.value() - a.value())) * j <= e * q) by (nonlinear_arith)
        requires
            -e <= dv - (b.value() - a.value()) <= e,
            0 <= j <= q,
            e > 0,
    ;
    assert(-(e * q) <= (v - (a.value() + m)) * q <= e * q) by (nonlinear_arith)
        requires
            -e <= v - (a.value() + m) <= e,
            q > 0,
    ;
    let x = a.value();
    let y = b.value();
    assert((v - (x + m)) * q == v * q - x * q - m * q) by (nonlinear_arith);
    assert((dv - (y - x)) * j == dv * j - y * j + x * j) by (nonlinear_arith);
    assert((q - j) * x + j * y == x * q - x * j + y * j) by (nonlinear_arith);
    assert((4 * e) * q == 4 * (e * q)) by (nonlinear_arith);
    assert(-(4 * e) * q == -(4 * (e * q))) by (nonlinear_arith);
}

} // verus!
