//! Evidence: what a pair of frames is measured as, in terms of its pixels.

use crate::fp::errors::{
    lemma_add_close, lemma_div_close, lemma_mul_close, lemma_ratio_close, lemma_round_error,
    lemma_rounded_units, lemma_slip, lemma_sub_close, one_unit, place, places, size, slip,
};
use crate::fp::facts::{
    lemma_add_key, lemma_div_key, lemma_double_div, lemma_exact, lemma_from_small, lemma_mul_key,
    lemma_mul_unit, lemma_order, lemma_round_same, lemma_round_upper, lemma_rounded_sum_monotone,
    lemma_rounds_to_itself, lemma_unity, lemma_widened,
};
use crate::fp::model::{
    lemma_isqrt_unique, lemma_pow2_le, lemma_quotient, lemma_root_scale_unique, lemma_round_exact,
    lemma_round_monotone, lemma_scale, root_mag, round_mag, scale, units, Format,
};
use crate::fp::raw::lemma_units_zero;
use crate::fp::round::lemma_round_zero;
use crate::fp::{F32, F64};
use crate::frame::{DepthBuffer, GBuffer, ImageBuffer, Texel};
use crate::laws::filling::lemma_coordinates;
use crate::laws::measuring::{
    lemma_count, lemma_explained, lemma_nothing, lemma_nothing_more, lemma_scaled_nothing,
    lemma_share_of_nothing,
};
use crate::laws::motion::{
    comparable, in_order, inside, is_whole, law_luminance_is_rec_709, lemma_delta,
    lemma_quotient_at_most_one, lemma_step, lemma_whole_product, weighed,
};
use crate::laws::sampling::{
    alike, center, displayable, lane_is_finite, law_sampling_a_pixel_center_is_exact,
    lemma_alike_luma, lemma_displayable_pixel, lemma_pixel_is_finite,
};
use crate::laws::sharpening::{lemma_four_value, lemma_unit_value};
use crate::recon::relative_depth_delta;
use crate::signals::{
    measure_pair, pair_totals, spec_depth_step, spec_discontinuous, spec_luma, unexplained,
    with_pixel, PairTotals, Signals,
};
use vstd::arithmetic::power2::{
    lemma2_to64, lemma2_to64_rest, lemma_pow2_adds, lemma_pow2_pos, pow2,
};
use vstd::prelude::*;

verus! {

/// How many of the first `k` places of a frame, row by row, are as described.
pub open spec fn count_where(is: spec_fn(int, int) -> bool, w: int, k: nat) -> nat
    decreases k,
{
    if k == 0 {
        0
    } else {
        let before = count_where(is, w, (k - 1) as nat);
        if is((k - 1) % w, (k - 1) / w) {
            before + 1
        } else {
            before
        }
    }
}

/// Whether every depth of a frame is an ordinary one: finite, and at least
/// `1/4096` ahead of the camera.
pub open spec fn ordinary(depth: &DepthBuffer) -> bool {
    forall|x: int, y: int|
        (#[trigger] depth.px(x, y)).is_finite() && 4096 * depth.px(x, y).value() >= one_unit()
}

/// Whether two depths differ by more than a tenth of the farther one.
pub open spec fn jumps(a: F32, b: F32) -> bool {
    let (x, y) = in_order(a.value(), b.value());
    10 * ((y - x) * one_unit()) >= (one_unit() + 40 * slip()) * y
}

/// Whether two depths differ by less than a tenth of the farther one.
pub open spec fn level(a: F32, b: F32) -> bool {
    let (x, y) = in_order(a.value(), b.value());
    10 * ((y - x) * one_unit()) <= (one_unit() - 40 * slip()) * y
}

/// Whether the depth jumps to the right of a place, or below it.
pub open spec fn on_an_edge(depth: &DepthBuffer, x: int, y: int) -> bool {
    jumps(depth.px(x, y), depth.px(x + 1, y)) || jumps(depth.px(x, y), depth.px(x, y + 1))
}

/// Whether the depth jumps neither to the right of a place nor below it.
pub open spec fn on_a_surface(depth: &DepthBuffer, x: int, y: int) -> bool {
    level(depth.px(x, y), depth.px(x + 1, y)) && level(depth.px(x, y), depth.px(x, y + 1))
}

/// What is told of two depths.
proof fn lemma_told(a: F32, b: F32)
    requires
        a.is_finite(),
        b.is_finite(),
        4096 * a.value() >= one_unit(),
        4096 * b.value() >= one_unit(),
    ensures
        jumps(a, b) ==> spec_depth_step(a, b).gt(F32::ratio(1, 10)),
        level(a, b) ==> !spec_depth_step(a, b).gt(F32::ratio(1, 10)),
{
    reveal(F32::spec_min);
    reveal(F32::spec_max);
    let e = slip();
    let u = one_unit();
    let tenth = F32::ratio(1, 10);
    lemma_slip();
    lemma_ratio_close(1, 10);
    lemma_delta(a, b, tenth);
    let d = relative_depth_delta(a, b);
    let s = spec_depth_step(a, b);
    assert(d == s.min(F32::one()));
    let (x, y) = in_order(a.value(), b.value());
    let v = d.value();
    if jumps(a, b) {
        assert(10 * v >= u + 20 * e) by (nonlinear_arith)
            requires
                v * y >= (y - x) * u - 2 * (e * y),
                10 * ((y - x) * u) >= (u + 40 * e) * y,
                y > 0,
        {
            assert((10 * v) * y >= (u + 20 * e) * y);
        }
        lemma_order(d, tenth);
        lemma_order(tenth, d);
    }
    if level(a, b) {
        assert(10 * v <= u - 20 * e) by (nonlinear_arith)
            requires
                v * y <= (y - x) * u + 2 * (e * y),
                10 * ((y - x) * u) <= (u - 40 * e) * y,
                y > 0,
        {
            assert((10 * v) * y <= (u - 20 * e) * y);
        }
        lemma_order(d, tenth);
        lemma_order(tenth, d);
        lemma_unity(Format::Single);
        lemma_order(d, F32::one());
        lemma_order(F32::one(), d);
        assert(d.key() < F32::one().key());
        assert(s == d || s.key() == d.key() || s.is_nan());
    }
}

/// The jumps that were counted lie between those that are surely some and those
/// that may be.
proof fn lemma_counted(prev: &GBuffer, next: &GBuffer, k: nat)
    requires
        next.wf(),
        ordinary(&next.depth),
        k <= next.spec_width() * next.spec_height() <= u32::MAX,
    ensures
        ({
            let w = next.spec_width() as int;
            let sure = count_where(|x: int, y: int| on_an_edge(&next.depth, x, y), w, k);
            let none = count_where(|x: int, y: int| on_a_surface(&next.depth, x, y), w, k);
            sure <= pair_totals(prev, next, k).discontinuities <= k - none
        }),
    decreases k,
{
    if k > 0 {
        let w = next.spec_width() as int;
        let h = next.spec_height() as int;
        lemma_counted(prev, next, (k - 1) as nat);
        next.color.lemma_wf();
        lemma_coordinates(k - 1, w, h);
        let x = (k - 1) % w;
        let y = (k - 1) / w;
        let here = next.depth.px(x, y);
        lemma_told(here, next.depth.px(x + 1, y));
        lemma_told(here, next.depth.px(x, y + 1));
        let edge = |x: int, y: int| on_an_edge(&next.depth, x, y);
        let surface = |x: int, y: int| on_a_surface(&next.depth, x, y);
        assert(count_where(edge, w, k) == count_where(edge, w, (k - 1) as nat) + if on_an_edge(
            &next.depth,
            x,
            y,
        ) {
            1nat
        } else {
            0nat
        });
        assert(count_where(surface, w, k) == count_where(surface, w, (k - 1) as nat)
            + if on_a_surface(&next.depth, x, y) {
            1nat
        } else {
            0nat
        });
        assert(spec_discontinuous(&next.depth, x as u32 as int, y as u32 as int)
            == spec_discontinuous(&next.depth, x, y));
    }
}

/// Depth complexity is the share of pixels at which the depth jumps, by more than
/// a tenth of the farther depth, to the right or down.
pub proof fn law_depth_jumps_are_counted(
    prev: &GBuffer,
    next: &GBuffer,
    reference_speed: F32,
    s: Signals,
)
    requires
        comparable(prev, next),
        ordinary(&next.depth),
        next.spec_width() * next.spec_height() < 0x100_0000,
        call_ensures(measure_pair, (prev, next, reference_speed), s),
    ensures
        ({
            let w = next.spec_width() as int;
            let n = w * next.spec_height();
            let sure = count_where(|x: int, y: int| on_an_edge(&next.depth, x, y), w, n as nat);
            let none = count_where(|x: int, y: int| on_a_surface(&next.depth, x, y), w, n as nat);
            let v = s.depth_complexity.value();
            &&& s.depth_complexity.is_finite()
            &&& sure * one_unit() - slip() * n <= v * n <= (n - none) * one_unit() + slip() * n
        }),
{
    reveal(F32::spec_clamp);
    let w = next.spec_width() as int;
    let h = next.spec_height() as int;
    let n = w * h;
    let u = one_unit();
    next.color.lemma_wf();
    lemma_slip();
    assert(n > 0) by (nonlinear_arith)
        requires
            w > 0,
            h > 0,
            n == w * h,
    ;
    lemma_counted(prev, next, n as nat);
    let t = pair_totals(prev, next, n as nat);
    let c = t.discontinuities;
    let a = F32::from_u32(c);
    let b = F32::from_u32(n as u32);
    lemma_from_small(c);
    lemma_from_small(n as u32);
    lemma_order(a, b);
    lemma_order(b, a);
    lemma_order(b, F32::zero());
    lemma_order(F32::zero(), a);
    lemma_pow2_pos(149);
    assert(0 <= c * u <= n * u && n * u > 0) by (nonlinear_arith)
        requires
            0 <= c <= n,
            n > 0,
            u > 0,
    ;
    lemma_div_close(a, b);
    lemma_quotient_at_most_one(a, b);
    let q = a / b;
    lemma_order(F32::zero(), q);
    lemma_unity(Format::Single);
    assert(s.depth_complexity.key() == q.key());
    lemma_order(s.depth_complexity, q);
    lemma_order(q, s.depth_complexity);
    let v = q.value();
    let e = slip();
    assert(size(v * n - c * u) <= e * n) by (nonlinear_arith)
        requires
            size(v * (n * u) - (c * u) * u) <= e * (n * u),
            u > 0,
    {
        assert(v * (n * u) - (c * u) * u == (v * n - c * u) * u);
        assert(e * (n * u) == (e * n) * u);
    }
    let sure = count_where(|x: int, y: int| on_an_edge(&next.depth, x, y), w, n as nat);
    let none = count_where(|x: int, y: int| on_a_surface(&next.depth, x, y), w, n as nat);
    assert(sure * u <= c * u <= (n - none) * u) by (nonlinear_arith)
        requires
            sure <= c <= n - none,
            u > 0,
    ;
}

/// Whether a pixel is where a whole motion took it, with the color it had.
pub open spec fn explained(prev: &GBuffer, next: &GBuffer, x: int, y: int) -> bool {
    exists|mx: int, my: int|
        {
            &&& #[trigger] is_whole(next.motion.px(x, y)@[0], mx)
            &&& #[trigger] is_whole(next.motion.px(x, y)@[1], my)
            &&& inside(prev, x + mx, y + my)
            &&& next.color.px(x, y)@ == prev.color.px(x + mx, y + my)@
        }
}

/// A pixel that its motion explains adds nothing to the residual.
proof fn lemma_explained_pixel(t: PairTotals, prev: &GBuffer, next: &GBuffer, x: u32, y: u32)
    requires
        comparable(prev, next),
        inside(next, x as int, y as int),
        explained(prev, next, x as int, y as int),
        spec_luma(next.color.px(x as int, y as int)@).is_finite(),
        t.residual.key() == 0,
    ensures
        with_pixel(t, prev, next, x, y).residual.key() == 0,
{
    let here = next.color.px(x as int, y as int)@;
    let mv = next.motion.px(x as int, y as int)@;
    let (mx, my) = choose|mx: int, my: int|
        {
            &&& #[trigger] is_whole(mv[0], mx)
            &&& #[trigger] is_whole(mv[1], my)
            &&& inside(prev, x + mx, y + my)
            &&& here == prev.color.px(x + mx, y + my)@
        };
    let (sx, sy) = ((x + mx) as u32, (y + my) as u32);
    lemma_step(x, mv[0], mx);
    lemma_step(y, mv[1], my);
    let there = prev.color.sampled(center(sx), center(sy));
    assert forall|j: int| 0 <= j < 3 implies #[trigger] here[j].is_finite() && there[j].is_finite()
        && alike(here[j], there[j]) by {
        assert(lane_is_finite(&prev.color, j));
        law_sampling_a_pixel_center_is_exact(&prev.color, sx, sy, j);
        lemma_pixel_is_finite(&prev.color, sx as int, sy as int, j);
        assert(here == prev.color.px(sx as int, sy as int).lanes());
    }
    lemma_alike_luma(here, there);
    let change = unexplained(spec_luma(here), spec_luma(there));
    lemma_explained(spec_luma(here), spec_luma(there));
    lemma_nothing(change);
    lemma_nothing_more(t.residual, change.to_f64());
}

proof fn lemma_explained_totals(prev: &GBuffer, next: &GBuffer, k: nat)
    requires
        comparable(prev, next),
        k <= next.spec_width() * next.spec_height() < 0x100_0000,
        forall|x: int, y: int|
            inside(next, x, y) ==> #[trigger] explained(prev, next, x, y) && spec_luma(
                next.color.px(x, y)@,
            ).is_finite(),
    ensures
        pair_totals(prev, next, k).residual.key() == 0,
        counts(pair_totals(prev, next, k).residual_norm, k),
    decreases k,
{
    lemma_units_zero(Format::Double, 0);
    if k > 0 {
        lemma_explained_totals(prev, next, (k - 1) as nat);
        next.color.lemma_wf();
        let w = next.spec_width() as int;
        lemma_coordinates(k - 1, w, next.spec_height() as int);
        let x = (k - 1) % w;
        let y = (k - 1) / w;
        assert(explained(prev, next, x, y));
        let t = pair_totals(prev, next, (k - 1) as nat);
        lemma_explained_pixel(t, prev, next, x as u32, y as u32);
        lemma_counts(t.residual_norm, (k - 1) as nat);
    } else {
        assert(0 * pow2(1074) == 0) by (nonlinear_arith);
    }
}

/// Whether a number in the longer format is a whole one.
spec fn counts(x: F64, k: nat) -> bool {
    &&& x.is_finite()
    &&& x.bits < 0x8000_0000_0000_0000
    &&& units(Format::Double, x.key() as nat) == k * pow2(1074)
}

/// Counting up.
proof fn lemma_counts(x: F64, k: nat)
    requires
        counts(x, k),
        k < 0x100_0000,
    ensures
        counts(x + F64::one(), k + 1),
{
    reveal(F64::spec_add);
    let f = Format::Double;
    lemma2_to64();
    lemma2_to64_rest();
    lemma_unity(f);
    let h = pow2((f.p() - 1) as nat);
    assert((1074 + 2) * h <= f.top()) by (nonlinear_arith)
        requires
            h == 0x10_0000_0000_0000,
            f.top() == 0x7ff0_0000_0000_0000,
    ;
    assert((k + 1) * pow2(1074) == k * pow2(1074) + pow2(1074)) by (nonlinear_arith);
    let mag = lemma_exact(f, k + 1, 1074);
}

/// Exact motion leaves no residual: where every pixel is where a whole motion of
/// its own took it, along either axis or both, with the color it had, nothing is
/// left unexplained.
pub proof fn law_exact_motion_leaves_no_residual(
    prev: &GBuffer,
    next: &GBuffer,
    reference_speed: F32,
    s: Signals,
)
    requires
        comparable(prev, next),
        next.spec_width() * next.spec_height() < 0x100_0000,
        call_ensures(measure_pair, (prev, next, reference_speed), s),
        forall|x: int, y: int|
            inside(next, x, y) ==> #[trigger] explained(prev, next, x, y) && spec_luma(
                next.color.px(x, y)@,
            ).is_finite(),
    ensures
        s.motion_residual.key() == 0,
{
    let w = next.spec_width() as int;
    let h = next.spec_height() as int;
    let n = w * h;
    next.color.lemma_wf();
    assert(n > 0) by (nonlinear_arith)
        requires
            w > 0,
            h > 0,
            n == w * h,
    ;
    lemma_explained_totals(prev, next, n as nat);
    let t = pair_totals(prev, next, n as nat);
    let four = F32::four();
    assert(four.is_finite() && four.key() > 0);
    if t.residual_norm.gt(F64::zero()) {
        lemma_share_of_nothing(t.residual, t.residual_norm);
        lemma_scaled_nothing((t.residual / t.residual_norm).to_f32(), four);
    } else {
        lemma_scaled_nothing(F32::zero(), four);
    }
}

/// A rounded quotient in the longer format is off by a part in `2^53`, or by less
/// than a unit.
pub proof fn lemma_rounds_double(n: nat, d: nat)
    requires
        d > 0,
        round_mag(Format::Double, n, d) < Format::Double.top(),
    ensures
        ({
            let r = units(Format::Double, round_mag(Format::Double, n, d));
            size(r * d - n) * 0x20_0000_0000_0000 <= n + d * 0x20_0000_0000_0000
        }),
{
    let f = Format::Double;
    lemma2_to64();
    lemma2_to64_rest();
    lemma_round_error(f, n, d);
    if n < d * 0x10_0000_0000_0000 {
        assert(n < d * pow2(f.p()));
        assert(place(f, n, d) == d * 1);
    }
}

/// And so is one in the shorter format, by a part in `2^24`.
pub proof fn lemma_rounds_single(n: nat, d: nat)
    requires
        d > 0,
        round_mag(Format::Single, n, d) < Format::Single.top(),
    ensures
        ({
            let r = units(Format::Single, round_mag(Format::Single, n, d));
            size(r * d - n) * 0x100_0000 <= n + d * 0x100_0000
        }),
{
    let f = Format::Single;
    lemma2_to64();
    lemma_round_error(f, n, d);
    if n < d * 0x80_0000 {
        assert(n < d * pow2(f.p()));
        assert(place(f, n, d) == d * 1);
    }
}

/// Powers of two that units are made of.
pub proof fn lemma_units_of_both()
    ensures
        pow2(1074) >= pow2(149) * 0x1000_0000_0000_0000,
        pow2(149) >= 0x1000_0000_0000_0000,
        pow2(1116) == 0x400_0000_0000 * pow2(1074),
        pow2(191) == 0x400_0000_0000 * pow2(149),
{
    lemma2_to64();
    lemma2_to64_rest();
    lemma_pow2_adds(60, 149);
    lemma_pow2_le(209, 1074);
    lemma_pow2_le(60, 149);
    lemma_pow2_adds(42, 1074);
    lemma_pow2_adds(42, 149);
}

/// Whether a number in the longer format is a sum of `k` numbers of the shorter
/// one, but for rounding: `e` in units.
spec fn near(t: F64, e: nat, k: nat) -> bool {
    &&& t.is_finite()
    &&& t.key() >= 0
    &&& size(
        units(Format::Double, t.key() as nat) * pow2(149) - e * pow2(1074),
    ) * 0x4_0000_0000_0000 <= k * (e * pow2(1074))
}

/// One more number.
proof fn lemma_near_step(t: F64, e: nat, k: nat, x: F32)
    requires
        near(t, e, k),
        k < 0x100_0000,
        x.is_finite(),
        x.key() >= 0,
        e + x.value() <= 0x100_0000_0000 * pow2(149),
    ensures
        x.value() >= 0,
        near(t + x.to_f64(), (e + x.value()) as nat, k + 1),
{
    let f = Format::Double;
    let u = pow2(149);
    let d = pow2(1074);
    let y = x.to_f64();
    lemma_units_of_both();
    lemma_pow2_pos(149);
    lemma_order(F32::zero(), x);
    lemma_order(x, x);
    let a = x.value() as nat;
    assert(a == units(Format::Single, x.key() as nat));
    lemma_widened(x);
    lemma_rounds_double(a * d, u);
    let v = units(f, t.key() as nat);
    let w = units(f, y.key() as nat);
    let big = (e + a) as nat;
    lemma_units_zero(f, 0);
    // The term.
    assert(size(w * u - a * d) * 0x10_0000_0000_0000 <= a * d) by {
        if a == 0 {
            assert(0 * d == 0) by (nonlinear_arith);
            lemma_round_zero(f, u);
            assert(0 * u == 0) by (nonlinear_arith);
        } else {
            assert(a * d >= d) by (nonlinear_arith)
                requires
                    a >= 1,
            ;
        }
    }
    assert(k * (e * d) <= 0x100_0000 * (e * d)) by (nonlinear_arith)
        requires
            k <= 0x100_0000,
    ;
    assert(v * u <= 2 * (e * d) && w * u <= 2 * (a * d));
    assert(big * d == e * d + a * d) by (nonlinear_arith)
        requires
            big == e + a,
    ;
    // The sum.
    let n = v + w;
    assert(n * u == v * u + w * u) by (nonlinear_arith)
        requires
            n == v + w,
    ;
    assert(big * d <= (0x100_0000_0000 * u) * d) by (nonlinear_arith)
        requires
            big <= 0x100_0000_0000 * u,
    ;
    assert(n <= (1 * pow2(1116)) * 1) by (nonlinear_arith)
        requires
            n * u <= 2 * ((0x100_0000_0000 * u) * d),
            pow2(1116) == 0x400_0000_0000 * d,
            u > 0,
    {
        if n > 0x400_0000_0000 * d {
            assert(n * u > (0x400_0000_0000 * d) * u);
            assert((0x400_0000_0000 * d) * u == 4 * ((0x100_0000_0000 * u) * d));
        }
    }
    lemma2_to64();
    lemma2_to64_rest();
    let h = pow2((f.p() - 1) as nat);
    assert((1116 + 2) * h <= f.top()) by (nonlinear_arith)
        requires
            h == 0x10_0000_0000_0000,
            f.top() == 0x7ff0_0000_0000_0000,
    ;
    lemma_round_upper(f, n, 1, 1, 1116);
    lemma_rounds_double(n, 1);
    let r = units(f, round_mag(f, n, 1));
    let s = t + y;
    assert(s.is_finite() && s.key() == round_mag(f, n, 1)) by {
        reveal(F64::spec_add);
        assert(t.value() == v && y.value() == w);
        if n == 0 {
            lemma_round_zero(f, 1);
        }
    }
    let q = size(r * 1 - n);
    assert(q * u * 0x20_0000_0000_0000 <= n * u + u * 0x20_0000_0000_0000) by (nonlinear_arith)
        requires
            q * 0x20_0000_0000_0000 <= n + 0x20_0000_0000_0000,
            u > 0,
    ;
    assert(size(r * u - n * u) == q * u) by (nonlinear_arith)
        requires
            q == size(r - n),
            u > 0,
    ;
    if big == 0 {
        assert(e == 0 && a == 0);
        assert(0 * d == 0) by (nonlinear_arith);
        assert(v * u == 0 && w * u == 0);
        assert(n == 0) by (nonlinear_arith)
            requires
                n * u == 0,
                u > 0,
        ;
        lemma_round_zero(f, 1);
        assert(0 * u == 0) by (nonlinear_arith);
        assert((k + 1) * 0 == 0) by (nonlinear_arith);
    } else {
        assert(big * d >= d) by (nonlinear_arith)
            requires
                big >= 1,
        ;
        assert(k * (e * d) <= k * (big * d)) by (nonlinear_arith)
            requires
                e * d <= big * d,
        ;
        assert((k + 1) * (big * d) == k * (big * d) + big * d) by (nonlinear_arith);
    }
}

/// The mean of a total, in the shorter format.
proof fn lemma_mean(x: F64, n: u32)
    requires
        x.is_finite(),
        x.key() >= 0,
        0 < n < 0x100_0000,
        units(Format::Double, x.key() as nat) <= 0x400_0000_0000 * pow2(1074),
    ensures
        ({
            let g = (x / F32::from_u32(n).to_f64()).to_f32();
            let v = units(Format::Double, x.key() as nat);
            &&& g.is_finite()
            &&& g.key() >= 0
            &&& g.value() >= 0
            &&& size(g.value() * (n * pow2(1074)) - v * pow2(149)) * 0x40_0000 <= v * pow2(149) + (n
                * pow2(1074)) * 0x80_0000
        }),
{
    let f = Format::Double;
    let u = pow2(149);
    let d = pow2(1074);
    let b = F32::from_u32(n);
    let c = b.to_f64();
    lemma_pow2_pos(149);
    lemma2_to64();
    lemma2_to64_rest();
    lemma_count(n);
    lemma_from_small(n);
    lemma_order(b, b);
    lemma_widened(b);
    // The count is held exactly.
    let m = n as nat;
    assert(((m * u) * d) * 1 == (m * d) * u) by (nonlinear_arith);
    lemma_round_same(f, (m * u) * d, u, m * d, 1);
    let h = pow2((f.p() - 1) as nat);
    assert((1074 + 2) * h <= f.top()) by (nonlinear_arith)
        requires
            h == 0x10_0000_0000_0000,
            f.top() == 0x7ff0_0000_0000_0000,
    ;
    let held = lemma_exact(f, m, 1074);
    lemma_mean_by(x, c, m);
}

/// The mean of a total by a count.
proof fn lemma_mean_by(x: F64, c: F64, m: nat)
    requires
        x.is_finite(),
        x.key() >= 0,
        0 < m < 0x100_0000,
        counts(c, m),
        units(Format::Double, x.key() as nat) <= 0x400_0000_0000 * pow2(1074),
    ensures
        ({
            let g = (x / c).to_f32();
            let v = units(Format::Double, x.key() as nat);
            &&& g.is_finite()
            &&& g.key() >= 0
            &&& g.value() >= 0
            &&& size(g.value() * (m * pow2(1074)) - v * pow2(149)) * 0x40_0000 <= v * pow2(149) + (m
                * pow2(1074)) * 0x80_0000
        }),
{
    let f = Format::Double;
    let u = pow2(149);
    let d = pow2(1074);
    let v = units(f, x.key() as nat);
    lemma_units_of_both();
    lemma_pow2_pos(149);
    lemma2_to64();
    lemma2_to64_rest();
    let h = pow2((f.p() - 1) as nat);
    assert((1116 + 2) * h <= f.top()) by (nonlinear_arith)
        requires
            h == 0x10_0000_0000_0000,
            f.top() == 0x7ff0_0000_0000_0000,
    ;
    assert(m * d > 0) by (nonlinear_arith)
        requires
            m >= 1,
            d > 0,
    ;
    lemma_units_zero(f, c.key() as nat);
    // The quotient.
    let q = x / c;
    lemma_double_div(x, c);
    assert((v * d) * m == v * (m * d)) by (nonlinear_arith);
    lemma_round_same(f, v * d, m * d, v, m);
    assert(v <= (1 * pow2(1116)) * m) by (nonlinear_arith)
        requires
            v <= pow2(1116),
            m >= 1,
    ;
    lemma_round_upper(f, v, m, 1, 1116);
    lemma_rounds_double(v, m);
    let y = units(f, q.key() as nat);
    // In the shorter format.
    let g = q.to_f32();
    let k = Format::Single;
    assert((191 + 2) * 0x80_0000 <= k.top());
    assert(y * u <= (1 * pow2(191)) * d) by (nonlinear_arith)
        requires
            y <= 0x400_0000_0000 * d,
            pow2(191) == 0x400_0000_0000 * u,
    ;
    lemma_round_upper(k, y * u, d, 1, 191);
    lemma_rounds_single(y * u, d);
    let r = round_mag(k, y * u, d);
    let z = units(k, r);
    assert(g.is_finite() && g.key() == r && g.value() == z) by {
        reveal(F64::spec_to_f32);
        lemma_units_zero(f, 0);
        lemma_units_zero(k, 0);
        if q.bits >= 0x8000_0000_0000_0000 {
            assert(0 * u == 0) by (nonlinear_arith);
            lemma_round_zero(k, d);
        }
    }
    lemma_mean_left(z as int, y as int, v as int, m as int, u as int, d as int);
}

/// What two roundings leave of a mean.
proof fn lemma_mean_left(z: int, y: int, v: int, m: int, u: int, d: int)
    requires
        size(z * d - y * u) * 0x100_0000 <= y * u + d * 0x100_0000,
        size(y * m - v) * 0x20_0000_0000_0000 <= v + m * 0x20_0000_0000_0000,
        d >= u * 0x1000_0000_0000_0000,
        u > 0,
        m >= 1,
        y >= 0,
        v >= 0,
        z >= 0,
    ensures
        size(z * (m * d) - v * u) * 0x40_0000 <= v * u + (m * d) * 0x80_0000,
{
    let a = z * d - y * u;
    let b = y * m - v;
    let w = v * u;
    let k = m * d;
    assert(size(a) * m * 0x100_0000 <= (y * m) * u + k * 0x100_0000) by (nonlinear_arith)
        requires
            size(a) * 0x100_0000 <= y * u + d * 0x100_0000,
            m >= 1,
            k == m * d,
    {
        assert((size(a) * 0x100_0000) * m <= (y * u + d * 0x100_0000) * m);
        assert((y * u) * m == (y * m) * u);
    }
    assert(size(b) * u * 0x20_0000_0000_0000 <= w + (m * u) * 0x20_0000_0000_0000) by (nonlinear_arith)
        requires
            size(b) * 0x20_0000_0000_0000 <= v + m * 0x20_0000_0000_0000,
            u > 0,
            w == v * u,
    {
        assert((size(b) * 0x20_0000_0000_0000) * u <= (v + m * 0x20_0000_0000_0000) * u);
    }
    assert(k >= (m * u) * 0x1000_0000_0000_0000) by (nonlinear_arith)
        requires
            d >= u * 0x1000_0000_0000_0000,
            m >= 1,
            k == m * d,
    ;
    assert(m * u > 0 && w >= 0) by (nonlinear_arith)
        requires
            m >= 1,
            u > 0,
            v >= 0,
            w == v * u,
    ;
    assert((y * m) * u == w + b * u) by (nonlinear_arith)
        requires
            b == y * m - v,
            w == v * u,
    ;
    assert(z * k == a * m + (y * m) * u) by (nonlinear_arith)
        requires
            a == z * d - y * u,
            k == m * d,
    ;
    assert(size(a * m) == size(a) * m && size(b * u) == size(b) * u) by (nonlinear_arith)
        requires
            m >= 1,
            u > 0,
    ;
}

/// What the first `k` places of a frame, row by row, add up to.
pub open spec fn sum_over(of: spec_fn(int, int) -> int, w: int, k: nat) -> int
    decreases k,
{
    if k == 0 {
        0
    } else {
        sum_over(of, w, (k - 1) as nat) + of((k - 1) % w, (k - 1) / w)
    }
}

/// The luminance of a pixel of a picture in `0..=1`.
proof fn lemma_luma_of(img: &ImageBuffer, x: int, y: int)
    requires
        img.wf(),
        displayable(img),
    ensures
        ({
            let l = spec_luma(img.px(x, y)@);
            &&& l.is_finite()
            &&& l.key() >= 0
            &&& 0 <= 10 * l.value() <= 11 * one_unit()
            &&& size(10000 * l.value() - weighed(img.px(x, y)@)) <= 80000 * slip()
        }),
{
    let c = img.px(x, y)@;
    lemma_displayable_pixel(img, x, y, 0);
    lemma_displayable_pixel(img, x, y, 1);
    lemma_displayable_pixel(img, x, y, 2);
    lemma_slip();
    law_luminance_is_rec_709(c);
    lemma_unit_value(c[0]);
    lemma_unit_value(c[1]);
    lemma_unit_value(c[2]);
    let r = F32::ratio(2126, 10000);
    let g = F32::ratio(7152, 10000);
    let b = F32::ratio(722, 10000);
    lemma_ratio_close(2126, 10000);
    lemma_ratio_close(7152, 10000);
    lemma_ratio_close(722, 10000);
    lemma_order(F32::zero(), r);
    lemma_order(F32::zero(), g);
    lemma_order(F32::zero(), b);
    lemma_mul_unit(r, c[0]);
    lemma_mul_unit(g, c[1]);
    lemma_mul_unit(b, c[2]);
    let l = spec_luma(c);
    lemma_order(F32::zero(), r * c[0]);
    lemma_order(F32::zero(), g * c[1]);
    lemma_order(r * c[0], r);
    lemma_order(g * c[1], g);
    lemma_add_close(r * c[0], g * c[1]);
    lemma_sum_up(r * c[0], g * c[1]);
    lemma_sum_up(r * c[0] + g * c[1], b * c[2]);
    lemma_order(F32::zero(), l);
}

/// A sum of numbers that are not negative is not.
proof fn lemma_sum_up(a: F32, b: F32)
    requires
        a.is_finite(),
        b.is_finite(),
        a.key() >= 0,
        b.key() >= 0,
    ensures
        (a + b).key() >= 0,
{
    lemma_add_key(a, b);
    lemma_order(F32::zero(), a);
    lemma_order(F32::zero(), b);
    lemma_order(F32::zero(), F32::zero());
    lemma_rounds_to_itself(F32::zero());
    lemma_rounded_sum_monotone(Format::Single, 0, a.value() + b.value());
}

/// The luminance of a whole picture, in units, as floating point has it.
spec fn brightness(img: &ImageBuffer, k: nat) -> int {
    sum_over(|x: int, y: int| spec_luma(img.px(x, y)@).value(), img.spec_width() as int, k)
}

/// Ten thousand times the luminance of a whole picture, in units.
pub open spec fn weighed_over(img: &ImageBuffer, k: nat) -> int {
    sum_over(|x: int, y: int| weighed(img.px(x, y)@), img.spec_width() as int, k)
}

/// Totals of luminance, but for rounding.
proof fn lemma_bright_totals(prev: &GBuffer, next: &GBuffer, k: nat)
    requires
        comparable(prev, next),
        displayable(&prev.color),
        displayable(&next.color),
        k <= next.spec_width() * next.spec_height() < 0x100_0000,
    ensures
        ({
            let t = pair_totals(prev, next, k);
            let a = brightness(&prev.color, k);
            let b = brightness(&next.color, k);
            &&& 0 <= 10 * a <= 11 * (k * one_unit())
            &&& 0 <= 10 * b <= 11 * (k * one_unit())
            &&& near(t.luma_prev, a as nat, k)
            &&& near(t.luma_next, b as nat, k)
            &&& size(10000 * a - weighed_over(&prev.color, k)) <= k * (80000 * slip())
            &&& size(10000 * b - weighed_over(&next.color, k)) <= k * (80000 * slip())
        }),
    decreases k,
{
    let u = one_unit();
    lemma_slip();
    if k > 0 {
        let j = (k - 1) as nat;
        lemma_bright_totals(prev, next, j);
        next.color.lemma_wf();
        let w = next.spec_width() as int;
        lemma_coordinates(k - 1, w, next.spec_height() as int);
        let x = (k - 1) % w;
        let y = (k - 1) / w;
        let t = pair_totals(prev, next, j);
        lemma_luma_of(&prev.color, x, y);
        lemma_luma_of(&next.color, x, y);
        let a = brightness(&prev.color, j);
        let b = brightness(&next.color, j);
        let p = spec_luma(prev.color.px(x, y)@);
        let q = spec_luma(next.color.px(x, y)@);
        assert(k * u == j * u + u) by (nonlinear_arith)
            requires
                k == j + 1,
        ;
        assert(k * (80000 * slip()) == j * (80000 * slip()) + 80000 * slip()) by (nonlinear_arith)
            requires
                k == j + 1,
        ;
        assert(k * u <= 0x100_0000 * u) by (nonlinear_arith)
            requires
                k <= 0x100_0000,
                u > 0,
        ;
        lemma_near_step(t.luma_prev, a as nat, j, p);
        lemma_near_step(t.luma_next, b as nat, j, q);
        assert(brightness(&prev.color, k) == a + p.value());
        assert(brightness(&next.color, k) == b + q.value());
        assert(weighed_over(&prev.color, k) == weighed_over(&prev.color, j) + weighed(
            prev.color.px(x, y)@,
        ));
        assert(weighed_over(&next.color, k) == weighed_over(&next.color, j) + weighed(
            next.color.px(x, y)@,
        ));
    } else {
        lemma_units_zero(Format::Double, 0);
        assert(0 * u == 0 && 0 * (80000 * slip()) == 0 && 0 * pow2(149) == 0 && 0 * pow2(1074) == 0)
            by (nonlinear_arith);
        let z = pow2(1074);
        assert(0 * (0 * z) == 0) by (nonlinear_arith);
    }
}

/// A difference of two totals, without its sign.
proof fn lemma_apart(a: F64, b: F64)
    requires
        a.is_finite(),
        b.is_finite(),
        a.key() >= 0,
        b.key() >= 0,
        units(Format::Double, a.key() as nat) <= 0x100_0000_0000 * pow2(1074),
        units(Format::Double, b.key() as nat) <= 0x100_0000_0000 * pow2(1074),
    ensures
        ({
            let d = (a - b).abs();
            let x = units(Format::Double, a.key() as nat);
            let y = units(Format::Double, b.key() as nat);
            let r = units(Format::Double, d.key() as nat);
            &&& d.is_finite()
            &&& d.key() >= 0
            &&& size(r - size(x - y)) * 0x20_0000_0000_0000 <= size(x - y) + 0x20_0000_0000_0000
            &&& r <= 0x400_0000_0000 * pow2(1074)
        }),
{
    reveal(F64::spec_sub);
    let f = Format::Double;
    let x = units(f, a.key() as nat);
    let y = units(f, b.key() as nat);
    let n = size(x - y) as nat;
    lemma_units_of_both();
    lemma2_to64();
    lemma2_to64_rest();
    lemma_units_zero(f, 0);
    assert(a.value() == x && b.value() == y);
    assert(b.raw().negated().value(f) == -b.value());
    let h = pow2((f.p() - 1) as nat);
    assert((1116 + 2) * h <= f.top()) by (nonlinear_arith)
        requires
            h == 0x10_0000_0000_0000,
            f.top() == 0x7ff0_0000_0000_0000,
    ;
    assert(n <= (1 * pow2(1116)) * 1);
    lemma_round_upper(f, n, 1, 1, 1116);
    lemma_rounds_double(n, 1);
    if n == 0 {
        lemma_round_zero(f, 1);
    }
}

/// The luminance shift is how much the mean luminance changed, up or down: four
/// times that, cut off at one, but for a ten-thousandth of rounding.
pub proof fn law_luminance_shift_is_the_change_of_the_mean(
    prev: &GBuffer,
    next: &GBuffer,
    reference_speed: F32,
    s: Signals,
)
    requires
        comparable(prev, next),
        displayable(&prev.color),
        displayable(&next.color),
        next.spec_width() * next.spec_height() < 0x100_0000,
        call_ensures(measure_pair, (prev, next, reference_speed), s),
    ensures
        ({
            let n = next.spec_width() * next.spec_height();
            let change = 4 * size(
                weighed_over(&next.color, n as nat) - weighed_over(&prev.color, n as nat),
            );
            let shift = s.luma_shift.value() * (10000 * n);
            let off = 1000000 * (slip() * n);
            &&& s.luma_shift.is_finite()
            &&& shift <= change + off
            &&& change <= shift + off || s.luma_shift == F32::one()
        }),
{
    reveal(F32::spec_clamp);
    let w = next.spec_width() as int;
    let h = next.spec_height() as int;
    let n = w * h;
    let u = one_unit();
    let d = pow2(1074) as int;
    let e = slip();
    next.color.lemma_wf();
    lemma_slip();
    lemma_pow2_pos(1074);
    lemma_units_of_both();
    assert(n > 0) by (nonlinear_arith)
        requires
            w > 0,
            h > 0,
            n == w * h,
    ;
    lemma_bright_totals(prev, next, n as nat);
    let t = pair_totals(prev, next, n as nat);
    let a = brightness(&next.color, n as nat);
    let b = brightness(&prev.color, n as nat);
    let x = units(Format::Double, t.luma_next.key() as nat) as int;
    let y = units(Format::Double, t.luma_prev.key() as nat) as int;
    lemma_total_size(x, a, n, u, d);
    lemma_total_size(y, b, n, u, d);
    lemma_apart(t.luma_next, t.luma_prev);
    let gap = (t.luma_next - t.luma_prev).abs();
    let r = units(Format::Double, gap.key() as nat) as int;
    lemma_mean(gap, n as u32);
    let g = (gap / F32::from_u32(n as u32).to_f64()).to_f32();
    let z = g.value();
    let exact = size(a - b);
    lemma_mean_change(z, r, x, y, a, b, n, u, d, e);
    assert(size(z * n - exact) <= 8 * (e * n));
    // Four times that.
    lemma_four_value();
    assert(0 <= z <= 2 * u) by (nonlinear_arith)
        requires
            size(z * n - exact) <= 8 * (e * n),
            0 <= a <= 2 * (n * u) && 0 <= b <= 2 * (n * u),
            exact == size(a - b),
            n > 0,
            z >= 0,
            u == 0x20_0000 * e,
            e > 0,
            10 * exact <= 11 * (n * u),
    {
        assert(z * n <= 2 * (n * u));
        assert((2 * u) * n == 2 * (n * u));
    }
    assert(0 <= z * (4 * u) <= 8 * u * u) by (nonlinear_arith)
        requires
            0 <= z <= 2 * u,
    ;
    lemma_mul_close(g, F32::four());
    let m = g * F32::four();
    assert(size(m.value() - 4 * z) <= e) by (nonlinear_arith)
        requires
            -e * u <= m.value() * u - z * (4 * u) <= e * u,
            u > 0,
    ;
    let v = m.value();
    assert(size(v * n - 4 * exact) <= 33 * (e * n)) by (nonlinear_arith)
        requires
            size(v - 4 * z) <= e,
            size(z * n - exact) <= 8 * (e * n),
            n > 0,
    {
        assert((v - 4 * z) * n == v * n - 4 * (z * n));
        assert(-(e * n) <= (v - 4 * z) * n <= e * n);
    }
    assert(v * (10000 * n) == 10000 * (v * n)) by (nonlinear_arith);
    assert(n * (80000 * e) == 80000 * (e * n)) by (nonlinear_arith);
    lemma_mul_nonnegative(g, F32::four());
    lemma_order(m, F32::zero());
    lemma_order(F32::zero(), m);
    lemma_order(m, F32::one());
    lemma_order(F32::one(), m);
    if m.le(F32::one()) {
        assert(s.luma_shift.key() == m.key());
        lemma_order(s.luma_shift, m);
        lemma_order(m, s.luma_shift);
    } else {
        assert(s.luma_shift == F32::one());
        assert(u * (10000 * n) <= v * (10000 * n)) by (nonlinear_arith)
            requires
                u <= v,
                n > 0,
        ;
    }
}

/// A product of numbers that are not negative is not.
proof fn lemma_mul_nonnegative(a: F32, b: F32)
    requires
        a.is_finite(),
        b.is_finite(),
        a.key() >= 0,
        b.key() >= 0,
    ensures
        (a * b).key() >= 0,
{
    lemma_mul_key(a, b);
}

/// A total of luminances is not too large.
proof fn lemma_total_size(x: int, a: int, n: int, u: int, d: int)
    requires
        0 <= a <= 2 * (n * u),
        size(x * u - a * d) * 0x4_0000_0000_0000 <= n * (a * d),
        0 < n < 0x100_0000,
        0 < u,
        0 < d,
        x >= 0,
    ensures
        x <= 0x100_0000_0000 * d,
        size(x * u - a * d) * 0x400_0000 <= a * d,
        a * d <= 2 * (n * (u * d)),
{
    assert(a * d >= 0) by (nonlinear_arith)
        requires
            a >= 0,
            d > 0,
    ;
    let k = a * d;
    assert(n * k <= 0x100_0000 * k) by (nonlinear_arith)
        requires
            n <= 0x100_0000,
            k >= 0,
    ;
    assert(a * d <= 2 * (n * (u * d))) by (nonlinear_arith)
        requires
            a <= 2 * (n * u),
            d > 0,
    ;
    assert(n * (u * d) <= 0x100_0000 * (u * d)) by (nonlinear_arith)
        requires
            n <= 0x100_0000,
            u > 0,
            d > 0,
    ;
    assert(x <= 0x100_0000_0000 * d) by (nonlinear_arith)
        requires
            x * u <= 2 * (2 * (0x100_0000 * (u * d))),
            u > 0,
            d > 0,
    ;
}

/// What rounding leaves of a change of means.
proof fn lemma_mean_change(
    z: int,
    r: int,
    x: int,
    y: int,
    a: int,
    b: int,
    n: int,
    u: int,
    d: int,
    e: int,
)
    requires
        0 < n < 0x100_0000,
        0 < e,
        u == 0x20_0000 * e,
        d >= u * 0x1000_0000_0000_0000,
        u >= 0x100_0000,
        size(x * u - a * d) * 0x400_0000 <= a * d,
        size(y * u - b * d) * 0x400_0000 <= b * d,
        0 <= a * d <= 2 * (n * (u * d)),
        0 <= b * d <= 2 * (n * (u * d)),
        size(r - size(x - y)) * 0x20_0000_0000_0000 <= size(x - y) + 0x20_0000_0000_0000,
        size(z * (n * d) - r * u) * 0x40_0000 <= r * u + (n * d) * 0x80_0000,
        0 <= a,
        0 <= b,
        r >= 0,
    ensures
        size(z * n - size(a - b)) <= 8 * (e * n),
{
    let k = n * (u * d);
    let p = a * d;
    let q = b * d;
    assert(k > 0 && u * d > 0) by (nonlinear_arith)
        requires
            k == n * (u * d),
            n > 0,
            u > 0,
            d > 0,
    ;
    // The totals apart, times u.
    let gap = size(x - y);
    assert(gap * u == size(x * u - y * u)) by (nonlinear_arith)
        requires
            gap == size(x - y),
            u > 0,
    ;
    let exact = size(a - b);
    assert(exact * d == size(p - q)) by (nonlinear_arith)
        requires
            exact == size(a - b),
            p == a * d,
            q == b * d,
            d > 0,
    ;
    assert(size(gap * u - exact * d) * 0x400_0000 <= p + q);
    let off = size(r - gap);
    assert(off * u * 0x20_0000_0000_0000 <= gap * u + u * 0x20_0000_0000_0000) by (nonlinear_arith)
        requires
            off * 0x20_0000_0000_0000 <= gap + 0x20_0000_0000_0000,
            u > 0,
    ;
    assert(size(r * u - gap * u) == off * u) by (nonlinear_arith)
        requires
            off == size(r - gap),
            u > 0,
    ;
    assert(k >= u * d) by (nonlinear_arith)
        requires
            k == n * (u * d),
            n >= 1,
            u * d > 0,
    ;
    assert(u * d >= u * 0x1000_0000_0000_0000) by (nonlinear_arith)
        requires
            d >= 0x1000_0000_0000_0000,
            u > 0,
    ;
    assert(gap * u <= 5 * k);
    assert(r * u <= 6 * k);
    let j = n * d;
    assert(k == j * u) by (nonlinear_arith)
        requires
            k == n * (u * d),
            j == n * d,
    ;
    assert(j * u >= j * 0x100_0000) by (nonlinear_arith)
        requires
            u >= 0x100_0000,
            j >= 0,
            j == n * d,
    ;
    assert(j >= 0) by (nonlinear_arith)
        requires
            j == n * d,
            n > 0,
            d > 0,
    ;
    // All errors, as parts of k = n u d.
    let c = z * n - exact;
    assert(c * d == z * j - exact * d) by (nonlinear_arith)
        requires
            c == z * n - exact,
            j == n * d,
    ;
    let m = e * n;
    assert(k == (m * d) * 0x20_0000) by (nonlinear_arith)
        requires
            k == n * (u * d),
            u == 0x20_0000 * e,
            m == e * n,
    ;
    assert(size(c * d) <= 8 * (m * d));
    assert(size(c) <= 8 * m) by (nonlinear_arith)
        requires
            size(c * d) <= 8 * (m * d),
            d > 0,
    ;
}

/// The root of a square that is held exactly is what was squared.
pub proof fn lemma_root_of_a_square(f: Format, mag: nat)
    requires
        mag < f.top(),
    ensures
        root_mag(f, units(f, mag) * units(f, mag)) == mag,
{
    let p = f.p();
    let a = units(f, mag);
    let s = scale(p, a, 1);
    let w = pow2(s);
    lemma_pow2_pos(s);
    lemma_scale(p, a, 1);
    let top = pow2(s + p);
    assert(a * a < top * top) by (nonlinear_arith)
        requires
            a < top,
    ;
    if s > 0 {
        let low = pow2((s + p - 1) as nat);
        assert(a * a >= low * low) by (nonlinear_arith)
            requires
                a >= low,
        ;
    }
    lemma_root_scale_unique(p, a * a, s);
    // It is a whole number of places.
    lemma_round_exact(f, mag);
    lemma_rounded_units(f, a, 1);
    let m = places(f, a, 1);
    assert(a == m * w);
    let q = w * w;
    assert(q > 0) by (nonlinear_arith)
        requires
            q == w * w,
            w > 0,
    ;
    let t = 2 * m;
    assert(4 * (a * a) == (t * t) * q) by (nonlinear_arith)
        requires
            a == m * w,
            q == w * w,
            t == 2 * m,
    ;
    assert((t * t) * q < (t * t + 1) * q && (t * t + 1) * q == (t * t) * q + q) by (nonlinear_arith)
        requires
            q > 0,
    ;
    lemma_quotient(4 * (a * a), q, t * t);
    assert(t * t < (t + 1) * (t + 1)) by (nonlinear_arith);
    lemma_isqrt_unique(t * t, t);
}

/// Whether a motion is a whole one, of a whole length.
pub open spec fn has_length(mv: Seq<F32>, c: int) -> bool {
    &&& 0 <= c < 4096
    &&& exists|mx: int, my: int|
        #[trigger] is_whole(mv[0], mx) && #[trigger] is_whole(mv[1], my) && mx * mx + my * my == c
            * c
}

/// The length of a whole motion of a whole length.
proof fn lemma_length_of(mv: Seq<F32>, c: int)
    requires
        has_length(mv, c),
    ensures
        ({
            let l = (mv[0] * mv[0] + mv[1] * mv[1]).sqrt();
            l.is_finite() && l.key() >= 0 && l.value() == c * one_unit()
        }),
{
    let f = Format::Single;
    let u = pow2(149);
    let (mx, my) = choose|mx: int, my: int|
        #[trigger] is_whole(mv[0], mx) && #[trigger] is_whole(mv[1], my) && mx * mx + my * my == c
            * c;
    let (a, b) = (mv[0], mv[1]);
    lemma2_to64();
    lemma_pow2_pos(149);
    assert(0 <= mx * mx && 0 <= my * my && c * c < 0x100_0000) by (nonlinear_arith)
        requires
            0 <= c < 4096,
    ;
    assert((mx * u) * (mx * u) == (mx * mx) * (u * u)) by (nonlinear_arith);
    assert((my * u) * (my * u) == (my * my) * (u * u)) by (nonlinear_arith);
    lemma_whole_product(a, a, mx * mx);
    lemma_whole_product(b, b, my * my);
    let x = a * a + b * b;
    lemma_add_key(a * a, b * b);
    assert((mx * mx) * u + (my * my) * u == (c * c) * u) by (nonlinear_arith)
        requires
            mx * mx + my * my == c * c,
    ;
    let h = pow2((f.p() - 1) as nat);
    assert((149 + 2) * h <= f.top()) by (nonlinear_arith)
        requires
            h == 0x80_0000,
            f.top() == 0x7f80_0000,
    ;
    let n = (c * c) as nat;
    let k = c as nat;
    let square = lemma_exact(f, n, 149);
    let mag = lemma_exact(f, k, 149);
    assert(n * u >= 0) by (nonlinear_arith);
    lemma_units_zero(f, square);
    assert(x.key() == square);
    lemma_order(x, x);
    let l = x.sqrt();
    reveal(F32::spec_sqrt);
    if c == 0 {
        assert(0 * u == 0) by (nonlinear_arith);
        lemma_units_zero(f, 0);
        lemma_order(l, F32::zero());
        assert(l == x);
    } else {
        assert(n >= 1) by (nonlinear_arith)
            requires
                n == c * c,
                c >= 1,
        ;
        assert(n * u > 0) by (nonlinear_arith)
            requires
                n >= 1,
                u > 0,
        ;
        assert((n * u) * u == (k * u) * (k * u)) by (nonlinear_arith)
            requires
                n == k * k,
        ;
        lemma_root_of_a_square(f, mag);
        assert(l.key() == mag);
        lemma_order(l, l);
    }
}

/// The total of lengths, but for rounding.
proof fn lemma_speed_totals(prev: &GBuffer, next: &GBuffer, len: spec_fn(int, int) -> int, k: nat)
    requires
        comparable(prev, next),
        k <= next.spec_width() * next.spec_height() < 0x100_0000,
        forall|x: int, y: int|
            inside(next, x, y) ==> has_length(#[trigger] next.motion.px(x, y)@, len(x, y)),
    ensures
        ({
            let total = sum_over(len, next.spec_width() as int, k) * one_unit();
            &&& 0 <= total <= 4096 * (k * one_unit())
            &&& near(pair_totals(prev, next, k).speed, total as nat, k)
        }),
    decreases k,
{
    let u = one_unit();
    lemma_slip();
    if k > 0 {
        let j = (k - 1) as nat;
        lemma_speed_totals(prev, next, len, j);
        next.color.lemma_wf();
        let w = next.spec_width() as int;
        lemma_coordinates(k - 1, w, next.spec_height() as int);
        let x = (k - 1) % w;
        let y = (k - 1) / w;
        assert(inside(next, x, y));
        let mv = next.motion.px(x, y)@;
        let c = len(x, y);
        assert(has_length(mv, c));
        lemma_length_of(mv, c);
        let t = pair_totals(prev, next, j);
        let before = sum_over(len, w, j);
        assert((before + c) * u == before * u + c * u) by (nonlinear_arith);
        assert(0 <= c * u <= 4096 * u) by (nonlinear_arith)
            requires
                0 <= c <= 4096,
                u > 0,
        ;
        assert(k * u == j * u + u) by (nonlinear_arith)
            requires
                k == j + 1,
        ;
        assert(k * u <= 0x100_0000 * u) by (nonlinear_arith)
            requires
                k <= 0x100_0000,
                u > 0,
        ;
        lemma_near_step(
            t.speed,
            (before * u) as nat,
            j,
            (mv[0] * mv[0] + mv[1] * mv[1]).sqrt(),
        );
    } else {
        lemma_units_zero(Format::Double, 0);
        assert(0 * u == 0 && 0 * pow2(149) == 0 && 0 * pow2(1074) == 0) by (nonlinear_arith);
        let z = pow2(1074);
        assert(0 * (0 * z) == 0) by (nonlinear_arith);
    }
}

/// Camera motion is the mean length of the motion vectors, whichever way they
/// point, as a share of the reference speed: up to that speed but for a few
/// millionths of rounding, and one beyond it.
pub proof fn law_camera_motion_is_the_mean_speed(
    prev: &GBuffer,
    next: &GBuffer,
    reference_speed: F32,
    s: Signals,
    len: spec_fn(int, int) -> int,
)
    requires
        comparable(prev, next),
        next.spec_width() * next.spec_height() < 0x100_0000,
        call_ensures(measure_pair, (prev, next, reference_speed), s),
        forall|x: int, y: int|
            inside(next, x, y) ==> has_length(#[trigger] next.motion.px(x, y)@, len(x, y)),
        reference_speed.is_finite(),
        500 * reference_speed.value() >= one_unit(),
    ensures
        ({
            let w = next.spec_width() as int;
            let n = w * next.spec_height();
            let total = sum_over(len, w, n as nat) * one_unit();
            let full = n * reference_speed.value();
            &&& s.camera_motion.is_finite()
            &&& total <= full ==> size(
                s.camera_motion.value() * full - total * one_unit(),
            ) <= 4 * (slip() * full)
            &&& total * 0x4_0000 >= full * 0x4_0001 ==> s.camera_motion == F32::one()
        }),
{
    reveal(F32::spec_clamp);
    reveal(F32::spec_max);
    let w = next.spec_width() as int;
    let h = next.spec_height() as int;
    let n = w * h;
    let u = one_unit();
    let d = pow2(1074) as int;
    let e = slip();
    next.color.lemma_wf();
    lemma_slip();
    lemma_pow2_pos(1074);
    lemma_units_of_both();
    assert(n > 0) by (nonlinear_arith)
        requires
            w > 0,
            h > 0,
            n == w * h,
    ;
    let least = F32::ratio(1, 1000);
    lemma_ratio_close(1, 1000);
    lemma_order(least, reference_speed);
    lemma_order(reference_speed, least);
    let reference = reference_speed.max(least);
    assert(reference == reference_speed);
    lemma_order(F32::zero(), reference);
    lemma_order(reference, F32::zero());
    let big = reference.value();
    lemma_speed_totals(prev, next, len, n as nat);
    let t = pair_totals(prev, next, n as nat);
    let total = sum_over(len, w, n as nat) * u;
    let v = units(Format::Double, t.speed.key() as nat) as int;
    assert(total * d >= 0 && n * (total * d) <= 0x100_0000 * (total * d)) by (nonlinear_arith)
        requires
            total >= 0,
            d > 0,
            n <= 0x100_0000,
    ;
    assert(v * u <= 2 * (total * d));
    assert(v <= 0x400_0000_0000 * d) by (nonlinear_arith)
        requires
            v * u <= 2 * (total * d),
            total <= 4096 * (n * u),
            n <= 0x100_0000,
            u > 0,
            d > 0,
    {
        assert(total <= 0x10_0000_0000 * u);
        assert(total * d <= (0x10_0000_0000 * u) * d);
        if v > 0x400_0000_0000 * d {
            assert(v * u > (0x400_0000_0000 * d) * u);
            assert((0x400_0000_0000 * d) * u == 64 * ((0x10_0000_0000 * u) * d));
        }
    }
    lemma_mean(t.speed, n as u32);
    let g = (t.speed / F32::from_u32(n as u32).to_f64()).to_f32();
    let z = g.value();
    // z n is the total, but for a part in 2^21.
    assert(size(z * n - total) * 0x20_0000 <= total + 3 * (n * 0x20_0000)) by {
        let j = n * d;
        assert(z * j == (z * n) * d) by (nonlinear_arith)
            requires
                j == n * d,
        ;
        assert(size(z * j - v * u) * 0x40_0000 <= v * u + j * 0x80_0000);
        let c = z * n - total;
        assert(c * d == (z * n) * d - total * d) by (nonlinear_arith)
            requires
                c == z * n - total,
        ;
        assert(size(c * d) * 0x20_0000 <= total * d + 3 * (j * 0x20_0000));
        assert(size(c) * 0x20_0000 <= total + 3 * (n * 0x20_0000)) by (nonlinear_arith)
            requires
                size(c * d) * 0x20_0000 <= total * d + 3 * (j * 0x20_0000),
                j == n * d,
                d > 0,
        {
            assert(size(c * d) == size(c) * d);
            assert((size(c) * 0x20_0000) * d <= (total + 3 * (n * 0x20_0000)) * d);
        }
    }
    let q = g / reference;
    lemma_order(g, reference);
    lemma_order(reference, g);
    lemma_order(F32::zero(), g);
    lemma_unity(Format::Single);
    lemma_div_key(g, reference);
    let full = n * big;
    assert(full >= n && u <= 500 * big) by (nonlinear_arith)
        requires
            full == n * big,
            500 * big >= u,
            u >= 0x100_0000,
            n > 0,
    ;
    assert(500 * full >= n * u) by (nonlinear_arith)
        requires
            full == n * big,
            500 * big >= u,
            n > 0,
    ;
    assert(n * u >= n * 0x1000_0000_0000 && n * u == 0x20_0000 * (e * n)) by (nonlinear_arith)
        requires
            u >= 0x1000_0000_0000,
            n > 0,
            u == 0x20_0000 * e,
    ;
    if total <= full {
        assert(z <= 2 * big) by (nonlinear_arith)
            requires
                size(z * n - total) * 0x20_0000 <= total + 3 * (n * 0x20_0000),
                total <= full,
                full == n * big,
                500 * full >= n * 0x100_0000,
                n > 0,
        {
            assert(z * n <= 2 * full);
            if z > 2 * big {
                assert(z * n > (2 * big) * n);
            }
        }
        lemma_div_close(g, reference);
        let y = q.value();
        assert(size(y * full - total * u) <= 3 * (e * full)) by (nonlinear_arith)
            requires
                size(y * big - z * u) <= e * big,
                size(z * n - total) * 0x20_0000 <= total + 3 * (n * 0x20_0000),
                total <= full,
                full == n * big,
                500 * full >= n * u,
                u == 0x20_0000 * e,
                e >= 4096,
                n > 0,
                total >= 0,
        {
            let a = y * big - z * u;
            let b = z * n - total;
            assert(y * full - total * u == a * n + b * u);
            assert(size(a * n) <= e * full) by {
                assert(size(a) * n <= (e * big) * n);
            }
            assert(size(b * u) == size(b) * u);
            assert(size(b) * u <= (total + 3 * (n * 0x20_0000)) * e);
            assert((total + 3 * (n * 0x20_0000)) * e == total * e + 3 * (n * u));
            assert(total * e <= full * e);
            assert(3 * (n * u) <= 1500 * full);
            assert(1500 * full <= e * full);
        }
        lemma_order(q, F32::one());
        lemma_order(F32::one(), q);
        lemma_order(F32::zero(), q);
        if q.le(F32::one()) {
            assert(s.camera_motion.key() == q.key());
            lemma_order(s.camera_motion, q);
            lemma_order(q, s.camera_motion);
        } else {
            assert(s.camera_motion == F32::one());
            assert(u * full <= y * full && total * u <= u * full) by (nonlinear_arith)
                requires
                    u <= y,
                    total <= full,
                    full >= 0,
                    u > 0,
            ;
        }
        assert(e * full >= 0) by (nonlinear_arith)
            requires
                e > 0,
                full >= 0,
        ;
    }
    if total * 0x4_0000 >= full * 0x4_0001 {
        assert(z >= big) by (nonlinear_arith)
            requires
                size(z * n - total) * 0x20_0000 <= total + 3 * (n * 0x20_0000),
                total * 0x4_0000 >= full * 0x4_0001,
                full == n * big,
                500 * full >= n * 0x1000_0000_0000,
                n > 0,
        {
            assert(z * n >= full);
            if z < big {
                assert(z * n < big * n);
            }
        }
        let x = units(Format::Single, g.key() as nat);
        let y = units(Format::Single, reference.key() as nat);
        let one = pow2(149);
        assert(one * y <= (x * one) * 1) by (nonlinear_arith)
            requires
                y <= x,
        ;
        lemma_round_monotone(Format::Single, one, 1, x * one, y);
        lemma_round_exact(Format::Single, Format::Single.unity());
        assert(q.key() >= F32::one().key());
        assert(s.camera_motion.key() == F32::one().key());
    }
}

/// Where a whole motion leads back to, and what it finds there.
pub open spec fn comes_from(prev: &GBuffer, next: &GBuffer, x: int, y: int, sx: int, sy: int) -> bool {
    &&& is_whole(next.motion.px(x, y)@[0], sx - x)
    &&& is_whole(next.motion.px(x, y)@[1], sy - y)
    &&& inside(prev, sx, sy)
}

/// The change of luminance from one color to another, as a share of the two
/// together, in units.
pub open spec fn relative_change(a: Seq<F32>, b: Seq<F32>) -> int {
    (size(weighed(a) - weighed(b)) * one_unit()) / (weighed(a) + weighed(b))
}

/// Whether two colors are not too dark together: their luminances add up to a
/// tenth at least.
pub open spec fn are_lit(a: Seq<F32>, b: Seq<F32>) -> bool {
    weighed(a) + weighed(b) >= 1000 * one_unit()
}

/// What is left unexplained at a pixel is the relative change, but for rounding.
proof fn lemma_change(a: F32, b: F32, p: int, q: int)
    requires
        a.is_finite(),
        b.is_finite(),
        a.key() >= 0,
        b.key() >= 0,
        0 <= 10 * a.value() <= 11 * one_unit(),
        0 <= 10 * b.value() <= 11 * one_unit(),
        size(10000 * a.value() - p) <= 80000 * slip(),
        size(10000 * b.value() - q) <= 80000 * slip(),
        p >= 0,
        q >= 0,
        p + q >= 1000 * one_unit(),
    ensures
        ({
            let r = unexplained(a, b);
            &&& r.is_finite()
            &&& r.key() >= 0
            &&& 0 <= 2 * r.value() <= 3 * one_unit()
            &&& size(r.value() - (size(p - q) * one_unit()) / (p + q)) <= 525 * slip()
        }),
{
    reveal(F32::spec_max);
    let e = slip();
    let u = one_unit();
    let (x, y) = (a.value(), b.value());
    lemma_slip();
    lemma_units_of_both();
    lemma_sub_close(a, b);
    let over = (a - b).abs();
    lemma_order(a - b, F32::zero());
    assert(over.is_finite() && over.value() == size((a - b).value()) && over.key() >= 0);
    lemma_add_close(a.abs(), b.abs());
    let sum = a.abs() + b.abs();
    let least = F32::ratio(1, 1000);
    lemma_ratio_close(1, 1000);
    lemma_order(sum, least);
    lemma_order(least, sum);
    let under = sum.max(least);
    assert(under == sum);
    let n = over.value();
    let d = sum.value();
    lemma_order(sum, F32::zero());
    lemma_order(F32::zero(), sum);
    lemma_div_close(over, under);
    let r = over / under;
    let v = r.value();
    lemma_order(F32::zero(), r);
    let w = p + q;
    let c = size(p - q);
    assert(0 <= 2 * v <= 3 * u) by (nonlinear_arith)
        requires
            size(v * d - n * u) <= e * d,
            n <= d + 2 * e,
            20 * d >= u,
            u == 0x20_0000 * e,
            e > 0,
            v >= 0,
    {
        assert(v * d <= (d + 2 * e) * u + e * d);
        assert((d + 2 * e) * u == d * u + 2 * (e * u));
        assert(e * u <= 20 * (e * d));
        assert(v * d <= d * u + 41 * (e * d));
        if v > u + 41 * e {
            assert(v * d > (u + 41 * e) * d);
        }
    }
    // v w is c u, but for rounding.
    assert(size(v * w - c * u) <= 520 * (e * w)) by (nonlinear_arith)
        requires
            size(v * d - n * u) <= e * d,
            size(10000 * d - w) <= 170000 * e,
            size(10000 * n - c) <= 170000 * e,
            0 <= 2 * v <= 3 * u,
            w >= 1000 * u,
            u == 0x20_0000 * e,
            e > 0,
            d > 0,
            9000 * d <= w,
    {
        assert(v * w == 10000 * (v * d) - v * (10000 * d - w));
        assert(size(v * (10000 * d - w)) <= (2 * u) * (170000 * e));
        assert(c * u == 10000 * (n * u) - (10000 * n - c) * u);
        assert(size((10000 * n - c) * u) <= (170000 * e) * u);
        assert(10000 * (e * d) <= 2 * (e * w)) by {
            assert(10000 * d <= 2 * w);
        }
        assert(1000 * (e * u) <= e * w);
        assert(size(10000 * (v * d) - 10000 * (n * u)) <= 10000 * (e * d));
    }
    let share = (c * u) / w;
    vstd::arithmetic::div_mod::lemma_fundamental_div_mod(c * u, w);
    let rest = (c * u) % w;
    assert(size(v - share) <= 525 * e) by (nonlinear_arith)
        requires
            size(v * w - c * u) <= 520 * (e * w),
            c * u == w * share + rest,
            0 <= rest < w,
            w > 0,
            e >= 1,
    {
        assert((v - share) * w == (v * w - c * u) + rest);
        assert(rest <= e * w);
        assert(size((v - share) * w) <= (525 * e) * w);
        if v - share > 525 * e {
            assert((v - share) * w > (525 * e) * w);
        }
        if v - share < -(525 * e) {
            assert((v - share) * w < -(525 * e) * w);
        }
    }
}

/// The total of what is left unexplained, but for rounding.
proof fn lemma_change_totals(
    prev: &GBuffer,
    next: &GBuffer,
    from: spec_fn(int, int) -> (int, int),
    k: nat,
) -> (e: nat)
    requires
        comparable(prev, next),
        displayable(&prev.color),
        displayable(&next.color),
        k <= next.spec_width() * next.spec_height() < 0x100_0000,
        forall|x: int, y: int|
            inside(next, x, y) ==> {
                let (sx, sy) = #[trigger] from(x, y);
                &&& comes_from(prev, next, x, y, sx, sy)
                &&& are_lit(next.color.px(x, y)@, prev.color.px(sx, sy)@)
            },
    ensures
        near(pair_totals(prev, next, k).residual, e, k),
        counts(pair_totals(prev, next, k).residual_norm, k),
        2 * e <= 3 * (k * one_unit()),
        size(e - change_over(prev, next, from, k)) <= k * (525 * slip()),
    decreases k,
{
    let u = one_unit();
    lemma_slip();
    if k > 0 {
        let j = (k - 1) as nat;
        let before = lemma_change_totals(prev, next, from, j);
        next.color.lemma_wf();
        let w = next.spec_width() as int;
        lemma_coordinates(k - 1, w, next.spec_height() as int);
        let x = (k - 1) % w;
        let y = (k - 1) / w;
        assert(inside(next, x, y));
        let (sx, sy) = from(x, y);
        let t = pair_totals(prev, next, j);
        let mv = next.motion.px(x, y)@;
        lemma_step(x as u32, mv[0], sx - x);
        lemma_step(y as u32, mv[1], sy - y);
        let here = next.color.px(x, y)@;
        let was = prev.color.px(sx, sy)@;
        let there = prev.color.sampled(center(sx as u32), center(sy as u32));
        lemma_luma_of(&next.color, x, y);
        lemma_luma_of(&prev.color, sx, sy);
        assert forall|i: int| 0 <= i < 3 implies #[trigger] was[i].is_finite()
            && there[i].is_finite() && alike(was[i], there[i]) by {
            assert(lane_is_finite(&prev.color, i));
            law_sampling_a_pixel_center_is_exact(&prev.color, sx as u32, sy as u32, i);
            lemma_pixel_is_finite(&prev.color, sx, sy, i);
            assert(was == prev.color.px(sx, sy).lanes());
        }
        lemma_alike_luma(was, there);
        let a = spec_luma(here);
        let b = spec_luma(there);
        lemma_same_luma(spec_luma(was), b);
        lemma_weighed_in_range(&next.color, x, y);
        lemma_weighed_in_range(&prev.color, sx, sy);
        lemma_change(a, b, weighed(here), weighed(was));
        let r = unexplained(a, b);
        assert(k * u == j * u + u) by (nonlinear_arith)
            requires
                k == j + 1,
        ;
        assert(k * (525 * slip()) == j * (525 * slip()) + 525 * slip()) by (nonlinear_arith)
            requires
                k == j + 1,
        ;
        assert(k * u <= 0x100_0000 * u) by (nonlinear_arith)
            requires
                k <= 0x100_0000,
                u > 0,
        ;
        lemma_near_step(t.residual, before, j, r);
        lemma_counts(t.residual_norm, j);
        assert(change_over(prev, next, from, k) == change_over(prev, next, from, j)
            + relative_change(here, was));
        (before + r.value()) as nat
    } else {
        lemma_units_zero(Format::Double, 0);
        assert(0 * u == 0 && 0 * pow2(149) == 0 && 0 * pow2(1074) == 0 && 0 * (525 * slip()) == 0)
            by (nonlinear_arith);
        let z = pow2(1074);
        assert(0 * (0 * z) == 0) by (nonlinear_arith);
        0
    }
}

/// Luminances that are alike have one value.
proof fn lemma_same_luma(a: F32, b: F32)
    requires
        alike(a, b),
        a.is_finite(),
    ensures
        b.is_finite(),
        b.key() == a.key(),
        b.value() == a.value(),
{
    lemma_order(a, b);
    lemma_order(b, a);
}

/// The weighed channels of a picture in range are not negative.
proof fn lemma_weighed_in_range(img: &ImageBuffer, x: int, y: int)
    requires
        img.wf(),
        displayable(img),
    ensures
        0 <= weighed(img.px(x, y)@) <= 10000 * one_unit(),
{
    lemma_displayable_pixel(img, x, y, 0);
    lemma_displayable_pixel(img, x, y, 1);
    lemma_displayable_pixel(img, x, y, 2);
    lemma_unit_value(img.px(x, y)@[0]);
    lemma_unit_value(img.px(x, y)@[1]);
    lemma_unit_value(img.px(x, y)@[2]);
}

/// The relative changes of all pixels against where they came from.
pub open spec fn change_over(
    prev: &GBuffer,
    next: &GBuffer,
    from: spec_fn(int, int) -> (int, int),
    k: nat,
) -> int {
    sum_over(
        |x: int, y: int|
            relative_change(
                next.color.px(x, y)@,
                prev.color.px(from(x, y).0, from(x, y).1)@,
            ),
        next.spec_width() as int,
        k,
    )
}

/// The residual is what motion leaves unexplained: four times the mean, over all
/// pixels, of how much a pixel's luminance differs from that of the place it came
/// from, as a share of the two, cut off at one, but for a thousandth of rounding.
/// This is for whole motions between lit pixels in `0..=1`.
pub proof fn law_the_residual_is_what_motion_leaves_unexplained(
    prev: &GBuffer,
    next: &GBuffer,
    reference_speed: F32,
    s: Signals,
    from: spec_fn(int, int) -> (int, int),
)
    requires
        comparable(prev, next),
        displayable(&prev.color),
        displayable(&next.color),
        next.spec_width() * next.spec_height() < 0x100_0000,
        call_ensures(measure_pair, (prev, next, reference_speed), s),
        forall|x: int, y: int|
            inside(next, x, y) ==> {
                let (sx, sy) = #[trigger] from(x, y);
                &&& comes_from(prev, next, x, y, sx, sy)
                &&& are_lit(next.color.px(x, y)@, prev.color.px(sx, sy)@)
            },
    ensures
        ({
            let n = next.spec_width() * next.spec_height();
            let change = 4 * change_over(prev, next, from, n as nat);
            let residual = s.motion_residual.value() * n;
            let off = 2200 * (slip() * n);
            &&& s.motion_residual.is_finite()
            &&& residual <= change + off
            &&& change <= residual + off || s.motion_residual == F32::one()
        }),
{
    reveal(F32::spec_clamp);
    let w = next.spec_width() as int;
    let h = next.spec_height() as int;
    let n = w * h;
    let u = one_unit();
    let d = pow2(1074) as int;
    let e = slip();
    next.color.lemma_wf();
    lemma_slip();
    lemma_pow2_pos(1074);
    lemma_units_of_both();
    assert(n > 0) by (nonlinear_arith)
        requires
            w > 0,
            h > 0,
            n == w * h,
    ;
    let a = lemma_change_totals(prev, next, from, n as nat) as int;
    let t = pair_totals(prev, next, n as nat);
    assert(t.residual_norm.gt(F64::zero())) by {
        assert(n * d > 0) by (nonlinear_arith)
            requires
                n > 0,
                d > 0,
        ;
        lemma_units_zero(Format::Double, t.residual_norm.key() as nat);
    }
    let x = units(Format::Double, t.residual.key() as nat) as int;
    lemma_total_size(x, a, n, u, d);
    lemma_mean_by(t.residual, t.residual_norm, n as nat);
    let g = (t.residual / t.residual_norm).to_f32();
    let z = g.value();
    assert(size(x - x) == 0 && x * 1 == x);
    assert(x >= 0);
    let zero = 0int;
    assert(zero * u == 0 && zero * d == 0) by (nonlinear_arith)
        requires
            zero == 0,
    ;
    assert(n * (u * d) >= 0) by (nonlinear_arith)
        requires
            n > 0,
            u > 0,
            d > 0,
    ;
    lemma_mean_change(z, x, x, zero, a, zero, n, u, d, e);
    assert(size(z * n - a) <= 8 * (e * n));
    // Four times that.
    lemma_four_value();
    lemma_four_times(g, n, a);
    let m = g * F32::four();
    lemma_mul_nonnegative(g, F32::four());
    assert(n * (525 * e) == 525 * (e * n)) by (nonlinear_arith);
    lemma_order(m, F32::zero());
    lemma_order(F32::zero(), m);
    lemma_order(m, F32::one());
    lemma_order(F32::one(), m);
    if m.le(F32::one()) {
        assert(s.motion_residual.key() == m.key());
        lemma_order(s.motion_residual, m);
        lemma_order(m, s.motion_residual);
    } else {
        assert(s.motion_residual == F32::one());
        assert(u * n <= m.value() * n) by (nonlinear_arith)
            requires
                u <= m.value(),
                n > 0,
        ;
    }
}

/// Four times a mean.
proof fn lemma_four_times(g: F32, n: int, exact: int)
    requires
        g.is_finite(),
        g.value() >= 0,
        n > 0,
        size(g.value() * n - exact) <= 8 * (slip() * n),
        0 <= exact,
        2 * exact <= 3 * (n * one_unit()),
    ensures
        (g * F32::four()).is_finite(),
        size((g * F32::four()).value() * n - 4 * exact) <= 33 * (slip() * n),
{
    let u = one_unit();
    let e = slip();
    let z = g.value();
    lemma_slip();
    lemma_four_value();
    assert(0 <= z <= 2 * u) by (nonlinear_arith)
        requires
            size(z * n - exact) <= 8 * (e * n),
            0 <= 2 * exact <= 3 * (n * u),
            n > 0,
            z >= 0,
            u == 0x20_0000 * e,
            e > 0,
    {
        assert(z * n <= 2 * (n * u));
        assert((2 * u) * n == 2 * (n * u));
    }
    assert(0 <= z * (4 * u) <= 8 * u * u) by (nonlinear_arith)
        requires
            0 <= z <= 2 * u,
    ;
    lemma_mul_close(g, F32::four());
    let v = (g * F32::four()).value();
    assert(size(v - 4 * z) <= e) by (nonlinear_arith)
        requires
            -e * u <= v * u - z * (4 * u) <= e * u,
            u > 0,
    ;
    assert(size(v * n - 4 * exact) <= 33 * (e * n)) by (nonlinear_arith)
        requires
            size(v - 4 * z) <= e,
            size(z * n - exact) <= 8 * (e * n),
            n > 0,
    {
        assert((v - 4 * z) * n == v * n - 4 * (z * n));
        assert(-(e * n) <= (v - 4 * z) * n <= e * n);
    }
}

} // verus!
