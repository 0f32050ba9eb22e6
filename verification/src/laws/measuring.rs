//! Measuring: what a pair of frames is measured as is a set of fractions.

use crate::fp::facts::{
    lemma_add_key, lemma_div_sign, lemma_from_whole, lemma_mul_zero, lemma_one_minus, lemma_order,
    lemma_product_small, lemma_ratio_ends, lemma_ratio_key, lemma_ratio_le, lemma_ratio_sign,
    lemma_round_positive, lemma_round_top, lemma_round_upper, lemma_rounds_to_itself,
    lemma_sub_key, lemma_unity, lemma_widened,
};
use crate::fp::model::{lemma_pow2_le, round_mag, units, Format};
use crate::fp::raw::{lemma_units_monotone, lemma_units_zero};
use crate::fp::round::lemma_round_zero;
use crate::fp::{F32, F64};
use crate::frame::{blended, scaled, spec_after, GBuffer, ImageBuffer, Texel};
use crate::laws::filling::lemma_coordinates;
use crate::laws::pacing::{lemma_upright_quotient, lemma_upright_sum, upright};
use crate::laws::sampling::{
    alike, center, lane_is_finite, law_sampling_a_pixel_center_is_exact, lemma_alike_luma,
    lemma_fraction_left, lemma_pixel_is_finite, lemma_stays,
};
use crate::laws::trust::in_unit;
use crate::signals::{
    pair_totals, signals_of, spec_came_from, spec_luma, unexplained, with_pixel, PairTotals,
};
use vstd::arithmetic::power2::{
    lemma2_to64, lemma2_to64_rest, lemma_pow2_adds, lemma_pow2_pos, pow2,
};
use vstd::prelude::*;

verus! {

/// A number with a clear sign, in the shorter format.
spec fn sound(x: F32) -> bool {
    !x.is_nan() && x.bits < 0x8000_0000
}

/// A thousandth is something.
pub proof fn lemma_thousandth()
    ensures
        F32::ratio(1, 1000).is_finite(),
        F32::ratio(1, 1000).key() > 0,
{
    lemma_ratio_key(1, 1000);
    lemma2_to64();
    lemma_pow2_le(24, 149);
    assert(1 * pow2(149) == pow2(149));
    lemma_round_positive(Format::Single, pow2(149), 1000);
}

/// A square is not negative, nor is what two of them add up to, nor its root.
proof fn lemma_length(a: F32, b: F32)
    requires
        !a.is_nan(),
        !b.is_nan(),
    ensures
        sound((a * a + b * b).sqrt()),
{
    let f = Format::Single;
    assert(sound(a * a)) by {
        reveal(F32::spec_mul);
        let m = units(f, a.raw().mag as nat);
        lemma_round_top(f, m * m, pow2(149));
    }
    assert(sound(b * b)) by {
        reveal(F32::spec_mul);
        let m = units(f, b.raw().mag as nat);
        lemma_round_top(f, m * m, pow2(149));
    }
    assert(sound(a * a + b * b)) by {
        reveal(F32::spec_add);
        let n = (a * a).value() + (b * b).value();
        lemma_round_top(f, n as nat, 1);
    }
    reveal(F32::spec_sqrt);
}

/// Widening keeps a clear sign.
proof fn lemma_widened_sound(x: F32)
    requires
        sound(x),
    ensures
        upright(x.to_f64()),
{
    reveal(F32::spec_to_f64);
    lemma_round_top(
        Format::Double,
        units(Format::Single, x.raw().mag as nat) * pow2(1074),
        pow2(149),
    );
}

/// And so does going back.
proof fn lemma_narrowed_sound(x: F64)
    requires
        upright(x),
    ensures
        sound(x.to_f32()),
{
    reveal(F64::spec_to_f32);
    lemma_round_top(
        Format::Single,
        units(Format::Double, x.raw().mag as nat) * pow2(149),
        pow2(1074),
    );
}

/// Products and quotients with a positive number keep a clear sign, and within
/// limits they are fractions.
proof fn lemma_sound_part(x: F32, k: F32)
    requires
        sound(x),
        k.is_finite(),
        k.key() > 0,
    ensures
        in_unit((x * k).clamp(F32::zero(), F32::one())),
        in_unit((x / k).clamp(F32::zero(), F32::one())),
{
    reveal(F32::spec_mul);
    reveal(F32::spec_div);
    reveal(F32::spec_clamp);
    let f = Format::Single;
    let m = units(f, x.raw().mag as nat);
    let n = units(f, k.raw().mag as nat);
    lemma_round_top(f, m * n, pow2(149));
    lemma_round_top(f, m * pow2(149), n);
}

/// A ratio of magnitudes that is a number is not negative.
proof fn lemma_unexplained_sound(a: F32, b: F32)
    requires
        !unexplained(a, b).is_nan(),
    ensures
        sound(unexplained(a, b)),
{
    reveal(F32::spec_div);
    reveal(F32::spec_add);
    reveal(F32::spec_max);
    let f = Format::Single;
    let over = (a - b).abs();
    let under = (a.abs() + b.abs()).max(F32::ratio(1, 1000));
    lemma_ratio_key(1, 1000);
    lemma_round_top(
        f,
        units(f, over.raw().mag as nat) * pow2(149),
        units(f, under.raw().mag as nat),
    );
    let n = a.abs().value() + b.abs().value();
    lemma_round_top(f, n as nat, 1);
    assert(under.bits < 0x8000_0000 || under.is_nan()) by {
        lemma_ratio_sign(1, 1000);
    }
}

/// Whether a total of `k` single-precision numbers is within what they can add
/// up to.
spec fn bounded(x: F64, k: nat) -> bool {
    &&& x.is_finite()
    &&& -(k * pow2(1202)) <= x.value() <= k * pow2(1202)
}

/// One more number keeps a total within bounds.
proof fn lemma_bounded_sum(t: F64, x: F64, k: nat)
    requires
        bounded(t, k),
        bounded(x, 1),
        k < 0x1_0000_0000,
    ensures
        bounded(t + x, k + 1),
{
    reveal(F64::spec_add);
    let f = Format::Double;
    let v = t.value() + x.value();
    let n = if v < 0 {
        (-v) as nat
    } else {
        v as nat
    };
    let u = pow2(1202);
    assert((k + 1) * u == k * u + 1 * u) by (nonlinear_arith);
    lemma2_to64();
    lemma2_to64_rest();
    let h = pow2((f.p() - 1) as nat);
    assert((1202 + 2) * h <= f.top()) by (nonlinear_arith)
        requires
            h == 0x10_0000_0000_0000,
            f.top() == 0x7ff0_0000_0000_0000,
    ;
    assert(n <= ((k + 1) * u) * 1);
    lemma_round_upper(f, n, 1, k + 1, 1202);
    lemma_units_zero(f, 0);
}

/// A finite number of the shorter format is within bounds.
proof fn lemma_bounded_one(x: F32)
    requires
        x.is_finite(),
    ensures
        bounded(x.to_f64(), 1),
{
    let m = x.abs();
    lemma_widened(m);
    assert(1 * pow2(1202) == pow2(1202));
    reveal(F32::spec_to_f64);
    assert(x.to_f64().raw().mag == m.to_f64().raw().mag);
    let f = Format::Double;
    lemma_units_zero(f, m.to_f64().raw().mag as nat);
}

/// One is within bounds.
proof fn lemma_bounded_unit()
    ensures
        bounded(F64::one(), 1),
        upright(F64::one()),
{
    lemma_unity(Format::Double);
    lemma_pow2_le(1074, 1202);
    assert(1 * pow2(1202) == pow2(1202));
}

/// Whether a pixel of a pair of frames can be measured: its luminances are
/// finite, the change that its motion leaves unexplained is a number, and so is
/// the motion.
pub open spec fn measurable(prev: &GBuffer, next: &GBuffer, x: u32, y: u32) -> bool {
    let l_next = spec_luma(next.color.px(x as int, y as int)@);
    let mv = next.motion.px(x as int, y as int)@;
    let there = prev.color.sampled(spec_came_from(x, mv[0]), spec_came_from(y, mv[1]));
    &&& l_next.is_finite()
    &&& spec_luma(prev.color.px(x as int, y as int)@).is_finite()
    &&& !unexplained(l_next, spec_luma(there)).is_nan()
    &&& !mv[0].is_nan()
    &&& !mv[1].is_nan()
}

/// Totals over `k` pixels that can be measured.
spec fn tame(t: PairTotals, k: nat) -> bool {
    &&& upright(t.residual)
    &&& upright(t.residual_norm)
    &&& bounded(t.residual_norm, k)
    &&& upright(t.speed)
    &&& bounded(t.luma_prev, k)
    &&& bounded(t.luma_next, k)
}

proof fn lemma_tame_pixel(t: PairTotals, prev: &GBuffer, next: &GBuffer, x: u32, y: u32, k: nat)
    requires
        tame(t, k),
        measurable(prev, next, x, y),
        k < 0x1_0000_0000,
    ensures
        tame(with_pixel(t, prev, next, x, y), k + 1),
{
    let l_next = spec_luma(next.color.px(x as int, y as int)@);
    let l_prev = spec_luma(prev.color.px(x as int, y as int)@);
    let mv = next.motion.px(x as int, y as int)@;
    let there = prev.color.sampled(spec_came_from(x, mv[0]), spec_came_from(y, mv[1]));
    let change = unexplained(l_next, spec_luma(there));
    lemma_unexplained_sound(l_next, spec_luma(there));
    lemma_widened_sound(change);
    lemma_upright_sum(t.residual, change.to_f64());
    lemma_bounded_unit();
    lemma_upright_sum(t.residual_norm, F64::one());
    lemma_bounded_sum(t.residual_norm, F64::one(), k);
    let speed = (mv[0] * mv[0] + mv[1] * mv[1]).sqrt();
    lemma_length(mv[0], mv[1]);
    lemma_widened_sound(speed);
    lemma_upright_sum(t.speed, speed.to_f64());
    lemma_bounded_one(l_prev);
    lemma_bounded_one(l_next);
    lemma_bounded_sum(t.luma_prev, l_prev.to_f64(), k);
    lemma_bounded_sum(t.luma_next, l_next.to_f64(), k);
}

proof fn lemma_tame_totals(prev: &GBuffer, next: &GBuffer, k: nat)
    requires
        next.wf(),
        k <= next.spec_width() * next.spec_height() <= u32::MAX,
        forall|x: u32, y: u32|
            x < next.spec_width() && y < next.spec_height() ==> measurable(prev, next, x, y),
    ensures
        tame(pair_totals(prev, next, k), k),
    decreases k,
{
    if k == 0 {
        assert(0 * pow2(1202) == 0) by (nonlinear_arith);
        lemma_units_zero(Format::Double, 0);
    } else {
        lemma_tame_totals(prev, next, (k - 1) as nat);
        next.color.lemma_wf();
        let w = next.spec_width() as int;
        let h = next.spec_height() as int;
        let x = (k - 1) % w;
        let y = (k - 1) / w;
        lemma_coordinates(k - 1, w, h);
        assert(measurable(prev, next, x as u32, y as u32));
        lemma_tame_pixel(
            pair_totals(prev, next, (k - 1) as nat),
            prev,
            next,
            x as u32,
            y as u32,
            (k - 1) as nat,
        );
    }
}

/// A count of pixels, in either format.
pub proof fn lemma_count(n: u32)
    requires
        n > 0,
    ensures
        F32::from_u32(n).is_finite(),
        F32::from_u32(n).key() > 0,
        F32::from_u32(n).to_f64().is_finite(),
        F32::from_u32(n).to_f64().key() > 0,
        upright(F32::from_u32(n).to_f64()),
{
    lemma_from_whole(n as u64);
    lemma_pow2_pos(149);
    assert(n as nat * pow2(149) >= 1) by (nonlinear_arith)
        requires
            n > 0,
            pow2(149) > 0,
    ;
    lemma_round_positive(Format::Single, n as nat * pow2(149), 1);
    lemma_widened(F32::from_u32(n));
}

/// Measured signals are fractions: for frames whose pixels can all be measured,
/// and a reference speed that is not infinite, each of the four measured signals
/// is in `0..=1`, and the two that are not measured here are nothing.
pub proof fn law_measured_signals_are_fractions(
    prev: &GBuffer,
    next: &GBuffer,
    reference_speed: F32,
)
    requires
        next.wf(),
        next.spec_width() * next.spec_height() <= u32::MAX,
        reference_speed != F32::infinity(),
        forall|x: u32, y: u32|
            x < next.spec_width() && y < next.spec_height() ==> measurable(prev, next, x, y),
    ensures
        ({
            let n = next.spec_width() * next.spec_height();
            let s = signals_of(pair_totals(prev, next, n as nat), n as u32, reference_speed);
            &&& in_unit(s.motion_residual)
            &&& in_unit(s.luma_shift)
            &&& in_unit(s.camera_motion)
            &&& in_unit(s.depth_complexity)
            &&& s.disocclusion == F32::zero()
            &&& s.pacing_instability == F32::zero()
        }),
{
    let w = next.spec_width() as int;
    let h = next.spec_height() as int;
    let n = w * h;
    next.color.lemma_wf();
    assert(n > 0) by (nonlinear_arith)
        requires
            w > 0,
            h > 0,
            n == w * h,
    ;
    let t = pair_totals(prev, next, n as nat);
    lemma_tame_totals(prev, next, n as nat);
    let count = F32::from_u32(n as u32);
    lemma_count(n as u32);
    let four = F32::four();
    assert(four.is_finite() && four.key() > 0);

    // Residual.
    if t.residual_norm.gt(F64::zero()) {
        lemma_upright_quotient(t.residual, t.residual_norm);
        lemma_narrowed_sound(t.residual / t.residual_norm);
        lemma_sound_part((t.residual / t.residual_norm).to_f32(), four);
    } else {
        lemma_sound_part(F32::zero(), four);
    }

    // Luminance.
    let d = t.luma_next - t.luma_prev;
    assert(!d.is_nan()) by {
        reveal(F64::spec_sub);
        let v = t.luma_next.value() - t.luma_prev.value();
        lemma_round_top(Format::Double, v as nat, 1);
        lemma_round_top(Format::Double, (-v) as nat, 1);
    }
    lemma_upright_quotient(d.abs(), count.to_f64());
    lemma_narrowed_sound(d.abs() / count.to_f64());
    lemma_sound_part((d.abs() / count.to_f64()).to_f32(), four);

    // Speed.
    let reference = reference_speed.max(F32::ratio(1, 1000));
    assert(reference.is_finite() && reference.key() > 0) by {
        reveal(F32::spec_max);
        lemma_thousandth();
    }
    lemma_upright_quotient(t.speed, count.to_f64());
    lemma_narrowed_sound(t.speed / count.to_f64());
    lemma_sound_part((t.speed / count.to_f64()).to_f32(), reference);

    // Discontinuities.
    let jumps = F32::from_u32(t.discontinuities);
    assert(sound(jumps)) by {
        reveal(F32::spec_from_u64);
        lemma_from_whole(t.discontinuities as u64);
        lemma_round_top(Format::Single, t.discontinuities as nat * pow2(149), 1);
    }
    lemma_sound_part(jumps, count);
}

/// Whether a number has a magnitude of at most `2^120`: far from the largest.
pub open spec fn moderate(x: F32) -> bool {
    x.is_finite() && x.abs().le(F32 { bits: 0x7b80_0000 })
}

/// Whether every channel of a plane is moderate.
pub open spec fn all_moderate(img: &ImageBuffer) -> bool {
    forall|x: int, y: int, c: int| 0 <= c < 4 ==> moderate(#[trigger] img.px(x, y)@[c])
}

/// Whether a number is finite and at most `m` times `2^104` from zero.
spec fn within(x: F32, m: nat) -> bool {
    &&& x.is_finite()
    &&& -(m * pow2(253)) <= x.value() <= m * pow2(253)
}

/// Moderate numbers are within a bound.
proof fn lemma_moderate(x: F32)
    requires
        moderate(x),
    ensures
        within(x, 0x1_0000),
{
    let f = Format::Single;
    let most = 0x7b80_0000nat;
    lemma2_to64();
    lemma_units_monotone(f, x.raw().mag as nat, most);
    assert(most / 0x80_0000 == 247 && most % 0x80_0000 == 0);
    assert(units(f, most) == 0x80_0000 * pow2(246));
    lemma_pow2_adds(7, 246);
    assert(0x80_0000 * pow2(246) == 0x1_0000 * pow2(253)) by (nonlinear_arith)
        requires
            pow2(253) == 0x80 * pow2(246),
    ;
}

/// A part of a number is within the same bound.
proof fn lemma_within_part(x: F32, t: F32, m: nat)
    requires
        within(x, m),
        in_unit(t),
    ensures
        within(x * t, m),
        within(t * x, m),
{
    reveal(F32::spec_mul);
    let f = Format::Single;
    let a = x.raw().mag as nat;
    let b = t.raw().mag as nat;
    assert(units(f, a) * units(f, b) == units(f, b) * units(f, a)) by (nonlinear_arith);
    lemma_product_small(f, a, b);
    let r = round_mag(f, units(f, a) * units(f, b), pow2(149));
    lemma_units_monotone(f, r, a);
    lemma_units_zero(f, a);
    lemma_units_zero(f, r);
}

/// The sum and the difference of two numbers are within the sum of their bounds.
proof fn lemma_within_sum(x: F32, y: F32, m: nat, n: nat)
    requires
        within(x, m),
        within(y, n),
        m + n < 0x100_0000,
    ensures
        within(x + y, m + n),
        within(x - y, m + n),
{
    reveal(F32::spec_add);
    reveal(F32::spec_sub);
    let f = Format::Single;
    let u = pow2(253);
    assert((m + n) * u == m * u + n * u) by (nonlinear_arith);
    assert(y.raw().negated().value(f) == -y.value());
    lemma_within_round(x.value() + y.value(), m + n);
    lemma_within_round(x.value() - y.value(), m + n);
    lemma_units_zero(f, 0);
}

/// Rounding does not leave a bound.
proof fn lemma_within_round(v: int, m: nat)
    requires
        -(m * pow2(253)) <= v <= m * pow2(253),
        m < 0x100_0000,
    ensures
        v >= 0 ==> round_mag(Format::Single, v as nat, 1) < 0x7f80_0000 && units(
            Format::Single,
            round_mag(Format::Single, v as nat, 1),
        ) <= m * pow2(253),
        v < 0 ==> round_mag(Format::Single, (-v) as nat, 1) < 0x7f80_0000 && units(
            Format::Single,
            round_mag(Format::Single, (-v) as nat, 1),
        ) <= m * pow2(253),
{
    let f = Format::Single;
    lemma2_to64();
    let h = pow2((f.p() - 1) as nat);
    assert((253 + 2) * h <= f.top()) by (nonlinear_arith)
        requires
            h == 0x80_0000,
            f.top() == 0x7f80_0000,
    ;
    let n = if v < 0 {
        (-v) as nat
    } else {
        v as nat
    };
    assert(n <= (m * pow2(253)) * 1);
    lemma_round_upper(f, n, 1, m, 253);
}

/// The luminance of moderate channels.
proof fn lemma_luma_within(c: Seq<F32>, m: nat)
    requires
        within(c[0], m),
        within(c[1], m),
        within(c[2], m),
        3 * m < 0x100_0000,
    ensures
        within(spec_luma(c), 3 * m),
{
    let r = F32::ratio(2126, 10000);
    let g = F32::ratio(7152, 10000);
    let b = F32::ratio(722, 10000);
    lemma_ratio_ends(10000);
    lemma_ratio_key(2126, 10000);
    lemma_ratio_key(7152, 10000);
    lemma_ratio_key(722, 10000);
    lemma_ratio_le(2126, 10000, 10000, 10000);
    lemma_ratio_le(7152, 10000, 10000, 10000);
    lemma_ratio_le(722, 10000, 10000, 10000);
    lemma_within_part(c[0], r, m);
    lemma_within_part(c[1], g, m);
    lemma_within_part(c[2], b, m);
    lemma_within_sum(r * c[0], g * c[1], m, m);
    lemma_within_sum(r * c[0] + g * c[1], b * c[2], 2 * m, m);
}

/// A blend of two numbers.
proof fn lemma_blend_within(a: Seq<F32>, b: Seq<F32>, t: F32, m: nat, i: int)
    requires
        within(a[i], m),
        within(b[i], m),
        in_unit(t),
        2 * m < 0x100_0000,
        0 <= i < a.len(),
        a.len() == b.len(),
    ensures
        within(blended(a, b, t)[i], 2 * m),
        blended(a, b, t).len() == a.len(),
{
    let rest = F32::one() - t;
    lemma_one_minus(t);
    lemma_within_part(a[i], rest, m);
    lemma_within_part(b[i], t, m);
    lemma_within_sum(a[i] * rest, b[i] * t, m, m);
    assert(scaled(a, rest)[i] == a[i] * rest);
    assert(scaled(b, t)[i] == b[i] * t);
    assert(blended(a, b, t)[i] == a[i] * rest + b[i] * t);
}

/// Where a pixel came from, with moderate motion.
proof fn lemma_came_from_within(v: u32, motion: F32)
    requires
        moderate(motion),
    ensures
        (spec_came_from(v, motion) - F32::half()).is_finite(),
{
    let f = Format::Single;
    let x = F32::from_u32(v);
    let half = F32::half();
    lemma_from_whole(v as u64);
    lemma2_to64();
    lemma_pow2_adds(32, 149);
    lemma_pow2_le(181, 253);
    assert(pow2(32) == 0x1_0000_0000);
    assert(1 * pow2(253) == pow2(253));
    assert(v as nat * pow2(149) <= pow2(253)) by (nonlinear_arith)
        requires
            v < 0x1_0000_0000,
            0x1_0000_0000 * pow2(149) <= pow2(253),
    ;
    lemma_within_round(v * pow2(149), 1);
    lemma_order(x, x);
    assert(within(x, 1));
    assert(within(half, 1)) by {
        assert(moderate(F32::half()));
        assert(0x3f00_0000nat / 0x80_0000nat == 126 && 0x3f00_0000nat % 0x80_0000nat == 0);
        lemma_pow2_adds(23, 125);
        lemma_pow2_le(148, 253);
        assert(units(f, 0x3f00_0000) == pow2(148));
    }
    lemma_moderate(motion);
    lemma_within_sum(x, half, 1, 1);
    lemma_within_sum(x + half, motion, 2, 0x1_0000);
    lemma_within_sum(x + half + motion, half, 0x1_0002, 1);
}

/// A sample of moderate pixels at a place that is a number.
proof fn lemma_sample_within(img: &ImageBuffer, x: F32, y: F32, i: int)
    requires
        all_moderate(img),
        (x - F32::half()).is_finite(),
        (y - F32::half()).is_finite(),
        0 <= i < 4,
    ensures
        within(img.sampled(x, y)[i], 0x4_0000),
{
    let fx = x - F32::half();
    let fy = y - F32::half();
    let tx = fx - fx.floor();
    let ty = fy - fy.floor();
    lemma_fraction_left(fx);
    lemma_fraction_left(fy);
    let x0 = fx.floor().to_i32();
    let y0 = fy.floor().to_i32();
    let x1 = spec_after(x0) as int;
    let y1 = spec_after(y0) as int;
    let a = img.px(x0 as int, y0 as int)@;
    let b = img.px(x1, y0 as int)@;
    let c = img.px(x0 as int, y1)@;
    let d = img.px(x1, y1)@;
    assert(moderate(img.px(x0 as int, y0 as int)@[i]) && moderate(img.px(x1, y0 as int)@[i]));
    assert(moderate(img.px(x0 as int, y1)@[i]) && moderate(img.px(x1, y1)@[i]));
    lemma_moderate(a[i]);
    lemma_moderate(b[i]);
    lemma_moderate(c[i]);
    lemma_moderate(d[i]);
    lemma_blend_within(a, b, tx, 0x1_0000, i);
    lemma_blend_within(c, d, tx, 0x1_0000, i);
    lemma_blend_within(blended(a, b, tx), blended(c, d, tx), ty, 0x2_0000, i);
}

/// Ordinary frames can be measured: where no channel and no motion is beyond
/// `2^120`, every pixel can, and so every measured signal is a fraction.
pub proof fn law_ordinary_frames_can_be_measured(prev: &GBuffer, next: &GBuffer, x: u32, y: u32)
    requires
        all_moderate(&prev.color),
        all_moderate(&next.color),
        moderate(next.motion.px(x as int, y as int)@[0]),
        moderate(next.motion.px(x as int, y as int)@[1]),
    ensures
        measurable(prev, next, x, y),
{
    let here = next.color.px(x as int, y as int)@;
    let before = prev.color.px(x as int, y as int)@;
    let mv = next.motion.px(x as int, y as int)@;
    let sx = spec_came_from(x, mv[0]);
    let sy = spec_came_from(y, mv[1]);
    let there = prev.color.sampled(sx, sy);
    lemma_came_from_within(x, mv[0]);
    lemma_came_from_within(y, mv[1]);
    assert forall|i: int| 0 <= i < 3 implies within(#[trigger] here[i], 0x1_0000) && within(
        before[i],
        0x1_0000,
    ) && within(there[i], 0x4_0000) by {
        assert(moderate(next.color.px(x as int, y as int)@[i]));
        assert(moderate(prev.color.px(x as int, y as int)@[i]));
        lemma_moderate(here[i]);
        lemma_moderate(before[i]);
        lemma_sample_within(&prev.color, sx, sy, i);
    }
    assert(within(here[0], 0x1_0000) && within(here[1], 0x1_0000) && within(here[2], 0x1_0000));
    lemma_luma_within(here, 0x1_0000);
    lemma_luma_within(before, 0x1_0000);
    lemma_luma_within(there, 0x4_0000);
    let a = spec_luma(here);
    let b = spec_luma(there);
    lemma_within_sum(a, b, 0x3_0000, 0xc_0000);
    lemma_within_sum(a.abs(), b.abs(), 0x3_0000, 0xc_0000);
    let over = (a - b).abs();
    let under = (a.abs() + b.abs()).max(F32::ratio(1, 1000));
    assert(under.is_finite() && under.key() > 0) by {
        reveal(F32::spec_max);
        lemma_thousandth();
    }
    lemma_div_sign(over, under);
}

/// Whether two frames show the same picture of finite pixels, and nothing moves.
pub open spec fn shows_the_same(prev: &GBuffer, next: &GBuffer) -> bool {
    &&& prev.wf()
    &&& next.wf()
    &&& prev.spec_width() == next.spec_width() < 0x80_0000
    &&& prev.spec_height() == next.spec_height() < 0x80_0000
    &&& forall|x: int, y: int| prev.color.px(x, y)@ == #[trigger] next.color.px(x, y)@
    &&& forall|i: int| 0 <= i < 4 ==> #[trigger] lane_is_finite(&prev.color, i)
    &&& forall|x: int, y: int, i: int|
        0 <= i < 2 ==> (#[trigger] next.motion.px(x, y)@[i]).key() == 0
}

/// Luminances that are alike leave nothing unexplained.
pub proof fn lemma_explained(a: F32, b: F32)
    requires
        a.is_finite(),
        alike(a, b),
    ensures
        unexplained(a, b).key() == 0,
{
    let f = Format::Single;
    let over = (a - b).abs();
    let sum = a.abs() + b.abs();
    let under = sum.max(F32::ratio(1, 1000));
    lemma_order(a, b);
    lemma_order(b, a);
    lemma_sub_key(a, b);
    lemma_rounds_to_itself(F32::zero());
    lemma_order(F32::zero(), F32::zero());
    assert(over.key() == 0);
    lemma_add_key(a.abs(), b.abs());
    assert(!under.is_nan() && under.key() > 0) by {
        reveal(F32::spec_max);
        lemma_thousandth();
    }
    reveal(F32::spec_div);
    lemma_units_zero(f, 0);
    if under.is_finite() {
        lemma_units_zero(f, under.raw().mag as nat);
        assert(0 * pow2(149) == 0) by (nonlinear_arith);
        lemma_round_zero(f, units(f, under.raw().mag as nat));
    }
}

/// Nothing is nothing in either format.
pub proof fn lemma_nothing(x: F32)
    requires
        x.key() == 0,
    ensures
        x.to_f64().key() == 0,
{
    reveal(F32::spec_to_f64);
    lemma_units_zero(Format::Single, 0);
    assert(0 * pow2(1074) == 0) by (nonlinear_arith);
    lemma_pow2_pos(149);
    lemma_round_zero(Format::Double, pow2(149));
}

/// Nothing and nothing are nothing.
pub proof fn lemma_nothing_more(t: F64, x: F64)
    requires
        t.key() == 0,
        x.key() == 0,
    ensures
        (t + x).key() == 0,
{
    reveal(F64::spec_add);
    lemma_units_zero(Format::Double, 0);
}

/// A share of nothing, in the shorter format, is nothing.
pub proof fn lemma_share_of_nothing(t: F64, n: F64)
    requires
        t.key() == 0,
        n.is_finite(),
        n.key() > 0,
    ensures
        (t / n).to_f32().key() == 0,
{
    let f = Format::Double;
    assert((t / n).key() == 0) by {
        reveal(F64::spec_div);
        lemma_units_zero(f, 0);
        lemma_units_zero(f, n.raw().mag as nat);
        assert(0 * pow2(1074) == 0) by (nonlinear_arith);
        lemma_round_zero(f, units(f, n.raw().mag as nat));
    }
    reveal(F64::spec_to_f32);
    lemma_units_zero(f, 0);
    assert(0 * pow2(149) == 0) by (nonlinear_arith);
    lemma_pow2_pos(1074);
    lemma_round_zero(Format::Single, pow2(1074));
}

/// No motion has no length.
proof fn lemma_no_length(a: F32, b: F32)
    requires
        a.key() == 0,
        b.key() == 0,
    ensures
        (a * a + b * b).sqrt().key() == 0,
{
    lemma_mul_zero(a, a);
    lemma_mul_zero(b, b);
    lemma_add_key(a * a, b * b);
    lemma_order(a * a, F32::zero());
    lemma_order(b * b, F32::zero());
    lemma_rounds_to_itself(F32::zero());
    reveal(F32::spec_sqrt);
}

/// Totals over pixels of which none has changed.
spec fn quiet(t: PairTotals) -> bool {
    &&& t.residual.key() == 0
    &&& t.speed.key() == 0
    &&& t.luma_prev == t.luma_next
}

/// A pixel of two frames that show the same can be measured, and has not
/// changed.
proof fn lemma_quiet_pixel(t: PairTotals, prev: &GBuffer, next: &GBuffer, x: u32, y: u32)
    requires
        quiet(t),
        shows_the_same(prev, next),
        spec_luma(next.color.px(x as int, y as int)@).is_finite(),
        x < next.spec_width(),
        y < next.spec_height(),
    ensures
        measurable(prev, next, x, y),
        quiet(with_pixel(t, prev, next, x, y)),
{
    let here = next.color.px(x as int, y as int)@;
    let before = prev.color.px(x as int, y as int)@;
    let mv = next.motion.px(x as int, y as int)@;
    assert(mv[0].key() == 0 && mv[1].key() == 0);
    lemma_stays(x, mv[0]);
    lemma_stays(y, mv[1]);
    assert(spec_came_from(x, mv[0]) == center(x) && spec_came_from(y, mv[1]) == center(y));
    let there = prev.color.sampled(center(x), center(y));
    assert forall|j: int| 0 <= j < 3 implies #[trigger] here[j].is_finite() && there[j].is_finite()
        && alike(here[j], there[j]) by {
        assert(lane_is_finite(&prev.color, j));
        law_sampling_a_pixel_center_is_exact(&prev.color, x, y, j);
        lemma_pixel_is_finite(&prev.color, x as int, y as int, j);
        assert(before == prev.color.px(x as int, y as int).lanes());
        assert(before == here);
    }
    lemma_alike_luma(here, there);
    let change = unexplained(spec_luma(here), spec_luma(there));
    lemma_explained(spec_luma(here), spec_luma(there));
    lemma_nothing(change);
    lemma_nothing_more(t.residual, change.to_f64());
    let length = (mv[0] * mv[0] + mv[1] * mv[1]).sqrt();
    lemma_no_length(mv[0], mv[1]);
    lemma_nothing(length);
    lemma_nothing_more(t.speed, length.to_f64());
}

proof fn lemma_quiet_totals(prev: &GBuffer, next: &GBuffer, k: nat)
    requires
        shows_the_same(prev, next),
        k <= next.spec_width() * next.spec_height() <= u32::MAX,
        forall|x: u32, y: u32|
            x < next.spec_width() && y < next.spec_height() ==> spec_luma(
                #[trigger] next.color.px(x as int, y as int)@,
            ).is_finite(),
    ensures
        quiet(pair_totals(prev, next, k)),
    decreases k,
{
    if k > 0 {
        lemma_quiet_totals(prev, next, (k - 1) as nat);
        next.color.lemma_wf();
        let w = next.spec_width() as int;
        lemma_coordinates(k - 1, w, next.spec_height() as int);
        let x = ((k - 1) % w) as u32;
        let y = ((k - 1) / w) as u32;
        assert(spec_luma(next.color.px(x as int, y as int)@).is_finite());
        lemma_quiet_pixel(pair_totals(prev, next, (k - 1) as nat), prev, next, x, y);
    }
}

/// A signal that is nothing stays so, however it is scaled.
pub proof fn lemma_scaled_nothing(x: F32, k: F32)
    requires
        x.key() == 0,
        k.is_finite(),
        k.key() > 0,
    ensures
        (x * k).clamp(F32::zero(), F32::one()).key() == 0,
        (x / k).clamp(F32::zero(), F32::one()).key() == 0,
{
    reveal(F32::spec_clamp);
    lemma_mul_zero(k, x);
    lemma_div_sign(x, k);
}

/// Identical images measure as nothing: where two frames show the same finite
/// pixels and nothing moves, no residual, no shift in luminance and no camera
/// motion is measured.
pub proof fn law_identical_images_measure_as_nothing(
    prev: &GBuffer,
    next: &GBuffer,
    reference_speed: F32,
)
    requires
        shows_the_same(prev, next),
        next.spec_width() * next.spec_height() <= u32::MAX,
        forall|x: u32, y: u32|
            x < next.spec_width() && y < next.spec_height() ==> spec_luma(
                #[trigger] next.color.px(x as int, y as int)@,
            ).is_finite(),
    ensures
        ({
            let n = next.spec_width() * next.spec_height();
            let s = signals_of(pair_totals(prev, next, n as nat), n as u32, reference_speed);
            &&& s.motion_residual.key() == 0
            &&& s.luma_shift.key() == 0
            &&& s.camera_motion.key() == 0
        }),
{
    let w = next.spec_width() as int;
    let h = next.spec_height() as int;
    let n = w * h;
    next.color.lemma_wf();
    assert(n > 0) by (nonlinear_arith)
        requires
            w > 0,
            h > 0,
            n == w * h,
    ;
    assert forall|x: u32, y: u32| x < w && y < h implies measurable(prev, next, x, y) by {
        assert(spec_luma(next.color.px(x as int, y as int)@).is_finite());
        lemma_quiet_pixel(PairTotals::empty(), prev, next, x, y);
    }
    let t = pair_totals(prev, next, n as nat);
    lemma_tame_totals(prev, next, n as nat);
    lemma_quiet_totals(prev, next, n as nat);
    let count = F32::from_u32(n as u32).to_f64();
    lemma_count(n as u32);
    let four = F32::four();
    assert(four.is_finite() && four.key() > 0);

    // Residual.
    if t.residual_norm.gt(F64::zero()) {
        lemma_share_of_nothing(t.residual, t.residual_norm);
        lemma_scaled_nothing((t.residual / t.residual_norm).to_f32(), four);
    } else {
        lemma_scaled_nothing(F32::zero(), four);
    }

    // Luminance.
    let d = t.luma_next - t.luma_prev;
    assert(d.abs().key() == 0) by {
        reveal(F64::spec_sub);
        assert(t.luma_prev.raw().negated().value(Format::Double) == -t.luma_prev.value());
    }
    lemma_share_of_nothing(d.abs(), count);
    lemma_scaled_nothing((d.abs() / count).to_f32(), four);

    // Speed.
    lemma_share_of_nothing(t.speed, count);
    let reference = reference_speed.max(F32::ratio(1, 1000));
    let mean = (t.speed / count).to_f32();
    assert((mean / reference).clamp(F32::zero(), F32::one()).key() == 0) by {
        lemma_thousandth();
        if reference.is_finite() {
            assert(reference.key() > 0) by {
                reveal(F32::spec_max);
            }
            lemma_scaled_nothing(mean, reference);
        } else {
            reveal(F32::spec_max);
            reveal(F32::spec_div);
            reveal(F32::spec_clamp);
        }
    }
}

} // verus!
