//! Trust: how the evidence is scored.

use crate::fp::errors::{
    lemma_div_close, lemma_mul_close, lemma_ratio_close, lemma_round_error, lemma_slip,
    lemma_sub_close, one_unit, size, slip,
};
use crate::fp::facts::{
    lemma_div_key, lemma_div_sign, lemma_finite_difference, lemma_mul_key, lemma_mul_monotone,
    lemma_mul_one, lemma_mul_unit, lemma_mul_zero, lemma_one_minus, lemma_order,
    lemma_product_monotone, lemma_ratio_ends, lemma_ratio_key, lemma_ratio_le, lemma_round_lower,
    lemma_round_positive, lemma_round_upper, lemma_rounded_sum_monotone, lemma_rounds_to_itself,
    lemma_sub_key, lemma_unity, rounded_sum,
};
use crate::fp::model::{
    lemma_pow2_le, lemma_round_monotone, lemma_scale, scale, units, Format,
};
use crate::fp::raw::{lemma_units_monotone, lemma_units_zero};
use crate::fp::F32;
use crate::governor::QualityState;
use crate::laws::motion::lemma_quotient_at_most_one;
use crate::level::rung;
use crate::signals::{
    scored, spec_sane, Confidence, SignalKind, SignalWeight, SignalWeights, Signals,
};
use vstd::arithmetic::power2::{lemma2_to64, lemma_pow2_adds, lemma_pow2_pos, pow2};
use vstd::prelude::*;

verus! {

/// A number in `0..=1`.
pub open spec fn in_unit(x: F32) -> bool {
    F32::zero().le(x) && x.le(F32::one())
}

/// A weight that can be computed with.
pub open spec fn usable(w: SignalWeight) -> bool {
    w.weight.is_finite() && w.deadband.is_finite()
}

/// A measurement made safe is in range, and one that is not a finite number
/// counts as the worst there is.
pub proof fn law_bad_measurements_fail_closed(v: F32)
    ensures
        in_unit(spec_sane(v)),
        !v.is_finite() ==> spec_sane(v) == F32::one(),
        in_unit(v) ==> spec_sane(v) == v,
{
    reveal(F32::spec_clamp);
}

/// What is infinitely low stays so, and its quotients too.
proof fn lemma_bottomless(a: F32, b: F32)
    requires
        a.key() == -0x7f80_0000,
        b.is_finite(),
    ensures
        (a - b).key() == a.key(),
        b.key() > 0 ==> (a / b).key() == a.key(),
{
    reveal(F32::spec_sub);
    reveal(F32::spec_div);
}

/// How far a value short of one lies over a deadband.
proof fn lemma_over(w: SignalWeight, v: F32)
    requires
        usable(w),
        v.lt(F32::one()),
    ensures
        ({
            let over = v - w.deadband;
            &&& !over.is_nan()
            &&& over.key() < 0x7f80_0000
            &&& v.is_finite() ==> over.key() == rounded_sum(
                Format::Single,
                v.value() - w.deadband.value(),
            )
            &&& !v.is_finite() ==> over.key() == -0x7f80_0000
            &&& v.le(w.deadband) ==> over.key() <= 0
        }),
{
    let one = F32::one();
    if v.is_finite() {
        lemma_sub_key(v, w.deadband);
        lemma_sub_key(one, w.deadband);
        lemma_finite_difference(one, w.deadband);
        lemma_order(v, one);
        lemma_order(v, w.deadband);
        lemma_rounded_sum_monotone(
            Format::Single,
            v.value() - w.deadband.value(),
            one.value() - w.deadband.value(),
        );
        if v.le(w.deadband) {
            lemma_round_zero_sum();
            lemma_rounded_sum_monotone(Format::Single, v.value() - w.deadband.value(), 0);
        }
    } else {
        lemma_bottomless(v, w.deadband);
    }
}

/// The range above a deadband is something.
proof fn lemma_span(w: SignalWeight)
    requires
        usable(w),
    ensures
        (F32::one() - w.deadband).max(F32::ratio(1, 10000)).is_finite(),
        (F32::one() - w.deadband).max(F32::ratio(1, 10000)).key() > 0,
{
    reveal(F32::spec_max);
    lemma_ratio_key(1, 10000);
    lemma_ratio_positive(10000);
    lemma_sub_key(F32::one(), w.deadband);
    lemma_finite_difference(F32::one(), w.deadband);
}

/// The excess over a deadband: in range, nothing at or below the deadband, and
/// everything from one on.
proof fn lemma_excess(w: SignalWeight, v: F32)
    requires
        usable(w),
        !v.is_nan(),
    ensures
        in_unit(w.excess(v)),
        v.le(w.deadband) && v.lt(F32::one()) ==> w.excess(v).key() == 0,
        F32::one().le(v) ==> w.excess(v) == F32::one(),
{
    reveal(F32::spec_clamp);
    if v.lt(F32::one()) {
        let span = (F32::one() - w.deadband).max(F32::ratio(1, 10000));
        let over = v - w.deadband;
        lemma_span(w);
        lemma_over(w, v);
        if over.is_finite() {
            lemma_div_sign(over, span);
        } else {
            lemma_bottomless(over, span);
        }
    }
}

/// The excess never falls as the value rises.
proof fn lemma_excess_never_falls(w: SignalWeight, a: F32, b: F32)
    requires
        usable(w),
        a.le(b),
    ensures
        w.excess(a).key() <= w.excess(b).key(),
{
    reveal(F32::spec_clamp);
    lemma_excess(w, a);
    lemma_excess(w, b);
    if b.lt(F32::one()) {
        let span = (F32::one() - w.deadband).max(F32::ratio(1, 10000));
        let x = a - w.deadband;
        let y = b - w.deadband;
        lemma_span(w);
        lemma_over(w, a);
        lemma_over(w, b);
        if a.is_finite() && b.is_finite() {
            lemma_order(a, b);
            lemma_rounded_sum_monotone(
                Format::Single,
                a.value() - w.deadband.value(),
                b.value() - w.deadband.value(),
            );
        }
        assert(x.key() <= y.key());
        if x.key() <= 0 {
            if x.is_finite() {
                lemma_div_sign(x, span);
            } else {
                lemma_bottomless(x, span);
            }
        } else {
            let f = Format::Single;
            lemma_div_key(x, span);
            lemma_div_key(y, span);
            lemma_units_monotone(f, x.key() as nat, y.key() as nat);
            lemma_units_zero(f, span.key() as nat);
            let d = units(f, span.key() as nat);
            let m = units(f, x.key() as nat);
            let n = units(f, y.key() as nat);
            assert((m * pow2(149)) * d <= (n * pow2(149)) * d) by (nonlinear_arith)
                requires
                    m <= n,
            ;
            lemma_round_monotone(f, m * pow2(149), d, n * pow2(149), d);
        }
    }
}

/// Nothing rounds to nothing.
proof fn lemma_round_zero_sum()
    ensures
        rounded_sum(Format::Single, 0) == 0,
{
    lemma_rounds_to_itself(F32::zero());
    lemma_order(F32::zero(), F32::zero());
}

/// One part in some number of them is something.
proof fn lemma_ratio_positive(d: u32)
    requires
        0 < d < 0x100_0000,
    ensures
        F32::ratio(1, d).key() > 0,
{
    lemma_ratio_key(1, d);
    lemma_pow2_le(24, 149);
    lemma2_to64();
    assert(1 * pow2(149) == pow2(149));
    lemma_round_positive(Format::Single, pow2(149), d as nat);
}

/// A penalty is in range whatever the signal, free at or below the deadband,
/// and for a saturated signal exactly the weight, cut off at one: raising a
/// deadband never weakens a saturated signal.
pub proof fn law_penalty(w: SignalWeight, v: F32)
    requires
        usable(w),
        !v.is_nan(),
    ensures
        in_unit(w.penalty(v)),
        v.le(w.deadband) && v.lt(F32::one()) ==> w.penalty(v).key() == 0,
        w.weight.le(F32::zero()) ==> w.penalty(v) == F32::zero(),
        F32::one().le(v) && F32::zero().lt(w.weight) ==> w.penalty(v) == w.weight.clamp(
            F32::zero(),
            F32::one(),
        ),
{
    reveal(F32::spec_clamp);
    lemma_excess(w, v);
    let e = w.excess(v);
    if w.weight.key() > 0 {
        lemma_mul_unit(w.weight, e);
        if e.key() == 0 {
            lemma_mul_zero(w.weight, e);
        }
        if e == F32::one() {
            lemma_mul_one(w.weight);
        }
    }
}

/// A signal that rises never costs less.
pub proof fn law_a_penalty_never_falls(w: SignalWeight, a: F32, b: F32)
    requires
        usable(w),
        a.le(b),
    ensures
        w.penalty(a).le(w.penalty(b)),
{
    reveal(F32::spec_clamp);
    law_penalty(w, a);
    law_penalty(w, b);
    lemma_excess(w, a);
    lemma_excess(w, b);
    lemma_excess_never_falls(w, a, b);
    let x = w.excess(a);
    let y = w.excess(b);
    if w.weight.key() > 0 {
        lemma_mul_key(w.weight, x);
        lemma_mul_key(w.weight, y);
        lemma_product_monotone(
            Format::Single,
            w.weight.key() as nat,
            x.key() as nat,
            w.weight.key() as nat,
            y.key() as nat,
        );
    }
}

/// Whether every weight of a class can be computed with.
pub open spec fn all_usable(w: Seq<SignalWeight>) -> bool {
    w.len() == 6 && forall|i: int| 0 <= i < 6 ==> usable(#[trigger] w[i])
}

/// Whether every signal is in range.
pub open spec fn all_in_unit(s: Seq<F32>) -> bool {
    s.len() == 6 && forall|i: int| 0 <= i < 6 ==> in_unit(#[trigger] s[i])
}

/// What a penalty leaves of a score.
proof fn lemma_left(p: F32)
    requires
        in_unit(p),
    ensures
        ({
            let left = (F32::one() - p).clamp(F32::zero(), F32::one());
            &&& in_unit(left)
            &&& p.key() == F32::one().key() ==> left.key() == 0
            &&& p.key() == 0 ==> left == F32::one()
        }),
{
    reveal(F32::spec_clamp);
    lemma_one_minus(p);
}

/// A score stays in range, and falls with every signal that is counted.
proof fn lemma_scored(s: Seq<F32>, w: Seq<SignalWeight>, n: nat)
    requires
        all_in_unit(s),
        all_usable(w),
        n <= 6,
    ensures
        in_unit(scored(s, w, n).value),
        in_unit(scored(s, w, n).dominant_penalty),
        n > 0 ==> scored(s, w, n).value.le(scored(s, w, (n - 1) as nat).value),
    decreases n,
{
    if n > 0 {
        lemma_scored(s, w, (n - 1) as nat);
        law_penalty(w[n - 1], s[n - 1]);
        let p = w[n - 1].penalty(s[n - 1]);
        lemma_left(p);
        lemma_mul_unit(
            scored(s, w, (n - 1) as nat).value,
            (F32::one() - p).clamp(F32::zero(), F32::one()),
        );
    }
}

/// Sanitized signals are in range.
proof fn lemma_sanitized(s: Signals)
    ensures
        all_in_unit(s.sanitized().fields()),
{
    law_bad_measurements_fail_closed(s.disocclusion);
    law_bad_measurements_fail_closed(s.motion_residual);
    law_bad_measurements_fail_closed(s.luma_shift);
    law_bad_measurements_fail_closed(s.camera_motion);
    law_bad_measurements_fail_closed(s.depth_complexity);
    law_bad_measurements_fail_closed(s.pacing_instability);
}

/// Confidence is in `0..=1`, and so is the largest penalty, whatever was
/// measured.
pub proof fn law_confidence_is_a_fraction(s: Signals, level: u8, w: SignalWeights)
    requires
        all_usable(w.class(rung(level).is_temporal())),
    ensures
        in_unit(s.confidence(&rung(level), &w).value),
        in_unit(s.confidence(&rung(level), &w).dominant_penalty),
{
    lemma_sanitized(s);
    lemma_scored(s.sanitized().fields(), w.class(rung(level).is_temporal()), 6);
}

/// Once a score is nothing, it stays nothing.
proof fn lemma_stays_nothing(s: Seq<F32>, w: Seq<SignalWeight>, m: nat, n: nat)
    requires
        all_in_unit(s),
        all_usable(w),
        m <= n <= 6,
        scored(s, w, m).value.key() == 0,
    ensures
        scored(s, w, n).value.key() == 0,
    decreases n,
{
    if m < n {
        lemma_stays_nothing(s, w, m, (n - 1) as nat);
        lemma_scored(s, w, n);
    }
}

/// Whether a signal can veto alone: a weight of at least one.
pub open spec fn can_veto(w: SignalWeight) -> bool {
    usable(w) && F32::one().le(w.weight)
}

/// A saturated signal that can veto takes all confidence away by itself, and a
/// measurement that is not a finite number counts as saturated.
pub proof fn law_a_saturated_veto_takes_all_confidence(
    s: Signals,
    level: u8,
    w: SignalWeights,
    i: int,
)
    requires
        0 <= i < 6,
        all_usable(w.class(rung(level).is_temporal())),
        can_veto(w.class(rung(level).is_temporal())[i]),
        !s.fields()[i].is_finite() || F32::one().le(s.fields()[i]),
    ensures
        s.confidence(&rung(level), &w).value.key() == 0,
{
    reveal(F32::spec_clamp);
    let f = s.sanitized().fields();
    let c = w.class(rung(level).is_temporal());
    lemma_sanitized(s);
    assert(f[i] == spec_sane(s.fields()[i]));
    law_bad_measurements_fail_closed(s.fields()[i]);
    assert(f[i].key() == F32::one().key());
    law_penalty(c[i], f[i]);
    let p = c[i].penalty(f[i]);
    assert(p.key() == F32::one().key());
    lemma_left(p);
    lemma_scored(f, c, i as nat);
    lemma_mul_zero(
        scored(f, c, i as nat).value,
        (F32::one() - p).clamp(F32::zero(), F32::one()),
    );
    assert(scored(f, c, (i + 1) as nat).value.key() == 0);
    lemma_stays_nothing(f, c, (i + 1) as nat, 6);
}

/// With no confidence left a frame above native is rejected, as long as
/// anything at all is demanded of it.
pub proof fn law_no_confidence_no_frame(s: QualityState, level: u8, signals: Signals)
    requires
        level > 0,
        signals.confidence(&rung(level), &s.cfg.weights).value.key() == 0,
        F32::zero().lt(s.cfg.reject_below),
    ensures
        !s.verdict(level, signals).accepted(),
{
}

/// The signal reported is the first of those with the largest penalty.
pub proof fn law_the_dominant_signal(s: Seq<F32>, w: Seq<SignalWeight>, n: nat)
    requires
        n <= 6,
    ensures
        ({
            let c = scored(s, w, n);
            &&& forall|i: int| 0 <= i < n ==> !(#[trigger] w[i].penalty(s[i])).gt(
                c.dominant_penalty,
            )
            &&& c.dominant_penalty == F32::zero() && c.dominant == SignalKind::Disocclusion
                || exists|i: int|
                0 <= i < n && c.dominant == SignalKind::ALL[i] && c.dominant_penalty == (
                #[trigger] w[i].penalty(s[i])) && forall|j: int|
                    0 <= j < i ==> !(#[trigger] w[j].penalty(s[j])).ge(c.dominant_penalty)
        }),
    decreases n,
{
    if n > 0 {
        law_the_dominant_signal(s, w, (n - 1) as nat);
        let before = scored(s, w, (n - 1) as nat);
        let p = w[n - 1].penalty(s[n - 1]);
        if p.gt(before.dominant_penalty) {
            assert(w[n - 1].penalty(s[n - 1]) == p);
        }
    }
}

/// With the stock weights a spatial rung is blind to everything temporal:
/// disocclusion, residual, luminance and pacing never change its score.
pub proof fn law_spatial_rungs_ignore_temporal_signals(
    a: Signals,
    b: Signals,
    level: u8,
    w: SignalWeights,
)
    requires
        w.stock(),
        !rung(level).is_temporal(),
        a.camera_motion == b.camera_motion,
        a.depth_complexity == b.depth_complexity,
    ensures
        a.confidence(&rung(level), &w) == b.confidence(&rung(level), &w),
{
    reveal_with_fuel(scored, 7);
    let c = w.class(false);
    let x = a.sanitized().fields();
    let y = b.sanitized().fields();
    assert(c[0] == SignalWeight::ignored());
    assert(c[1] == SignalWeight::ignored());
    assert(c[2] == SignalWeight::ignored());
    assert(c[5] == SignalWeight::ignored());
    assert(x[3] == y[3] && x[4] == y[4]);
    assert(c[0].penalty(x[0]) == c[0].penalty(y[0]));
    assert(c[1].penalty(x[1]) == c[1].penalty(y[1]));
    assert(c[2].penalty(x[2]) == c[2].penalty(y[2]));
    assert(c[5].penalty(x[5]) == c[5].penalty(y[5]));
}

/// Hundredths make a usable weight; at least a hundred of them can veto.
proof fn lemma_hundredths(weight: u32, deadband: u32)
    requires
        weight <= 1000,
        deadband <= 100,
    ensures
        usable(SignalWeight::hundredths(weight, deadband)),
        weight >= 100 ==> can_veto(SignalWeight::hundredths(weight, deadband)),
{
    lemma_ratio_key(weight, 100);
    lemma_ratio_key(deadband, 100);
    lemma_ratio_ends(1);
    if weight >= 100 {
        lemma_ratio_le(1, 1, weight, 100);
    }
}

/// The stock weights can all be computed with, and on a temporal rung
/// disocclusion and motion residual can each veto alone.
pub proof fn law_stock_weights(w: SignalWeights)
    requires
        w.stock(),
    ensures
        all_usable(w.class(true)),
        all_usable(w.class(false)),
        can_veto(w.class(true)[0]),
        can_veto(w.class(true)[1]),
{
    lemma_hundredths(35, 45);
    lemma_hundredths(80, 35);
    lemma_hundredths(170, 6);
    lemma_hundredths(150, 10);
    lemma_hundredths(100, 8);
    lemma_hundredths(50, 25);
    lemma_hundredths(60, 30);
    lemma_hundredths(90, 15);
}

/// With the stock tuning, a generated frame whose disocclusion or motion
/// residual is saturated, or not a number at all, is thrown away whatever the
/// other signals say.
pub proof fn law_a_ruined_frame_is_discarded(s: QualityState, level: u8, signals: Signals)
    requires
        s.cfg.stock(),
        rung(level).is_temporal(),
        ({
            let d = signals.disocclusion;
            let m = signals.motion_residual;
            ||| !d.is_finite()
            ||| F32::one().le(d)
            ||| !m.is_finite()
            ||| F32::one().le(m)
        }),
    ensures
        s.verdict(level, signals) is Discard,
{
    let w = s.cfg.weights;
    law_stock_weights(w);
    if !signals.disocclusion.is_finite() || F32::one().le(signals.disocclusion) {
        law_a_saturated_veto_takes_all_confidence(signals, level, w, 0);
    } else {
        law_a_saturated_veto_takes_all_confidence(signals, level, w, 1);
    }
    lemma_ratio_key(55, 100);
    lemma_ratio_le(1, 10000, 55, 100);
    lemma_ratio_positive(10000);
    law_no_confidence_no_frame(s, level, signals);
}

/// What a measurement costs on a rung: its penalty, by the weight that the
/// rung's class gives it.
pub open spec fn cost(s: Signals, level: u8, w: SignalWeights, i: int) -> F32 {
    w.class(rung(level).is_temporal())[i].penalty(spec_sane(s.fields()[i]))
}

/// What a cost leaves is one less it.
proof fn lemma_remainder(s: Signals, level: u8, w: SignalWeights, i: int)
    requires
        all_usable(w.class(rung(level).is_temporal())),
        0 <= i < 6,
    ensures
        ({
            let p = cost(s, level, w, i);
            &&& in_unit(p)
            &&& p == w.class(rung(level).is_temporal())[i].penalty(s.sanitized().fields()[i])
            &&& in_unit(F32::one() - p)
            &&& (F32::one() - p).clamp(F32::zero(), F32::one()) == F32::one() - p
            &&& p.key() == 0 ==> F32::one() - p == F32::one()
        }),
{
    reveal(F32::spec_clamp);
    let p = cost(s, level, w, i);
    lemma_sanitized(s);
    let f = s.sanitized().fields();
    assert(f[i] == spec_sane(s.fields()[i]));
    assert(in_unit(f[i]));
    law_penalty(w.class(rung(level).is_temporal())[i], f[i]);
    lemma_one_minus(p);
}

/// Penalties multiply: confidence is the product, over all six signals, of what
/// the penalty of each leaves.
pub proof fn law_confidence_is_what_the_penalties_leave(
    s: Signals,
    level: u8,
    w: SignalWeights,
    c: Confidence,
)
    requires
        all_usable(w.class(rung(level).is_temporal())),
        call_ensures(Signals::confidence, (&s, &rung(level), &w), c),
    ensures
        ({
            let one = F32::one();
            let a = one - cost(s, level, w, 0);
            let b = one - cost(s, level, w, 1);
            let d = one - cost(s, level, w, 2);
            let e = one - cost(s, level, w, 3);
            let f = one - cost(s, level, w, 4);
            let g = one - cost(s, level, w, 5);
            c.value == one * a * b * d * e * f * g
        }),
{
    reveal_with_fuel(scored, 7);
    lemma_remainder(s, level, w, 0);
    lemma_remainder(s, level, w, 1);
    lemma_remainder(s, level, w, 2);
    lemma_remainder(s, level, w, 3);
    lemma_remainder(s, level, w, 4);
    lemma_remainder(s, level, w, 5);
}

/// A number short of one is short of it by at least one part in `2^24`.
proof fn lemma_short_of_one(b: F32)
    requires
        0 <= b.key() < F32::one().key(),
    ensures
        b.is_finite(),
        0 <= b.value() <= pow2(149) - pow2(125),
{
    let f = Format::Single;
    let h: nat = 0x80_0000;
    lemma2_to64();
    lemma_order(F32::zero(), b);
    lemma_order(b, b);
    let m: nat = 0x3f7f_ffff;
    assert(m / h == 126 && m % h == 0x7f_ffff);
    lemma_units_monotone(f, b.key() as nat, m);
    lemma_pow2_adds(24, 125);
    assert(units(f, m) == 0xff_ffff * pow2(125));
}

/// A number that is not too small shrinks when it is multiplied by one short of
/// one.
proof fn lemma_shrinks(a: F32, b: F32)
    requires
        a.is_finite(),
        a.key() >= 0,
        a.value() >= pow2(24),
        0 <= b.key() < F32::one().key(),
    ensures
        (a * b).is_finite(),
        (a * b).key() < a.key(),
{
    let f = Format::Single;
    let u = pow2(149);
    let x = units(f, a.key() as nat);
    let y = units(f, b.key() as nat);
    lemma_order(a, a);
    lemma_order(b, b);
    lemma_short_of_one(b);
    lemma_mul_unit(a, b);
    lemma_mul_key(a, b);
    lemma_pow2_pos(125);
    lemma_pow2_adds(24, 125);
    lemma2_to64();
    if (a * b).key() == a.key() {
        let n = x * y;
        lemma_round_error(f, n, u);
        let s = scale(f.p(), n, u);
        lemma_scale(f.p(), n, u);
        let t = pow2(s);
        // 2 x (u - y) <= u t, and u - y is at least u / 2^24.
        let gap = pow2(125);
        let h: nat = 0x80_0000;
        assert(2 * (x * u) <= 2 * (x * y) + u * t);
        assert(u == (2 * h) * gap);
        assert(x <= h * t) by (nonlinear_arith)
            requires
                2 * (x * u) <= 2 * (x * y) + u * t,
                y <= u - gap,
                u == (2 * h) * gap,
                gap > 0,
        {
            assert(2 * (x * (u - y)) <= u * t);
            assert(x * gap <= x * (u - y));
            assert(2 * (x * gap) <= ((2 * h) * gap) * t);
            assert(((2 * h) * gap) * t == 2 * ((h * t) * gap));
            assert(x * gap <= (h * t) * gap);
        }
        if s > 0 {
            lemma_pow2_adds(23, s);
            assert(false) by (nonlinear_arith)
                requires
                    x * y >= u * (h * t),
                    x <= h * t,
                    x > 0,
                    y < u,
            {
                assert(x * y < x * u);
                assert(x * u <= (h * t) * u);
            }
        }
    }
}

/// Whether a penalty is strictly between nothing and everything: at least one
/// part in `2^24`, and short of one.
pub open spec fn is_partial(p: F32) -> bool {
    &&& p.is_finite()
    &&& p.value() * 0x100_0000 >= pow2(149)
    &&& p.value() < pow2(149)
}

/// What a partial penalty leaves is strictly between nothing and everything too.
proof fn lemma_partial(p: F32)
    requires
        is_partial(p),
    ensures
        ({
            let r = F32::one() - p;
            &&& r.is_finite()
            &&& 0 < r.key() < F32::one().key()
            &&& r.value() >= pow2(24)
            &&& -slip() <= r.value() - (pow2(149) - p.value()) <= slip()
        }),
{
    let f = Format::Single;
    let one = F32::one();
    let r = one - p;
    lemma_unity(f);
    lemma_slip();
    lemma2_to64();
    lemma_pow2_adds(24, 125);
    lemma_pow2_adds(24, 101);
    lemma_pow2_pos(101);
    lemma_order(F32::zero(), p);
    lemma_order(p, one);
    lemma_order(one, p);
    lemma_short_of_one(p);
    lemma_sub_close(one, p);
    lemma_sub_key(one, p);
    let v = one.value() - p.value();
    // At most 1 - 2^-24, and at least 2^-24.
    let h = pow2((f.p() - 1) as nat);
    assert((125 + 2) * h <= f.top()) by (nonlinear_arith)
        requires
            h == 0x80_0000,
            f.top() == 0x7f80_0000,
    ;
    assert(v as nat <= (0xff_ffff * pow2(125)) * 1);
    lemma_round_upper(f, v as nat, 1, 0xff_ffff, 125);
    assert(v as nat >= (1 * pow2(125)) * 1);
    lemma_round_lower(f, v as nat, 1, 1, 125);
    lemma_order(r, one);
    lemma_order(one, r);
    lemma_order(r, F32::zero());
    lemma_order(F32::zero(), r);
}

/// Nothing is lost on a signal that costs nothing.
proof fn lemma_costs_nothing(s: Signals, level: u8, w: SignalWeights, i: int)
    requires
        all_usable(w.class(rung(level).is_temporal())),
        0 <= i < 6,
        cost(s, level, w, i).key() == 0,
    ensures
        ({
            let f = s.sanitized().fields();
            let k = w.class(rung(level).is_temporal());
            scored(f, k, (i + 1) as nat).value == scored(f, k, i as nat).value
        }),
{
    let f = s.sanitized().fields();
    let k = w.class(rung(level).is_temporal());
    lemma_remainder(s, level, w, i);
    lemma_sanitized(s);
    lemma_scored(f, k, i as nat);
    lemma_mul_one(scored(f, k, i as nat).value);
}

/// The score of a run of signals that cost nothing is that before it.
proof fn lemma_run_of_nothing(s: Signals, level: u8, w: SignalWeights, m: nat, n: nat)
    requires
        all_usable(w.class(rung(level).is_temporal())),
        m <= n <= 6,
        forall|i: int| m <= i < n ==> (#[trigger] cost(s, level, w, i)).key() == 0,
    ensures
        ({
            let f = s.sanitized().fields();
            let k = w.class(rung(level).is_temporal());
            scored(f, k, n).value == scored(f, k, m).value
        }),
    decreases n,
{
    if m < n {
        lemma_run_of_nothing(s, level, w, m, (n - 1) as nat);
        assert(cost(s, level, w, n - 1).key() == 0);
        lemma_costs_nothing(s, level, w, n - 1);
    }
}

/// Penalties compound: where two signals have penalties strictly between nothing
/// and everything, and the others none, the confidence is what the one leaves of
/// what the other leaves, strictly less than either leaves alone.
pub proof fn law_penalties_compound(
    s: Signals,
    level: u8,
    w: SignalWeights,
    c: Confidence,
    i: int,
    j: int,
)
    requires
        all_usable(w.class(rung(level).is_temporal())),
        call_ensures(Signals::confidence, (&s, &rung(level), &w), c),
        0 <= i < j < 6,
        is_partial(cost(s, level, w, i)),
        is_partial(cost(s, level, w, j)),
        forall|k: int|
            0 <= k < 6 && k != i && k != j ==> (#[trigger] cost(s, level, w, k)).key() == 0,
    ensures
        ({
            let one = F32::one();
            let p = cost(s, level, w, i);
            let q = cost(s, level, w, j);
            let u = one_unit();
            &&& c.value == (one - p) * (one - q)
            &&& c.value.lt(one - p)
            &&& c.value.lt(one - q)
            &&& -(4 * slip() * u) <= c.value.value() * u - (u - p.value()) * (u - q.value()) <= 4
                * slip() * u
        }),
{
    let one = F32::one();
    let p = cost(s, level, w, i);
    let q = cost(s, level, w, j);
    let f = s.sanitized().fields();
    let k = w.class(rung(level).is_temporal());
    let a = one - p;
    let b = one - q;
    lemma_remainder(s, level, w, i);
    lemma_remainder(s, level, w, j);
    lemma_partial(p);
    lemma_partial(q);
    lemma_run_of_nothing(s, level, w, 0, i as nat);
    lemma_unity_times(a);
    assert(scored(f, k, (i + 1) as nat).value == a);
    lemma_run_of_nothing(s, level, w, (i + 1) as nat, j as nat);
    assert(scored(f, k, (j + 1) as nat).value == a * b);
    lemma_run_of_nothing(s, level, w, (j + 1) as nat, 6);
    lemma_shrinks(a, b);
    lemma_shrinks(b, a);
    lemma_commutes(a, b);
    let u = one_unit();
    let e = slip();
    lemma_slip();
    let x = a.value();
    let y = b.value();
    let x0 = u - p.value();
    let y0 = u - q.value();
    lemma_order(F32::zero(), a);
    lemma_order(F32::zero(), b);
    lemma_order(a, one);
    lemma_order(b, one);
    lemma_unity(Format::Single);
    assert(0 <= x * y <= 8 * u * u) by (nonlinear_arith)
        requires
            0 <= x <= u,
            0 <= y <= u,
    ;
    lemma_mul_close(a, b);
    let v = c.value.value();
    assert(-(4 * e * u) <= v * u - x0 * y0 <= 4 * e * u) by (nonlinear_arith)
        requires
            -e * u <= v * u - x * y <= e * u,
            -e <= x - x0 <= e,
            -e <= y - y0 <= e,
            0 <= x <= u,
            0 <= y0 <= u,
            e > 0,
    {
        assert(x * y - x0 * y0 == x * (y - y0) + (x - x0) * y0);
        assert(-(e * u) <= x * (y - y0) <= e * u);
        assert(-(e * u) <= (x - x0) * y0 <= e * u);
    }
}

/// One times a number in `0..=1` is the number.
proof fn lemma_unity_times(a: F32)
    requires
        0 < a.key() <= F32::one().key(),
    ensures
        F32::one() * a == a,
{
    lemma_commutes(F32::one(), a);
    lemma_mul_one(a);
}

/// Factors can be swapped.
proof fn lemma_commutes(a: F32, b: F32)
    requires
        a.is_finite(),
        b.is_finite(),
    ensures
        a * b == b * a,
{
    reveal(F32::spec_mul);
    let f = Format::Single;
    let x = units(f, a.raw().mag as nat);
    let y = units(f, b.raw().mag as nat);
    assert(x * y == y * x) by (nonlinear_arith);
}

/// A signal that rises never raises the confidence, whatever the others say.
pub proof fn law_more_evidence_never_raises_confidence(
    a: Signals,
    b: Signals,
    level: u8,
    w: SignalWeights,
    before: Confidence,
    after: Confidence,
)
    requires
        all_usable(w.class(rung(level).is_temporal())),
        call_ensures(Signals::confidence, (&a, &rung(level), &w), before),
        call_ensures(Signals::confidence, (&b, &rung(level), &w), after),
        forall|i: int| 0 <= i < 6 ==> spec_sane(a.fields()[i]).le(spec_sane(#[trigger] b.fields()[i])),
    ensures
        after.value.le(before.value),
{
    lemma_more_evidence(a, b, level, w, 6);
}

proof fn lemma_more_evidence(a: Signals, b: Signals, level: u8, w: SignalWeights, n: nat)
    requires
        all_usable(w.class(rung(level).is_temporal())),
        n <= 6,
        forall|i: int| 0 <= i < 6 ==> spec_sane(a.fields()[i]).le(spec_sane(#[trigger] b.fields()[i])),
    ensures
        ({
            let k = w.class(rung(level).is_temporal());
            let x = scored(a.sanitized().fields(), k, n).value;
            let y = scored(b.sanitized().fields(), k, n).value;
            y.le(x) && in_unit(x) && in_unit(y)
        }),
    decreases n,
{
    let k = w.class(rung(level).is_temporal());
    lemma_sanitized(a);
    lemma_sanitized(b);
    lemma_scored(a.sanitized().fields(), k, n);
    lemma_scored(b.sanitized().fields(), k, n);
    if n > 0 {
        let i = n - 1;
        lemma_more_evidence(a, b, level, w, i as nat);
        lemma_remainder(a, level, w, i);
        lemma_remainder(b, level, w, i);
        let p = cost(a, level, w, i);
        let q = cost(b, level, w, i);
        assert(spec_sane(a.fields()[i]).le(spec_sane(b.fields()[i])));
        law_a_penalty_never_falls(k[i], spec_sane(a.fields()[i]), spec_sane(b.fields()[i]));
        let one = F32::one();
        lemma_sub_key(one, p);
        lemma_sub_key(one, q);
        lemma_order(p, q);
        lemma_rounded_sum_monotone(
            Format::Single,
            one.value() - q.value(),
            one.value() - p.value(),
        );
        lemma_mul_monotone(
            scored(b.sanitized().fields(), k, i as nat).value,
            one - q,
            scored(a.sanitized().fields(), k, i as nat).value,
            one - p,
        );
    }
}

/// Each signal takes its own share: a frame that differs from another in one
/// signal, which costs nothing there, has what that signal's penalty leaves of
/// the other's confidence, but for a few millionths of rounding.
pub proof fn law_each_signal_takes_its_own_share(
    s: Signals,
    t: Signals,
    level: u8,
    w: SignalWeights,
    c: Confidence,
    d: Confidence,
    i: int,
)
    requires
        all_usable(w.class(rung(level).is_temporal())),
        call_ensures(Signals::confidence, (&s, &rung(level), &w), c),
        call_ensures(Signals::confidence, (&t, &rung(level), &w), d),
        0 <= i < 6,
        forall|k: int| 0 <= k < 6 && k != i ==> #[trigger] s.fields()[k] == t.fields()[k],
        cost(t, level, w, i).key() == 0,
    ensures
        ({
            let p = cost(s, level, w, i).value();
            let u = one_unit();
            -(16 * slip() * u) <= c.value.value() * u - d.value.value() * (u - p) <= 16 * slip() * u
        }),
{
    lemma_share(s, t, level, w, i, 6);
    lemma_slip();
    let u = one_unit();
    let e = slip();
    let m: int = 2 * (6 - i);
    assert(m * e * u <= 16 * e * u) by (nonlinear_arith)
        requires
            m <= 16,
            e > 0,
            u > 0,
    ;
    assert(-(m * e * u) == -(m * e) * u) by (nonlinear_arith);
}

proof fn lemma_share(s: Signals, t: Signals, level: u8, w: SignalWeights, i: int, n: nat)
    requires
        all_usable(w.class(rung(level).is_temporal())),
        0 <= i < n <= 6,
        forall|k: int| 0 <= k < 6 && k != i ==> #[trigger] s.fields()[k] == t.fields()[k],
        cost(t, level, w, i).key() == 0,
    ensures
        ({
            let k = w.class(rung(level).is_temporal());
            let x = scored(s.sanitized().fields(), k, n).value.value();
            let y = scored(t.sanitized().fields(), k, n).value.value();
            let p = cost(s, level, w, i).value();
            let u = one_unit();
            -(2 * (n - i) * slip() * u) <= x * u - y * (u - p) <= 2 * (n - i) * slip() * u
        }),
    decreases n,
{
    let k = w.class(rung(level).is_temporal());
    let f = s.sanitized().fields();
    let g = t.sanitized().fields();
    let one = F32::one();
    let u = one_unit();
    let e = slip();
    lemma_slip();
    lemma_unity(Format::Single);
    lemma_sanitized(s);
    lemma_sanitized(t);
    let j = n - 1;
    let a = scored(f, k, j as nat).value;
    let b = scored(g, k, j as nat).value;
    lemma_scored(f, k, j as nat);
    lemma_scored(g, k, j as nat);
    lemma_remainder(s, level, w, i);
    let p = cost(s, level, w, i).value();
    lemma_order(F32::zero(), cost(s, level, w, i));
    lemma_order(cost(s, level, w, i), one);
    lemma_order(F32::zero(), a);
    lemma_order(a, one);
    lemma_order(F32::zero(), b);
    lemma_order(b, one);
    lemma_remainder(s, level, w, j);
    lemma_remainder(t, level, w, j);
    let l = one - cost(s, level, w, j);
    lemma_order(F32::zero(), l);
    lemma_order(l, one);
    let (x, y, z) = (a.value(), b.value(), l.value());
    assert(0 <= x * z <= 8 * u * u && 0 <= y * z <= 8 * u * u) by (nonlinear_arith)
        requires
            0 <= x <= u,
            0 <= y <= u,
            0 <= z <= u,
    ;
    lemma_mul_close(a, l);
    let v = (a * l).value();
    if j == i {
        lemma_before_share(s, t, level, w, i, i as nat);
        lemma_costs_nothing(t, level, w, i);
        lemma_sub_close(one, cost(s, level, w, i));
        assert(x == y);
        assert(-(2 * e * u) <= v * u - x * (u - p) <= 2 * e * u) by (nonlinear_arith)
            requires
                -e * u <= v * u - x * z <= e * u,
                -e <= z - (u - p) <= e,
                0 <= x <= u,
                e > 0,
        {
            assert(-(e * u) <= x * (z - (u - p)) <= e * u);
            assert(x * z - x * (u - p) == x * (z - (u - p)));
        }
        assert(2 * (n - i) == 2);
    } else {
        lemma_share(s, t, level, w, i, j as nat);
        assert(s.fields()[j] == t.fields()[j]);
        lemma_mul_close(b, l);
        let t2 = (b * l).value();
        let m: int = 2 * (j - i);
        assert(2 * (n - i) == m + 2);
        lemma_share_step(x, y, z, v, t2, u - p, u, e, m);
    }
}

/// One more factor on both sides.
proof fn lemma_share_step(x: int, y: int, z: int, v: int, t: int, r: int, u: int, e: int, m: int)
    requires
        -(m * e * u) <= x * u - y * r <= m * e * u,
        -e * u <= v * u - x * z <= e * u,
        -e * u <= t * u - y * z <= e * u,
        0 <= z <= u,
        0 <= r <= u,
        u > 0,
        e > 0,
        m >= 0,
    ensures
        -((m + 2) * e * u) <= v * u - t * r <= (m + 2) * e * u,
{
    let k = m * e * u;
    assert(k >= 0) by (nonlinear_arith)
        requires
            k == m * e * u,
            m >= 0,
            e > 0,
            u > 0,
    ;
    let d = x * u - y * r;
    assert(-(k * u) <= d * z <= k * u) by (nonlinear_arith)
        requires
            -k <= d <= k,
            0 <= z <= u,
            k >= 0,
    ;
    let a = v * u - x * z;
    let b = t * u - y * z;
    assert(-((e * u) * u) <= a * u <= (e * u) * u) by (nonlinear_arith)
        requires
            -e * u <= a <= e * u,
            u > 0,
    ;
    assert(-((e * u) * u) <= b * r <= (e * u) * u) by (nonlinear_arith)
        requires
            -e * u <= b <= e * u,
            0 <= r <= u,
            e > 0,
            u > 0,
    ;
    let w = v * u - t * r;
    assert(d * z == (x * u) * z - (y * r) * z) by (nonlinear_arith)
        requires
            d == x * u - y * r,
    ;
    assert(a * u == (v * u) * u - (x * z) * u) by (nonlinear_arith)
        requires
            a == v * u - x * z,
    ;
    assert(b * r == (t * u) * r - (y * z) * r) by (nonlinear_arith)
        requires
            b == t * u - y * z,
    ;
    assert(w * u == (v * u) * u - (t * r) * u) by (nonlinear_arith)
        requires
            w == v * u - t * r,
    ;
    assert((x * u) * z == (x * z) * u) by (nonlinear_arith);
    assert((y * r) * z == (y * z) * r) by (nonlinear_arith);
    assert((t * u) * r == (t * r) * u) by (nonlinear_arith);
    assert(w * u == d * z + a * u - b * r);
    let top = (m + 2) * e * u;
    assert(top == k + 2 * (e * u)) by (nonlinear_arith)
        requires
            top == (m + 2) * e * u,
            k == m * e * u,
    ;
    assert(-top <= w <= top) by (nonlinear_arith)
        requires
            -(k * u) - (e * u) * u - (e * u) * u <= w * u <= k * u + (e * u) * u + (e * u) * u,
            top == k + 2 * (e * u),
            u > 0,
    ;
}

/// Frames that agree on the first signals score the same on them.
proof fn lemma_before_share(s: Signals, t: Signals, level: u8, w: SignalWeights, i: int, n: nat)
    requires
        n <= i < 6,
        forall|k: int| 0 <= k < 6 && k != i ==> #[trigger] s.fields()[k] == t.fields()[k],
    ensures
        ({
            let k = w.class(rung(level).is_temporal());
            scored(s.sanitized().fields(), k, n) == scored(t.sanitized().fields(), k, n)
        }),
    decreases n,
{
    if n > 0 {
        lemma_before_share(s, t, level, w, i, (n - 1) as nat);
        assert(s.fields()[n - 1] == t.fields()[n - 1]);
        assert(s.sanitized().fields()[n - 1] == spec_sane(s.fields()[n - 1]));
        assert(t.sanitized().fields()[n - 1] == spec_sane(t.fields()[n - 1]));
    }
}

/// A penalty is proportional: the weight times the share that a signal takes up of
/// the range above the deadband, cut off at one, but for some millionths of
/// rounding.
pub proof fn law_a_penalty_is_proportional(w: SignalWeight, v: F32, p: F32)
    requires
        usable(w),
        v.is_finite(),
        0 < w.weight.value() <= 8 * one_unit(),
        0 <= w.deadband.value() <= v.value() < one_unit(),
        16 * (one_unit() - w.deadband.value()) >= one_unit(),
        call_ensures(SignalWeight::penalty, (&w, v), p),
    ensures
        ({
            let u = one_unit();
            let d = w.deadband.value();
            let share = w.weight.value() * (v.value() - d);
            &&& p.value() * (u - d) <= share + 40 * slip() * u
            &&& p == F32::one() || share <= p.value() * (u - d) + 40 * slip() * u
        }),
{
    reveal(F32::spec_clamp);
    reveal(F32::spec_max);
    let f = Format::Single;
    let one = F32::one();
    let zero = F32::zero();
    let u = one_unit();
    let e = slip();
    lemma_slip();
    lemma_unity(f);
    let db = w.deadband;
    let d = db.value();
    let over = v - db;
    let span = one - db;
    lemma_sub_close(v, db);
    lemma_sub_close(one, db);
    lemma_sub_key(v, db);
    lemma_sub_key(one, db);
    lemma_round_zero_sum();
    lemma_rounded_sum_monotone(f, 0, v.value() - d);
    lemma_rounded_sum_monotone(f, v.value() - d, u - d);
    let least = F32::ratio(1, 10000);
    lemma_ratio_close(1, 10000);
    lemma_order(least, span);
    lemma_order(span, least);
    lemma_order(v, one);
    lemma_order(one, v);
    lemma_order(zero, over);
    lemma_order(over, span);
    lemma_order(zero, span);
    lemma_order(span, zero);
    assert(span.max(least) == span);
    let q = over / span;
    lemma_quotient_at_most_one(over, span);
    lemma_div_close(over, span);
    lemma_order(zero, q);
    lemma_order(q, one);
    assert(w.excess(v) == q);
    let (o, s, x, g) = (over.value(), span.value(), q.value(), w.weight.value());
    lemma_order(zero, w.weight);
    lemma_order(w.weight, zero);
    assert(0 <= g * x <= 8 * u * u) by (nonlinear_arith)
        requires
            0 <= g <= 8 * u,
            0 <= x <= u,
    ;
    lemma_mul_close(w.weight, q);
    let prod = w.weight * q;
    lemma_mul_unit(w.weight, q);
    lemma_order(zero, prod);
    lemma_order(prod, one);
    let y = prod.value();
    let r = u - d;
    let share = g * (v.value() - d);
    lemma_proportion(o, s, x, g, y, r, v.value() - d, u, e);
    if prod.le(one) {
        assert(p == prod);
    } else {
        assert(p == one);
        assert(u * r <= y * r) by (nonlinear_arith)
            requires
                u <= y,
                r >= 0,
        ;
    }
}

/// What rounding leaves of a proportion.
proof fn lemma_proportion(o: int, s: int, x: int, g: int, y: int, r: int, h: int, u: int, e: int)
    requires
        0 < e <= u,
        0 <= x <= u,
        0 <= g <= 8 * u,
        0 <= r <= u,
        -e <= o - h <= e,
        -e <= s - r <= e,
        size(x * s - o * u) <= e * size(s),
        s > 0,
        -e * u <= y * u - g * x <= e * u,
    ensures
        g * h - 40 * e * u <= y * r <= g * h + 40 * e * u,
{
    let k = e * u;
    assert(k >= 0) by (nonlinear_arith)
        requires
            k == e * u,
            e > 0,
            u > 0,
    ;
    assert(e * s <= 2 * k) by (nonlinear_arith)
        requires
            k == e * u,
            0 < s <= 2 * u,
            e > 0,
    ;
    assert(-k <= x * (r - s) <= k) by (nonlinear_arith)
        requires
            k == e * u,
            0 <= x <= u,
            -e <= r - s <= e,
            e > 0,
    ;
    assert(-k <= (o - h) * u <= k) by (nonlinear_arith)
        requires
            k == e * u,
            -e <= o - h <= e,
            u > 0,
    ;
    assert(x * (r - s) == x * r - x * s && (o - h) * u == o * u - h * u) by (nonlinear_arith);
    let a = x * r - h * u;
    assert(-(4 * k) <= a <= 4 * k);
    assert(-(32 * (k * u)) <= g * a <= 32 * (k * u)) by (nonlinear_arith)
        requires
            -(4 * k) <= a <= 4 * k,
            0 <= g <= 8 * u,
            k >= 0,
    ;
    let b = y * u - g * x;
    assert(-(k * u) <= b * r <= k * u) by (nonlinear_arith)
        requires
            -e * u <= b <= e * u,
            k == e * u,
            0 <= r <= u,
            k >= 0,
    ;
    assert(b * r == (y * u) * r - (g * x) * r) by (nonlinear_arith)
        requires
            b == y * u - g * x,
    ;
    assert(g * a == g * (x * r) - g * (h * u)) by (nonlinear_arith)
        requires
            a == x * r - h * u,
    ;
    assert((g * x) * r == g * (x * r)) by (nonlinear_arith);
    assert((y * u) * r == (y * r) * u) by (nonlinear_arith);
    assert(g * (h * u) == (g * h) * u) by (nonlinear_arith);
    let c = y * r - g * h;
    assert(c * u == (y * r) * u - (g * h) * u) by (nonlinear_arith)
        requires
            c == y * r - g * h,
    ;
    assert(-(40 * k) <= c <= 40 * k) by (nonlinear_arith)
        requires
            -(33 * (k * u)) <= c * u <= 33 * (k * u),
            u > 0,
            k >= 0,
    ;
    assert(40 * e * u == 40 * k) by (nonlinear_arith)
        requires
            k == e * u,
    ;
}

} // verus!
