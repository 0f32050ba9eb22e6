//! Pacing: generated frames fall between rendered ones, in order, and what the
//! controller itself caused is never reported as jitter.

use crate::fp::errors::{lemma_next_whole, lemma_round_error, place};
use crate::fp::facts::{
    lemma_div_key, lemma_double_div, lemma_double_from, lemma_double_mul, lemma_exact,
    lemma_product_one, lemma_ratio_key, lemma_round_lower, lemma_round_positive, lemma_round_same,
    lemma_round_top, lemma_round_upper, lemma_unity,
};
use crate::fp::model::{
    lemma_mul_le, lemma_pow2_le, lemma_quotient, lemma_quotient_bounds, lemma_quotient_small,
    lemma_round_exact, round_mag, units, Format,
};
use crate::fp::raw::{lemma_units_monotone, lemma_units_zero};
use crate::fp::round::lemma_round_zero;
use crate::fp::{F32, F64};
use crate::level::{BoostRung, GenMode};
use crate::pacing::{spec_seed, spread, total, PacerState, PresentSlot, SlotKind, WINDOW};
use vstd::arithmetic::power2::{
    lemma2_to64, lemma2_to64_rest, lemma_pow2_adds, lemma_pow2_pos, lemma_pow2_unfold, pow2,
};
use vstd::prelude::*;

verus! {

/// An interval is never nothing, whatever the smoothed estimate has become.
pub proof fn law_interval_is_positive(p: PacerState)
    ensures
        p.interval() >= 1,
{
    reveal(F64::spec_max);
    reveal(F64::spec_to_u64);
    let f = Format::Double;
    let x = p.interval_ema_ns.max(F64::one());
    lemma_unity(f);
    lemma_pow2_pos(1074);
    if x.is_finite() {
        lemma_units_monotone(f, F64::one().key() as nat, x.key() as nat);
        lemma_quotient_bounds(units(f, x.key() as nat), pow2(1074));
        let w = units(f, x.key() as nat) / pow2(1074);
        assert(w >= 1) by (nonlinear_arith)
            requires
                units(f, x.key() as nat) >= pow2(1074),
                units(f, x.key() as nat) < (w + 1) * pow2(1074),
                pow2(1074) > 0,
        ;
    }
}

/// A clock that stands still or jumps back teaches nothing: every estimate
/// stays, and only the time to measure from moves.
pub proof fn law_a_backwards_clock_teaches_nothing(p: PacerState, prev: u64, now_ns: u64)
    requires
        p.last_render_ns == Some(prev),
        now_ns <= prev,
    ensures
        ({
            let next = p.rendered(now_ns);
            &&& next.interval_ema_ns == p.interval_ema_ns
            &&& next.window == p.window
            &&& next.filled == p.filled
            &&& next.cursor == p.cursor
            &&& next.interval() == p.interval()
            &&& next.instability() == p.instability()
            &&& next.last_render_ns == Some(now_ns)
        }),
{
}

/// Nothing is said about stability before there is evidence: after a reset,
/// whatever four frames in a row do, instability stays at zero.
pub proof fn law_silent_before_there_is_evidence(p: PacerState, a: u64, b: u64, c: u64, d: u64)
    requires
        p.filled == 0,
        p.last_render_ns is None,
    ensures
        p.instability() == F32::zero(),
        p.rendered(a).instability() == F32::zero(),
        p.rendered(a).rendered(b).instability() == F32::zero(),
        p.rendered(a).rendered(b).rendered(c).instability() == F32::zero(),
        p.rendered(a).rendered(b).rendered(c).rendered(d).instability() == F32::zero(),
{
}

/// The step between generated frames, in units: at least one nanosecond, and
/// the whole share of the interval up to rounding.
proof fn lemma_step(interval: u64, count: u32)
    requires
        count < u32::MAX,
        interval >= count + 1,
    ensures
        ({
            let step = F64::from_u64(interval) / F64::from_u32((count + 1) as u32);
            let s = units(Format::Double, step.key() as nat);
            let one = pow2(1074);
            &&& step.is_finite()
            &&& step.key() >= 0
            &&& s >= one
            &&& (s * count) * 0x2_0000_0000 <= units(
                Format::Double,
                F64::from_u64(interval).key() as nat,
            ) * 0x1_ffff_ffff
            &&& (s * count) * 0x2_0000_0000 <= (pow2(64) * one) * 0x1_ffff_ffff
        }),
{
    let f = Format::Double;
    let one = pow2(1074);
    let n = (count + 1) as nat;
    let a = F64::from_u64(interval);
    let b = F64::from_u32((count + 1) as u32);
    let whole = units(f, a.key() as nat);
    lemma2_to64();
    lemma2_to64_rest();
    lemma_pow2_pos(1074);
    lemma_double_from(interval);
    lemma_double_from((count + 1) as u64);
    let per = units(f, b.key() as nat);
    assert(per == n * one);
    assert(per > 0) by (nonlinear_arith)
        requires
            per == n * one,
            n >= 1,
            one > 0,
    ;
    lemma_units_zero(f, b.key() as nat);
    // The interval is at least as many nanoseconds as there are parts.
    lemma_mul_le(n as int, interval as int, one as int);
    let h = pow2((f.p() - 1) as nat);
    assert((1074 + 2) * h <= f.top()) by (nonlinear_arith)
        requires
            h == 0x10_0000_0000_0000,
            f.top() == 0x7ff0_0000_0000_0000,
    ;
    lemma_round_lower(f, interval as nat * one, 1, n, 1074);
    assert(whole >= n * one);
    lemma_double_div(a, b);
    let step = a / b;
    assert((whole * one) * n == whole * (n * one)) by (nonlinear_arith);
    lemma_round_same(f, whole * one, per, whole, n);
    assert(step.key() == round_mag(f, whole, n));
    // No more than the interval itself.
    assert((1138 + 2) * h <= f.top()) by (nonlinear_arith)
        requires
            h == 0x10_0000_0000_0000,
            f.top() == 0x7ff0_0000_0000_0000,
    ;
    lemma_pow2_adds(64, 1074);
    assert(whole <= (1 * pow2(1138)) * n) by (nonlinear_arith)
        requires
            whole <= pow2(1138),
            n >= 1,
    ;
    lemma_round_upper(f, whole, n, 1, 1138);
    assert(1 * one == one);
    assert(whole >= (1 * one) * n) by (nonlinear_arith)
        requires
            whole >= n * one,
    ;
    lemma_round_lower(f, whole, n, 1, 1074);
    let s = units(f, step.key() as nat);
    // The share, up to rounding.
    lemma_pow2_le(52, 1074);
    assert(whole >= n * h) by (nonlinear_arith)
        requires
            whole >= n * one,
            one >= h,
    ;
    lemma_round_error(f, whole, n);
    let q = place(f, whole, n);
    lemma_shares(s, n, count as nat, whole, q, h, one);
}

/// All parts but one leave a visible part of the whole.
proof fn lemma_shares(s: nat, n: nat, count: nat, whole: nat, q: nat, h: nat, one: nat)
    requires
        n == count + 1,
        n <= 0x1_0000_0000,
        2 * (s * n) <= 2 * whole + q,
        q * h <= whole,
        h == 0x10_0000_0000_0000,
        whole <= 0x1_0000_0000_0000_0000 * one,
    ensures
        (s * count) * 0x2_0000_0000 <= whole * 0x1_ffff_ffff,
        (s * count) * 0x2_0000_0000 <= (0x1_0000_0000_0000_0000 * one) * 0x1_ffff_ffff,
{
    let z: nat = 0x20_0000_0000_0000;
    let w: nat = 0x1_0000_0000;
    // s * n * 2^53 <= whole * (2^53 + 1)
    assert((s * n) * z <= whole * (z + 1)) by (nonlinear_arith)
        requires
            2 * (s * n) <= 2 * whole + q,
            q * h <= whole,
            h == 0x10_0000_0000_0000,
            z == 0x20_0000_0000_0000,
    ;
    // s * count * 2^32 <= s * n * (2^32 - 1)
    assert((s * count) * w <= (s * n) * (w - 1)) by (nonlinear_arith)
        requires
            n == count + 1,
            n <= w,
    {
        assert(s * n == s * count + s);
        assert((s * n) * (w - 1) == (s * count) * w + s * (w - 1) - s * count);
        assert(s * count <= s * (w - 1));
    }
    assert((s * count) * (w * z) <= whole * ((z + 1) * (w - 1))) by (nonlinear_arith)
        requires
            (s * n) * z <= whole * (z + 1),
            (s * count) * w <= (s * n) * (w - 1),
            w >= 1,
    {
        assert((s * count) * (w * z) == ((s * count) * w) * z);
        assert(((s * count) * w) * z <= ((s * n) * (w - 1)) * z);
        assert(((s * n) * (w - 1)) * z == ((s * n) * z) * (w - 1));
        assert(((s * n) * z) * (w - 1) <= (whole * (z + 1)) * (w - 1));
        assert((whole * (z + 1)) * (w - 1) == whole * ((z + 1) * (w - 1)));
    }
    let big = w * z;
    assert(big == 0x20_0000_0000_0000_0000_0000);
    assert((z + 1) * (w - 1) <= 0x1f_ffff_fff0_0000_0000_0000);
    let c = s * count;
    assert(c * big <= whole * 0x1f_ffff_fff0_0000_0000_0000) by (nonlinear_arith)
        requires
            c * big <= whole * ((z + 1) * (w - 1)),
            (z + 1) * (w - 1) <= 0x1f_ffff_fff0_0000_0000_0000,
    ;
    assert(c * 0x2_0000_0000 <= whole * 0x1_ffff_ffff) by (nonlinear_arith)
        requires
            c * 0x20_0000_0000_0000_0000_0000 <= whole * 0x1f_ffff_fff0_0000_0000_0000,
    ;
    lemma_mul_le(whole as int, (0x1_0000_0000_0000_0000 * one) as int, 0x1_ffff_ffff);
}

/// The offset of a generated frame: the step times its place, rounded once, and
/// short of the most nanoseconds that can be counted.
proof fn lemma_offset(p: PacerState, count: u32, i: u32)
    requires
        i < count < u32::MAX,
        p.interval() >= count + 1,
    ensures
        ({
            let step = F64::from_u64(p.interval()) / F64::from_u32((count + 1) as u32);
            let s = units(Format::Double, step.key() as nat);
            let o = p.offset(count, i);
            &&& o.is_finite()
            &&& o.key() == round_mag(Format::Double, s * (i + 1) as nat, 1)
            &&& units(Format::Double, o.key() as nat) < pow2(64) * pow2(1074)
            &&& o.to_u64() == units(Format::Double, o.key() as nat) / pow2(1074)
        }),
{
    let f = Format::Double;
    let one = pow2(1074);
    let step = F64::from_u64(p.interval()) / F64::from_u32((count + 1) as u32);
    let s = units(f, step.key() as nat);
    let k = (i + 1) as nat;
    let b = F64::from_u32((i + 1) as u32);
    let o = p.offset(count, i);
    lemma2_to64();
    lemma2_to64_rest();
    lemma_pow2_pos(1074);
    lemma_step(p.interval(), count);
    lemma_double_from((i + 1) as u64);
    lemma_double_mul(step, b);
    assert((s * (k * one)) * 1 == (s * k) * one) by (nonlinear_arith);
    lemma_round_same(f, s * (k * one), one, s * k, 1);
    // Short of the end by a part in 2^33.
    let h = pow2((f.p() - 1) as nat);
    assert((1105 + 2) * h <= f.top()) by (nonlinear_arith)
        requires
            h == 0x10_0000_0000_0000,
            f.top() == 0x7ff0_0000_0000_0000,
    ;
    lemma_pow2_adds(31, 1074);
    lemma_mul_le(k as int, count as int, s as int);
    assert(s * k <= (0x1_ffff_ffff * pow2(1105)) * 1) by (nonlinear_arith)
        requires
            s * k <= s * count,
            (s * count) * 0x2_0000_0000 <= (0x1_0000_0000_0000_0000 * one) * 0x1_ffff_ffff,
            pow2(1105) == 0x8000_0000 * one,
    ;
    lemma_round_upper(f, s * k, 1, 0x1_ffff_ffff, 1105);
    let u = units(f, o.key() as nat);
    assert(u < pow2(64) * one) by (nonlinear_arith)
        requires
            u <= 0x1_ffff_ffff * pow2(1105),
            pow2(1105) == 0x8000_0000 * one,
            pow2(64) == 0x1_0000_0000_0000_0000,
            one > 0,
    ;
    reveal(F64::spec_to_u64);
    lemma_quotient_bounds(u, one);
    let w = u / one;
    assert(w < 0x1_0000_0000_0000_0000) by (nonlinear_arith)
        requires
            w * one <= u,
            u < 0x1_0000_0000_0000_0000 * one,
            one > 0,
    ;
}

/// Whole parts a whole apart are apart.
proof fn lemma_whole_parts_apart(a: nat, b: nat, one: nat)
    requires
        one > 0,
        b >= a / one * one + one,
    ensures
        b / one >= a / one + 1,
{
    lemma_quotient_bounds(b, one);
    let (x, y) = (a / one, b / one);
    assert(y >= x + 1) by (nonlinear_arith)
        requires
            b >= x * one + one,
            b < (y + 1) * one,
            one > 0,
    ;
}

/// Two steps that are long enough land a whole apart.
proof fn lemma_long_steps(s: nat, k: nat, a: nat, b: nat, p: nat, q: nat, one: nat)
    requires
        2 * one <= s,
        k <= 0x1_0000_0000,
        2 * a <= 2 * (s * k) + p,
        2 * (s * (k + 1)) <= 2 * b + q,
        p * 0x10_0000_0000_0000 <= s * k,
        q * 0x10_0000_0000_0000 <= s * (k + 1),
    ensures
        b >= a + one,
{
    let z: nat = 0x10_0000_0000_0000;
    let x = s * k;
    let y = s * (k + 1);
    assert(y == x + s) by (nonlinear_arith)
        requires
            x == s * k,
            y == s * (k + 1),
    ;
    assert(x <= s * 0x1_0000_0000) by (nonlinear_arith)
        requires
            x == s * k,
            k <= 0x1_0000_0000,
    ;
    // 2 * (b - a) >= 2 * s - p - q, and p + q is a small part of s.
    assert((p + q) * z <= 2 * x + s);
    assert((p + q) * z <= s * (2 * 0x1_0000_0000 + 1)) by (nonlinear_arith)
        requires
            (p + q) * z <= 2 * x + s,
            x <= s * 0x1_0000_0000,
    ;
    assert(p + q <= s) by (nonlinear_arith)
        requires
            (p + q) * z <= s * (2 * 0x1_0000_0000 + 1),
            z == 0x10_0000_0000_0000,
    ;
}

/// Each generated frame is due at least a nanosecond after the one before.
proof fn lemma_offsets_increase(p: PacerState, count: u32, i: u32)
    requires
        i < count < u32::MAX,
        p.interval() >= count + 1,
    ensures
        p.offset(count, i).to_u64() >= 1,
        i > 0 ==> p.offset(count, i).to_u64() > p.offset(count, (i - 1) as u32).to_u64(),
{
    let f = Format::Double;
    let one = pow2(1074);
    let step = F64::from_u64(p.interval()) / F64::from_u32((count + 1) as u32);
    let s = units(f, step.key() as nat);
    let k = i as nat;
    lemma2_to64();
    lemma2_to64_rest();
    lemma_pow2_pos(1074);
    lemma_step(p.interval(), count);
    lemma_offset(p, count, i);
    let b = units(f, p.offset(count, i).key() as nat);
    let h = pow2((f.p() - 1) as nat);
    lemma_pow2_le(52, 1074);
    if i == 0 {
        assert(s * 1 == s);
        lemma_round_exact(f, step.key() as nat);
        lemma_quotient_bounds(s, one);
        let w = s / one;
        assert(w >= 1) by (nonlinear_arith)
            requires
                s >= one,
                s < (w + 1) * one,
                one > 0,
        ;
    } else {
        lemma_offset(p, count, (i - 1) as u32);
        let a = units(f, p.offset(count, (i - 1) as u32).key() as nat);
        let n = a / one;
        lemma_quotient_bounds(a, one);
        assert(s * (k + 1) == s * k + s) by (nonlinear_arith);
        if s < 2 * one {
            // Places stay far below one.
            lemma_pow2_adds(34, 1074);
            lemma_pow2_le(1108, 1126);
            assert(s * (k + 1) < pow2(1126)) by (nonlinear_arith)
                requires
                    s < 2 * one,
                    k + 1 <= 0x1_0000_0000,
                    pow2(1108) == 0x4_0000_0000 * one,
                    pow2(1108) <= pow2(1126),
                    one > 0,
            ;
            lemma_next_whole(f, s * k, s * (k + 1), n);
            assert((n + 1) * one == n * one + one) by (nonlinear_arith);
        } else {
            lemma_round_error(f, s * k, 1);
            lemma_round_error(f, s * (k + 1), 1);
            assert(s * k >= 1 * h) by (nonlinear_arith)
                requires
                    s >= one,
                    one >= h,
                    k >= 1,
            ;
            lemma_long_steps(
                s,
                k,
                a,
                b,
                place(f, s * k, 1),
                place(f, s * (k + 1), 1),
                one,
            );
        }
        lemma_whole_parts_apart(a, b, one);
    }
}

/// Where the interval has no nanosecond for every part, each part is at most
/// one.
proof fn lemma_short_offset(p: PacerState, count: u32, i: u32)
    requires
        i < count < u32::MAX,
        p.interval() <= count,
    ensures
        p.offset(count, i).to_u64() <= i + 1,
{
    let f = Format::Double;
    let one = pow2(1074);
    let n = (count + 1) as nat;
    let m = p.interval() as nat;
    let k = (i + 1) as nat;
    let a = F64::from_u64(p.interval());
    let b = F64::from_u32((count + 1) as u32);
    let c = F64::from_u32((i + 1) as u32);
    lemma2_to64();
    lemma2_to64_rest();
    lemma_pow2_pos(1074);
    lemma_double_from(p.interval());
    lemma_double_from((count + 1) as u64);
    lemma_double_from((i + 1) as u64);
    let h = pow2((f.p() - 1) as nat);
    assert((1074 + 2) * h <= f.top()) by (nonlinear_arith)
        requires
            h == 0x10_0000_0000_0000,
            f.top() == 0x7ff0_0000_0000_0000,
    ;
    assert(n * one > 0) by (nonlinear_arith)
        requires
            n >= 1,
            one > 0,
    ;
    lemma_units_zero(f, b.key() as nat);
    // The step is at most one.
    let step = a / b;
    lemma_double_div(a, b);
    assert((m * one) * one <= (1 * one) * (n * one)) by (nonlinear_arith)
        requires
            m <= n,
    ;
    lemma_round_upper(f, (m * one) * one, n * one, 1, 1074);
    let s = units(f, step.key() as nat);
    assert(s <= one);
    // And the offset is at most as many.
    let o = p.offset(count, i);
    lemma_double_mul(step, c);
    assert(s * (k * one) <= (k * one) * one) by (nonlinear_arith)
        requires
            s <= one,
    ;
    lemma_round_upper(f, s * (k * one), one, k, 1074);
    let u = units(f, o.key() as nat);
    reveal(F64::spec_to_u64);
    lemma_quotient_bounds(u, one);
    let w = u / one;
    assert(w <= k) by (nonlinear_arith)
        requires
            w * one <= u,
            u <= k * one,
            one > 0,
    ;
}

/// Three roundings do not make up for the part that was left out.
proof fn lemma_still_inside(exact: nat, whole: nat, x: nat, o: nat, p: nat, q: nat)
    requires
        2 * whole <= 2 * exact + p,
        p * 0x10_0000_0000_0000 <= exact,
        x * 0x2_0000_0000 <= whole * 0x1_ffff_ffff,
        2 * o <= 2 * x + q,
        q * 0x10_0000_0000_0000 <= x,
    ensures
        o <= exact,
{
    // In parts of 2^33 the place is short of the whole by one, and what rounding
    // adds to either is a part in 2^53.
    assert(o * 0x20_0000_0000_0000 <= x * 0x20_0000_0000_0001);
    assert(whole * 0x20_0000_0000_0000 <= exact * 0x20_0000_0000_0001);
}

/// Where the interval has a nanosecond for every part, generated frames are due
/// before it is over.
proof fn lemma_offset_inside(p: PacerState, count: u32, i: u32)
    requires
        i < count < u32::MAX,
        p.interval() >= count + 1,
    ensures
        p.offset(count, i).to_u64() <= p.interval(),
{
    let f = Format::Double;
    let one = pow2(1074);
    let m = p.interval() as nat;
    let a = F64::from_u64(p.interval());
    let step = a / F64::from_u32((count + 1) as u32);
    let s = units(f, step.key() as nat);
    let k = (i + 1) as nat;
    lemma2_to64();
    lemma2_to64_rest();
    lemma_pow2_pos(1074);
    lemma_pow2_le(52, 1074);
    let h = pow2((f.p() - 1) as nat);
    lemma_double_from(p.interval());
    lemma_step(p.interval(), count);
    lemma_offset(p, count, i);
    assert(m * one >= 1 * h && s * k >= 1 * h) by (nonlinear_arith)
        requires
            m >= 1,
            k >= 1,
            s >= one,
            one >= h,
    ;
    lemma_round_error(f, m * one, 1);
    lemma_round_error(f, s * k, 1);
    lemma_mul_le(k as int, count as int, s as int);
    let whole = units(f, a.key() as nat);
    let o = units(f, p.offset(count, i).key() as nat);
    lemma_still_inside(m * one, whole, s * k, o, place(f, m * one, 1), place(f, s * k, 1));
    lemma_quotient_bounds(o, one);
    let w = o / one;
    assert(w <= m) by (nonlinear_arith)
        requires
            w * one <= o,
            o <= m * one,
            one > 0,
    ;
}

/// Generated frames are due before the interval is over, or, where it has no
/// nanosecond for each of them, as soon as they can be told apart: a clock with
/// room for that has room for every slot.
pub proof fn law_slots_stay_in_the_interval(p: PacerState, rung: BoostRung, at: u64)
    requires
        rung.generated_per_rendered < u32::MAX,
        at + p.interval() <= u64::MAX,
        at + rung.generated_per_rendered <= u64::MAX,
    ensures
        p.has_time_for(rung, at),
        forall|i: u32|
            i < rung.generated_per_rendered ==> #[trigger] p.delay(rung.generated_per_rendered, i)
                <= p.interval() || p.delay(rung.generated_per_rendered, i) == i + 1,
{
    let count = rung.generated_per_rendered;
    assert forall|i: u32| i < count implies {
        &&& at + #[trigger] p.delay(count, i) <= u64::MAX
        &&& p.delay(count, i) <= p.interval() || p.delay(count, i) == i + 1
    } by {
        if p.interval() >= count + 1 {
            lemma_offset_inside(p, count, i);
        } else {
            lemma_short_offset(p, count, i);
        }
    }
}

/// Slots come in the order they are presented in: the rendered frame at once,
/// and each slot strictly later than the one before it.
pub proof fn law_slots_are_strictly_increasing(p: PacerState, rung: BoostRung, at: u64, j: int)
    requires
        p.has_time_for(rung, at),
        0 <= j < p.slots(rung, at).len() - 1,
    ensures
        p.slots(rung, at)[0] == (PresentSlot { at_ns: at, kind: SlotKind::Rendered }),
        p.slots(rung, at)[j].at_ns < p.slots(rung, at)[j + 1].at_ns,
{
    let count = rung.generated_per_rendered;
    let i = j as u32;
    if p.interval() >= count + 1 {
        lemma_offsets_increase(p, count, i);
    } else {
        lemma_short_offset(p, count, i);
    }
    assert(p.slots(rung, at)[j + 1] == p.generated_slot(rung, at, i));
    assert(at + p.delay(count, i) <= u64::MAX);
    if j > 0 {
        if p.interval() < count + 1 {
            lemma_short_offset(p, count, (i - 1) as u32);
        }
        assert(p.slots(rung, at)[j] == p.generated_slot(rung, at, (i - 1) as u32));
        assert(at + p.delay(count, (i - 1) as u32) <= u64::MAX);
    }
}

/// Whether a number is a time in whole nanoseconds.
pub open spec fn is_time(x: F64) -> bool {
    exists|ns: u64| x == #[trigger] F64::from_u64(ns)
}

/// Whether every place of the ring holds a time.
pub open spec fn holds_times(p: PacerState) -> bool {
    p.valid() && forall|i: int| 0 <= i < p.window.len() ==> is_time(#[trigger] p.window[i])
}

/// A pacer starts out holding times and only ever takes in times.
pub proof fn law_only_times_are_kept(p: PacerState, expected_interval_ns: u64, now_ns: u64)
    ensures
        p.valid() && p.window == Seq::new(
            WINDOW as nat,
            |i: int| spec_seed(expected_interval_ns),
        ) ==> holds_times(p),
        holds_times(p) ==> holds_times(p.rendered(now_ns)),
{
    if holds_times(p) {
        let next = p.rendered(now_ns);
        assert forall|i: int| 0 <= i < next.window.len() implies is_time(
            #[trigger] next.window[i],
        ) by {
            assert(is_time(p.window[i]));
        }
    }
}

/// A number with a clear sign.
pub open spec fn upright(x: F64) -> bool {
    !x.is_nan() && x.bits < 0x8000_0000_0000_0000
}

/// Numbers with a clear sign add up to one.
pub proof fn lemma_upright_sum(a: F64, b: F64)
    requires
        upright(a),
        upright(b),
    ensures
        upright(a + b),
        a.is_finite() && b.is_finite() ==> (a + b).key() == round_mag(
            Format::Double,
            units(Format::Double, a.key() as nat) + units(Format::Double, b.key() as nat),
            1,
        ),
{
    reveal(F64::spec_add);
    let f = Format::Double;
    let n = units(f, a.key() as nat) + units(f, b.key() as nat);
    lemma_round_top(f, n, 1);
    if n == 0 {
        lemma_round_zero(f, 1);
    }
}

proof fn lemma_upright_square(a: F64, b: F64)
    requires
        a.is_finite(),
        b.is_finite(),
    ensures
        upright((a - b) * (a - b)),
{
    reveal(F64::spec_sub);
    reveal(F64::spec_mul);
    let f = Format::Double;
    let v = a.value() - b.value();
    lemma_round_top(f, v as nat, 1);
    lemma_round_top(f, (-v) as nat, 1);
    let d = a - b;
    assert(!d.is_nan());
    let m = units(f, d.raw().mag as nat);
    lemma_round_top(f, m * m, pow2(1074));
}

/// A number with a clear sign, divided by a positive one, keeps it.
pub proof fn lemma_upright_quotient(a: F64, b: F64)
    requires
        upright(a),
        upright(b),
        b.is_finite(),
        b.key() > 0,
    ensures
        upright(a / b),
{
    reveal(F64::spec_div);
    lemma_round_top(
        Format::Double,
        units(Format::Double, a.raw().mag as nat) * pow2(1074),
        units(Format::Double, b.raw().mag as nat),
    );
}

/// Sums of times stay finite.
proof fn lemma_total(p: PacerState, n: nat)
    requires
        holds_times(p),
        n <= 16,
    ensures
        upright(total(p.window, n)),
        total(p.window, n).is_finite(),
        units(Format::Double, total(p.window, n).key() as nat) <= n * pow2(1138),
    decreases n,
{
    let f = Format::Double;
    lemma_units_zero(f, 0);
    lemma2_to64();
    lemma2_to64_rest();
    if n > 0 {
        lemma_total(p, (n - 1) as nat);
        let x = p.window[n - 1];
        assert(is_time(x));
        let ns = choose|ns: u64| x == #[trigger] F64::from_u64(ns);
        lemma_double_from(ns);
        lemma_upright_from(ns);
        let t = total(p.window, (n - 1) as nat);
        lemma_upright_sum(t, x);
        lemma_pow2_adds(64, 1074);
        let sum = units(f, t.key() as nat) + units(f, x.key() as nat);
        assert((n - 1) as nat * pow2(1138) + pow2(1138) == n * pow2(1138)) by (nonlinear_arith)
            requires
                n >= 1,
        ;
        let h = pow2((f.p() - 1) as nat);
        assert((1138 + 2) * h <= f.top()) by (nonlinear_arith)
            requires
                h == 0x10_0000_0000_0000,
                f.top() == 0x7ff0_0000_0000_0000,
        ;
        assert(sum <= (n * pow2(1138)) * 1);
        lemma_round_upper(f, sum, 1, n, 1138);
    } else {
        assert(0 * pow2(1138) == 0) by (nonlinear_arith);
    }
}

proof fn lemma_upright_from(ns: u64)
    ensures
        upright(F64::from_u64(ns)),
{
    reveal(F64::spec_from_u64);
    lemma_round_top(Format::Double, ns as nat * pow2(1074), 1);
}

proof fn lemma_upright_spread(p: PacerState, mean: F64, n: nat)
    requires
        holds_times(p),
        mean.is_finite(),
        n <= 16,
    ensures
        upright(spread(p.window, mean, n)),
    decreases n,
{
    if n > 0 {
        lemma_upright_spread(p, mean, (n - 1) as nat);
        let x = p.window[n - 1];
        assert(is_time(x));
        let ns = choose|ns: u64| x == #[trigger] F64::from_u64(ns);
        lemma_double_from(ns);
        lemma_upright_square(x, mean);
        lemma_upright_sum(spread(p.window, mean, (n - 1) as nat), (x - mean) * (x - mean));
    }
}

/// The mean of times is finite.
proof fn lemma_mean(p: PacerState)
    requires
        holds_times(p),
        p.filled >= 1,
    ensures
        upright(p.mean()),
        p.mean().is_finite(),
{
    let f = Format::Double;
    let t = total(p.window, p.filled);
    let n = F64::from_u64(p.filled as u64);
    let one = pow2(1074);
    lemma2_to64();
    lemma2_to64_rest();
    lemma_pow2_pos(1074);
    lemma_total(p, p.filled);
    lemma_double_from(p.filled as u64);
    lemma_upright_from(p.filled as u64);
    let d = units(f, n.key() as nat);
    assert(d == p.filled * one);
    assert(d > 0 && d >= one) by (nonlinear_arith)
        requires
            d == p.filled * one,
            p.filled >= 1,
            one > 0,
    ;
    lemma_units_zero(f, n.key() as nat);
    lemma_upright_quotient(t, n);
    lemma_double_div(t, n);
    let a = units(f, t.key() as nat);
    let h = pow2((f.p() - 1) as nat);
    assert((1138 + 2) * h <= f.top()) by (nonlinear_arith)
        requires
            h == 0x10_0000_0000_0000,
            f.top() == 0x7ff0_0000_0000_0000,
    ;
    assert(a * one <= (p.filled * pow2(1138)) * d) by (nonlinear_arith)
        requires
            a <= p.filled * pow2(1138),
            one <= d,
    ;
    lemma_round_upper(f, a * one, d, p.filled, 1138);
}

/// Instability is a fraction, whatever the intervals were.
pub proof fn law_instability_is_a_fraction(p: PacerState)
    requires
        holds_times(p),
    ensures
        F32::zero().le(p.instability()),
        p.instability().le(F32::one()),
{
    if p.filled >= 4 && !p.mean().le(F64::zero()) {
        let f = Format::Double;
        let mean = p.mean();
        let n = F64::from_u64(p.filled as u64);
        lemma_mean(p);
        lemma_upright_spread(p, mean, p.filled);
        lemma_double_from(p.filled as u64);
        lemma_upright_from(p.filled as u64);
        lemma2_to64();
        lemma_pow2_pos(1074);
        let d = units(f, n.key() as nat);
        assert(d > 0) by (nonlinear_arith)
            requires
                d == p.filled * pow2(1074),
                p.filled >= 4,
                pow2(1074) > 0,
        ;
        lemma_units_zero(f, n.key() as nat);
        let var = spread(p.window, mean, p.filled) / n;
        lemma_upright_quotient(spread(p.window, mean, p.filled), n);
        assert(upright(var.sqrt())) by {
            reveal(F64::spec_sqrt);
        }
        let cv = var.sqrt() / mean;
        lemma_upright_quotient(var.sqrt(), mean);
        let quarter = F32::ratio(1, 4);
        lemma_ratio_key(1, 4);
        lemma_pow2_le(2, 149);
        assert(1 * pow2(149) == pow2(149));
        lemma_round_positive(Format::Single, pow2(149), 4);
        assert(!cv.to_f32().is_nan()) by {
            reveal(F64::spec_to_f32);
            lemma_round_top(
                Format::Single,
                units(f, cv.raw().mag as nat) * pow2(149),
                pow2(1074),
            );
        }
        assert(!(cv.to_f32() / quarter).is_nan()) by {
            reveal(F32::spec_div);
            lemma_round_top(
                Format::Single,
                units(Format::Single, cv.to_f32().raw().mag as nat) * pow2(149),
                units(Format::Single, quarter.raw().mag as nat),
            );
        }
        reveal(F32::spec_clamp);
    }
}

/// Units that are held exactly are what a position stands for.
proof fn lemma_position(x: F64, m: nat, e: nat)
    requires
        x.key() >= 0,
        x.key() == round_mag(Format::Double, m * pow2(e), 1),
        m < 0x20_0000_0000_0000,
        e <= 1074,
    ensures
        x.is_finite(),
        units(Format::Double, x.key() as nat) == m * pow2(e),
{
    let f = Format::Double;
    let h = pow2((f.p() - 1) as nat);
    lemma2_to64();
    lemma2_to64_rest();
    assert((e + 2) * h <= f.top()) by (nonlinear_arith)
        requires
            e <= 1074,
            h == 0x10_0000_0000_0000,
            f.top() == 0x7ff0_0000_0000_0000,
    ;
    let mag = lemma_exact(f, m, e);
}

/// The fraction dropped from a whole number of halves.
proof fn lemma_halves_dropped(x: F64, m: nat)
    requires
        x.is_finite(),
        x.key() >= 0,
        units(Format::Double, x.key() as nat) == m * pow2(1073),
        m < 0x20_0000_0000_0000,
    ensures
        x.to_u64() == m / 2,
{
    reveal(F64::spec_to_u64);
    let half = pow2(1073);
    lemma_pow2_unfold(1074);
    lemma_pow2_pos(1073);
    let t = m / 2;
    assert(t * (2 * half) <= m * half < (t + 1) * (2 * half)) by (nonlinear_arith)
        requires
            t == m / 2,
            half > 0,
    ;
    lemma_quotient(m * half, pow2(1074), t);
    if x.bits >= 0x8000_0000_0000_0000 {
        assert(x.key() == 0);
        lemma_units_zero(Format::Double, 0);
    }
}

/// Equal intervals add up exactly.
proof fn lemma_equal_total(p: PacerState, ns: u64, n: nat)
    requires
        p.valid(),
        n <= p.filled,
        ns < 0x2_0000_0000_0000,
        forall|i: int| 0 <= i < p.filled ==> #[trigger] p.window[i] == F64::from_u64(ns),
    ensures
        upright(total(p.window, n)),
        total(p.window, n).is_finite(),
        units(Format::Double, total(p.window, n).key() as nat) == (n * ns) * pow2(1074),
    decreases n,
{
    let f = Format::Double;
    lemma_units_zero(f, 0);
    assert((0 * ns) * pow2(1074) == 0) by (nonlinear_arith);
    if n > 0 {
        lemma_equal_total(p, ns, (n - 1) as nat);
        let t = total(p.window, (n - 1) as nat);
        let x = p.window[n - 1];
        lemma_double_from(ns);
        lemma_upright_from(ns);
        lemma_upright_sum(t, x);
        assert(((n - 1) * ns) * pow2(1074) + ns * pow2(1074) == (n * ns) * pow2(1074))
            by (nonlinear_arith);
        assert(0 <= n * ns < 0x20_0000_0000_0000) by (nonlinear_arith)
            requires
                n <= 16,
                ns < 0x2_0000_0000_0000,
        ;
        lemma_position(t + x, (n * ns) as nat, 1074);
    }
}

/// A number less itself is nothing, and so is its square.
proof fn lemma_no_distance(x: F64)
    requires
        x.is_finite(),
    ensures
        ((x - x) * (x - x)).bits == 0,
{
    reveal(F64::spec_sub);
    reveal(F64::spec_mul);
    lemma_units_zero(Format::Double, 0);
    lemma_pow2_pos(1074);
    assert((x - x).bits == 0);
    assert(0nat * 0nat == 0);
    lemma_round_zero(Format::Double, pow2(1074));
}

/// Equal intervals have no spread.
proof fn lemma_no_spread(s: Seq<F64>, mean: F64, n: nat)
    requires
        n <= s.len(),
        mean.is_finite(),
        forall|i: int| 0 <= i < n ==> #[trigger] s[i] == mean,
    ensures
        spread(s, mean, n).bits == 0,
    decreases n,
{
    if n > 0 {
        lemma_no_spread(s, mean, (n - 1) as nat);
        assert(s[n - 1] == mean);
        lemma_no_distance(mean);
        reveal(F64::spec_add);
        lemma_units_zero(Format::Double, 0);
    }
}

/// Steady rendering is stable: as long as the intervals are equal, whatever
/// they are, no instability is reported.
pub proof fn law_steady_rendering_is_stable(p: PacerState, ns: u64)
    requires
        p.valid(),
        0 < ns < 0x2_0000_0000_0000,
        forall|i: int| 0 <= i < p.filled ==> #[trigger] p.window[i] == F64::from_u64(ns),
    ensures
        p.instability().key() == 0,
{
    if p.filled >= 4 {
        let f = Format::Double;
        let one = pow2(1074);
        let x = F64::from_u64(ns);
        let n = F64::from_u64(p.filled as u64);
        lemma_pow2_pos(1074);
        lemma_double_from(ns);
        lemma_upright_from(ns);
        lemma_double_from(p.filled as u64);
        lemma_upright_from(p.filled as u64);
        lemma_equal_total(p, ns, p.filled);
        let t = total(p.window, p.filled);
        let d = units(f, n.key() as nat);
        assert(d > 0 && ns * one > 0) by (nonlinear_arith)
            requires
                d == p.filled * one,
                p.filled >= 4,
                one > 0,
                ns > 0,
        ;
        lemma_units_zero(f, n.key() as nat);
        lemma_units_zero(f, x.key() as nat);
        // The mean is the interval.
        lemma_double_div(t, n);
        lemma_upright_quotient(t, n);
        let a = units(f, t.key() as nat);
        assert((a * one) * 1 == (ns * one) * d) by (nonlinear_arith)
            requires
                a == (p.filled * ns) * one,
                d == p.filled * one,
        ;
        lemma_round_same(f, a * one, d, (ns * one) as nat, 1);
        let mean = p.mean();
        assert(mean.key() == x.key());
        assert(mean == x);
        // So nothing is left of the spread.
        lemma_no_spread(p.window, mean, p.filled);
        let sum = spread(p.window, mean, p.filled);
        let var = sum / n;
        assert(0 * one == 0) by (nonlinear_arith);
        lemma_units_zero(f, 0);
        assert(var.bits == 0) by {
            reveal(F64::spec_div);
            lemma_round_zero(f, d);
        }
        assert(var.sqrt().bits == 0) by {
            reveal(F64::spec_sqrt);
        }
        let cv = var.sqrt() / mean;
        assert(cv.bits == 0) by {
            reveal(F64::spec_div);
            lemma_round_zero(f, units(f, mean.key() as nat));
        }
        assert(cv.to_f32().bits == 0) by {
            reveal(F64::spec_to_f32);
            assert(0 * pow2(149) == 0) by (nonlinear_arith);
            lemma_round_zero(Format::Single, one);
        }
        lemma_ratio_key(1, 4);
        lemma_pow2_le(2, 149);
        lemma2_to64();
        assert(1 * pow2(149) == pow2(149));
        lemma_round_positive(Format::Single, pow2(149), 4);
        lemma_div_key(cv.to_f32(), F32::ratio(1, 4));
        lemma_units_zero(Format::Single, 0);
        assert(0 * pow2(149) == 0) by (nonlinear_arith);
        lemma_units_zero(Format::Single, F32::ratio(1, 4).key() as nat);
        lemma_round_zero(
            Format::Single,
            units(Format::Single, F32::ratio(1, 4).key() as nat),
        );
        reveal(F32::spec_clamp);
    }
}

/// What interpolating costs: exactly one rendered interval of latency. No other
/// way of generating frames, nor generating none, costs any.
pub proof fn law_only_interpolation_costs_latency(p: PacerState, rung: BoostRung)
    ensures
        ({
            let ns = (F64::from_u64(p.interval()) * rung.added_latency_frames().to_f64()).to_u64();
            &&& rung.gen_mode != GenMode::Interpolate ==> ns == 0
            &&& rung.gen_mode == GenMode::Interpolate && p.interval() < 0x20_0000_0000_0000 ==> ns
                == p.interval()
        }),
{
    let f = Format::Double;
    let a = F64::from_u64(p.interval());
    let b = rung.added_latency_frames().to_f64();
    let one = pow2(1074);
    lemma_double_from(p.interval());
    lemma_pow2_pos(1074);
    lemma_pow2_pos(149);
    lemma2_to64();
    reveal(F32::spec_to_f64);
    lemma_unity(f);
    lemma_unity(Format::Single);
    lemma_units_zero(Format::Single, 0);
    lemma_units_zero(f, 0);
    if rung.gen_mode == GenMode::Interpolate {
        assert((pow2(149) * one) * 1 == one * pow2(149)) by (nonlinear_arith);
        lemma_round_same(f, pow2(149) * one, pow2(149), one, 1);
        lemma_round_exact(f, f.unity());
        assert(b == F64::one());
        lemma_double_mul(a, b);
        lemma_product_one(f, a.key() as nat);
        let m = p.interval() as nat;
        if m < 0x20_0000_0000_0000 {
            reveal(F64::spec_to_u64);
            assert(m * one < (m + 1) * one) by (nonlinear_arith)
                requires
                    one > 0,
            ;
            lemma_quotient(m * one, one, m);
            if (a * b).bits >= 0x8000_0000_0000_0000 {
                assert((a * b).key() == 0);
                assert(m == 0) by (nonlinear_arith)
                    requires
                        m * one == 0,
                        one > 0,
                ;
            }
        }
    } else {
        assert(0 * one == 0) by (nonlinear_arith);
        lemma_round_zero(f, pow2(149));
        assert(b.key() == 0);
        lemma_double_mul(a, b);
        let n = units(f, a.key() as nat) * units(f, b.key() as nat);
        assert(n == 0) by (nonlinear_arith)
            requires
                n == units(f, a.key() as nat) * units(f, b.key() as nat),
                units(f, b.key() as nat) == 0,
        ;
        lemma_round_zero(f, one);
        reveal(F64::spec_to_u64);
        lemma_quotient_small(0, one);
    }
}

/// One generated frame sits exactly in the middle: half an interval after the
/// rendered one, in whole nanoseconds and never none, halfway between its
/// endpoints.
pub proof fn law_one_generated_frame_sits_in_the_middle(p: PacerState, rung: BoostRung, at: u64)
    requires
        rung.generated_per_rendered == 1,
        rung.gen_mode == GenMode::Interpolate,
        p.interval() < 0x20_0000_0000_0000,
        p.has_time_for(rung, at),
    ensures
        p.slots(rung, at).len() == 2,
        p.slots(rung, at)[1] == (PresentSlot {
            at_ns: (at + if p.interval() >= 2 {
                p.interval() / 2
            } else {
                1
            }) as u64,
            kind: SlotKind::Generated { index: 0, t: F32::half() },
        }),
{
    let f = Format::Double;
    let one = pow2(1074);
    let half = pow2(1073);
    let m = p.interval() as nat;
    let a = F64::from_u64(p.interval());
    let two = F64::from_u32(2);
    law_interval_is_positive(p);
    lemma2_to64();
    lemma_pow2_pos(1073);
    lemma_pow2_unfold(1074);
    lemma_double_from(p.interval());
    lemma_double_from(2);
    lemma_double_from(1);
    lemma_units_zero(f, two.key() as nat);
    lemma_units_zero(f, a.key() as nat);
    // The step is half the interval.
    let step = a / two;
    lemma_double_div(a, two);
    assert(((m * one) * one) * 1 == (m * half) * (2 * one)) by (nonlinear_arith)
        requires
            one == 2 * half,
    ;
    lemma_round_same(f, (m * one) * one, 2 * one, m * half, 1);
    lemma_position(step, m, 1073);
    // So is the offset.
    let o = p.offset(1, 0);
    lemma_double_mul(step, F64::from_u32(1));
    assert(((m * half) * (1 * one)) * 1 == (m * half) * one) by (nonlinear_arith);
    lemma_round_same(f, (m * half) * (1 * one), one, m * half, 1);
    lemma_position(o, m, 1073);
    lemma_halves_dropped(o, m);
    // And it is half of the interval.
    assert(m * one > 0) by (nonlinear_arith)
        requires
            m >= 1,
            one > 0,
    ;
    let frac = o / a;
    lemma_double_div(o, a);
    assert(((m * half) * one) * 1 == half * (m * one)) by (nonlinear_arith);
    lemma_round_same(f, (m * half) * one, m * one, half, 1);
    assert(half == 1 * half);
    lemma_position(frac, 1, 1073);
    // Which the shorter format holds too.
    assert(frac.to_f32() == F32::half()) by {
        reveal(F64::spec_to_f32);
        let g = Format::Single;
        lemma_pow2_adds(1073, 149);
        lemma_pow2_adds(148, 1074);
        assert((half * pow2(149)) * 1 == pow2(148) * one);
        lemma_pow2_pos(1074);
        lemma_round_same(g, half * pow2(149), one, pow2(148), 1);
        lemma_pow2_unfold(149);
        assert(0x3f00_0000nat / 0x80_0000nat == 126 && 0x3f00_0000nat % 0x80_0000nat == 0);
        lemma_pow2_adds(23, 125);
        assert(units(g, 0x3f00_0000) == pow2(148));
        lemma_round_exact(g, 0x3f00_0000);
        if frac.bits >= 0x8000_0000_0000_0000 {
            assert(frac.key() == 0);
            lemma_units_zero(f, 0);
        }
    }
    assert(at + p.delay(1, 0) <= u64::MAX);
    assert(p.slots(rung, at)[1] == p.generated_slot(rung, at, 0));
}

} // verus!
