//! Grading: what an error, a depth and a rung are judged to be.

use crate::fp::errors::{
    lemma_add_close, lemma_div_close, lemma_mul_close, lemma_ratio_close, lemma_slip,
    lemma_sub_close, one_unit, size, slip,
};
use crate::fp::facts::{
    lemma_add_key, lemma_exact, lemma_from_small, lemma_mul_key, lemma_order, lemma_ratio_ends,
    lemma_ratio_le, lemma_round_same, lemma_round_upper, lemma_unity, lemma_widened,
};
use crate::fp::model::{lemma_pow2_le, units, Format};
use crate::fp::{F32, F64};
use crate::governor::PerfGovernor;
use crate::laws::evidence::lemma_rounds_single;
use crate::laws::motion::{are_depths, in_order, is_tolerance, lemma_delta};
use crate::laws::reporting::lemma_quotient_value;
use crate::laws::sharpening::lemma_unit_value;
use crate::laws::smoothing::{lemma_room_above, one_double};
use crate::laws::trust::in_unit;
use crate::laws::upsampling;
use crate::laws::upsampling::lemma_two_value;
use crate::level::{rung, BoostRung};
use crate::recon::{relative_depth_delta, soft_validity};
use crate::telemetry::{tally, Telemetry};
use vstd::arithmetic::power2::{lemma2_to64, lemma_pow2_adds, lemma_pow2_pos, pow2};
use vstd::prelude::*;

verus! {

/// A relative difference of depths is the difference over the greater of the two,
/// but for a few millionths of rounding.
pub proof fn law_depth_delta_is_relative(a: F32, b: F32, d: F32)
    requires
        are_depths(a, b, F32::half()),
        call_ensures(relative_depth_delta, (a, b), d),
    ensures
        ({
            let (x, y) = in_order(a.value(), b.value());
            &&& d.is_finite()
            &&& -2 * (slip() * y) <= d.value() * y - (y - x) * one_unit() <= 2 * (slip() * y)
        }),
{
    lemma_delta(a, b, F32::half());
}

/// Validity is full up to the tolerance, none from twice it on, and between them
/// falls evenly: it is what is left to twice the tolerance, as a share of the
/// tolerance, but for rounding.
pub proof fn law_validity_fades_evenly(error: F32, tolerance: F32, v: F32)
    requires
        is_tolerance(tolerance),
        error.is_finite(),
        0 <= error.value() <= 4 * one_unit(),
        call_ensures(soft_validity, (error, tolerance), v),
    ensures
        v.is_finite(),
        error.value() <= tolerance.value() ==> v.value() == one_unit(),
        error.value() > 2 * tolerance.value() + slip() ==> v.value() == 0,
        tolerance.value() <= error.value() <= 2 * tolerance.value() ==> size(
            v.value() * tolerance.value() - (2 * tolerance.value() - error.value()) * one_unit(),
        ) <= 2 * (slip() * tolerance.value()) + slip() * one_unit(),
{
    reveal(F32::spec_max);
    let e = slip();
    let u = one_unit();
    let t = tolerance.value();
    let x = error.value();
    lemma_slip();
    lemma_unity(Format::Single);
    lemma_two_value();
    let zero = F32::zero();
    let one = F32::one();
    lemma_order(zero, zero);
    lemma_ratio_close(1, 1000000);
    lemma_order(tolerance, F32::ratio(1, 1000000));
    assert(tolerance.max(F32::ratio(1, 1000000)) == tolerance);
    lemma_order(error, tolerance);
    assert(0 <= (2 * u) * t <= 8 * u * u) by (nonlinear_arith)
        requires
            0 <= 2 * t <= u,
    ;
    lemma_mul_close(F32::two(), tolerance);
    let twice = F32::two() * tolerance;
    assert(-e * u == -(e * u)) by (nonlinear_arith);
    assert(size(twice.value() - 2 * t) <= e) by (nonlinear_arith)
        requires
            -(e * u) <= twice.value() * u - (2 * u) * t <= e * u,
            u > 0,
    {
        let g = twice.value() - 2 * t;
        assert(g * u == twice.value() * u - (2 * u) * t);
        assert(size(g * u) == size(g) * u);
    }
    lemma_order(twice, error);
    if t < x && x < twice.value() {
        lemma_sub_close(error, tolerance);
        let gap = error - tolerance;
        lemma_div_close(gap, tolerance);
        let share = gap / tolerance;
        let s = share.value();
        let g = gap.value();
        assert(-(2 * u) <= s <= 2 * u) by (nonlinear_arith)
            requires
                size(s * t - g * u) <= e * t,
                size(g - (x - t)) <= e,
                0 <= x - t <= t + e,
                256 * e <= t,
                u == 0x20_0000 * e,
                e > 0,
        {
            if s > 2 * u {
                assert(s * t >= (2 * u + 1) * t);
                assert(g * u <= (t + 2 * e) * u);
                assert(e * t <= u * t);
                assert((2 * u + 1) * t == 2 * (u * t) + t);
                assert((t + 2 * e) * u == t * u + 2 * (e * u));
                assert(128 * (2 * (e * u)) <= t * u);
                assert(0x20_0000 * (e * t) == u * t);
            }
            if s < -(2 * u) {
                assert(s * t <= -(2 * u) * t);
                assert(g * u >= -(e * u));
                assert(256 * (e * u) <= t * u);
                assert(0x20_0000 * (e * t) == u * t);
            }
        }
        lemma_sub_close(one, share);
        let w = v.value();
        assert(size(w * t - (2 * t - x) * u) <= 2 * (e * t) + e * u) by (nonlinear_arith)
            requires
                size(s * t - g * u) <= e * t,
                size(g - (x - t)) <= e,
                size(w - (u - s)) <= e,
                t > 0,
                u > 0,
        {
            let a = w - (u - s);
            let b = g - (x - t);
            let c = s * t - g * u;
            assert(w * t == u * t - s * t + a * t);
            assert(g * u == (x - t) * u + b * u);
            assert(w * t - (2 * t - x) * u == a * t - c - b * u) by {
                assert((2 * t - x) * u == 2 * (t * u) - x * u);
                assert((x - t) * u == x * u - t * u);
            }
            assert(size(a * t) <= e * t);
            assert(size(b * u) <= e * u);
        }
    } else if t < x && x <= 2 * t {
        assert(0 <= (2 * t - x) * u <= e * u) by (nonlinear_arith)
            requires
                0 <= 2 * t - x <= e,
                u > 0,
        ;
        assert(0 * t == 0 && e * t >= 0) by (nonlinear_arith)
            requires
                e > 0,
                t > 0,
        ;
    } else if x == t {
        assert(u * t == (2 * t - x) * u) by (nonlinear_arith)
            requires
                x == t,
        ;
        assert(e * t >= 0 && e * u >= 0) by (nonlinear_arith)
            requires
                e > 0,
                t > 0,
                u > 0,
        ;
    }
}

/// The cost of a rung, by its value.
proof fn lemma_cost(r: &BoostRung)
    requires
        in_unit(r.render_scale),
        r.generated_per_rendered < 0x80_0000,
    ensures
        ({
            let c = r.relative_cost();
            let s = r.render_scale.value();
            let n = 1 + r.generated_per_rendered;
            let u = one_unit();
            &&& c.is_finite()
            &&& size(25 * ((c.value() * n) * u) - 25 * (s * s) - (n * u) * u) <= 100 * ((slip() * n)
                * u)
        }),
{
    let c = r.relative_cost();
    let e = slip();
    let u = one_unit();
    let s = r.render_scale.value();
    let n = 1 + r.generated_per_rendered;
    lemma_slip();
    lemma_unit_value(r.render_scale);
    assert(0 <= s * s <= u * u && u * u <= 8 * u * u) by (nonlinear_arith)
        requires
            0 <= s <= u,
    ;
    lemma_mul_close(r.render_scale, r.render_scale);
    let drawn = r.render_scale * r.render_scale;
    let p = drawn.value();
    assert(-e * u == -(e * u)) by (nonlinear_arith);
    assert(-e <= p <= u + e) by (nonlinear_arith)
        requires
            -(e * u) <= p * u - s * s <= e * u,
            0 <= s * s <= u * u,
            u > 0,
    {
        if p > u + e {
            assert(p * u > (u + e) * u);
            assert((u + e) * u == u * u + e * u);
        }
        if p < -e {
            assert(p * u < -e * u);
        }
    }
    lemma_from_small(n as u32);
    let count = F32::from_u32(n as u32);
    lemma_order(count, count);
    assert(count.value() == n * u);
    assert(n * u >= u) by (nonlinear_arith)
        requires
            n >= 1,
            u > 0,
    ;
    lemma_div_close(drawn, count);
    let q = (drawn / count).value();
    assert(size(q * n - p) <= e * n) by (nonlinear_arith)
        requires
            size(q * (n * u) - p * u) <= e * (n * u),
            u > 0,
    {
        assert(q * (n * u) - p * u == (q * n - p) * u);
        assert(e * (n * u) == (e * n) * u);
        assert(size((q * n - p) * u) == size(q * n - p) * u);
    }
    assert(-(3 * u) <= q <= 3 * u) by (nonlinear_arith)
        requires
            size(q * n - p) <= e * n,
            -e <= p <= u + e,
            n >= 1,
            u == 0x20_0000 * e,
            e > 0,
    {
        if q > 3 * u {
            assert(q * n >= (3 * u) * n);
            assert((3 * u - e) * n >= 3 * u - e);
            assert((3 * u) * n - e * n == (3 * u - e) * n);
        }
        if q < -(3 * u) {
            assert(q * n <= -(3 * u) * n);
            assert((3 * u - e) * n >= 3 * u - e);
            assert((3 * u) * n - e * n == (3 * u - e) * n);
        }
    }
    let extra = F32::ratio(4, 100);
    lemma_ratio_close(4, 100);
    lemma_add_close(drawn / count, extra);
    let x = extra.value();
    let w = c.value();
    let y = 25 * (w * n) - 25 * p - n * u;
    assert(size(y) <= 75 * (e * n)) by (nonlinear_arith)
        requires
            size(q * n - p) <= e * n,
            size(x * 100 - 4 * u) <= e * 100,
            size(w - (q + x)) <= e,
            n >= 1,
            y == 25 * (w * n) - 25 * p - n * u,
    {
        let a = w - (q + x);
        let b = 25 * x - u;
        assert(w * n == q * n + x * n + a * n);
        assert(25 * (x * n) == n * u + b * n);
        assert(size(a * n) <= e * n);
        assert(size(b * n) <= 25 * (e * n)) by {
            assert(size(b) <= 25 * e);
        }
    }
    assert(size(25 * ((w * n) * u) - 25 * (s * s) - (n * u) * u) <= 100 * ((e * n) * u)) by (
        nonlinear_arith)
        requires
            size(y) <= 75 * (e * n),
            y == 25 * (w * n) - 25 * p - n * u,
            -(e * u) <= p * u - s * s <= e * u,
            n >= 1,
            u > 0,
            e > 0,
    {
        let k = p * u - s * s;
        assert(y * u == 25 * ((w * n) * u) - 25 * (p * u) - (n * u) * u);
        assert(size(y * u) <= 75 * ((e * n) * u));
        assert(e * u <= (e * n) * u) by {
            assert(e <= e * n);
        }
    }
}

/// What a frame costs on a rung, relative to native: the share of the pixels that
/// is rendered, spread over the frames that are shown for it, and a twenty-fifth
/// for reconstruction, but for rounding.
pub proof fn law_the_cost_is_what_is_rendered(r: &BoostRung, c: F32)
    requires
        in_unit(r.render_scale),
        r.generated_per_rendered < 0x80_0000,
        call_ensures(BoostRung::relative_cost, (r,), c),
    ensures
        ({
            let s = r.render_scale.value();
            let n = 1 + r.generated_per_rendered;
            let u = one_unit();
            &&& c.is_finite()
            &&& size(25 * ((c.value() * n) * u) - 25 * (s * s) - (n * u) * u) <= 100 * ((slip() * n)
                * u)
        }),
{
    lemma_cost(r);
}

/// A number keeps its value in the longer format.
proof fn lemma_widened_value(a: F32)
    requires
        a.is_finite(),
        a.key() > 0,
    ensures
        a.to_f64().is_finite(),
        a.to_f64().key() >= 0,
        a.to_f64().value() == a.value() * pow2(925),
{
    let f = Format::Double;
    let mag = a.key() as nat;
    lemma2_to64();
    lemma_widened(a);
    lemma_order(a, a);
    let x = a.to_f64();
    let h = mag / 0x80_0000;
    assert(h <= 254) by {
        assert(mag < 0x7f80_0000);
    }
    let (m, e): (nat, nat) = if h == 0 {
        (mag, 0)
    } else {
        ((0x80_0000 + mag % 0x80_0000) as nat, (h - 1) as nat)
    };
    assert(units(Format::Single, mag) == m * pow2(e)) by {
        assert(m * pow2(0) == m) by (nonlinear_arith)
            requires
                pow2(0) == 1,
        ;
    }
    lemma_pow2_adds(e, 925);
    lemma_pow2_adds(925, 149);
    lemma_pow2_pos(149);
    let n = m * pow2(e);
    let w = m * pow2(e + 925);
    assert(w == n * pow2(925)) by (nonlinear_arith)
        requires
            n == m * pow2(e),
            w == m * pow2(e + 925),
            pow2(e + 925) == pow2(e) * pow2(925),
    ;
    assert((n * pow2(1074)) * 1 == w * pow2(149)) by (nonlinear_arith)
        requires
            w == n * pow2(925),
            pow2(1074) == pow2(925) * pow2(149),
    ;
    lemma_round_same(f, n * pow2(1074), pow2(149), w, 1);
    lemma_room_above(e + 925);
    let held = lemma_exact(f, m, e + 925);
    assert(x.key() == held);
}

/// What a native frame would take, estimated through a rung, is the smoothed frame
/// time over what a frame costs on that rung relative to native, but for a part in
/// `2^52` or so.
pub proof fn law_native_time_is_scaled_back(g: &PerfGovernor, level: u8, c: F32, ns: F64)
    requires
        g@.ema_ns.is_finite(),
        g@.ema_ns.key() >= 0,
        g@.ema_ns.value() <= pow2(1200),
        call_ensures(BoostRung::relative_cost, (&rung(level),), c),
        call_ensures(PerfGovernor::estimated_native_ns, (g, level), ns),
    ensures
        ns.is_finite(),
        c.is_finite(),
        c.value() > 0,
        size(ns.value() * c.value() - g@.ema_ns.value() * one_unit()) * 0x20_0000_0000_0000
            <= g@.ema_ns.value() * one_unit() + c.value() * 0x20_0000_0000_0000,
{
    reveal(F32::spec_max);
    let r = rung(level);
    let e = slip();
    let u = one_unit();
    lemma_slip();
    lemma_scale_in_unit(100);
    lemma_scale_in_unit(77);
    lemma_scale_in_unit(67);
    lemma_scale_in_unit(59);
    lemma_scale_in_unit(50);
    lemma_scale_in_unit(33);
    assert(in_unit(r.render_scale));
    law_the_cost_is_what_is_rendered(&r, c);
    let k = c.value();
    let n = 1 + r.generated_per_rendered;
    let s = r.render_scale.value();
    assert(100 * k >= 3 * u) by (nonlinear_arith)
        requires
            size(25 * ((k * n) * u) - 25 * (s * s) - (n * u) * u) <= 100 * ((e * n) * u),
            n >= 1,
            u == 0x20_0000 * e,
            e > 0,
    {
        let nu = n * u;
        assert(nu > 0);
        assert((k * n) * u == k * nu);
        assert((e * n) * u == e * nu);
        assert((n * u) * u == u * nu);
        assert(s * s >= 0);
        if 100 * k < 3 * u {
            assert((100 * k) * nu <= (3 * u) * nu);
            assert(u * nu == 0x20_0000 * (e * nu));
            assert(e * nu > 0);
        }
    }
    let least = F32::ratio(1, 1000);
    lemma_ratio_close(1, 1000);
    lemma_order(c, least);
    lemma_order(least, c);
    lemma_order(c, F32::zero());
    lemma_order(F32::zero(), c);
    assert(c.max(least) == c);
    lemma_widened_value(c);
    let y = c.to_f64();
    let p = pow2(925);
    let d = one_double();
    lemma_pow2_pos(925);
    lemma_pow2_adds(925, 149);
    assert(1024 * (k * p) >= p * u) by (nonlinear_arith)
        requires
            100 * k >= 3 * u,
            p > 0,
            u > 0,
    ;
    lemma_quotient_value(g@.ema_ns, y);
    let t = g@.ema_ns.value();
    let v = ns.value();
    assert(size(v * k - t * u) * 0x20_0000_0000_0000 <= t * u + k * 0x20_0000_0000_0000) by (
        nonlinear_arith)
        requires
            size(v * (k * p) - t * (p * u)) * 0x20_0000_0000_0000 <= t * (p * u) + (k * p)
                * 0x20_0000_0000_0000,
            p > 0,
    {
        let z = v * k - t * u;
        assert(v * (k * p) - t * (p * u) == z * p);
        assert(size(z * p) == size(z) * p);
        assert((size(z) * 0x20_0000_0000_0000) * p <= (t * u + k * 0x20_0000_0000_0000) * p) by {
            assert((t * u) * p == t * (p * u));
            assert((k * 0x20_0000_0000_0000) * p == (k * p) * 0x20_0000_0000_0000);
        }
    }
}

/// A scale in hundredths is a fraction.
proof fn lemma_scale_in_unit(scale: u32)
    requires
        scale <= 100,
    ensures
        in_unit(F32::ratio(scale, 100)),
{
    lemma_ratio_le(scale, 100, 100, 100);
    lemma_ratio_ends(100);
}

/// What the frames on the first rungs cost, all together.
pub open spec fn spent(t: &Telemetry, n: nat) -> int
    decreases n,
{
    if n == 0 {
        0
    } else {
        spent(t, (n - 1) as nat) + rung((n - 1) as u8).relative_cost().value()
            * t.frames_at_level[n - 1]
    }
}

/// How many frames there were on the first rungs.
spec fn counted(t: &Telemetry, n: nat) -> int
    decreases n,
{
    if n == 0 {
        0
    } else {
        counted(t, (n - 1) as nat) + t.frames_at_level[n - 1]
    }
}

/// The frames on the first rungs are no more than all of them.
proof fn lemma_counted(t: &Telemetry, n: nat)
    requires
        t.wf(),
        n <= 7,
    ensures
        0 <= counted(t, n) <= t.frames,
{
    reveal_with_fuel(counted, 8);
    reveal_with_fuel(tally, 8);
    let s = t.frames_at_level@;
    assert(s.len() == 7);
    assert(counted(t, 7) == tally(s));
}

/// A rung costs at most twice a native frame.
proof fn lemma_cost_range(level: u8)
    ensures
        rung(level).relative_cost().is_finite(),
        0 < rung(level).relative_cost().value() <= 2 * one_unit(),
{
    let r = rung(level);
    let c = r.relative_cost();
    let e = slip();
    let u = one_unit();
    lemma_slip();
    lemma_scale_in_unit(100);
    lemma_scale_in_unit(77);
    lemma_scale_in_unit(67);
    lemma_scale_in_unit(59);
    lemma_scale_in_unit(50);
    lemma_scale_in_unit(33);
    assert(in_unit(r.render_scale));
    lemma_unit_value(r.render_scale);
    lemma_cost(&r);
    let k = c.value();
    let n = 1 + r.generated_per_rendered;
    let s = r.render_scale.value();
    assert(100 * k >= 3 * u && k <= 2 * u) by (nonlinear_arith)
        requires
            size(25 * ((k * n) * u) - 25 * (s * s) - (n * u) * u) <= 100 * ((e * n) * u),
            n >= 1,
            0 <= s <= u,
            u == 0x20_0000 * e,
            e > 0,
    {
        let nu = n * u;
        assert(nu >= u);
        assert((k * n) * u == k * nu);
        assert((e * n) * u == e * nu);
        assert((n * u) * u == u * nu);
        assert(0 <= s * s <= u * u);
        assert(u * u <= u * nu);
        assert(u * nu == 0x20_0000 * (e * nu));
        assert(e * nu > 0);
        if 100 * k < 3 * u {
            assert((100 * k) * nu <= (3 * u) * nu);
        }
        if k > 2 * u {
            assert(k * nu >= (2 * u) * nu);
        }
    }
}

/// The sum of the costs, by its value.
proof fn lemma_spent(t: &Telemetry, n: nat)
    requires
        t.wf(),
        n <= 7,
        0 < t.frames < 0x100_0000,
    ensures
        t.cost_below(n).is_finite(),
        t.cost_below(n).key() >= 0,
        0 <= spent(t, n) <= 2 * (one_unit() * counted(t, n)),
        size(t.cost_below(n).value() - spent(t, n)) <= n * (slip() * t.frames),
    decreases n,
{
    let e = slip();
    let u = one_unit();
    let f = Format::Single;
    let all = t.frames as int;
    lemma_slip();
    lemma_order(F32::zero(), F32::zero());
    assert(e * all > 0) by (nonlinear_arith)
        requires
            e > 0,
            all > 0,
    ;
    if n == 0 {
        assert(0 * (e * all) == 0 && u * 0 == 0) by (nonlinear_arith);
    } else {
        let m = (n - 1) as nat;
        lemma_spent(t, m);
        lemma_counted(t, m);
        lemma_counted(t, n);
        let k = t.frames_at_level[n - 1];
        let c = rung(m as u8).relative_cost();
        lemma_cost_range(m as u8);
        lemma_from_small(k as u32);
        let count = F32::from_u64(k);
        assert(count == F32::from_u32(k as u32));
        lemma_order(count, count);
        lemma_order(F32::zero(), c);
        lemma_order(c, c);
        let x = c.value() as nat;
        let y = (k * u) as nat;
        assert(k * u >= 0) by (nonlinear_arith)
            requires
                k >= 0,
                u > 0,
        ;
        upsampling::lemma_room_above(171);
        upsampling::lemma_room_above(174);
        lemma2_to64();
        lemma_pow2_adds(22, 149);
        lemma_pow2_adds(25, 149);
        lemma_pow2_pos(149);
        let p = pow2(149);
        let exact = c.value() * k;
        assert(0 <= exact <= 2 * (u * k)) by (nonlinear_arith)
            requires
                0 <= c.value() <= 2 * u,
                exact == c.value() * k,
                k >= 0,
        ;
        // The product.
        assert(x * y == exact * u) by (nonlinear_arith)
            requires
                x == c.value(),
                y == k * u,
                exact == c.value() * k,
        ;
        assert(u * k <= u * all) by (nonlinear_arith)
            requires
                k <= all,
                u > 0,
        ;
        assert(u * all < 0x100_0000 * u) by (nonlinear_arith)
            requires
                all < 0x100_0000,
                u > 0,
        ;
        assert(x * y <= (1 * pow2(174)) * p) by (nonlinear_arith)
            requires
                x * y == exact * u,
                exact <= 0x200_0000 * u,
                pow2(174) == 0x200_0000 * u,
                p == u,
                u > 0,
        ;
        lemma_mul_key(c, count);
        lemma_round_upper(f, x * y, p, 1, 174);
        lemma_rounds_single(x * y, p);
        let term = c * count;
        lemma_order(term, term);
        let r = term.value();
        assert(size(r - exact) * 0x100_0000 <= exact + 0x100_0000) by (nonlinear_arith)
            requires
                size(r * u - exact * u) * 0x100_0000 <= exact * u + u * 0x100_0000,
                u > 0,
        {
            let z = r - exact;
            assert(z * u == r * u - exact * u);
            assert(size(z * u) == size(z) * u);
            assert((size(z) * 0x100_0000) * u <= (exact + 0x100_0000) * u);
        }
        // The sum.
        let before = t.cost_below(m);
        lemma_order(before, before);
        let v = before.value() + r;
        assert(u * counted(t, m) + u * k == u * counted(t, n) && u * counted(t, n) <= u * all) by (
            nonlinear_arith)
            requires
                counted(t, m) + k == counted(t, n),
                counted(t, n) <= all,
                u > 0,
        ;
        assert(m * (e * all) <= 6 * (e * all) && n * (e * all) == m * (e * all) + e * all) by (
            nonlinear_arith)
            requires
                m <= 6,
                n == m + 1,
                e * all > 0,
        ;
        assert(u * all == 0x20_0000 * (e * all)) by (nonlinear_arith)
            requires
                u == 0x20_0000 * e,
        ;
        assert(e * all >= e) by (nonlinear_arith)
            requires
                e > 0,
                all >= 1,
        ;
        assert(e >= 0x100) by {
            lemma_pow2_le(64, 149);
        }
        assert(v <= 3 * (u * all));
        lemma_add_key(before, term);
        lemma_pow2_adds(26, 149);
        upsampling::lemma_room_above(175);
        lemma_round_upper(f, v as nat, 1, 1, 175);
        lemma_rounds_single(v as nat, 1);
        let sum = before + term;
        lemma_order(sum, sum);
        assert(size(sum.value() - v) * 0x100_0000 <= v + 0x100_0000);
    }
}

/// The mean cost is what all frames cost, each on its own rung, over how many there
/// were, but for a few millionths of rounding.
pub proof fn law_the_mean_cost_is_the_mean(t: &Telemetry, mean: F32)
    requires
        t.wf(),
        0 < t.frames < 0x100_0000,
        call_ensures(Telemetry::mean_relative_cost, (t,), mean),
    ensures
        mean.is_finite(),
        size(mean.value() * t.frames - spent(t, 7)) <= 8 * (slip() * t.frames),
{
    let e = slip();
    let u = one_unit();
    let all = t.frames as int;
    lemma_slip();
    lemma_spent(t, 7);
    lemma_counted(t, 7);
    let total = t.cost_below(7);
    lemma_order(total, total);
    lemma_from_small(t.frames as u32);
    let count = F32::from_u64(t.frames);
    assert(count == F32::from_u32(t.frames as u32));
    lemma_order(count, count);
    assert(count.value() == all * u);
    let x = total.value();
    assert(u * counted(t, 7) <= u * all && u * all == 0x20_0000 * (e * all) && e * all > 0 && all * u
        == u * all) by (nonlinear_arith)
        requires
            counted(t, 7) <= all,
            u == 0x20_0000 * e,
            e > 0,
            all > 0,
    ;
    assert(0 <= x <= 8 * (all * u));
    lemma_div_close(total, count);
    let q = mean.value();
    assert(size(q * all - x) <= e * all) by (nonlinear_arith)
        requires
            size(q * (all * u) - x * u) <= e * (all * u),
            u > 0,
    {
        assert(q * (all * u) - x * u == (q * all - x) * u);
        assert(e * (all * u) == (e * all) * u);
        assert(size((q * all - x) * u) == size(q * all - x) * u);
    }
}

} // verus!
