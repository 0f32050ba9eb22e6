//! Spacing: generated frames are spread evenly over an interval, in time and in
//! what they show.

use crate::fp::errors::{
    lemma_add_close, lemma_round_close, lemma_round_error, lemma_slip, one_unit, place, size, slip,
};
use crate::fp::facts::{
    lemma_double_div, lemma_double_from, lemma_double_mul, lemma_round_same, lemma_round_upper,
    lemma_unity,
};
use crate::fp::model::{lemma_pow2_le, lemma_quotient_bounds, round_mag, units, Format};
use crate::fp::raw::lemma_units_zero;
use crate::fp::round::lemma_round_zero;
use crate::fp::{F32, F64};
use crate::level::{BoostRung, GenMode};
use crate::pacing::{FramePacer, PacerState, PresentSlot, SlotKind};
use vstd::arithmetic::power2::{
    lemma2_to64, lemma2_to64_rest, lemma_pow2_adds, lemma_pow2_pos, pow2,
};
use vstd::prelude::*;

verus! {

/// Exponents that are far from the largest, in the longer format.
proof fn lemma_room_above(e: nat)
    requires
        e <= 1200,
    ensures
        (e + 2) * pow2((Format::Double.p() - 1) as nat) <= Format::Double.top(),
        pow2((Format::Double.p() - 1) as nat) == 0x10_0000_0000_0000,
        pow2(Format::Double.p()) == 0x20_0000_0000_0000,
{
    lemma2_to64();
    lemma2_to64_rest();
    assert((e + 2) * 0x10_0000_0000_0000 <= 0x7ff0_0000_0000_0000) by (nonlinear_arith)
        requires
            e <= 1200,
    ;
}

/// A rounded quotient that is not tiny is off by at most a part in `2^53`.
proof fn lemma_part(n: nat, d: nat)
    requires
        d > 0,
        n >= d * 0x10_0000_0000_0000,
        round_mag(Format::Double, n, d) < Format::Double.top(),
    ensures
        ({
            let r = units(Format::Double, round_mag(Format::Double, n, d)) * d;
            &&& r * 0x20_0000_0000_0000 <= n * 0x20_0000_0000_0001
            &&& n * 0x1f_ffff_ffff_ffff <= r * 0x20_0000_0000_0000
        }),
{
    let f = Format::Double;
    lemma_room_above(0);
    lemma_round_error(f, n, d);
}

/// Where a generated frame belongs, in units: its share of the interval, but for
/// rounding.
proof fn lemma_share(p: PacerState, count: u32, i: u32)
    requires
        i < count < u32::MAX,
        count + 1 <= p.interval() < 0x1_0000_0000_0000,
    ensures
        ({
            let o = p.offset(count, i);
            let x = units(Format::Double, o.key() as nat);
            let exact = (p.interval() * (i + 1)) * pow2(1074);
            &&& o.is_finite()
            &&& o.key() >= 0
            &&& (x * (count + 1)) * 0x8_0000_0000_0000 <= exact * 0x8_0000_0000_0001
            &&& exact * 0x7_ffff_ffff_ffff <= (x * (count + 1)) * 0x8_0000_0000_0000
        }),
{
    let f = Format::Double;
    let one = pow2(1074);
    let m = p.interval() as nat;
    let n = (count + 1) as nat;
    let k = (i + 1) as nat;
    let a = F64::from_u64(p.interval());
    let b = F64::from_u32((count + 1) as u32);
    let c = F64::from_u32((i + 1) as u32);
    lemma2_to64();
    lemma2_to64_rest();
    lemma_pow2_pos(1074);
    lemma_pow2_le(60, 1074);
    lemma_double_from(p.interval());
    lemma_double_from((count + 1) as u64);
    lemma_double_from((i + 1) as u64);
    assert(n * one > 0) by (nonlinear_arith)
        requires
            n >= 1,
            one > 0,
    ;
    lemma_units_zero(f, b.key() as nat);
    // The step.
    let step = a / b;
    lemma_double_div(a, b);
    assert(((m * one) * one) * n == (m * one) * (n * one)) by (nonlinear_arith);
    lemma_round_same(f, (m * one) * one, n * one, m * one, n);
    lemma_room_above(1074);
    assert(m * one <= (m * one) * n) by (nonlinear_arith)
        requires
            n >= 1,
    ;
    lemma_round_upper(f, m * one, n, m, 1074);
    assert(m * one >= n * 0x10_0000_0000_0000) by (nonlinear_arith)
        requires
            m >= n,
            one >= 0x10_0000_0000_0000,
    ;
    lemma_part(m * one, n);
    let s = units(f, step.key() as nat);
    // The place.
    let o = p.offset(count, i);
    lemma_double_mul(step, c);
    assert((s * (k * one)) * 1 == (s * k) * one) by (nonlinear_arith);
    lemma_round_same(f, s * (k * one), one, s * k, 1);
    assert(s * n <= 2 * (m * one)) by (nonlinear_arith)
        requires
            (s * n) * 0x20_0000_0000_0000 <= (m * one) * 0x20_0000_0000_0001,
    ;
    assert(2 * (s * n) >= m * one) by (nonlinear_arith)
        requires
            (m * one) * 0x1f_ffff_ffff_ffff <= (s * n) * 0x20_0000_0000_0000,
    ;
    assert(s * k <= ((2 * m) * one) * 1) by (nonlinear_arith)
        requires
            s * n <= 2 * (m * one),
            k <= n,
    ;
    lemma_round_upper(f, s * k, 1, 2 * m, 1074);
    assert(s >= 0x10_0000_0000_0000) by (nonlinear_arith)
        requires
            2 * (s * n) >= m * one,
            m >= n,
            n >= 1,
            one >= 2 * 0x10_0000_0000_0000,
    {
        if s < 0x10_0000_0000_0000 {
            assert(2 * (s * n) < 2 * 0x10_0000_0000_0000 * n);
            assert(m * one >= n * one);
            assert(n * one >= n * (2 * 0x10_0000_0000_0000));
        }
    }
    assert(s * k >= 1 * 0x10_0000_0000_0000) by (nonlinear_arith)
        requires
            s >= 0x10_0000_0000_0000,
            k >= 1,
    ;
    lemma_part(s * k, 1);
    let x = units(f, o.key() as nat);
    lemma_two_parts(s * n, m * one, k, x, s, n);
    assert((m * one) * k == (m * k) * one) by (nonlinear_arith);
}

/// Two roundings in a row.
proof fn lemma_two_parts(step: nat, whole: nat, k: nat, x: nat, s: nat, n: nat)
    requires
        step == s * n,
        step * 0x20_0000_0000_0000 <= whole * 0x20_0000_0000_0001,
        whole * 0x1f_ffff_ffff_ffff <= step * 0x20_0000_0000_0000,
        (x * 1) * 0x20_0000_0000_0000 <= (s * k) * 0x20_0000_0000_0001,
        (s * k) * 0x1f_ffff_ffff_ffff <= (x * 1) * 0x20_0000_0000_0000,
    ensures
        (x * n) * 0x8_0000_0000_0000 <= (whole * k) * 0x8_0000_0000_0001,
        (whole * k) * 0x7_ffff_ffff_ffff <= (x * n) * 0x8_0000_0000_0000,
{
    let a = x * n;
    let b = step * k;
    let c = whole * k;
    assert(b == (s * k) * n) by (nonlinear_arith)
        requires
            b == step * k,
            step == s * n,
    ;
    assert(a * 0x20_0000_0000_0000 <= b * 0x20_0000_0000_0001) by (nonlinear_arith)
        requires
            x * 0x20_0000_0000_0000 <= (s * k) * 0x20_0000_0000_0001,
            a == x * n,
            b == (s * k) * n,
    {
        assert((x * 0x20_0000_0000_0000) * n <= ((s * k) * 0x20_0000_0000_0001) * n);
        assert((x * 0x20_0000_0000_0000) * n == (x * n) * 0x20_0000_0000_0000);
        assert(((s * k) * 0x20_0000_0000_0001) * n == ((s * k) * n) * 0x20_0000_0000_0001);
    }
    assert(b * 0x1f_ffff_ffff_ffff <= a * 0x20_0000_0000_0000) by (nonlinear_arith)
        requires
            (s * k) * 0x1f_ffff_ffff_ffff <= x * 0x20_0000_0000_0000,
            a == x * n,
            b == (s * k) * n,
    {
        assert(((s * k) * 0x1f_ffff_ffff_ffff) * n <= (x * 0x20_0000_0000_0000) * n);
        assert((x * 0x20_0000_0000_0000) * n == (x * n) * 0x20_0000_0000_0000);
        assert(((s * k) * 0x1f_ffff_ffff_ffff) * n == ((s * k) * n) * 0x1f_ffff_ffff_ffff);
    }
    assert(b * 0x20_0000_0000_0000 <= c * 0x20_0000_0000_0001) by (nonlinear_arith)
        requires
            step * 0x20_0000_0000_0000 <= whole * 0x20_0000_0000_0001,
            b == step * k,
            c == whole * k,
    {
        assert((step * 0x20_0000_0000_0000) * k <= (whole * 0x20_0000_0000_0001) * k);
        assert((step * 0x20_0000_0000_0000) * k == (step * k) * 0x20_0000_0000_0000);
        assert((whole * 0x20_0000_0000_0001) * k == (whole * k) * 0x20_0000_0000_0001);
    }
    assert(c * 0x1f_ffff_ffff_ffff <= b * 0x20_0000_0000_0000) by (nonlinear_arith)
        requires
            whole * 0x1f_ffff_ffff_ffff <= step * 0x20_0000_0000_0000,
            b == step * k,
            c == whole * k,
    {
        assert((whole * 0x1f_ffff_ffff_ffff) * k <= (step * 0x20_0000_0000_0000) * k);
        assert((step * 0x20_0000_0000_0000) * k == (step * k) * 0x20_0000_0000_0000);
        assert((whole * 0x1f_ffff_ffff_ffff) * k == (whole * k) * 0x1f_ffff_ffff_ffff);
    }
}

/// What a generated frame shows, in units: its share of the way, but for
/// rounding.
proof fn lemma_way(p: PacerState, count: u32, i: u32)
    requires
        i < count < u32::MAX,
        count + 1 <= p.interval() < 0x1_0000_0000_0000,
    ensures
        ({
            let x = (p.offset(count, i) / F64::from_u64(p.interval())).to_f32();
            &&& x.is_finite()
            &&& size(x.value() * (count + 1) - one_unit() * (i + 1)) <= 2 * (slip() * (count + 1))
        }),
{
    let f = Format::Double;
    let one = pow2(1074);
    let m = p.interval() as nat;
    let n = (count + 1) as nat;
    let k = (i + 1) as nat;
    let o = p.offset(count, i);
    let a = F64::from_u64(p.interval());
    let x = units(f, o.key() as nat);
    lemma2_to64();
    lemma2_to64_rest();
    lemma_pow2_pos(1074);
    lemma_pow2_le(110, 1074);
    lemma_pow2_adds(60, 50);
    lemma_double_from(p.interval());
    lemma_share(p, count, i);
    assert(m * one > 0) by (nonlinear_arith)
        requires
            m >= 1,
            one > 0,
    ;
    lemma_units_zero(f, a.key() as nat);
    let frac = o / a;
    lemma_double_div(o, a);
    assert((x * one) * m == x * (m * one)) by (nonlinear_arith);
    lemma_round_same(f, x * one, m * one, x, m);
    let exact = (m * k) * one;
    // x is about m k / n, so neither tiny nor beyond the interval.
    assert(x <= 2 * (m * one)) by (nonlinear_arith)
        requires
            (x * n) * 0x8_0000_0000_0000 <= exact * 0x8_0000_0000_0001,
            exact == (m * k) * one,
            k <= n,
            n >= 1,
    {
        assert(exact <= (m * one) * n) by {
            assert((m * k) * one == (m * one) * k);
            assert((m * one) * k <= (m * one) * n);
        }
        assert(x * n <= 2 * exact);
        assert(x * n <= (2 * (m * one)) * n);
    }
    assert(x >= m * 0x10_0000_0000_0000) by (nonlinear_arith)
        requires
            exact * 0x7_ffff_ffff_ffff <= (x * n) * 0x8_0000_0000_0000,
            exact == (m * k) * one,
            k >= 1,
            1 <= n < 0x1_0000_0000,
            m >= 1,
            one >= 0x1000_0000_0000_0000 * 0x4_0000_0000_0000,
    {
        assert(2 * (x * n) >= exact);
        assert(exact >= m * one) by {
            assert((m * k) * one == (m * one) * k);
        }
        assert(x * n <= x * 0x1_0000_0000);
        assert(m * one >= m * (0x1000_0000_0000_0000 * 0x4_0000_0000_0000));
    }
    lemma_room_above(1075);
    lemma_pow2_adds(1, 1074);
    assert(x <= (1 * pow2(1075)) * m) by (nonlinear_arith)
        requires
            x <= 2 * (m * one),
            pow2(1075) == 2 * one,
    ;
    lemma_round_upper(f, x, m, 1, 1075);
    lemma_part(x, m);
    let g = units(f, frac.key() as nat);
    assert(frac.is_finite() && frac.key() >= 0);
    // In the shorter format.
    reveal(F64::spec_to_f32);
    let u = pow2(149);
    let y = frac.to_f32();
    lemma_slip();
    lemma_pow2_pos(149);
    assert(g * u <= 8 * one_unit() * one) by (nonlinear_arith)
        requires
            g <= 2 * one,
            u == one_unit(),
            u > 0,
    ;
    lemma_round_close(g * u, one);
    if frac.bits >= 0x8000_0000_0000_0000 {
        assert(frac.key() == 0);
        lemma_units_zero(f, 0);
    }
    lemma_units_zero(Format::Single, 0);
    let v = y.value();
    assert(units(f, frac.raw().mag as nat) == g);
    let r = round_mag(Format::Single, g * u, one);
    assert(y.raw().mag == r && y.is_finite());
    assert(v == units(Format::Single, r)) by {
        if frac.bits >= 0x8000_0000_0000_0000 {
            assert(0 * u == 0) by (nonlinear_arith);
            lemma_round_zero(Format::Single, one);
        }
    }
    lemma_way_left(x, n, m, k, g, v, one as int, u as int, slip());
}

/// What three roundings leave of a share.
proof fn lemma_way_left(x: nat, n: nat, m: nat, k: nat, g: nat, v: int, one: int, u: int, e: int)
    requires
        (x * n) * 0x8_0000_0000_0000 <= ((m * k) * one) * 0x8_0000_0000_0001,
        ((m * k) * one) * 0x7_ffff_ffff_ffff <= (x * n) * 0x8_0000_0000_0000,
        (g * m) * 0x20_0000_0000_0000 <= x * 0x20_0000_0000_0001,
        x * 0x1f_ffff_ffff_ffff <= (g * m) * 0x20_0000_0000_0000,
        v * one <= g * u + e * one,
        g * u <= v * one + e * one,
        1 <= k <= n,
        m >= 1,
        one > 0,
        u == 0x20_0000 * e,
        e > 0,
    ensures
        size(v * n - u * k) <= 2 * (e * n),
{
    let z: int = 0x20_0000_0000_0000;
    let a = (g * n) * m;
    let b = x * n;
    let c = (k * one) * m;
    assert(c == (m * k) * one) by (nonlinear_arith)
        requires
            c == (k * one) * m,
    ;
    assert(a * z <= b * (z + 1) && b * (z - 1) <= a * z) by (nonlinear_arith)
        requires
            (g * m) * z <= x * (z + 1),
            x * (z - 1) <= (g * m) * z,
            a == (g * n) * m,
            b == x * n,
    {
        assert(((g * m) * z) * n <= (x * (z + 1)) * n);
        assert((x * (z - 1)) * n <= ((g * m) * z) * n);
        assert(((g * m) * z) * n == ((g * n) * m) * z);
        assert((x * (z + 1)) * n == (x * n) * (z + 1));
        assert((x * (z - 1)) * n == (x * n) * (z - 1));
    }
    assert(c >= 0) by (nonlinear_arith)
        requires
            c == (k * one) * m,
            one > 0,
    ;
    let y: int = 0x4_0000_0000_0000;
    assert(a * y <= c * (y + 1) && c * (y - 1) <= a * y);
    // Without the interval.
    let p = g * n;
    let q = k * one;
    assert(p * y <= q * (y + 1) && q * (y - 1) <= p * y) by (nonlinear_arith)
        requires
            (p * m) * y <= (q * m) * (y + 1),
            (q * m) * (y - 1) <= (p * m) * y,
            m >= 1,
    {
        assert((p * m) * y == (p * y) * m);
        assert((q * m) * (y + 1) == (q * (y + 1)) * m);
        assert((q * m) * (y - 1) == (q * (y - 1)) * m);
    }
    // In the shorter format.
    assert((v * n) * one <= (g * n) * u + (e * n) * one && (g * n) * u <= (v * n) * one + (e * n)
        * one) by (nonlinear_arith)
        requires
            v * one <= g * u + e * one,
            g * u <= v * one + e * one,
            n >= 1,
    {
        assert((v * one) * n <= (g * u + e * one) * n);
        assert((g * u) * n <= (v * one + e * one) * n);
    }
    let r = p * u;
    let w = q * u;
    assert(r * y <= w * (y + 1) && w * (y - 1) <= r * y) by (nonlinear_arith)
        requires
            p * y <= q * (y + 1),
            q * (y - 1) <= p * y,
            r == p * u,
            w == q * u,
            u > 0,
    {
        assert((p * y) * u <= (q * (y + 1)) * u);
        assert((q * (y - 1)) * u <= (p * y) * u);
        assert((p * y) * u == (p * u) * y);
        assert((q * (y + 1)) * u == (q * u) * (y + 1));
        assert((q * (y - 1)) * u == (q * u) * (y - 1));
    }
    assert(w <= ((e * n) * one) * 0x20_0000) by (nonlinear_arith)
        requires
            w == (k * one) * u,
            u == 0x20_0000 * e,
            k <= n,
            e > 0,
            one > 0,
    {
        assert((k * one) * u == ((e * k) * one) * 0x20_0000);
        assert((e * k) <= (e * n));
        assert((e * k) * one <= (e * n) * one);
    }
    let t = (e * n) * one;
    assert(t >= 0) by (nonlinear_arith)
        requires
            t == (e * n) * one,
            e > 0,
            one > 0,
    ;
    assert(size(r - w) * y <= w) by (nonlinear_arith)
        requires
            r * y <= w * (y + 1),
            w * (y - 1) <= r * y,
    ;
    assert(size(r - w) <= t);
    let d = v * n - u * k;
    assert(d * one == (v * n) * one - w) by (nonlinear_arith)
        requires
            d == v * n - u * k,
            w == (k * one) * u,
    ;
    assert(size(d) <= 2 * (e * n)) by (nonlinear_arith)
        requires
            size(d * one) <= 2 * ((e * n) * one),
            one > 0,
    ;
}

/// Generated frames are spread evenly over the interval, in order: frame `i` of
/// `count` is due `(i + 1) / (count + 1)` of the interval after the rendered one,
/// to the nanosecond below, and shows that part of the way between the endpoints,
/// or as far past the newest one where the rung extrapolates, but for a few
/// millionths of rounding. This is for intervals of up to three days that have a
/// nanosecond for every part.
pub proof fn law_generated_frames_are_spread_evenly(
    p: &FramePacer,
    rung: &BoostRung,
    at: u64,
    slots: Vec<PresentSlot>,
    i: u32,
)
    requires
        rung.generated_per_rendered < u32::MAX,
        rung.gen_mode != GenMode::Off,
        rung.generated_per_rendered + 1 <= p@.interval() < 0x1_0000_0000_0000,
        p@.has_time_for(*rung, at),
        call_ensures(FramePacer::slots_for, (p, rung, at), slots),
        i < rung.generated_per_rendered,
    ensures
        ({
            let n = rung.generated_per_rendered + 1;
            let k = i + 1;
            let slot = slots@[k];
            let late = slot.at_ns - at;
            &&& slots@.len() == n
            &&& slots@[0] == (PresentSlot { at_ns: at, kind: SlotKind::Rendered })
            &&& 8 * (late * n) <= 8 * (p@.interval() * k) + n
            &&& 8 * (p@.interval() * k) <= 8 * (late * n) + 9 * n
            &&& slot.kind is Generated
            &&& slot.kind->index == i
            &&& slot.kind->t.is_finite()
            &&& rung.gen_mode == GenMode::Interpolate ==> size(
                slot.kind->t.value() * n - one_unit() * k,
            ) <= 3 * (slip() * n)
            &&& rung.gen_mode == GenMode::Extrapolate ==> size(
                slot.kind->t.value() * n - one_unit() * (n + k),
            ) <= 3 * (slip() * n)
        }),
{
    let state = p@;
    let count = rung.generated_per_rendered;
    let one = pow2(1074);
    let n = count + 1;
    let k = i + 1;
    let m = state.interval() as int;
    let o = state.offset(count, i);
    let x = units(Format::Double, o.key() as nat);
    let slot = state.generated_slot(*rung, at, i);
    assert(slots@ == state.slots(*rung, at));
    assert(slots@[k] == slot);
    lemma_pow2_pos(1074);
    lemma2_to64();
    lemma2_to64_rest();
    // When.
    lemma_share(state, count, i);
    lemma_quotient_bounds(x, one);
    let w = (x / one) as int;
    let exact = (m * k) * one;
    assert(exact <= ((n * one) * 0x1_0000_0000_0000)) by (nonlinear_arith)
        requires
            exact == (m * k) * one,
            0 <= m < 0x1_0000_0000_0000,
            0 <= k <= n,
            one > 0,
    {
        assert(m * k <= 0x1_0000_0000_0000 * n);
    }
    assert(8 * (w * n) <= 8 * (m * k) + n) by (nonlinear_arith)
        requires
            w * one <= x,
            (x * n) * 0x8_0000_0000_0000 <= exact * 0x8_0000_0000_0001,
            exact <= (n * one) * 0x1_0000_0000_0000,
            exact == (m * k) * one,
            one > 0,
            n >= 1,
    {
        assert((w * n) * one <= x * n) by {
            assert((w * one) * n <= x * n);
            assert((w * one) * n == (w * n) * one);
        }
        assert(8 * ((x * n)) <= 8 * exact + n * one);
        assert((8 * (w * n)) * one <= (8 * (m * k) + n) * one);
    }
    assert(8 * (m * k) <= 8 * ((w + 1) * n) + n) by (nonlinear_arith)
        requires
            x < (w + 1) * one,
            exact * 0x7_ffff_ffff_ffff <= (x * n) * 0x8_0000_0000_0000,
            exact <= (n * one) * 0x1_0000_0000_0000,
            exact == (m * k) * one,
            one > 0,
            n >= 1,
    {
        assert(x * n <= ((w + 1) * n) * one) by {
            assert(x * n <= ((w + 1) * one) * n);
            assert(((w + 1) * one) * n == ((w + 1) * n) * one);
        }
        assert(8 * exact <= 8 * (x * n) + n * one);
        assert((8 * (m * k)) * one <= (8 * ((w + 1) * n) + n) * one);
    }
    assert(w < 0x1_0000_0000_0000_0000) by (nonlinear_arith)
        requires
            8 * (w * n) <= 8 * (m * k) + n,
            m < 0x1_0000_0000_0000,
            0 <= k <= n,
            n >= 1,
    {
        assert(m * k <= 0x1_0000_0000_0000 * n);
        assert(w * n <= 0x2_0000_0000_0000 * n);
    }
    assert(o.to_u64() == w) by {
        reveal(F64::spec_to_u64);
        if o.bits >= 0x8000_0000_0000_0000 {
            assert(o.key() == 0);
            lemma_units_zero(Format::Double, 0);
            assert(0nat / one == 0) by {
                lemma_quotient_bounds(0, one);
                assert(w == 0) by (nonlinear_arith)
                    requires
                        w * one <= 0,
                        w >= 0,
                        one > 0,
                ;
            }
        }
    }
    let late = state.delay(count, i) as int;
    assert((w + 1) * n == w * n + n) by (nonlinear_arith);
    assert(w + 1 >= k) by (nonlinear_arith)
        requires
            8 * (m * k) <= 8 * (w * n + n) + n,
            m >= n,
            n >= 1,
            k >= 1,
    {
        assert(m * k >= n * k);
        if w + 1 < k {
            assert(w * n + n == (w + 1) * n);
            assert((w + 1) * n <= (k - 1) * n);
            assert((k - 1) * n == k * n - n);
            assert(n * k == k * n);
        }
    }
    assert(k * n <= m * k) by (nonlinear_arith)
        requires
            n <= m,
            k >= 1,
    ;
    assert(late == w || late == k && late == w + 1);
    assert(at + state.delay(count, i) <= u64::MAX);
    assert(slot.at_ns == at + late);
    // What.
    let frac = (o / F64::from_u64(state.interval())).to_f32();
    lemma_way(state, count, i);
    lemma_slip();
    let e = slip();
    let u = one_unit();
    assert(e * n >= 0) by (nonlinear_arith)
        requires
            e > 0,
            n >= 1,
    ;
    if rung.gen_mode == GenMode::Extrapolate {
        lemma_unity(Format::Single);
        let y = frac.value();
        assert(-u <= y <= 3 * u) by (nonlinear_arith)
            requires
                size(y * n - u * k) <= 2 * (e * n),
                0 <= k <= n,
                n >= 1,
                2 * e <= u,
                u > 0,
        {
            assert(u * k <= u * n);
            assert(u * k >= 0);
            assert(2 * (e * n) <= u * n);
            if y > 3 * u {
                assert(y * n > (3 * u) * n);
            }
            if y < -u {
                assert(y * n < (-u) * n);
            }
        }
        lemma_add_close(F32::one(), frac);
        let t = (F32::one() + frac).value();
        assert(size(t * n - u * (n + k)) <= 3 * (e * n)) by (nonlinear_arith)
            requires
                size(t - (u + y)) <= e,
                size(y * n - u * k) <= 2 * (e * n),
                n >= 1,
                e > 0,
        {
            assert((t - (u + y)) * n == t * n - u * n - y * n);
            assert(u * (n + k) == u * n + u * k);
            assert(-(e * n) <= (t - (u + y)) * n <= e * n);
        }
    }
}

} // verus!
