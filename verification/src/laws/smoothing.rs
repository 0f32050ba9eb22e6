//! Smoothing: what is measured over time is averaged, and its spread is told.

use crate::fp::errors::{
    lemma_div_close, lemma_ratio_close, lemma_round_close, lemma_slip, one_unit, size, slip,
};
use crate::fp::facts::{
    lemma_double_div, lemma_double_from, lemma_exact, lemma_order, lemma_round_same,
    lemma_round_upper, lemma_unity, lemma_widened,
};
use crate::fp::model::{lemma_pow2_le, round_mag, units, Format};
use crate::fp::raw::lemma_units_zero;
use crate::fp::round::lemma_round_zero;
use crate::fp::{F32, F64};
use crate::governor::PerfState;
use crate::laws::evidence::{lemma_root_of_a_square, lemma_rounds_double, lemma_units_of_both};
use crate::laws::trust::in_unit;
use crate::pacing::{spread, total, FramePacer, PacerState};
use vstd::arithmetic::power2::{
    lemma2_to64, lemma2_to64_rest, lemma_pow2_adds, lemma_pow2_pos, pow2,
};
use vstd::prelude::*;

verus! {

/// One, in units of the longer format.
pub open spec fn one_double() -> int {
    pow2(1074) as int
}

/// Exponents that are far from the largest, in the longer format.
pub proof fn lemma_room_above(e: nat)
    requires
        e <= 1900,
    ensures
        (e + 2) * pow2((Format::Double.p() - 1) as nat) <= Format::Double.top(),
        pow2((Format::Double.p() - 1) as nat) == 0x10_0000_0000_0000,
        pow2(Format::Double.p()) == 0x20_0000_0000_0000,
{
    lemma2_to64();
    lemma2_to64_rest();
    assert((e + 2) * 0x10_0000_0000_0000 <= 0x7ff0_0000_0000_0000) by (nonlinear_arith)
        requires
            e <= 1900,
    ;
}

/// Rounding a whole number of units.
proof fn lemma_rounded(v: int)
    requires
        size(v) <= pow2(1200),
    ensures
        ({
            let r = round_mag(Format::Double, size(v) as nat, 1);
            &&& r < Format::Double.top()
            &&& size(units(Format::Double, r) - size(v)) * 0x20_0000_0000_0000 <= size(v)
                + 0x20_0000_0000_0000
        }),
{
    let n = size(v) as nat;
    lemma_room_above(1200);
    assert(n <= (1 * pow2(1200)) * 1);
    lemma_round_upper(Format::Double, n, 1, 1, 1200);
    lemma_rounds_double(n, 1);
}

/// A sum in the longer format.
proof fn lemma_plus(a: F64, b: F64)
    requires
        a.is_finite(),
        b.is_finite(),
        size(a.value() + b.value()) <= pow2(1200),
    ensures
        (a + b).is_finite(),
        size((a + b).value() - (a.value() + b.value())) * 0x20_0000_0000_0000 <= size(
            a.value() + b.value(),
        ) + 0x20_0000_0000_0000,
{
    reveal(F64::spec_add);
    lemma_rounded(a.value() + b.value());
    lemma_units_zero(Format::Double, 0);
}

/// A difference in the longer format.
proof fn lemma_minus(a: F64, b: F64)
    requires
        a.is_finite(),
        b.is_finite(),
        size(a.value() - b.value()) <= pow2(1200),
    ensures
        (a - b).is_finite(),
        size((a - b).value() - (a.value() - b.value())) * 0x20_0000_0000_0000 <= size(
            a.value() - b.value(),
        ) + 0x20_0000_0000_0000,
{
    reveal(F64::spec_sub);
    assert(b.raw().negated().value(Format::Double) == -b.value());
    lemma_rounded(a.value() - b.value());
    lemma_units_zero(Format::Double, 0);
}

/// A product in the longer format.
pub proof fn lemma_times(a: F64, b: F64)
    requires
        a.is_finite(),
        b.is_finite(),
        size(a.value() * b.value()) <= pow2(1200) * one_double(),
    ensures
        (a * b).is_finite(),
        size((a * b).value() * one_double() - a.value() * b.value()) * 0x20_0000_0000_0000 <= size(
            a.value() * b.value(),
        ) + one_double() * 0x20_0000_0000_0000,
{
    reveal(F64::spec_mul);
    let f = Format::Double;
    let d = pow2(1074);
    let x = units(f, a.raw().mag as nat);
    let y = units(f, b.raw().mag as nat);
    lemma_pow2_pos(1074);
    assert((-x) * y == -(x * y) && x * (-y) == -(x * y) && (-x) * (-y) == x * y)
        by (nonlinear_arith);
    assert(x * y >= 0) by (nonlinear_arith);
    assert(size(a.value() * b.value()) == x * y);
    lemma_room_above(1200);
    assert(x * y <= (1 * pow2(1200)) * d);
    lemma_round_upper(f, x * y, d, 1, 1200);
    lemma_rounds_double(x * y, d);
    let r = units(f, round_mag(f, x * y, d)) as int;
    assert((-r) * d == -(r * d)) by (nonlinear_arith);
}

/// A step from one number toward another lands that share of the way.
proof fn lemma_step_toward(m: F64, s: F64, a: F64)
    requires
        m.is_finite(),
        s.is_finite(),
        a.is_finite(),
        0 <= m.value() <= pow2(1140),
        0 <= s.value() <= pow2(1140),
        0 <= a.value() <= one_double(),
    ensures
        ({
            let r = m + a * (s - m);
            let d = one_double();
            &&& r.is_finite()
            &&& size(
                r.value() * d - ((d - a.value()) * m.value() + a.value() * s.value()),
            ) * 0x2_0000_0000_0000 <= d * (m.value() + s.value() + 0x20_0000_0000_0000)
        }),
{
    let d = one_double();
    let (x, y, w) = (m.value(), s.value(), a.value());
    lemma2_to64();
    lemma_pow2_pos(1074);
    lemma_pow2_pos(1140);
    lemma_pow2_adds(60, 1140);
    lemma_pow2_le(60, 1074);
    lemma2_to64_rest();
    lemma_minus(s, m);
    let g = s - m;
    let v = g.value();
    assert(size(v) <= 4 * pow2(1140));
    assert(size(w * v) <= d * size(v)) by (nonlinear_arith)
        requires
            0 <= w <= d,
    ;
    assert(d * size(v) <= pow2(1200) * d) by (nonlinear_arith)
        requires
            size(v) <= pow2(1200),
            d > 0,
    ;
    lemma_times(a, g);
    let p = a * g;
    let t = p.value();
    assert(size(t) <= 2 * size(v) + 2) by (nonlinear_arith)
        requires
            size(t * d - w * v) * 0x20_0000_0000_0000 <= size(w * v) + d * 0x20_0000_0000_0000,
            size(w * v) <= d * size(v),
            d > 0,
    {
        assert(size(t * d) <= 2 * (d * size(v)) + 2 * d);
        assert(size(t * d) == size(t) * d);
        assert(size(t) * d <= (2 * size(v) + 2) * d);
    }
    lemma_plus(m, p);
    let r = (m + p).value();
    lemma_step_left(x, y, w, v, t, r, d);
}

/// What three roundings leave of a step.
proof fn lemma_step_left(x: int, y: int, w: int, v: int, t: int, r: int, d: int)
    requires
        0 <= x,
        0 <= y,
        0 <= w <= d,
        d > 0,
        size(v - (y - x)) * 0x20_0000_0000_0000 <= size(y - x) + 0x20_0000_0000_0000,
        size(t * d - w * v) * 0x20_0000_0000_0000 <= size(w * v) + d * 0x20_0000_0000_0000,
        size(w * v) <= d * size(v),
        size(t) <= 2 * size(v) + 2,
        size(r - (x + t)) * 0x20_0000_0000_0000 <= size(x + t) + 0x20_0000_0000_0000,
    ensures
        size(r * d - ((d - w) * x + w * y)) * 0x2_0000_0000_0000 <= d * (x + y
            + 0x20_0000_0000_0000),
{
    let k = x + y + 0x20_0000_0000_0000;
    let (a, b, c) = (v - (y - x), t * d - w * v, r - (x + t));
    assert(size(v) <= 2 * k);
    assert(size(x + t) <= 6 * k);
    assert(size(w * a) <= d * size(a)) by (nonlinear_arith)
        requires
            0 <= w <= d,
    ;
    assert(d * size(v) <= 2 * (d * k)) by (nonlinear_arith)
        requires
            size(v) <= 2 * k,
            d > 0,
    ;
    assert(d * size(a) * 0x20_0000_0000_0000 <= 2 * (d * k)) by (nonlinear_arith)
        requires
            size(a) * 0x20_0000_0000_0000 <= 2 * k,
            d > 0,
    ;
    assert(d * size(c) * 0x20_0000_0000_0000 <= 7 * (d * k)) by (nonlinear_arith)
        requires
            size(c) * 0x20_0000_0000_0000 <= 7 * k,
            d > 0,
    ;
    assert(d * 0x20_0000_0000_0000 <= d * k) by (nonlinear_arith)
        requires
            0x20_0000_0000_0000 <= k,
            d > 0,
    ;
    assert(size(c * d) == d * size(c)) by (nonlinear_arith)
        requires
            d > 0,
    ;
    let z = r * d - ((d - w) * x + w * y);
    assert(z == w * a + b + c * d) by (nonlinear_arith)
        requires
            z == r * d - ((d - w) * x + w * y),
            a == v - (y - x),
            b == t * d - w * v,
            c == r - (x + t),
    ;
}

/// A number of the shorter format in the longer one.
proof fn lemma_wide(a: F32)
    requires
        in_unit(a),
    ensures
        a.to_f64().is_finite(),
        0 <= a.to_f64().value() <= one_double(),
        size(a.to_f64().value() * one_unit() - a.value() * one_double()) * 0x10_0000_0000_0000
            <= one_double() * one_unit(),
{
    let f = Format::Double;
    let u = pow2(149);
    let d = pow2(1074);
    lemma_units_of_both();
    lemma_pow2_pos(149);
    lemma_unity(Format::Single);
    lemma_order(F32::zero(), a);
    lemma_order(a, F32::one());
    lemma_order(a, a);
    lemma_widened(a);
    let n = a.value() as nat;
    assert(n * d <= u * d) by (nonlinear_arith)
        requires
            n <= u,
    ;
    assert(n * d <= (1 * d) * u) by (nonlinear_arith)
        requires
            n <= u,
    ;
    lemma_room_above(1074);
    lemma_round_upper(f, n * d, u, 1, 1074);
    lemma_rounds_double(n * d, u);
    let w = a.to_f64();
    lemma_units_zero(f, 0);
    assert(w.value() == units(f, w.key() as nat));
    assert(d * u >= u * 0x20_0000_0000_0000) by (nonlinear_arith)
        requires
            d >= 0x20_0000_0000_0000,
            u > 0,
    ;
    assert(u * d == d * u) by (nonlinear_arith);
}

/// The frame time is smoothed: the first is taken as it is, and after that the
/// estimate moves toward each by the share that is configured, but for a part in
/// `2^47` of the two.
pub proof fn law_frame_times_are_smoothed(s: PerfState, frame_ns: u64, active: u8, ceiling: u8)
    requires
        s.ema_ns.is_finite(),
        0 <= s.ema_ns.value() <= pow2(1140),
        in_unit(s.cfg.ema_alpha),
    ensures
        ({
            let next = s.observed(frame_ns, active, ceiling).ema_ns;
            let u = one_unit();
            let a = s.cfg.ema_alpha.value();
            let before = s.ema_ns.value();
            let sample = F64::from_u64(frame_ns).value();
            &&& next.is_finite()
            &&& !s.primed ==> next == F64::from_u64(frame_ns)
            &&& s.primed ==> size(next.value() * u - ((u - a) * before + a * sample))
                * 0x8000_0000_0000 <= u * (before + sample + 0x20_0000_0000_0000)
        }),
{
    reveal(F32::spec_clamp);
    let sample = F64::from_u64(frame_ns);
    let alpha = s.cfg.ema_alpha;
    let u = one_unit();
    let d = one_double();
    lemma_double_from(frame_ns);
    lemma_time(frame_ns);
    assert(alpha.clamp(F32::zero(), F32::one()) == alpha);
    lemma_wide(alpha);
    let w = alpha.to_f64();
    lemma_step_toward(s.ema_ns, sample, w);
    let r = (s.ema_ns + w * (sample - s.ema_ns)).value();
    lemma_slip();
    lemma_pow2_pos(1074);
    lemma_unity(Format::Single);
    lemma_order(F32::zero(), alpha);
    lemma_order(alpha, F32::one());
    lemma_other_share(s.ema_ns.value(), sample.value(), w.value(), alpha.value(), r, d, u);
}

/// A time in the longer format.
pub proof fn lemma_time(ns: u64)
    ensures
        F64::from_u64(ns).is_finite(),
        0 <= F64::from_u64(ns).value() <= pow2(1140),
        ns < 0x20_0000_0000_0000 ==> F64::from_u64(ns).value() == ns * one_double(),
{
    lemma_double_from(ns);
    lemma_pow2_adds(64, 1074);
    lemma_pow2_le(1138, 1140);
    lemma_units_zero(Format::Double, 0);
    let x = F64::from_u64(ns);
    assert(x.value() == units(Format::Double, x.key() as nat));
}

/// A share in one format is that share in the other.
proof fn lemma_other_share(x: int, y: int, w: int, a: int, r: int, d: int, u: int)
    requires
        x >= 0,
        y >= 0,
        0 <= a <= u,
        0 <= w <= d,
        d > 0,
        u > 0,
        size(w * u - a * d) * 0x10_0000_0000_0000 <= d * u,
        size(r * d - ((d - w) * x + w * y)) * 0x2_0000_0000_0000 <= d * (x + y
            + 0x20_0000_0000_0000),
    ensures
        size(r * u - ((u - a) * x + a * y)) * 0x8000_0000_0000 <= u * (x + y + 0x20_0000_0000_0000),
{
    let k = x + y + 0x20_0000_0000_0000;
    let p = r * d - ((d - w) * x + w * y);
    let q = w * u - a * d;
    let z = r * u - ((u - a) * x + a * y);
    let (wux, wuy, adx, ady) = ((w * u) * x, (w * u) * y, (a * d) * x, (a * d) * y);
    let (rud, udx) = ((r * u) * d, (u * d) * x);
    assert(z * d == rud - udx + adx - ady) by (nonlinear_arith)
        requires
            z == r * u - ((u - a) * x + a * y),
            rud == (r * u) * d,
            udx == (u * d) * x,
            adx == (a * d) * x,
            ady == (a * d) * y,
    ;
    assert((d - w) * x == d * x - w * x) by (nonlinear_arith);
    let (rd, dx, wx, wy) = (r * d, d * x, w * x, w * y);
    assert(p == rd - dx + wx - wy);
    assert(rd * u == rud && dx * u == udx && wx * u == wux && wy * u == wuy) by (nonlinear_arith)
        requires
            rd == r * d,
            dx == d * x,
            wx == w * x,
            wy == w * y,
            rud == (r * u) * d,
            udx == (u * d) * x,
            wux == (w * u) * x,
            wuy == (w * u) * y,
    ;
    assert(p * u == rd * u - dx * u + wx * u - wy * u) by (nonlinear_arith)
        requires
            p == rd - dx + wx - wy,
    ;
    assert(q * (y - x) == wuy - wux - ady + adx) by (nonlinear_arith)
        requires
            q == w * u - a * d,
            wux == (w * u) * x,
            wuy == (w * u) * y,
            adx == (a * d) * x,
            ady == (a * d) * y,
    ;
    let t = (d * u) * k;
    assert(size(p * u) * 0x2_0000_0000_0000 <= t) by (nonlinear_arith)
        requires
            size(p) * 0x2_0000_0000_0000 <= d * k,
            u > 0,
            t == (d * u) * k,
    {
        assert(size(p * u) == size(p) * u);
        assert((size(p) * 0x2_0000_0000_0000) * u <= (d * k) * u);
    }
    assert(size(q * (y - x)) * 0x10_0000_0000_0000 <= t) by (nonlinear_arith)
        requires
            size(q) * 0x10_0000_0000_0000 <= d * u,
            size(y - x) <= k,
            t == (d * u) * k,
            k >= 0,
    {
        assert(size(q * (y - x)) == size(q) * size(y - x));
        assert(size(q) * size(y - x) <= size(q) * k);
        assert((size(q) * 0x10_0000_0000_0000) * k <= (d * u) * k);
    }
    assert(t >= 0) by (nonlinear_arith)
        requires
            t == (d * u) * k,
            d > 0,
            u > 0,
            k >= 0,
    ;
    assert(size(z * d) * 0x8000_0000_0000 <= t);
    assert(size(z) * 0x8000_0000_0000 <= u * k) by (nonlinear_arith)
        requires
            size(z * d) * 0x8000_0000_0000 <= t,
            t == (d * u) * k,
            d > 0,
    {
        assert(size(z * d) == size(z) * d);
        assert((size(z) * 0x8000_0000_0000) * d <= (u * k) * d);
    }
}

/// Rendered intervals are smoothed: the estimate moves fifteen hundredths of the
/// way toward each, but for a part in `2^47` of the two. A clock that stood still
/// or went back moves nothing.
pub proof fn law_intervals_are_smoothed(p: PacerState, prev: u64, now_ns: u64)
    requires
        p.last_render_ns == Some(prev),
        p.interval_ema_ns.is_finite(),
        0 <= p.interval_ema_ns.value() <= pow2(1140),
    ensures
        ({
            let next = p.rendered(now_ns).interval_ema_ns;
            let before = p.interval_ema_ns.value();
            let dt = F64::from_u64((now_ns - prev) as u64).value();
            &&& next.is_finite()
            &&& prev >= now_ns ==> next == p.interval_ema_ns
            &&& prev < now_ns ==> size(100 * next.value() - (85 * before + 15 * dt))
                * 0x8000_0000_0000 <= 100 * (before + dt + 0x20_0000_0000_0000)
        }),
{
    if prev < now_ns {
        let dt = F64::from_u64((now_ns - prev) as u64);
        let share = F64::ratio(15, 100);
        let d = one_double();
        let f = Format::Double;
        lemma_time((now_ns - prev) as u64);
        lemma_double_from(15);
        lemma_double_from(100);
        lemma_pow2_pos(1074);
        lemma2_to64();
        lemma_pow2_le(60, 1074);
        lemma2_to64_rest();
        lemma_double_div(F64::from_u32(15), F64::from_u32(100));
        let n = pow2(1074);
        lemma_units_zero(f, F64::from_u32(100).key() as nat);
        assert(((15 * n) * n) * 100 == (15 * n) * (100 * n)) by (nonlinear_arith);
        lemma_round_same(f, (15 * n) * n, 100 * n, 15 * n, 100);
        lemma_room_above(1074);
        assert(15 * n <= (1 * n) * 100);
        lemma_round_upper(f, 15 * n, 100, 1, 1074);
        lemma_rounds_double(15 * n, 100);
        lemma_units_zero(f, 0);
        assert(share.value() == units(f, share.key() as nat));
        let w = share.value();
        lemma_step_toward(p.interval_ema_ns, dt, share);
        let r = p.rendered(now_ns).interval_ema_ns.value();
        assert(size(w * 100 - 15 * d) * 0x10_0000_0000_0000 <= d * 100);
        lemma_other_share(p.interval_ema_ns.value(), dt.value(), w, 15, r, d, 100);
    }
}

/// Whether a number in the longer format is a whole one, of either sign.
pub open spec fn is_number(x: F64, k: int) -> bool {
    x.is_finite() && x.value() == k * one_double()
}

/// A value that is a small whole number is held exactly.
proof fn lemma_whole_value(k: int)
    requires
        size(k) < 0x20_0000_0000_0000,
    ensures
        ({
            let n = size(k * one_double()) as nat;
            let r = round_mag(Format::Double, n, 1);
            r < Format::Double.top() && units(Format::Double, r) == n
        }),
{
    let d = one_double();
    let m = size(k) as nat;
    lemma_pow2_pos(1074);
    lemma_room_above(1074);
    let mag = lemma_exact(Format::Double, m, 1074);
    assert(size(k * d) == m * d) by (nonlinear_arith)
        requires
            m == size(k),
            d > 0,
    ;
}

pub proof fn lemma_number_plus(x: F64, y: F64, a: int, b: int)
    requires
        is_number(x, a),
        is_number(y, b),
        size(a + b) < 0x20_0000_0000_0000,
    ensures
        is_number(x + y, a + b),
{
    reveal(F64::spec_add);
    let d = one_double();
    assert((a + b) * d == a * d + b * d) by (nonlinear_arith);
    lemma_whole_value(a + b);
    lemma_units_zero(Format::Double, 0);
}

proof fn lemma_number_minus(x: F64, y: F64, a: int, b: int)
    requires
        is_number(x, a),
        is_number(y, b),
        size(a - b) < 0x20_0000_0000_0000,
    ensures
        is_number(x - y, a - b),
{
    reveal(F64::spec_sub);
    let d = one_double();
    assert(y.raw().negated().value(Format::Double) == -y.value());
    assert((a - b) * d == a * d - b * d) by (nonlinear_arith);
    lemma_whole_value(a - b);
    lemma_units_zero(Format::Double, 0);
}

proof fn lemma_number_square(x: F64, a: int)
    requires
        is_number(x, a),
        a * a < 0x20_0000_0000_0000,
    ensures
        is_number(x * x, a * a),
        (x * x).bits < 0x8000_0000_0000_0000,
{
    reveal(F64::spec_mul);
    let f = Format::Double;
    let d = one_double();
    let n = units(f, x.raw().mag as nat);
    lemma_pow2_pos(1074);
    assert(n == size(a * d));
    assert((n * n) * 1 == ((a * a) * d) * d) by (nonlinear_arith)
        requires
            n == size(a * d),
    ;
    assert(a * a >= 0) by (nonlinear_arith);
    let k = ((a * a) * d) as nat;
    assert((a * a) * d >= 0) by (nonlinear_arith)
        requires
            d > 0,
    ;
    lemma_round_same(f, n * n, pow2(1074), k, 1);
    lemma_whole_value(a * a);
}

/// A quotient of whole numbers that comes out even.
proof fn lemma_number_quotient(x: F64, y: F64, q: int, n: int)
    requires
        is_number(x, q * n),
        is_number(y, n),
        x.bits < 0x8000_0000_0000_0000,
        y.bits < 0x8000_0000_0000_0000,
        n > 0,
        0 <= q < 0x20_0000_0000_0000,
    ensures
        is_number(x / y, q),
        (x / y).bits < 0x8000_0000_0000_0000,
{
    let f = Format::Double;
    let d = one_double();
    lemma_pow2_pos(1074);
    let a = units(f, x.key() as nat);
    let b = units(f, y.key() as nat);
    lemma_units_zero(f, y.key() as nat);
    assert(b > 0) by (nonlinear_arith)
        requires
            b == n * d,
            n > 0,
            d > 0,
    ;
    lemma_double_div(x, y);
    assert((a * d) * 1 == (q * d) * b) by (nonlinear_arith)
        requires
            a == (q * n) * d,
            b == n * d,
    ;
    assert(q * d >= 0) by (nonlinear_arith)
        requires
            q >= 0,
            d > 0,
    ;
    lemma_round_same(f, (a * d) as nat, b, (q * d) as nat, 1);
    lemma_whole_value(q);
    reveal(F64::spec_div);
    lemma_units_zero(f, 0);
}

/// The sum of the first `n` of some numbers.
pub open spec fn sum_of(t: Seq<u64>, n: nat) -> int
    decreases n,
{
    if n == 0 {
        0
    } else {
        sum_of(t, (n - 1) as nat) + t[n - 1]
    }
}

/// The sum of the first `n` squared distances from a mean.
pub open spec fn squares_of(t: Seq<u64>, mean: int, n: nat) -> int
    decreases n,
{
    if n == 0 {
        0
    } else {
        squares_of(t, mean, (n - 1) as nat) + (t[n - 1] - mean) * (t[n - 1] - mean)
    }
}

/// Whether the recent intervals are these, in whole nanoseconds.
pub open spec fn are_recent(p: PacerState, t: Seq<u64>) -> bool {
    &&& p.valid()
    &&& t.len() == p.filled
    &&& forall|i: int| 0 <= i < p.filled ==> #[trigger] p.window[i] == F64::from_u64(t[i])
}

/// Whole nanoseconds add up exactly.
proof fn lemma_exact_total(p: PacerState, t: Seq<u64>, n: nat)
    requires
        are_recent(p, t),
        n <= p.filled,
        forall|i: int| 0 <= i < t.len() ==> #[trigger] t[i] < 0x1_0000_0000_0000,
    ensures
        is_number(total(p.window, n), sum_of(t, n)),
        total(p.window, n).bits < 0x8000_0000_0000_0000,
        0 <= sum_of(t, n) <= n * 0x1_0000_0000_0000,
    decreases n,
{
    lemma_units_zero(Format::Double, 0);
    assert(0 * one_double() == 0) by (nonlinear_arith);
    if n > 0 {
        lemma_exact_total(p, t, (n - 1) as nat);
        let x = p.window[n - 1];
        assert(x == F64::from_u64(t[n - 1]));
        lemma_time(t[n - 1]);
        let before = total(p.window, (n - 1) as nat);
        lemma_number_plus(before, x, sum_of(t, (n - 1) as nat), t[n - 1] as int);
        reveal(F64::spec_add);
        lemma_pow2_pos(1074);
        let (a, b, d) = (sum_of(t, (n - 1) as nat), t[n - 1] as int, one_double());
        assert(a * d >= 0 && b * d >= 0) by (nonlinear_arith)
            requires
                a >= 0,
                b >= 0,
                d > 0,
        ;
    }
}

/// And so do their squared distances.
proof fn lemma_exact_spread(p: PacerState, t: Seq<u64>, mean: F64, m: int, n: nat)
    requires
        are_recent(p, t),
        n <= p.filled,
        is_number(mean, m),
        forall|i: int|
            0 <= i < t.len() ==> (#[trigger] t[i]) < 0x1_0000_0000_0000 && size(t[i] - m)
                < 0x100_0000,
    ensures
        is_number(spread(p.window, mean, n), squares_of(t, m, n)),
        spread(p.window, mean, n).bits < 0x8000_0000_0000_0000,
        0 <= squares_of(t, m, n) <= n * 0x1_0000_0000_0000,
    decreases n,
{
    lemma_units_zero(Format::Double, 0);
    assert(0 * one_double() == 0) by (nonlinear_arith);
    if n > 0 {
        lemma_exact_spread(p, t, mean, m, (n - 1) as nat);
        let x = p.window[n - 1];
        assert(x == F64::from_u64(t[n - 1]));
        lemma_time(t[n - 1]);
        let a = t[n - 1] - m;
        assert(size(t[n - 1] - m) < 0x100_0000);
        assert(0 <= a * a <= 0x1_0000_0000_0000) by (nonlinear_arith)
            requires
                size(a) < 0x100_0000,
        ;
        lemma_number_minus(x, mean, t[n - 1] as int, m);
        lemma_number_square(x - mean, a);
        let before = spread(p.window, mean, (n - 1) as nat);
        let b = squares_of(t, m, (n - 1) as nat);
        lemma_number_plus(before, (x - mean) * (x - mean), b, a * a);
        reveal(F64::spec_add);
        lemma_pow2_pos(1074);
        let d = one_double();
        assert(b * d >= 0 && (a * a) * d >= 0) by (nonlinear_arith)
            requires
                b >= 0,
                a * a >= 0,
                d > 0,
        ;
    }
}

/// The root of a whole square.
proof fn lemma_number_root(x: F64, a: int)
    requires
        is_number(x, a * a),
        x.bits < 0x8000_0000_0000_0000,
        0 <= a < 0x400_0000,
    ensures
        is_number(x.sqrt(), a),
        x.sqrt().bits < 0x8000_0000_0000_0000,
{
    reveal(F64::spec_sqrt);
    let f = Format::Double;
    let d = pow2(1074);
    lemma_pow2_pos(1074);
    lemma_units_zero(f, x.raw().mag as nat);
    lemma_units_zero(f, 0);
    if a == 0 {
        assert(0 * 0 == 0);
        assert(0 * one_double() == 0) by (nonlinear_arith);
    } else {
        let k = a as nat;
        lemma_room_above(1074);
        let mag = lemma_exact(f, k, 1074);
        assert(((a * a) * d) * d == (k * d) * (k * d)) by (nonlinear_arith)
            requires
                k == a,
        ;
        assert((a * a) * d > 0) by (nonlinear_arith)
            requires
                a > 0,
                d > 0,
        ;
        lemma_root_of_a_square(f, mag);
    }
}

/// Instability is the spread of the recent intervals as a share of their mean,
/// where a quarter is all there is: four times the standard deviation over the
/// mean, cut off at one, but for some millionths of rounding. This is for at least
/// four intervals, whose mean and standard deviation are whole nanoseconds, and
/// none of which is further than `2^24` of them from the mean.
pub proof fn law_instability_is_the_relative_deviation(
    pacer: &FramePacer,
    v: F32,
    t: Seq<u64>,
    mean: int,
    deviation: int,
)
    requires
        call_ensures(FramePacer::instability, (pacer,), v),
        are_recent(pacer@, t),
        pacer@.filled >= 4,
        0 <= deviation <= mean,
        0 < mean < 0x1_0000_0000_0000,
        sum_of(t, t.len()) == mean * t.len(),
        squares_of(t, mean, t.len()) == (deviation * deviation) * t.len(),
        forall|i: int|
            0 <= i < t.len() ==> (#[trigger] t[i]) < 0x1_0000_0000_0000 && size(t[i] - mean)
                < 0x100_0000,
    ensures
        v.is_finite(),
        4 * deviation <= mean ==> size(v.value() * mean - 4 * (deviation * one_unit())) <= 60 * (
        slip() * mean),
        4 * deviation >= mean ==> one_unit() - 60 * slip() <= v.value() <= one_unit(),
{
    reveal(F32::spec_clamp);
    let p = pacer@;
    let n = p.filled;
    let d = one_double();
    let u = one_unit();
    let e = slip();
    lemma_slip();
    lemma_pow2_pos(1074);
    lemma_exact_total(p, t, n);
    lemma_time(n as u64);
    let count = F64::from_u64(n as u64);
    lemma_double_from(n as u64);
    assert(count.bits < 0x8000_0000_0000_0000) by {
        reveal(F64::spec_from_u64);
    }
    let mu = p.mean();
    lemma_number_quotient(total(p.window, n), count, mean, n as int);
    assert(mean * d > 0) by (nonlinear_arith)
        requires
            mean > 0,
            d > 0,
    ;
    lemma_units_zero(Format::Double, mu.key() as nat);
    assert(!mu.le(F64::zero()));
    lemma_exact_spread(p, t, mu, mean, n);
    assert(deviation < 0x400_0000) by {
        let s = squares_of(t, mean, n);
        assert((deviation * deviation) * n <= n * 0x1_0000_0000_0000);
        if deviation >= 0x400_0000 {
            assert((deviation * deviation) * n > n * 0x1_0000_0000_0000) by (nonlinear_arith)
                requires
                    deviation >= 0x400_0000,
                    n >= 4,
            ;
        }
    }
    assert(0 <= deviation * deviation < 0x20_0000_0000_0000) by (nonlinear_arith)
        requires
            0 <= deviation < 0x400_0000,
    ;
    let var = spread(p.window, mu, n) / count;
    lemma_number_quotient(spread(p.window, mu, n), count, deviation * deviation, n as int);
    lemma_number_root(var, deviation);
    let sigma = var.sqrt();
    // The share, in the shorter format.
    let cv = (sigma / mu).to_f32();
    lemma_deviation(sigma, mu, deviation, mean);
    let g = cv.value();
    let quarter = F32::ratio(1, 4);
    lemma_ratio_close(1, 4);
    assert(g <= 2 * u - u / 2) by (nonlinear_arith)
        requires
            size(g * mean - deviation * u) <= 2 * (e * mean),
            deviation <= mean,
            mean > 0,
            u == 0x20_0000 * e,
            e > 0,
    {
        assert(deviation * u <= mean * u);
        assert(g * mean <= (u + 2 * e) * mean);
    }
    lemma_div_close(cv, quarter);
    let q = cv / quarter;
    let (z, w) = (q.value(), quarter.value());
    assert(size(z - 4 * g) <= 46 * e) by (nonlinear_arith)
        requires
            size(z * w - g * u) <= e * w,
            size(w * 4 - u) <= e * 4,
            0 <= g <= 2 * u,
            z >= 0,
            u == 0x20_0000 * e,
            e > 0,
            w > 0,
    {
        assert(5 * w >= u && 3 * w <= u);
        assert(z <= 11 * u) by {
            assert(z * w <= g * u + e * w);
            assert(g * u <= 2 * u * (5 * w));
            assert(e * w <= u * w);
            if z > 11 * u {
                assert(z * w > 11 * u * w);
            }
        }
        let b = w * 4 - u;
        assert(4 * (z * w) == z * u + z * b);
        assert(size(z * b) <= 11 * u * (e * 4)) by {
            assert(size(z * b) == z * size(b));
            assert(z * size(b) <= (11 * u) * (e * 4));
        }
        assert(size(4 * (z * w) - 4 * (g * u)) <= 4 * (e * w));
        assert(4 * (e * w) <= 2 * (e * u));
        assert((z - 4 * g) * u == z * u - 4 * (g * u));
        assert(size((z - 4 * g) * u) <= 46 * (e * u));
    }
    assert(size(z * mean - 4 * (deviation * u)) <= 54 * (e * mean)) by (nonlinear_arith)
        requires
            size(z - 4 * g) <= 46 * e,
            size(g * mean - deviation * u) <= 2 * (e * mean),
            mean > 0,
    {
        assert((z - 4 * g) * mean == z * mean - 4 * (g * mean));
        assert(-(46 * e * mean) <= (z - 4 * g) * mean <= 46 * e * mean);
    }
    lemma_unity(Format::Single);
    lemma_order(F32::zero(), q);
    lemma_order(q, F32::one());
    lemma_order(F32::one(), q);
    if q.le(F32::one()) {
        assert(v.key() == q.key());
        lemma_order(v, q);
        lemma_order(q, v);
    } else {
        assert(v == F32::one());
        assert(u * mean <= z * mean) by (nonlinear_arith)
            requires
                u <= z,
                mean > 0,
        ;
    }
    assert(e * mean > 0) by (nonlinear_arith)
        requires
            e > 0,
            mean > 0,
    ;
    if 4 * deviation <= mean {
        assert(4 * (deviation * u) <= u * mean) by (nonlinear_arith)
            requires
                4 * deviation <= mean,
                u > 0,
        ;
    }
    if 4 * deviation >= mean {
        assert(z >= u - 54 * e) by (nonlinear_arith)
            requires
                size(z * mean - 4 * (deviation * u)) <= 54 * (e * mean),
                4 * deviation >= mean,
                mean > 0,
                u > 0,
        {
            assert(4 * (deviation * u) >= mean * u);
            if z < u - 54 * e {
                assert(z * mean < (u - 54 * e) * mean);
            }
        }
    }
}

/// A share of two whole numbers, in the shorter format.
proof fn lemma_deviation(x: F64, y: F64, a: int, b: int)
    requires
        is_number(x, a),
        is_number(y, b),
        x.bits < 0x8000_0000_0000_0000,
        y.bits < 0x8000_0000_0000_0000,
        0 <= a <= b,
        0 < b < 0x1_0000_0000_0000,
    ensures
        ({
            let g = (x / y).to_f32();
            &&& g.is_finite()
            &&& g.value() >= 0
            &&& size(g.value() * b - a * one_unit()) <= 2 * (slip() * b)
        }),
{
    let f = Format::Double;
    let k = Format::Single;
    let d = pow2(1074);
    let u = pow2(149);
    let e = slip();
    lemma_slip();
    lemma_units_of_both();
    lemma_pow2_pos(149);
    let m = b as nat;
    let v = units(f, x.key() as nat);
    let w = units(f, y.key() as nat);
    assert(w > 0) by (nonlinear_arith)
        requires
            w == b * d,
            b > 0,
            d > 0,
    ;
    lemma_units_zero(f, y.key() as nat);
    let q = x / y;
    lemma_double_div(x, y);
    assert((v * d) * m == v * w) by (nonlinear_arith)
        requires
            w == m * d,
    ;
    lemma_round_same(f, v * d, w, v, m);
    lemma_room_above(1074);
    assert(v <= (1 * d) * m) by (nonlinear_arith)
        requires
            v == a * d,
            a <= m,
    ;
    lemma_round_upper(f, v, m, 1, 1074);
    lemma_rounds_double(v, m);
    let t = units(f, q.key() as nat);
    assert(t * u <= 8 * one_unit() * d) by (nonlinear_arith)
        requires
            t <= d,
            u == one_unit(),
            u > 0,
    ;
    lemma_round_close(t * u, d);
    let g = q.to_f32();
    let z = units(k, round_mag(k, t * u, d)) as int;
    assert(g.is_finite() && g.value() == z) by {
        reveal(F64::spec_to_f32);
        lemma_units_zero(f, 0);
        lemma_units_zero(k, 0);
        if q.bits >= 0x8000_0000_0000_0000 {
            assert(0 * u == 0) by (nonlinear_arith);
            lemma_round_zero(k, d);
        }
    }
    lemma_deviation_left(z, t as int, a, b, d as int, u as int, e);
}

/// What two roundings leave of a share.
pub proof fn lemma_deviation_left(z: int, t: int, a: int, b: int, d: int, u: int, e: int)
    requires
        z * d <= t * u + e * d,
        t * u <= z * d + e * d,
        size(t * b - a * d) * 0x20_0000_0000_0000 <= a * d + b * 0x20_0000_0000_0000,
        0 <= a <= b,
        b > 0,
        d >= u * 0x1000_0000_0000_0000,
        u == 0x20_0000 * e,
        e > 0,
    ensures
        size(z * b - a * u) <= 2 * (e * b),
{
    let p = z * d - t * u;
    let q = t * b - a * d;
    let j = e * b;
    assert(size(p * b) <= j * d) by (nonlinear_arith)
        requires
            size(p) <= e * d,
            b > 0,
            j == e * b,
    {
        assert(size(p * b) == size(p) * b);
        assert(size(p) * b <= (e * d) * b);
    }
    assert(a * d <= b * d && b * d >= (b * u) * 0x1000_0000_0000_0000) by (nonlinear_arith)
        requires
            a <= b,
            b > 0,
            d >= u * 0x1000_0000_0000_0000,
            u > 0,
    ;
    assert(b * u > 0 && b * d >= b * 0x20_0000_0000_0000) by (nonlinear_arith)
        requires
            b > 0,
            u > 0,
            d >= 0x20_0000_0000_0000,
    ;
    assert(size(q) * 0x10_0000_0000_0000 <= b * d);
    assert(size(q * u) * 0x10_0000_0000_0000 <= (b * d) * u) by (nonlinear_arith)
        requires
            size(q) * 0x10_0000_0000_0000 <= b * d,
            u > 0,
    {
        assert(size(q * u) == size(q) * u);
        assert((size(q) * 0x10_0000_0000_0000) * u <= (b * d) * u);
    }
    assert((b * d) * u == 0x20_0000 * (j * d)) by (nonlinear_arith)
        requires
            j == e * b,
            u == 0x20_0000 * e,
    ;
    assert(j * d > 0) by (nonlinear_arith)
        requires
            j == e * b,
            e > 0,
            b > 0,
            d > 0,
    ;
    let c = z * b - a * u;
    assert(c * d == p * b + q * u) by (nonlinear_arith)
        requires
            c == z * b - a * u,
            p == z * d - t * u,
            q == t * b - a * d,
    ;
    assert(size(c) <= 2 * j) by (nonlinear_arith)
        requires
            size(c * d) <= 2 * (j * d),
            d > 0,
    {
        assert(size(c * d) == size(c) * d);
    }
}

} // verus!
