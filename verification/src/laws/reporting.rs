//! Reporting: what is reported of a run is what happened in it.

use crate::fp::errors::{lemma_div_close, lemma_round_close, lemma_slip, one_unit, size, slip};
use crate::fp::facts::{
    lemma_add_key, lemma_double_div, lemma_double_from, lemma_double_mul, lemma_exact,
    lemma_from_small, lemma_order, lemma_round_same, lemma_round_upper, lemma_unity, lemma_widened,
};
use crate::fp::model::{lemma_pow2_le, round_mag, units, Format};
use crate::fp::raw::lemma_units_zero;
use crate::fp::round::lemma_round_zero;
use crate::fp::{F32, F64};
use crate::gpu::{column, mask_fraction, masked, measure_sums};
use crate::laws::evidence::{lemma_rounds_double, lemma_units_of_both};
use crate::laws::motion::{is_whole, lemma_quotient_at_most_one};
use crate::laws::smoothing::{
    is_number, lemma_deviation_left, lemma_number_plus, lemma_room_above, lemma_time, lemma_times,
    one_double,
};
use crate::signals::{summarize_pair, PairTotals, Signals};
use crate::sim::harness::{delivered, elapsed, FrameRecord, RunReport};
use crate::telemetry::Telemetry;
use vstd::arithmetic::power2::{
    lemma2_to64, lemma2_to64_rest, lemma_pow2_adds, lemma_pow2_pos, pow2,
};
use vstd::prelude::*;

verus! {

/// A share of two counts.
proof fn lemma_share(a: u64, b: u64)
    requires
        0 < b < 0x100_0000,
        a < 0x100_0000,
        a <= 8 * b,
    ensures
        (F32::from_u64(a) / F32::from_u64(b)).is_finite(),
        size(
            (F32::from_u64(a) / F32::from_u64(b)).value() * b - a * one_unit(),
        ) <= slip() * b,
{
    let u = one_unit();
    let e = slip();
    lemma_slip();
    lemma_from_small(a as u32);
    lemma_from_small(b as u32);
    let (x, y) = (F32::from_u64(a), F32::from_u64(b));
    assert(x == F32::from_u32(a as u32) && y == F32::from_u32(b as u32));
    lemma_order(x, x);
    lemma_order(y, y);
    assert(b * u > 0 && 0 <= a * u <= 8 * (b * u)) by (nonlinear_arith)
        requires
            b > 0,
            u > 0,
            0 <= a <= 8 * b,
    ;
    lemma_div_close(x, y);
    let q = (x / y).value();
    assert(size(q * b - a * u) <= e * b) by (nonlinear_arith)
        requires
            size(q * (b * u) - (a * u) * u) <= e * (b * u),
            u > 0,
    {
        assert(q * (b * u) - (a * u) * u == (q * b - a * u) * u);
        assert(e * (b * u) == (e * b) * u);
        assert(size((q * b - a * u) * u) == size(q * b - a * u) * u);
    }
}

/// The log's ratios are what they are called: frames shown for each frame
/// rendered, and frames rejected out of all, but for a few millionths of rounding.
pub proof fn law_ratios_count_frames(t: &Telemetry, boost: F32, rejected: F32)
    requires
        t.wf(),
        0 < t.frames < 0x100_0000,
        t.frames_presented_to_display < 0x100_0000,
        t.frames_presented_to_display <= 8 * t.frames,
        call_ensures(Telemetry::boost_ratio, (t,), boost),
        call_ensures(Telemetry::discard_rate, (t,), rejected),
    ensures
        boost.is_finite(),
        rejected.is_finite(),
        size(boost.value() * t.frames - t.frames_presented_to_display * one_unit()) <= slip()
            * t.frames,
        size(rejected.value() * t.frames - (t.frames - t.presented) * one_unit()) <= slip()
            * t.frames,
{
    lemma_share(t.frames_presented_to_display, t.frames);
    lemma_share((t.discarded + t.degraded) as u64, t.frames);
}

/// The frame times of a run, added up.
pub open spec fn time_of(frames: Seq<FrameRecord>, n: nat) -> int
    decreases n,
{
    if n == 0 {
        0
    } else {
        time_of(frames, (n - 1) as nat) + frames[n - 1].frame_ns
    }
}

/// Frame times add up exactly.
proof fn lemma_elapsed(frames: Seq<FrameRecord>, n: nat)
    requires
        n <= frames.len(),
        time_of(frames, n) < 0x20_0000_0000_0000,
    ensures
        is_number(elapsed(frames, n), time_of(frames, n)),
        elapsed(frames, n).key() >= 0,
        time_of(frames, n) >= 0,
    decreases n,
{
    lemma_units_zero(Format::Double, 0);
    assert(0 * one_double() == 0) by (nonlinear_arith);
    if n > 0 {
        lemma_time_grows(frames, (n - 1) as nat);
        lemma_elapsed(frames, (n - 1) as nat);
        let ns = frames[n - 1].frame_ns;
        let a = time_of(frames, (n - 1) as nat);
        let x = elapsed(frames, (n - 1) as nat);
        let y = F64::from_u64(ns);
        lemma_time(ns);
        lemma_number_plus(x, y, a, ns as int);
        reveal(F64::spec_add);
        lemma_pow2_pos(1074);
        let d = one_double();
        assert(a * d >= 0 && ns * d >= 0) by (nonlinear_arith)
            requires
                a >= 0,
                d > 0,
        ;
    }
}

proof fn lemma_time_grows(frames: Seq<FrameRecord>, n: nat)
    ensures
        time_of(frames, n) >= 0,
    decreases n,
{
    if n > 0 {
        lemma_time_grows(frames, (n - 1) as nat);
    }
}

/// A quotient in the longer format, by its value.
pub proof fn lemma_quotient_value(x: F64, y: F64)
    requires
        x.is_finite(),
        y.is_finite(),
        x.key() >= 0,
        y.key() >= 0,
        1024 * y.value() >= one_double(),
        x.value() <= pow2(1200),
    ensures
        (x / y).is_finite(),
        size((x / y).value() * y.value() - x.value() * one_double()) * 0x20_0000_0000_0000
            <= x.value() * one_double() + y.value() * 0x20_0000_0000_0000,
{
    let f = Format::Double;
    let d = pow2(1074);
    let a = units(f, x.key() as nat);
    let b = units(f, y.key() as nat);
    lemma_units_zero(f, 0);
    lemma_units_zero(f, y.key() as nat);
    lemma_pow2_pos(1074);
    assert(x.value() == a && y.value() == b);
    lemma_double_div(x, y);
    lemma2_to64();
    lemma_pow2_adds(10, 1200);
    lemma_room_above(1210);
    assert(a * d <= (1 * pow2(1210)) * b) by (nonlinear_arith)
        requires
            a <= pow2(1200),
            d <= 1024 * b,
            pow2(1210) == 1024 * pow2(1200),
    {
        assert(a * d <= pow2(1200) * d);
        assert(pow2(1200) * d <= pow2(1200) * (1024 * b));
    }
    lemma_round_upper(f, a * d, b, 1, 1210);
    lemma_rounds_double(a * d, b);
    let q = x / y;
    assert(q.value() == units(f, q.key() as nat));
}

/// The mean frame time is the time that the frames took over how many there were,
/// and the frame rate is the frames that reached the display over that time, in
/// seconds; both but for a part in `2^50`.
pub proof fn law_a_report_tells_the_mean_and_the_rate(r: &RunReport, mean: F64, fps: F64)
    requires
        0 < r.frames@.len() < 0x20_0000_0000_0000,
        0 < time_of(r.frames@, r.frames@.len()) < 0x20_0000_0000_0000,
        delivered(r.frames@, r.frames@.len()) <= u32::MAX,
        call_ensures(RunReport::mean_frame_ns, (r,), mean),
        call_ensures(RunReport::effective_fps, (r,), fps),
    ensures
        ({
            let n = r.frames@.len();
            let time = time_of(r.frames@, n);
            let shown = delivered(r.frames@, n) * 1_000_000_000;
            let d = one_double();
            &&& mean.is_finite()
            &&& fps.is_finite()
            &&& size(mean.value() * n - time * d) * 0x4_0000_0000_0000 <= time * d + n * d
            &&& size(fps.value() * time - shown * d) * 0x4_0000_0000_0000 <= shown * d + time * d
        }),
{
    let n = r.frames@.len();
    let time = time_of(r.frames@, n);
    let shown = delivered(r.frames@, n);
    let d = one_double();
    let f = Format::Double;
    lemma2_to64();
    lemma2_to64_rest();
    lemma_pow2_pos(1074);
    lemma_pow2_le(64, 1074);
    lemma_pow2_le(60, 1074);
    lemma_pow2_adds(64, 1074);
    lemma_pow2_adds(62, 1138);
    lemma_pow2_pos(1138);
    lemma_elapsed(r.frames@, n);
    let t = elapsed(r.frames@, n);
    assert(0 < time * d <= pow2(1138)) by (nonlinear_arith)
        requires
            0 < time < 0x20_0000_0000_0000,
            d > 0,
            pow2(1138) == 0x1_0000_0000_0000_0000 * d,
    ;
    assert(time * d >= d && n * d >= d) by (nonlinear_arith)
        requires
            time >= 1,
            n >= 1,
            d > 0,
    ;
    // The mean.
    let c = F64::from_u64(n as u64);
    lemma_time(n as u64);
    lemma_double_from(n as u64);
    lemma_quotient_value(t, c);
    let m = mean.value();
    lemma_share_left(m, n as int, time, d);
    // The rate.
    assert(!t.le(F64::zero())) by {
        lemma_units_zero(f, t.key() as nat);
    }
    let a = F64::from_u32(shown as u32);
    let b = F64::from_u32(1_000_000_000);
    lemma_time(shown as u64);
    lemma_time(1_000_000_000);
    lemma_double_from(shown as u64);
    lemma_double_from(1_000_000_000);
    let g: int = 1_000_000_000;
    assert((shown * d) * (g * d) == ((shown * g) * d) * d) by (nonlinear_arith);
    let s = shown * g;
    assert(0 <= s * d && (s * d) * d <= pow2(1200) * d && (s * d) * d >= 0 && s * d <= pow2(1138))
        by (nonlinear_arith)
        requires
            0 <= s < 0x1_0000_0000_0000_0000,
            d > 0,
            pow2(1138) == 0x1_0000_0000_0000_0000 * d,
            pow2(1138) <= pow2(1200),
    ;
    lemma_times(a, b);
    let p = a * b;
    assert(p.key() >= 0) by {
        lemma_double_mul(a, b);
    }
    let v = p.value();
    lemma_units_zero(f, 0);
    assert(v >= 0);
    assert(size(v - s * d) * 0x20_0000_0000_0000 <= s * d + 0x20_0000_0000_0000) by (nonlinear_arith)
        requires
            size(v * d - (s * d) * d) * 0x20_0000_0000_0000 <= (s * d) * d + d * 0x20_0000_0000_0000,
            d > 0,
    {
        assert(v * d - (s * d) * d == (v - s * d) * d);
        assert(size((v - s * d) * d) == size(v - s * d) * d);
        assert((size(v - s * d) * 0x20_0000_0000_0000) * d <= (s * d + 0x20_0000_0000_0000) * d);
    }
    assert(v <= pow2(1200));
    lemma_quotient_value(p, t);
    lemma_rate_left(fps.value(), v, s as int, time, d);
}

proof fn lemma_share_left(m: int, n: int, time: int, d: int)
    requires
        size(m * (n * d) - (time * d) * d) * 0x20_0000_0000_0000 <= (time * d) * d + (n * d)
            * 0x20_0000_0000_0000,
        d >= 0x1000_0000_0000_0000,
        n >= 1,
        time >= 1,
    ensures
        size(m * n - time * d) * 0x4_0000_0000_0000 <= time * d + n * d,
{
    let c = m * n - time * d;
    assert(m * (n * d) - (time * d) * d == c * d) by (nonlinear_arith)
        requires
            c == m * n - time * d,
    ;
    assert(size(c * d) == size(c) * d) by (nonlinear_arith)
        requires
            d > 0,
    ;
    assert(size(c) * 0x20_0000_0000_0000 <= time * d + n * 0x20_0000_0000_0000) by (nonlinear_arith)
        requires
            (size(c) * d) * 0x20_0000_0000_0000 <= (time * d) * d + (n * d) * 0x20_0000_0000_0000,
            d > 0,
    {
        assert((size(c) * 0x20_0000_0000_0000) * d <= (time * d + n * 0x20_0000_0000_0000) * d);
    }
    assert(n * d >= n * 0x1000_0000_0000_0000) by (nonlinear_arith)
        requires
            d >= 0x1000_0000_0000_0000,
            n >= 1,
    ;
    assert(time * d >= 0) by (nonlinear_arith)
        requires
            time >= 1,
            d > 0,
    ;
}

proof fn lemma_rate_left(q: int, v: int, s: int, time: int, d: int)
    requires
        size(q * (time * d) - v * d) * 0x20_0000_0000_0000 <= v * d + (time * d)
            * 0x20_0000_0000_0000,
        size(v - s * d) * 0x20_0000_0000_0000 <= s * d + 0x20_0000_0000_0000,
        d >= 0x1000_0000_0000_0000,
        time >= 1,
        s >= 0,
        v >= 0,
    ensures
        size(q * time - s * d) * 0x4_0000_0000_0000 <= s * d + time * d,
{
    let c = q * time - v;
    assert(q * (time * d) - v * d == c * d) by (nonlinear_arith)
        requires
            c == q * time - v,
    ;
    assert(size(c * d) == size(c) * d) by (nonlinear_arith)
        requires
            d > 0,
    ;
    assert(size(c) * 0x20_0000_0000_0000 <= v + time * 0x20_0000_0000_0000) by (nonlinear_arith)
        requires
            (size(c) * d) * 0x20_0000_0000_0000 <= v * d + (time * d) * 0x20_0000_0000_0000,
            d > 0,
    {
        assert((size(c) * 0x20_0000_0000_0000) * d <= (v + time * 0x20_0000_0000_0000) * d);
    }
    assert(time * d >= time * 0x1000_0000_0000_0000) by (nonlinear_arith)
        requires
            d >= 0x1000_0000_0000_0000,
            time >= 1,
    ;
    assert(s * d >= 0) by (nonlinear_arith)
        requires
            s >= 0,
            d > 0,
    ;
}

/// A count in either format is the same number.
proof fn lemma_one_count(n: u32)
    requires
        0 < n < 0x100_0000,
    ensures
        F32::from_u32(n).to_f64() == F64::from_u32(n),
{
    let f = Format::Double;
    let b = F32::from_u32(n);
    let u = pow2(149);
    let d = pow2(1074);
    let m = n as nat;
    lemma_pow2_pos(149);
    lemma_from_small(n);
    lemma_order(b, b);
    lemma_pow2_pos(1074);
    assert(m * u > 0) by (nonlinear_arith)
        requires
            m >= 1,
            u > 0,
    ;
    lemma_order(b, F32::zero());
    lemma_widened(b);
    lemma_double_from(n as u64);
    assert(((m * u) * d) * 1 == (m * d) * u) by (nonlinear_arith);
    lemma_round_same(f, (m * u) * d, u, m * d, 1);
    assert(b.to_f64().key() == F64::from_u32(n).key());
}

/// A device measures as the host does: where the sums of its work groups add up to
/// the totals of a pair of frames, it reads the same residual, luminance shift and
/// camera motion from them, and the same depth complexity but for a few millionths
/// of rounding.
pub proof fn law_a_device_measures_alike(
    sums: &Vec<F32>,
    t: PairTotals,
    width: u32,
    height: u32,
    reference_speed: F32,
    device: Signals,
    host: Signals,
)
    requires
        0 < width * height < 0x100_0000,
        call_ensures(measure_sums, (sums, width, height, reference_speed), device),
        call_ensures(
            summarize_pair,
            (t, (width * height) as u32, reference_speed),
            host,
        ),
        t.residual_norm == F64::from_u32((width * height) as u32),
        t.discontinuities <= width * height,
        ({
            let k = (sums@.len() / 8) as nat;
            &&& column(sums@, 0, k) == t.residual
            &&& column(sums@, 1, k) == t.speed
            &&& column(sums@, 2, k) == t.luma_prev
            &&& column(sums@, 3, k) == t.luma_next
            &&& column(sums@, 4, k) == F64::from_u32(t.discontinuities)
        }),
    ensures
        device.motion_residual == host.motion_residual,
        device.luma_shift == host.luma_shift,
        device.camera_motion == host.camera_motion,
        device.depth_complexity.is_finite(),
        host.depth_complexity.is_finite(),
        size(device.depth_complexity.value() - host.depth_complexity.value()) <= 4 * slip(),
{
    reveal(F32::spec_clamp);
    let n = (width * height) as u32;
    let c = t.discontinuities;
    let u = one_unit();
    let e = slip();
    lemma_slip();
    lemma_one_count(n);
    lemma_double_from(n as u64);
    lemma_pow2_pos(1074);
    let d = pow2(1074);
    assert(n * d > 0) by (nonlinear_arith)
        requires
            n > 0,
            d > 0,
    ;
    lemma_units_zero(Format::Double, t.residual_norm.key() as nat);
    assert(t.residual_norm.gt(F64::zero()));
    // The share of discontinuities, on the host.
    lemma_share(c as u64, n as u64);
    let a = F32::from_u32(c);
    let b = F32::from_u32(n);
    lemma_from_small(c);
    lemma_from_small(n);
    lemma_pow2_pos(149);
    lemma_order(a, b);
    lemma_order(b, a);
    assert(0 <= c * u <= n * u && n * u > 0) by (nonlinear_arith)
        requires
            0 <= c <= n,
            n > 0,
            u > 0,
    ;
    lemma_order(b, F32::zero());
    lemma_quotient_at_most_one(a, b);
    lemma_unity(Format::Single);
    let q = a / b;
    lemma_div_close(a, b);
    lemma_order(F32::zero(), q);
    lemma_order(q, F32::one());
    lemma_order(F32::one(), q);
    assert(host.depth_complexity.key() == q.key());
    lemma_order(host.depth_complexity, q);
    lemma_order(q, host.depth_complexity);
    // And on the device.
    lemma_device_share(c, n);
    let g = (F64::from_u32(c) / F64::from_u32(n)).to_f32();
    lemma_order(F32::zero(), g);
    lemma_order(g, F32::one());
    lemma_order(F32::one(), g);
    let (x, y) = (q.value(), g.value());
    assert(size(x - y) <= 4 * e) by (nonlinear_arith)
        requires
            size(x * n - c * u) <= e * n,
            size(y * n - c * u) <= 3 * (e * n),
            n > 0,
    {
        assert((x - y) * n == (x * n - c * u) - (y * n - c * u));
        assert(size((x - y) * n) == size(x - y) * n);
        assert(size(x - y) * n <= (4 * e) * n);
    }
    if g.le(F32::one()) {
        assert(device.depth_complexity.key() == g.key());
        lemma_order(device.depth_complexity, g);
        lemma_order(g, device.depth_complexity);
    } else {
        assert(device.depth_complexity == F32::one());
    }
}

/// A share of two counts in the longer format, brought to the shorter one.
proof fn lemma_device_share(c: u32, n: u32)
    requires
        c <= n,
        0 < n < 0x100_0000,
    ensures
        ({
            let g = (F64::from_u32(c) / F64::from_u32(n)).to_f32();
            &&& g.is_finite()
            &&& g.value() >= 0
            &&& size(g.value() * n - c * one_unit()) <= 3 * (slip() * n)
        }),
{
    let f = Format::Double;
    let k = Format::Single;
    let d = pow2(1074);
    let u = pow2(149);
    let e = slip();
    lemma_slip();
    lemma_units_of_both();
    lemma_pow2_pos(149);
    lemma_double_from(c as u64);
    lemma_double_from(n as u64);
    let (x, y) = (F64::from_u32(c), F64::from_u32(n));
    let m = n as nat;
    let v = c as nat * d;
    assert(m * d > 0) by (nonlinear_arith)
        requires
            m >= 1,
            d > 0,
    ;
    lemma_units_zero(f, y.key() as nat);
    let q = x / y;
    lemma_double_div(x, y);
    assert((v * d) * m == v * (m * d)) by (nonlinear_arith);
    lemma_round_same(f, v * d, m * d, v, m);
    lemma_room_above(1074);
    assert(v <= (1 * d) * m) by (nonlinear_arith)
        requires
            v == c * d,
            c <= m,
    ;
    lemma_round_upper(f, v, m, 1, 1074);
    lemma_rounds_double(v, m);
    let t = units(f, q.key() as nat);
    assert(t * u <= 8 * one_unit() * d) by (nonlinear_arith)
        requires
            t <= d,
            u == one_unit(),
            u > 0,
    ;
    lemma_round_close(t * u, d);
    let g = q.to_f32();
    let z = units(k, round_mag(k, t * u, d)) as int;
    assert(g.is_finite() && g.value() == z) by {
        reveal(F64::spec_to_f32);
        lemma_units_zero(f, 0);
        lemma_units_zero(k, 0);
        if q.bits >= 0x8000_0000_0000_0000 {
            assert(0 * u == 0) by (nonlinear_arith);
            lemma_round_zero(k, d);
        }
    }
    lemma_deviation_left(z, t as int, c as int, n as int, d as int, u as int, e);
}

/// The partial counts of a mask, added up.
pub open spec fn count_of(counts: Seq<int>, n: nat) -> int
    decreases n,
{
    if n == 0 {
        0
    } else {
        count_of(counts, (n - 1) as nat) + counts[n - 1]
    }
}

/// Whole counts add up exactly.
proof fn lemma_masked(s: Seq<F32>, counts: Seq<int>, n: nat)
    requires
        4 * n <= s.len(),
        counts.len() >= n,
        forall|i: int|
            0 <= i < counts.len() ==> (#[trigger] counts[i]) >= 0 && is_whole(s[4 * i], counts[i]),
        count_of(counts, n) < 0x100_0000,
    ensures
        is_whole(masked(s, n), count_of(counts, n)),
        masked(s, n).key() >= 0,
        count_of(counts, n) >= 0,
    decreases n,
{
    let u = pow2(149);
    lemma_order(F32::zero(), F32::zero());
    assert(0 * u == 0) by (nonlinear_arith);
    if n > 0 {
        let c = counts[n - 1];
        assert(c >= 0 && is_whole(s[4 * (n - 1)], c));
        lemma_masked(s, counts, (n - 1) as nat);
        let a = count_of(counts, (n - 1) as nat);
        let x = masked(s, (n - 1) as nat);
        let y = s[4 * (n - 1)];
        let f = Format::Single;
        lemma2_to64();
        lemma_add_key(x, y);
        assert(a * u + c * u == (a + c) * u) by (nonlinear_arith);
        let m = (a + c) as nat;
        assert(m * u >= 0) by (nonlinear_arith);
        let h = pow2((f.p() - 1) as nat);
        assert((149 + 2) * h <= f.top()) by (nonlinear_arith)
            requires
                h == 0x80_0000,
                f.top() == 0x7f80_0000,
        ;
        let mag = lemma_exact(f, m, 149);
        lemma_order(x + y, x + y);
    }
}

/// The fraction of a mask that is invalid is the count over the pixels: what the
/// work groups counted, added up, over how many pixels there are, but for a few
/// millionths of rounding.
pub proof fn law_a_mask_is_counted(
    sums: &Vec<F32>,
    width: u32,
    height: u32,
    r: F32,
    counts: Seq<int>,
)
    requires
        0 < width * height < 0x100_0000,
        call_ensures(mask_fraction, (sums, width, height), r),
        counts.len() == sums@.len() / 4,
        forall|i: int|
            0 <= i < counts.len() ==> (#[trigger] counts[i]) >= 0 && is_whole(
                sums@[4 * i],
                counts[i],
            ),
        count_of(counts, counts.len()) <= width * height,
    ensures
        r.is_finite(),
        size(
            r.value() * (width * height) - count_of(counts, counts.len()) * one_unit(),
        ) <= slip() * (width * height),
{
    let n = width * height;
    let u = one_unit();
    let e = slip();
    let k = counts.len();
    lemma_slip();
    lemma_masked(sums@, counts, k);
    let total = masked(sums@, k);
    let c = count_of(counts, k);
    let b = F32::from_u32(n as u32);
    lemma_from_small(n as u32);
    lemma_order(b, b);
    assert(n * u > 0 && 0 <= c * u <= n * u) by (nonlinear_arith)
        requires
            n > 0,
            0 <= c <= n,
            u > 0,
    ;
    lemma_div_close(total, b);
    let q = r.value();
    assert(size(q * n - c * u) <= e * n) by (nonlinear_arith)
        requires
            size(q * (n * u) - (c * u) * u) <= e * (n * u),
            u > 0,
    {
        assert(q * (n * u) - (c * u) * u == (q * n - c * u) * u);
        assert(e * (n * u) == (e * n) * u);
        assert(size((q * n - c * u) * u) == size(q * n - c * u) * u);
    }
}

} // verus!
