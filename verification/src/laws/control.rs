//! The control loop: who may raise the rung, what a rejection costs, and how
//! trust comes back.

use crate::fp::facts::{
    lemma_double_div, lemma_double_from, lemma_product_monotone, lemma_product_small,
    lemma_ratio_key, lemma_round_same, lemma_round_top, lemma_round_upper, lemma_unity,
    lemma_widened, lemma_widened_order,
};
use crate::fp::model::{lemma_round_exact, lemma_round_monotone, round_mag, units, Format};
use crate::fp::raw::{lemma_units_monotone, lemma_units_zero};
use crate::fp::round::lemma_round_zero;
use crate::fp::{F32, F64};
use crate::governor::{
    first_fit, fits, ControllerState, DiscardReason, PerfConfig, PerfState, QualityState, Verdict,
};
use crate::laws::ladder::{law_ladder_is_monotonic, lemma_cost_positive};
use crate::level::{rung, MAX_LEVEL};
use crate::signals::Signals;
use vstd::arithmetic::power2::{
    lemma2_to64, lemma2_to64_rest, lemma_pow2_adds, lemma_pow2_pos, pow2,
};
use vstd::prelude::*;

verus! {

/// Quality vetoes performance: whatever the last frame took, the rung in use is
/// the lesser of what performance asks for and what quality allows. The request
/// itself never exceeds the ceiling, so no demand builds up beneath it.
pub proof fn law_quality_vetoes(s: ControllerState, last_frame_ns: u64)
    requires
        s.valid(),
    ensures
        ({
            let next = s.planned(last_frame_ns);
            &&& next.active <= s.quality.ceiling
            &&& next.active <= next.perf.desired
            &&& next.active == next.perf.desired || next.active == s.quality.ceiling
            &&& next.perf.desired <= s.quality.ceiling
            &&& next.active == next.perf.desired
        }),
{
}

/// Load alone never moves the quality ceiling: planning leaves everything that
/// quality knows as it was, however long the last frame took.
pub proof fn law_load_never_moves_the_ceiling(s: ControllerState, last_frame_ns: u64)
    ensures
        s.planned(last_frame_ns).quality == s.quality,
{
}

/// What quality makes of a frame depends on the rung it was made on and on the
/// signals, and on nothing that performance knows.
pub proof fn law_quality_ignores_performance(
    a: ControllerState,
    b: ControllerState,
    signals: Signals,
    a_next: ControllerState,
    b_next: ControllerState,
)
    requires
        a.quality == b.quality,
        a.active == b.active,
        a.resolves(signals, a_next),
        b.resolves(signals, b_next),
    ensures
        a_next.quality == b_next.quality,
{
}

/// The request moves by at most one rung for each frame, except that it drops
/// as far as a lowered ceiling makes it.
pub proof fn law_request_moves_one_rung(s: PerfState, frame_ns: u64, active: u8, ceiling: u8)
    requires
        s.valid(),
    ensures
        ({
            let next = s.observed(frame_ns, active, ceiling);
            &&& next.desired <= s.desired + 1
            &&& next.desired >= s.desired - 1 || next.desired == s.cfg.cap(ceiling)
            &&& next.desired <= s.cfg.cap(ceiling)
        }),
{
}

/// The states a controller passes through: each follows from the one before by
/// planning a frame and resolving it.
pub open spec fn passes_through(
    states: Seq<ControllerState>,
    times: Seq<u64>,
    signals: Seq<Signals>,
) -> bool {
    &&& states.len() == times.len() + 1
    &&& signals.len() == times.len()
    &&& forall|k: int|
        0 <= k < times.len() ==> (#[trigger] states[k]).planned(times[k]).resolves(
            signals[k],
            states[k + 1],
        )
}

/// Over a whole run from native, the rung in use is what performance asks for
/// under the ceiling in force, and it climbs by at most one rung a frame:
/// recovery is gradual, never a snap back.
pub proof fn law_climbs_one_rung_at_a_time(
    states: Seq<ControllerState>,
    times: Seq<u64>,
    signals: Seq<Signals>,
    k: int,
)
    requires
        passes_through(states, times, signals),
        states[0].active == states[0].perf.desired,
        states[0].valid(),
        0 <= k < times.len(),
    ensures
        states[k].active == states[k].perf.desired,
        states[k + 1].active <= states[k].active + 1,
        states[k + 1].active <= states[k].quality.ceiling,
        states[k + 1].active == states[k + 1].perf.desired,
    decreases k,
{
    if k > 0 {
        law_climbs_one_rung_at_a_time(states, times, signals, k - 1);
    }
    lemma_stays_valid(states, times, signals, k);
    let planned = states[k].planned(times[k]);
    assert(planned.resolves(signals[k], states[k + 1]));
    law_request_moves_one_rung(states[k].perf, times[k], states[k].active, states[k].quality.ceiling);
}

/// Every state on the way is valid.
proof fn lemma_stays_valid(
    states: Seq<ControllerState>,
    times: Seq<u64>,
    signals: Seq<Signals>,
    k: int,
)
    requires
        passes_through(states, times, signals),
        states[0].valid(),
        0 <= k <= times.len(),
    ensures
        states[k].quality.valid(),
        states[k].perf.valid(),
    decreases k,
{
    if k > 0 {
        lemma_stays_valid(states, times, signals, k - 1);
        let s = states[k - 1];
        assert(s.planned(times[k - 1]).resolves(signals[k - 1], states[k]));
        let v = s.quality.verdict(s.planned(times[k - 1]).active, signals[k - 1]);
        assert(s.quality.after(s.planned(times[k - 1]).active, v).valid());
    }
}

/// Native frames are never rejected, whatever the signals say: nothing was
/// reconstructed.
pub proof fn law_native_is_never_rejected(s: QualityState, signals: Signals)
    ensures
        s.verdict(0, signals) == (Verdict::Present { confidence: F32::one() }),
        s.after(0, s.verdict(0, signals)) == s.credited(),
{
}

/// Only a temporal rung throws a frame away, and only a spatial one shows a
/// frame that it no longer trusts.
pub proof fn law_rejection_depends_on_the_rung(s: QualityState, level: u8, signals: Signals)
    ensures
        s.verdict(level, signals) is Discard ==> rung(level).is_temporal(),
        s.verdict(level, signals) is Degrade ==> !rung(level).is_temporal() && level > 0,
{
}

/// A discarded frame costs the display its generated frames and nothing else:
/// one honest frame is shown, and every other outcome shows all that the rung
/// makes.
pub proof fn law_a_discard_shows_one_frame(s: ControllerState, v: Verdict)
    ensures
        v is Discard ==> s.shown(v) == 1,
        v !is Discard ==> s.shown(v) == 1 + rung(s.active).generated_per_rendered,
        1 <= s.shown(v) <= 2,
{
}

/// Whether a frame was thrown away for being a cut.
pub open spec fn blames_a_cut(v: Verdict) -> bool {
    match v {
        Verdict::Discard { reason: DiscardReason::SceneCut, .. } => true,
        _ => false,
    }
}

/// A cut on a temporal rung is thrown away whatever the score is, and sends the
/// ceiling to the top of the spatial rungs: no generated frames until it is
/// earned back, but not all the way to native.
pub proof fn law_a_cut_retreats_to_spatial(s: QualityState, level: u8, signals: Signals)
    requires
        rung(level).is_temporal(),
        signals.is_scene_cut(&s.cfg.weights),
    ensures
        blames_a_cut(s.verdict(level, signals)),
        ({
            let next = s.after(level, s.verdict(level, signals));
            &&& next.cooldown == s.cfg.cut_cooldown_frames
            &&& next.clean_streak == 0
            &&& next.ceiling <= s.cfg.top()
            &&& !rung(next.ceiling).is_temporal()
            &&& s.cfg.max_level >= 4 ==> next.ceiling == 4 && rung(5).is_temporal()
        }),
{
}

/// Any other rejection puts the ceiling beneath the rung that failed, not
/// merely one below an untested top, and never raises it.
pub proof fn law_backs_off_from_the_rung_that_failed(s: QualityState, level: u8, signals: Signals)
    requires
        level > 0,
        !s.verdict(level, signals).accepted(),
    ensures
        ({
            let v = s.verdict(level, signals);
            let next = s.after(level, v);
            &&& !blames_a_cut(v) ==> next.ceiling < level && next.ceiling <= s.ceiling
            &&& !blames_a_cut(v) && s.ceiling > 0 ==> next.ceiling < s.ceiling
            &&& next.clean_streak == 0
        }),
{
}

/// A clean frame never lowers the ceiling, and raises it by at most one rung.
pub proof fn law_a_clean_frame_never_lowers_the_ceiling(s: QualityState)
    requires
        s.valid(),
    ensures
        s.ceiling <= s.credited().ceiling <= s.ceiling + 1,
        s.credited().valid(),
        s.cooldown > 0 ==> s.credited().ceiling == s.ceiling,
{
}

/// The state after a number of clean frames.
pub open spec fn credited_times(s: QualityState, n: nat) -> QualityState
    decreases n,
{
    if n == 0 {
        s
    } else {
        credited_times(s, (n - 1) as nat).credited()
    }
}

/// Clean frames that one more rung takes once probation is over.
pub open spec fn rung_price(s: QualityState) -> nat {
    if s.cfg.growth_interval == 0 {
        1
    } else {
        s.cfg.growth_interval as nat
    }
}

proof fn lemma_credited_times_add(s: QualityState, a: nat, b: nat)
    ensures
        credited_times(credited_times(s, a), b) == credited_times(s, a + b),
    decreases b,
{
    if b > 0 {
        lemma_credited_times_add(s, a, (b - 1) as nat);
    }
}

/// Probation runs out one frame at a time, and nothing else moves meanwhile.
proof fn lemma_probation(s: QualityState, n: nat)
    requires
        n <= s.cooldown,
        s.clean_streak == 0,
    ensures
        credited_times(s, n) == (QualityState { cooldown: (s.cooldown - n) as u32, ..s }),
    decreases n,
{
    if n > 0 {
        lemma_probation(s, (n - 1) as nat);
    }
}

/// Short of the price, clean frames only add to the streak.
proof fn lemma_streak(s: QualityState, n: nat)
    requires
        s.cooldown == 0,
        s.clean_streak == 0,
        n < rung_price(s),
    ensures
        credited_times(s, n) == (QualityState { clean_streak: n as u32, ..s }),
    decreases n,
{
    if n > 0 {
        lemma_streak(s, (n - 1) as nat);
    }
}

/// Recovery takes probation and then the growth interval, their sum and not the
/// larger of the two: one frame short of it the ceiling has not moved, and with
/// it the ceiling stands one rung higher, if there is one.
pub proof fn law_recovery_takes_the_sum(s: QualityState, n: nat)
    requires
        s.valid(),
        s.clean_streak == 0,
    ensures
        n < s.cooldown + rung_price(s) ==> credited_times(s, n).ceiling == s.ceiling,
        n == s.cooldown + rung_price(s) ==> credited_times(s, n) == (QualityState {
            ceiling: if s.ceiling < s.cfg.top() {
                (s.ceiling + 1) as u8
            } else {
                s.ceiling
            },
            cooldown: 0,
            clean_streak: 0,
            ..s
        }),
{
    let c = s.cooldown as nat;
    if n <= c {
        lemma_probation(s, n);
    } else if n <= c + rung_price(s) {
        let rest = (n - c) as nat;
        let free = credited_times(s, c);
        lemma_probation(s, c);
        lemma_credited_times_add(s, c, rest);
        if rest < rung_price(s) {
            lemma_streak(free, rest);
        } else {
            lemma_streak(free, (rest - 1) as nat);
            lemma_credited_times_add(free, (rest - 1) as nat, 1);
            reveal_with_fuel(credited_times, 2);
        }
    }
}

/// Trust is never lost for good: enough clean frames bring the ceiling back to
/// the top, a growth interval for each rung after probation.
pub proof fn law_recovers_all_the_way(s: QualityState)
    requires
        s.valid(),
        s.clean_streak == 0,
    ensures
        ({
            let n = s.cooldown + (s.cfg.top() - s.ceiling) * rung_price(s);
            &&& n >= 0
            &&& credited_times(s, n as nat).ceiling == s.cfg.top()
        }),
    decreases s.cfg.top() - s.ceiling,
{
    let price = rung_price(s);
    if s.ceiling == s.cfg.top() {
        assert((s.cfg.top() - s.ceiling) * price == 0) by (nonlinear_arith)
            requires
                s.cfg.top() - s.ceiling == 0,
        ;
        law_recovery_takes_the_sum(s, s.cooldown as nat);
    } else {
        let first = s.cooldown as nat + price;
        law_recovery_takes_the_sum(s, first);
        let up = credited_times(s, first);
        law_recovers_all_the_way(up);
        let rest = ((s.cfg.top() - up.ceiling) * price) as int;
        assert((s.cfg.top() - s.ceiling) * price == price + rest) by (nonlinear_arith)
            requires
                up.ceiling == s.ceiling + 1,
                rest == (s.cfg.top() - up.ceiling) * price,
        ;
        lemma_credited_times_add(s, first, rest as nat);
    }
}

/// The rung wanted is the least aggressive one that fits; where none does, the
/// most aggressive allowed.
pub proof fn law_wants_the_least_rung_that_fits(
    native_ns: F64,
    budget: F64,
    from: u8,
    cap: u8,
    level: u8,
)
    requires
        from <= cap,
    ensures
        from <= first_fit(native_ns, budget, from, cap) <= cap,
        from <= level < first_fit(native_ns, budget, from, cap) ==> !fits(native_ns, budget, level),
        fits(native_ns, budget, first_fit(native_ns, budget, from, cap)) || first_fit(
            native_ns,
            budget,
            from,
            cap,
        ) == cap,
    decreases cap - from,
{
    if from < cap && !fits(native_ns, budget, from) {
        law_wants_the_least_rung_that_fits(native_ns, budget, (from + 1) as u8, cap, level);
    }
}

/// A product with a positive number: no rounding makes it larger than that with
/// a larger one, as long as it is not negative.
proof fn lemma_cheaper(e: F64, a: F64, b: F64)
    requires
        !e.is_nan(),
        a.is_finite(),
        b.is_finite(),
        0 < a.key() <= b.key(),
    ensures
        !(e * a).is_nan(),
        !(e * b).is_nan(),
        e.key() >= 0 ==> (e * a).key() <= (e * b).key(),
        e.key() <= 0 ==> (e * a).key() <= 0,
{
    reveal(F64::spec_mul);
    let f = Format::Double;
    let n = units(f, e.raw().mag as nat);
    lemma_round_top(f, n * units(f, a.raw().mag as nat), pow2(1074));
    lemma_round_top(f, n * units(f, b.raw().mag as nat), pow2(1074));
    if e.is_finite() {
        if e.key() >= 0 {
            lemma_product_monotone(
                f,
                e.key() as nat,
                a.key() as nat,
                e.key() as nat,
                b.key() as nat,
            );
        }
        if e.key() == 0 {
            lemma_double_times_nothing(e, a);
            lemma_double_times_nothing(e, b);
        }
    }
}

/// Nothing times a number is nothing.
proof fn lemma_double_times_nothing(z: F64, a: F64)
    requires
        z.key() == 0,
        a.is_finite(),
    ensures
        (z * a).key() == 0,
{
    reveal(F64::spec_mul);
    let f = Format::Double;
    lemma_units_zero(f, 0);
    lemma_pow2_pos(1074);
    let x = units(f, a.raw().mag as nat);
    assert(0 * x == 0);
    lemma_round_zero(f, pow2(1074));
}

/// A budget is not negative.
proof fn lemma_budget(c: PerfConfig)
    ensures
        c.budget().is_nan() || c.budget().key() >= 0,
{
    reveal(F32::spec_max);
    reveal(F32::spec_to_f64);
    reveal(F64::spec_from_u64);
    reveal(F64::spec_mul);
    let f = Format::Double;
    let t = F64::from_u64(c.target_frame_ns);
    let k = c.tolerance.max(F32::one());
    lemma_round_top(f, c.target_frame_ns as nat * pow2(1074), 1);
    lemma_round_top(
        f,
        units(Format::Single, k.raw().mag as nat) * pow2(1074),
        pow2(149),
    );
    lemma_round_top(
        f,
        units(f, t.raw().mag as nat) * units(f, k.to_f64().raw().mag as nat),
        pow2(1074),
    );
}

/// A rung's cost, in the longer format.
proof fn lemma_costs(lower: u8, higher: u8)
    requires
        lower <= higher <= MAX_LEVEL,
    ensures
        ({
            let a = rung(higher).relative_cost().to_f64();
            let b = rung(lower).relative_cost().to_f64();
            a.is_finite() && b.is_finite() && 0 < a.key() <= b.key()
        }),
{
    let a = rung(higher).relative_cost();
    let b = rung(lower).relative_cost();
    lemma_cost_positive(lower);
    lemma_cost_positive(higher);
    if lower < higher {
        law_ladder_is_monotonic(lower, higher);
    }
    lemma_widened(a);
    lemma_widened(b);
    lemma_widened_order(a, b);
}

/// A rung more aggressive than one that fits fits too.
pub proof fn law_what_fits_keeps_fitting(native_ns: F64, budget: F64, lower: u8, higher: u8)
    requires
        !native_ns.is_nan(),
        F64::zero().le(budget),
        lower <= higher <= MAX_LEVEL,
        fits(native_ns, budget, lower),
    ensures
        fits(native_ns, budget, higher),
{
    lemma_costs(lower, higher);
    lemma_cheaper(
        native_ns,
        rung(higher).relative_cost().to_f64(),
        rung(lower).relative_cost().to_f64(),
    );
}

/// The request moves by one rung at most, and for a reason: it climbs only off a
/// rung that misses the budget, and, unless a lowered ceiling takes it down, it
/// steps down only to a rung that meets it. What counts is the native cost
/// estimated with the new frame time.
pub proof fn law_moves_for_a_reason(s: PerfState, frame_ns: u64, active: u8, ceiling: u8)
    requires
        s.valid(),
        !s.observed(frame_ns, active, ceiling).native_ns(active).is_nan(),
    ensures
        ({
            let next = s.observed(frame_ns, active, ceiling);
            let native = next.native_ns(active);
            let budget = s.cfg.budget();
            let cap = s.cfg.cap(ceiling);
            &&& next.desired <= cap
            &&& next.desired <= s.desired + 1
            &&& next.desired > s.desired ==> !fits(native, budget, s.desired)
            &&& next.desired > s.desired && !budget.is_nan() ==> (native * rung(
                s.desired,
            ).relative_cost().to_f64()).gt(budget)
            &&& s.desired <= cap && next.desired < s.desired ==> next.desired == s.desired - 1
                && fits(native, budget, next.desired)
        }),
{
    let next = s.observed(frame_ns, active, ceiling);
    let native = next.native_ns(active);
    let budget = s.cfg.budget();
    let cap = s.cfg.cap(ceiling);
    let want = wanted(s, frame_ns, active, ceiling);
    assert(want == first_fit(native, budget, 0, cap));
    law_wants_the_least_rung_that_fits(native, budget, 0, cap, s.desired);
    lemma_costs(s.desired, s.desired);
    let cost = rung(s.desired).relative_cost().to_f64();
    lemma_cheaper(native, cost, cost);
    if s.desired <= cap && next.desired < s.desired {
        assert(want < s.desired);
        assert(fits(native, budget, want));
        lemma_budget(s.cfg);
        law_what_fits_keeps_fitting(native, budget, want, next.desired);
    }
}

/// Whether a smoothed frame time is a time: finite and not negative.
pub open spec fn is_timed(s: PerfState) -> bool {
    s.ema_ns.is_finite() && s.ema_ns.key() >= 0
}

/// A share of a difference is no larger than the difference, and on the same
/// side.
proof fn lemma_share(a: F64, d: F64)
    requires
        a.is_finite(),
        0 <= a.key() <= F64::one().key(),
        d.is_finite(),
    ensures
        (a * d).is_finite(),
        d.value() <= 0 ==> d.value() <= (a * d).value() <= 0,
        d.value() >= 0 ==> 0 <= (a * d).value() <= d.value(),
{
    reveal(F64::spec_mul);
    let f = Format::Double;
    let x = a.raw().mag as nat;
    let y = d.raw().mag as nat;
    lemma_product_small(f, y, x);
    assert(units(f, x) * units(f, y) == units(f, y) * units(f, x)) by (nonlinear_arith);
    let r = round_mag(f, units(f, x) * units(f, y), pow2(1074));
    lemma_units_monotone(f, r, y);
    lemma_units_zero(f, x);
    lemma_units_zero(f, y);
    lemma_units_zero(f, r);
    if x == 0 {
        assert(0 * units(f, y) == 0);
        lemma_pow2_pos(1074);
        lemma_round_zero(f, pow2(1074));
    }
}

/// A difference between two times.
proof fn lemma_apart(x: F64, y: F64)
    requires
        x.is_finite(),
        y.is_finite(),
        x.key() >= 0,
        y.key() >= 0,
        x.value() <= pow2(1138),
    ensures
        (x - y).is_finite(),
        x.value() <= y.value() ==> -y.value() <= (x - y).value() <= 0,
        x.value() >= y.value() ==> 0 <= (x - y).value() <= pow2(1138),
{
    reveal(F64::spec_sub);
    let f = Format::Double;
    let v = x.value() - y.value();
    assert(y.raw().negated().value(f) == -y.value());
    lemma_units_zero(f, 0);
    lemma_units_zero(f, x.raw().mag as nat);
    lemma_units_zero(f, y.raw().mag as nat);
    lemma2_to64_rest();
    lemma2_to64();
    if v < 0 {
        let n = (-v) as nat;
        lemma_round_exact(f, y.raw().mag as nat);
        lemma_round_monotone(f, n, 1, units(f, y.raw().mag as nat), 1);
        lemma_units_monotone(f, round_mag(f, n, 1), y.raw().mag as nat);
    } else if v > 0 {
        lemma_up_to(v as nat, 1);
    }
}

/// What is at most a few times the longest time is rounded to no more.
proof fn lemma_up_to(n: nat, m: nat)
    requires
        n <= m * pow2(1138),
        m <= 2,
    ensures
        round_mag(Format::Double, n, 1) < Format::Double.top(),
        units(Format::Double, round_mag(Format::Double, n, 1)) <= m * pow2(1138),
{
    let f = Format::Double;
    lemma2_to64_rest();
    lemma2_to64();
    let h = pow2((f.p() - 1) as nat);
    assert((1138 + 2) * h <= f.top()) by (nonlinear_arith)
        requires
            h == 0x10_0000_0000_0000,
            f.top() == 0x7ff0_0000_0000_0000,
    ;
    assert(n <= (m * pow2(1138)) * 1);
    lemma_round_upper(f, n, 1, m, 1138);
}

/// One step of smoothing stays a time.
proof fn lemma_smoothing(y: F64, p: F64, x: F64)
    requires
        y.is_finite(),
        y.key() >= 0,
        p.is_finite(),
        x.value() <= pow2(1138),
        -y.value() <= p.value(),
        p.value() <= 0 || (p.value() <= pow2(1138) && y.value() <= x.value()),
    ensures
        (y + p).is_finite(),
        (y + p).key() >= 0,
{
    reveal(F64::spec_add);
    let f = Format::Double;
    let v = y.value() + p.value();
    lemma_units_zero(f, y.raw().mag as nat);
    if v > 0 {
        if p.value() <= 0 {
            lemma_round_exact(f, y.raw().mag as nat);
            lemma_round_monotone(f, v as nat, 1, units(f, y.raw().mag as nat), 1);
        } else {
            lemma_up_to(v as nat, 2);
        }
    }
}

/// The estimate stays a number. A governor starts with a time and, with a
/// smoothing factor that is a number, every frame leaves it with one, so that
/// the native cost can be estimated through any rung.
pub proof fn law_the_estimate_stays_a_number(
    s: PerfState,
    frame_ns: u64,
    active: u8,
    ceiling: u8,
)
    requires
        is_timed(s),
        !s.cfg.ema_alpha.is_nan(),
    ensures
        is_timed(s.observed(frame_ns, active, ceiling)),
        !s.native_ns(active).is_nan(),
        !s.observed(frame_ns, active, ceiling).native_ns(active).is_nan(),
        is_timed(PerfState { ema_ns: F64::from_u64(s.cfg.target_frame_ns), ..s }),
{
    reveal(F32::spec_clamp);
    let f = Format::Double;
    let x = F64::from_u64(frame_ns);
    let y = s.ema_ns;
    let alpha = s.cfg.ema_alpha.clamp(F32::zero(), F32::one());
    let a = alpha.to_f64();
    lemma_double_from(frame_ns);
    lemma_double_from(s.cfg.target_frame_ns);
    lemma2_to64_rest();
    lemma_pow2_adds(64, 1074);
    lemma_units_zero(f, x.raw().mag as nat);
    lemma_units_zero(f, y.raw().mag as nat);
    if s.primed {
        lemma_widened(alpha);
        lemma_widened_order(alpha, F32::one());
        lemma_widened_one();
        let d = x - y;
        lemma_apart(x, y);
        lemma_share(a, d);
        lemma_smoothing(y, a * d, x);
    }
    let next = s.observed(frame_ns, active, ceiling);
    lemma_divides(s.ema_ns, active);
    lemma_divides(next.ema_ns, active);
}

/// One is one in both formats.
proof fn lemma_widened_one()
    ensures
        F32::one().to_f64().key() == F64::one().key(),
{
    let u = pow2(149);
    let v = pow2(1074);
    lemma_widened(F32::one());
    lemma_unity(Format::Single);
    lemma_unity(Format::Double);
    lemma_pow2_pos(149);
    assert((u * v) * 1 == v * u) by (nonlinear_arith);
    lemma_round_same(Format::Double, u * v, u, v, 1);
    lemma_round_exact(Format::Double, Format::Double.unity());
}

/// A time divided by the cost of a rung is a number.
proof fn lemma_divides(t: F64, active: u8)
    requires
        t.is_finite(),
        t.key() >= 0,
    ensures
        !(t / rung(active).relative_cost().max(F32::ratio(1, 1000)).to_f64()).is_nan(),
{
    reveal(F32::spec_max);
    let cost = rung(active).relative_cost();
    let floor = F32::ratio(1, 1000);
    let level: u8 = if active <= MAX_LEVEL {
        active
    } else {
        MAX_LEVEL
    };
    assert(rung(active) == rung(level));
    lemma_cost_positive(level);
    lemma_ratio_key(1, 1000);
    let c = cost.max(floor);
    lemma_widened(c);
    lemma_double_div(t, c.to_f64());
}

/// The rung wanted once a frame time has been taken in.
pub open spec fn wanted(s: PerfState, frame_ns: u64, active: u8, ceiling: u8) -> u8 {
    (PerfState { ema_ns: s.smoothed(frame_ns), primed: true, ..s }).want(
        active,
        s.cfg.cap(ceiling),
    )
}

/// A request that is what is wanted does not move: once a rung meets the
/// budget, nothing hunts.
pub proof fn law_holds_still_when_satisfied(s: PerfState, frame_ns: u64, active: u8, ceiling: u8)
    requires
        wanted(s, frame_ns, active, ceiling) == s.desired,
    ensures
        s.observed(frame_ns, active, ceiling).desired == s.desired,
        s.observed(frame_ns, active, ceiling).dwell == 0,
{
    let next = PerfState { ema_ns: s.smoothed(frame_ns), primed: true, ..s };
    let cap = s.cfg.cap(ceiling);
    law_wants_the_least_rung_that_fits(next.native_ns(active), s.cfg.budget(), 0, cap, 0);
}

/// A rung has to be wanted consistently, not merely repeatedly: a frame that
/// wants something else than the one before moves nothing by itself.
pub proof fn law_noise_never_moves_the_request(
    s: PerfState,
    frame_ns: u64,
    active: u8,
    ceiling: u8,
)
    requires
        s.valid(),
        s.cfg.dwell_frames > 1,
        wanted(s, frame_ns, active, ceiling) != s.last_want,
    ensures
        s.observed(frame_ns, active, ceiling).desired == s.desired || s.desired > s.cfg.cap(ceiling),
{
}

/// The state after some frames on a rung, under a ceiling.
pub open spec fn observed_all(s: PerfState, times: Seq<u64>, active: u8, ceiling: u8) -> PerfState
    decreases times.len(),
{
    if times.len() == 0 {
        s
    } else {
        observed_all(s, times.drop_last(), active, ceiling).observed(times.last(), active, ceiling)
    }
}

/// Whether every one of some frames wants the same rung.
pub open spec fn all_want(s: PerfState, times: Seq<u64>, active: u8, ceiling: u8, want: u8) -> bool
    decreases times.len(),
{
    times.len() == 0 || {
        &&& all_want(s, times.drop_last(), active, ceiling, want)
        &&& wanted(
            observed_all(s, times.drop_last(), active, ceiling),
            times.last(),
            active,
            ceiling,
        ) == want
    }
}

/// Another rung that is wanted for the whole dwell moves the request by one
/// rung toward it; wanted for any less, it moves nothing.
pub proof fn law_moves_after_the_dwell(
    s: PerfState,
    times: Seq<u64>,
    active: u8,
    ceiling: u8,
    want: u8,
)
    requires
        s.valid(),
        s.dwell == 0 || s.last_want != want,
        s.desired <= s.cfg.cap(ceiling),
        want != s.desired,
        times.len() <= s.cfg.dwell_frames,
        all_want(s, times, active, ceiling, want),
    ensures
        ({
            let next = observed_all(s, times, active, ceiling);
            &&& next.cfg == s.cfg
            &&& times.len() < s.cfg.dwell_frames ==> next.desired == s.desired
            &&& 0 < times.len() < s.cfg.dwell_frames ==> next.dwell == times.len()
                && next.last_want == want
            &&& 0 < times.len() == s.cfg.dwell_frames ==> next.desired == if want > s.desired {
                s.desired + 1
            } else {
                s.desired - 1
            }
        }),
    decreases times.len(),
{
    if times.len() > 0 {
        law_moves_after_the_dwell(s, times.drop_last(), active, ceiling, want);
        let before = observed_all(s, times.drop_last(), active, ceiling);
        let now = PerfState { ema_ns: before.smoothed(times.last()), primed: true, ..before };
        law_wants_the_least_rung_that_fits(
            now.native_ns(active),
            s.cfg.budget(),
            0,
            s.cfg.cap(ceiling),
            0,
        );
    }
}

/// Frames that each rung of the way takes: the dwell, and at least one.
pub open spec fn step_price(s: PerfState) -> nat {
    if s.cfg.dwell_frames == 0 {
        1
    } else {
        s.cfg.dwell_frames as nat
    }
}

/// Rungs between the request and what is wanted.
pub open spec fn distance(s: PerfState, want: u8) -> nat {
    if want > s.desired {
        (want - s.desired) as nat
    } else {
        (s.desired - want) as nat
    }
}

/// The request after some rungs of the way toward what is wanted.
pub open spec fn toward(s: PerfState, want: u8, rungs: nat) -> int {
    if rungs >= distance(s, want) {
        want as int
    } else if want > s.desired {
        s.desired + rungs
    } else {
        s.desired - rungs
    }
}

/// One frame more of a dwell, in whole dwells and the rest.
proof fn lemma_one_more_frame(m: nat, price: nat)
    requires
        price > 0,
    ensures
        m % price < price,
        m % price + 1 < price ==> (m + 1) / price == m / price && (m + 1) % price == m % price + 1,
        m % price + 1 == price ==> (m + 1) / price == m / price + 1 && (m + 1) % price == 0,
{
    let q = (m / price) as int;
    let r = (m % price) as int;
    let p = price as int;
    vstd::arithmetic::div_mod::lemma_fundamental_div_mod(m as int, p);
    vstd::arithmetic::div_mod::lemma_mod_bound(m as int, p);
    assert(p * q == q * p) by (nonlinear_arith);
    if r + 1 < p {
        vstd::arithmetic::div_mod::lemma_fundamental_div_mod_converse((m + 1) as int, p, q, r + 1);
    } else {
        assert((q + 1) * p == q * p + p) by (nonlinear_arith);
        vstd::arithmetic::div_mod::lemma_fundamental_div_mod_converse((m + 1) as int, p, q + 1, 0);
    }
}

/// A rung that is wanted frame after frame is approached one rung for each
/// dwell, all the way, and kept once it is reached: where the ceiling allows the
/// request, as many dwells as there are rungs between bring it to the rung
/// wanted, and any number of frames more leave it there.
pub proof fn law_arrives_where_it_is_wanted_and_stays(
    s: PerfState,
    times: Seq<u64>,
    active: u8,
    ceiling: u8,
    want: u8,
)
    requires
        s.valid(),
        s.dwell == 0 || s.last_want != want,
        s.desired <= s.cfg.cap(ceiling),
        all_want(s, times, active, ceiling, want),
    ensures
        ({
            let next = observed_all(s, times, active, ceiling);
            &&& next.desired == toward(s, want, times.len() / step_price(s))
            &&& times.len() >= distance(s, want) * step_price(s) ==> next.desired == want
        }),
{
    let price = step_price(s);
    let n = times.len();
    lemma_approaches(s, times, active, ceiling, want);
    if n >= distance(s, want) * price {
        let q = (n / price) as int;
        let d = distance(s, want) as int;
        let p = price as int;
        vstd::arithmetic::div_mod::lemma_fundamental_div_mod(n as int, p);
        vstd::arithmetic::div_mod::lemma_mod_bound(n as int, p);
        assert(q >= d) by (nonlinear_arith)
            requires
                n == p * q + n as int % p,
                n as int % p < p,
                n >= d * p,
                p > 0,
        ;
    }
}

proof fn lemma_approaches(s: PerfState, times: Seq<u64>, active: u8, ceiling: u8, want: u8)
    requires
        s.valid(),
        s.dwell == 0 || s.last_want != want,
        s.desired <= s.cfg.cap(ceiling),
        all_want(s, times, active, ceiling, want),
    ensures
        ({
            let next = observed_all(s, times, active, ceiling);
            let n = times.len();
            &&& next.cfg == s.cfg
            &&& next.desired == toward(s, want, n / step_price(s))
            &&& n > 0 ==> next.last_want == want && want <= s.cfg.cap(ceiling)
            &&& n > 0 && next.desired != want ==> next.dwell == n % step_price(s)
        }),
    decreases times.len(),
{
    let price = step_price(s);
    let n = times.len();
    if n == 0 {
        vstd::arithmetic::div_mod::lemma_div_basics(price as int);
        assert(0nat / price == 0);
    } else {
        let m = (n - 1) as nat;
        lemma_approaches(s, times.drop_last(), active, ceiling, want);
        lemma_one_more_frame(m, price);
        let before = observed_all(s, times.drop_last(), active, ceiling);
        let now = PerfState { ema_ns: before.smoothed(times.last()), primed: true, ..before };
        law_wants_the_least_rung_that_fits(
            now.native_ns(active),
            s.cfg.budget(),
            0,
            s.cfg.cap(ceiling),
            0,
        );
        if m == 0 {
            assert(0nat % price == 0) by {
                vstd::arithmetic::div_mod::lemma_small_mod(0, price);
            }
        }
        if before.desired == want {
            // Later frames are no nearer than there.
            vstd::arithmetic::div_mod::lemma_div_is_ordered(m as int, n as int, price as int);
        }
    }
}

} // verus!
