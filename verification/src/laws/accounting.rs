//! The log: every frame is accounted for, and the newest decisions are there to
//! be asked about.

use crate::fp::facts::{
    lemma_div_key, lemma_from_whole, lemma_quotient_small_one, lemma_round_positive,
    lemma_round_top, lemma_unity,
};
use crate::fp::model::{lemma_round_exact, lemma_round_monotone, units, Format};
use crate::fp::raw::{lemma_units_monotone, lemma_units_zero};
use crate::fp::round::lemma_round_zero;
use crate::fp::F32;
use crate::governor::ControllerState;
use crate::laws::control::passes_through;
use crate::laws::trust::in_unit;
use crate::signals::Signals;
use crate::telemetry::{Decision, Telemetry};
use vstd::arithmetic::power2::{lemma_pow2_pos, pow2};
use vstd::prelude::*;

verus! {

/// The states a log passes through: each follows from the one before by
/// recording a decision.
pub open spec fn logs(states: Seq<Telemetry>, decisions: Seq<Decision>, shown: Seq<u32>) -> bool {
    &&& states.len() == decisions.len() + 1
    &&& shown.len() == decisions.len()
    &&& forall|k: int|
        0 <= k < decisions.len() ==> (#[trigger] states[k]).records(
            decisions[k],
            shown[k],
            &states[k + 1],
        )
}

/// The newest of the first `n` decisions, as many as there is room for.
pub open spec fn newest(decisions: Seq<Decision>, limit: nat, n: nat) -> Seq<Decision> {
    decisions.subrange(
        if n > limit {
            n - limit
        } else {
            0
        },
        n as int,
    )
}

proof fn lemma_newest(decisions: Seq<Decision>, limit: nat, n: nat)
    requires
        0 < n <= decisions.len(),
        limit >= 1,
    ensures
        ({
            let before = newest(decisions, limit, (n - 1) as nat);
            newest(decisions, limit, n) == (if before.len() == limit {
                before.drop_first()
            } else {
                before
            }).push(decisions[n - 1])
        }),
{
    let before = newest(decisions, limit, (n - 1) as nat);
    if before.len() == limit {
        assert(newest(decisions, limit, n) =~= before.drop_first().push(decisions[n - 1]));
    } else {
        assert(newest(decisions, limit, n) =~= before.push(decisions[n - 1]));
    }
}

/// The log holds the newest decisions, in order and as many as it may, and
/// counts every one there ever was.
pub proof fn law_the_log_keeps_the_newest(
    states: Seq<Telemetry>,
    decisions: Seq<Decision>,
    shown: Seq<u32>,
    limit: nat,
    n: nat,
)
    requires
        logs(states, decisions, shown),
        states[0].fresh(limit),
        n <= decisions.len(),
    ensures
        states[n as int].limit() == limit,
        states[n as int].frames == n,
        states[n as int].log() == newest(decisions, limit, n),
    decreases n,
{
    if n > 0 {
        law_the_log_keeps_the_newest(states, decisions, shown, limit, (n - 1) as nat);
        assert(states[n - 1].records(decisions[n - 1], shown[n - 1], &states[n as int]));
        lemma_newest(decisions, limit, n);
    } else {
        assert(states[0].log() =~= newest(decisions, limit, 0));
    }
}

/// A quotient of counts is at least one where the first is no smaller.
proof fn lemma_at_least_one(a: u64, b: u64)
    requires
        0 < b <= a,
    ensures
        F32::one().le(F32::from_u64(a) / F32::from_u64(b)),
{
    let f = Format::Single;
    let u = pow2(149);
    let x = F32::from_u64(a);
    let y = F32::from_u64(b);
    lemma_count(a);
    lemma_count(b);
    lemma_in_order(b, a);
    lemma_div_key(x, y);
    lemma_unity(f);
    lemma_pow2_pos(149);
    let p = units(f, x.key() as nat);
    let q = units(f, y.key() as nat);
    lemma_units_zero(f, y.key() as nat);
    assert(u * q <= (p * u) * 1) by (nonlinear_arith)
        requires
            q <= p,
            u > 0,
    ;
    lemma_round_monotone(f, u, 1, p * u, q);
    lemma_round_exact(f, f.unity());
    lemma_round_top(f, p * u, q);
}

/// A count is held as something that is not negative, and as nothing only
/// where it is nothing.
proof fn lemma_count(v: u64)
    ensures
        F32::from_u64(v).is_finite(),
        F32::from_u64(v).key() >= 0,
        v > 0 ==> F32::from_u64(v).key() > 0,
{
    lemma_from_whole(v);
    if v > 0 {
        lemma_pow2_pos(149);
        assert(v as nat * pow2(149) >= 1) by (nonlinear_arith)
            requires
                v >= 1,
                pow2(149) >= 1,
        ;
        lemma_round_positive(Format::Single, v as nat * pow2(149), 1);
    }
}

/// Counts in order are held in order.
proof fn lemma_in_order(a: u64, b: u64)
    requires
        a <= b,
    ensures
        F32::from_u64(a).key() <= F32::from_u64(b).key(),
        units(Format::Single, F32::from_u64(a).key() as nat) <= units(
            Format::Single,
            F32::from_u64(b).key() as nat,
        ),
{
    let u = pow2(149);
    lemma_from_whole(a);
    lemma_from_whole(b);
    assert(a as nat * u <= b as nat * u) by (nonlinear_arith)
        requires
            a <= b,
    ;
    lemma_round_monotone(Format::Single, a as nat * u, 1, b as nat * u, 1);
    lemma_units_monotone(
        Format::Single,
        F32::from_u64(a).key() as nat,
        F32::from_u64(b).key() as nat,
    );
}

/// Boost is never below one: every rendered frame reaches the display.
pub proof fn law_boost_is_at_least_one(t: Telemetry)
    requires
        t.frames_rendered <= t.frames_presented_to_display,
    ensures
        F32::one().le(t.boost_ratio()),
{
    if t.frames_rendered > 0 {
        lemma_at_least_one(t.frames_presented_to_display, t.frames_rendered);
    }
}

/// The fraction of frames rejected is a fraction: none of them where nothing
/// was rejected, all of them where everything was.
pub proof fn law_discard_rate_is_a_fraction(t: Telemetry)
    requires
        t.wf(),
    ensures
        in_unit(t.discard_rate()),
        t.discarded + t.degraded == 0 ==> t.discard_rate().key() == 0,
        t.frames > 0 && t.discarded + t.degraded == t.frames ==> t.discard_rate().key()
            == F32::one().key(),
{
    if t.frames > 0 {
        let f = Format::Single;
        let a = (t.discarded + t.degraded) as u64;
        let x = F32::from_u64(a);
        let y = F32::from_u64(t.frames);
        lemma_count(a);
        lemma_count(t.frames);
        lemma_in_order(a, t.frames);
        lemma_div_key(x, y);
        lemma_quotient_small_one(f, x.key() as nat, y.key() as nat);
        if a == 0 {
            lemma_from_whole(0);
            assert(0nat * pow2(149) == 0) by (nonlinear_arith);
            lemma_round_zero(f, 1);
            lemma_units_zero(f, 0);
            lemma_units_zero(f, y.key() as nat);
            lemma_round_zero(f, units(f, y.key() as nat));
        }
    }
}

/// Over a whole run the display is handed one or two frames for every frame
/// resolved, so the log accounts for every one and boost stays within that.
pub proof fn law_every_frame_is_accounted_for(
    states: Seq<ControllerState>,
    times: Seq<u64>,
    signals: Seq<Signals>,
    n: nat,
)
    requires
        passes_through(states, times, signals),
        states[0].telemetry.fresh(256),
        n <= times.len(),
    ensures
        ({
            let t = states[n as int].telemetry;
            &&& t.frames == n
            &&& t.frames_rendered == n
            &&& n <= t.frames_presented_to_display <= 2 * n
            &&& t.presented + t.discarded + t.degraded == n
        }),
    decreases n,
{
    if n > 0 {
        law_every_frame_is_accounted_for(states, times, signals, (n - 1) as nat);
        assert(states[n - 1].planned(times[n - 1]).resolves(signals[n - 1], states[n as int]));
    }
}

} // verus!
