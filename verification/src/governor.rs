//! The control loop: two governors and one arbitration rule.
//!
//! [`QualityGovernor`] holds a *ceiling*, the most aggressive rung that
//! reconstruction has currently earned. A bad score throws the frame away,
//! lowers the ceiling, and keeps it down through a cooldown and then a run of
//! clean frames.
//!
//! [`PerfGovernor`] watches smoothed frame time and asks for a rung. It inverts
//! the cost model: it estimates what a native frame would cost and picks the
//! least aggressive rung whose predicted cost fits the budget. A dwell keeps
//! noise from flipping the choice, and movement is one rung at a time.
//!
//! [`BoostController`] runs both, and quality vetoes performance:
//!
//! ```text
//! active = min(perf.desired, quality.ceiling)
//! ```

use crate::fp::{F32, F64};
use crate::level::{highest_spatial_level, rung, BoostPlan, BoostRung, MAX_LEVEL};
use crate::signals::{SignalKind, SignalWeights, Signals};
use crate::telemetry::{Decision, DecisionKind, Telemetry};
use vstd::prelude::*;

verus! {

/// Why reconstruction was not trusted.
#[derive(Clone, Copy, Debug, PartialEq, Eq, Structural)]
pub enum DiscardReason {
    /// Confidence fell below the threshold; the named signal dominated.
    LowConfidence(SignalKind),
    /// A hard cut. Never interpolate across one.
    SceneCut,
}

/// What to do with this frame.
#[derive(Clone, Copy, Debug, PartialEq)]
pub enum Verdict {
    /// Trusted. Present it, generated frames included.
    Present {
        /// Confidence score.
        confidence: F32,
    },
    /// Do not show the generated frame; show the newest rendered one in its
    /// place. Only a temporal rung produces this.
    Discard {
        /// Why.
        reason: DiscardReason,
        /// Confidence score.
        confidence: F32,
    },
    /// The frame is real and is shown, but the rung has lost the controller's
    /// trust. Only a spatial rung produces this.
    Degrade {
        /// Why.
        reason: DiscardReason,
        /// Confidence score.
        confidence: F32,
    },
}

impl Verdict {
    /// Whether reconstruction was accepted.
    pub open spec fn spec_accepted(&self) -> bool {
        self is Present
    }

    /// Whether reconstruction was accepted.
    #[verifier::when_used_as_spec(spec_accepted)]
    pub fn accepted(&self) -> (b: bool)
        ensures
            b == self.spec_accepted(),
    {
        match self {
            Verdict::Present { .. } => true,
            _ => false,
        }
    }

    /// The confidence score, whatever the outcome.
    pub open spec fn spec_confidence(&self) -> F32 {
        match *self {
            Verdict::Present { confidence } => confidence,
            Verdict::Discard { confidence, .. } => confidence,
            Verdict::Degrade { confidence, .. } => confidence,
        }
    }

    /// The confidence score, whatever the outcome.
    #[verifier::when_used_as_spec(spec_confidence)]
    pub fn confidence(&self) -> (c: F32)
        ensures
            c == self.spec_confidence(),
    {
        match *self {
            Verdict::Present { confidence } => confidence,
            Verdict::Discard { confidence, .. } => confidence,
            Verdict::Degrade { confidence, .. } => confidence,
        }
    }
}

/// Tuning for [`QualityGovernor`].
#[derive(Clone, Copy, Debug)]
pub struct QualityConfig {
    /// How each signal is scored.
    pub weights: SignalWeights,
    /// Confidence below which reconstruction is rejected.
    pub reject_below: F32,
    /// Clean frames required before the ceiling climbs one rung.
    pub growth_interval: u32,
    /// Rungs to drop on a rejection.
    pub backoff_rungs: u8,
    /// Base frames of probation after a rejection, before the clean streak
    /// starts counting. Scaled by the failing rung's risk.
    pub cooldown_frames: u32,
    /// Frames to wait after a hard cut.
    pub cut_cooldown_frames: u32,
    /// Highest rung this configuration will ever allow.
    pub max_level: u8,
}

impl QualityConfig {
    /// The stock tuning: reject below 0.55, two seconds of clean frames per
    /// rung, one second of probation, five after a cut.
    pub open spec fn stock(&self) -> bool {
        &&& self.weights.stock()
        &&& self.reject_below == F32::ratio(55, 100)
        &&& self.growth_interval == 120
        &&& self.backoff_rungs == 1
        &&& self.cooldown_frames == 60
        &&& self.cut_cooldown_frames == 300
        &&& self.max_level == MAX_LEVEL
    }

    /// The highest rung that is both allowed and on the ladder.
    pub open spec fn top(&self) -> u8 {
        if self.max_level < MAX_LEVEL {
            self.max_level
        } else {
            MAX_LEVEL
        }
    }
}

impl Default for QualityConfig {
    fn default() -> (c: Self)
        ensures
            c.stock(),
    {
        QualityConfig {
            weights: SignalWeights::default(),
            reject_below: F32::ratio(55, 100),
            growth_interval: 120,
            backoff_rungs: 1,
            cooldown_frames: 60,
            cut_cooldown_frames: 300,
            max_level: MAX_LEVEL,
        }
    }
}

/// What a [`QualityGovernor`] knows.
pub struct QualityState {
    /// The tuning in force.
    pub cfg: QualityConfig,
    /// The most aggressive rung permitted.
    pub ceiling: u8,
    /// Consecutive clean frames.
    pub clean_streak: u32,
    /// Frames of probation left.
    pub cooldown: u32,
}

impl QualityState {
    /// The ceiling is a rung that the tuning allows.
    pub open spec fn valid(self) -> bool {
        self.ceiling <= self.cfg.top()
    }

    /// One clean frame: probation first, then the streak, then a rung.
    pub open spec fn credited(self) -> QualityState {
        if self.cooldown > 0 {
            QualityState { cooldown: (self.cooldown - 1) as u32, clean_streak: 0, ..self }
        } else {
            let streak: u32 = if self.clean_streak < u32::MAX {
                (self.clean_streak + 1) as u32
            } else {
                u32::MAX
            };
            if streak >= self.cfg.growth_interval {
                QualityState {
                    ceiling: if self.ceiling < self.cfg.top() {
                        (self.ceiling + 1) as u8
                    } else {
                        self.cfg.top()
                    },
                    clean_streak: 0,
                    ..self
                }
            } else {
                QualityState { clean_streak: streak, ..self }
            }
        }
    }

    /// A rejection: the ceiling lands beneath the rung that failed, and riskier
    /// rungs earn longer probation.
    pub open spec fn backed_off(self, level: u8) -> QualityState {
        let from: int = if level < self.ceiling {
            level as int
        } else {
            self.ceiling as int
        };
        let drop: int = if self.cfg.backoff_rungs > 1 {
            self.cfg.backoff_rungs as int
        } else {
            1
        };
        QualityState {
            ceiling: if from > drop {
                (from - drop) as u8
            } else {
                0
            },
            cooldown: (F32::from_u32(self.cfg.cooldown_frames) * (F32::one() + rung(
                level,
            ).a_priori_risk)).to_u32(),
            clean_streak: 0,
            ..self
        }
    }

    /// A cut: back to the top of the spatial rungs, for long.
    pub open spec fn after_cut(self) -> QualityState {
        QualityState {
            ceiling: if self.cfg.max_level < 4 {
                self.cfg.max_level
            } else {
                4
            },
            cooldown: self.cfg.cut_cooldown_frames,
            clean_streak: 0,
            ..self
        }
    }

    /// What a frame on a rung is judged to be. Native is never judged; a cut is
    /// looked for before the score, and only where it can do harm.
    pub open spec fn verdict(self, level: u8, signals: Signals) -> Verdict {
        let r = rung(level);
        let c = signals.confidence(&r, &self.cfg.weights);
        if level == 0 {
            Verdict::Present { confidence: F32::one() }
        } else if r.is_temporal() && signals.is_scene_cut(&self.cfg.weights) {
            Verdict::Discard { reason: DiscardReason::SceneCut, confidence: c.value }
        } else if c.value.lt(self.cfg.reject_below) {
            let reason = DiscardReason::LowConfidence(c.dominant);
            if r.is_temporal() {
                Verdict::Discard { reason, confidence: c.value }
            } else {
                Verdict::Degrade { reason, confidence: c.value }
            }
        } else {
            Verdict::Present { confidence: c.value }
        }
    }

    /// What a verdict on a rung leaves behind.
    pub open spec fn after(self, level: u8, v: Verdict) -> QualityState {
        match v {
            Verdict::Present { .. } => self.credited(),
            Verdict::Discard { reason: DiscardReason::SceneCut, .. } => self.after_cut(),
            _ => self.backed_off(level),
        }
    }
}

/// Decides how aggressive reconstruction is *allowed* to be.
#[derive(Clone, Debug)]
pub struct QualityGovernor {
    cfg: QualityConfig,
    ceiling: u8,
    clean_streak: u32,
    cooldown: u32,
}

impl View for QualityGovernor {
    type V = QualityState;

    closed spec fn view(&self) -> QualityState {
        QualityState {
            cfg: self.cfg,
            ceiling: self.ceiling,
            clean_streak: self.clean_streak,
            cooldown: self.cooldown,
        }
    }
}

impl QualityGovernor {
    /// A governor that starts optimistic: the ceiling at the top, and nothing
    /// boosted until the frame budget asks.
    pub fn new(cfg: QualityConfig) -> (q: Self)
        ensures
            q@ == (QualityState { cfg, ceiling: cfg.top(), clean_streak: 0, cooldown: 0 }),
            q@.valid(),
    {
        QualityGovernor {
            ceiling: if cfg.max_level < MAX_LEVEL {
                cfg.max_level
            } else {
                MAX_LEVEL
            },
            cfg,
            clean_streak: 0,
            cooldown: 0,
        }
    }

    /// The most aggressive rung currently permitted.
    pub fn ceiling(&self) -> (l: u8)
        ensures
            l == self@.ceiling,
    {
        self.ceiling
    }

    /// Frames remaining before the ceiling may climb.
    pub fn cooldown(&self) -> (n: u32)
        ensures
            n == self@.cooldown,
    {
        self.cooldown
    }

    /// Consecutive clean frames.
    pub fn clean_streak(&self) -> (n: u32)
        ensures
            n == self@.clean_streak,
    {
        self.clean_streak
    }

    /// The configuration in force.
    pub fn config(&self) -> (c: &QualityConfig)
        ensures
            *c == self@.cfg,
    {
        &self.cfg
    }

    /// Score one frame and update the ceiling.
    pub fn evaluate(&mut self, level: u8, signals: &Signals) -> (v: Verdict)
        requires
            old(self)@.valid(),
        ensures
            v == old(self)@.verdict(level, *signals),
            final(self)@ == old(self)@.after(level, v),
            final(self)@.valid(),
    {
        if level == 0 {
            // Nothing was reconstructed, so there is nothing to score. The
            // streak still advances, so rung 1 is probed again in time.
            self.advance_clean();
            return Verdict::Present { confidence: F32::one() };
        }
        let r = rung(level);
        let confidence = signals.confidence(&r, &self.cfg.weights);

        if r.is_temporal() && signals.is_scene_cut(&self.cfg.weights) {
            let spatial = highest_spatial_level();
            self.ceiling = if self.cfg.max_level < spatial {
                self.cfg.max_level
            } else {
                spatial
            };
            self.cooldown = self.cfg.cut_cooldown_frames;
            self.clean_streak = 0;
            return Verdict::Discard {
                reason: DiscardReason::SceneCut,
                confidence: confidence.value,
            };
        }
        if confidence.value.lt(self.cfg.reject_below) {
            self.back_off(level, &r);
            let reason = DiscardReason::LowConfidence(confidence.dominant);
            return if r.is_temporal() {
                // There is a generated frame to throw away.
                Verdict::Discard { reason, confidence: confidence.value }
            } else {
                // The frame was rendered, only smaller. It is shown anyway.
                Verdict::Degrade { reason, confidence: confidence.value }
            };
        }
        self.advance_clean();
        Verdict::Present { confidence: confidence.value }
    }

    /// Credit one clean frame toward getting the ceiling back.
    fn advance_clean(&mut self)
        requires
            old(self)@.valid(),
        ensures
            final(self)@ == old(self)@.credited(),
            final(self)@.valid(),
    {
        if self.cooldown > 0 {
            self.cooldown = self.cooldown - 1;
            self.clean_streak = 0;
            return;
        }
        if self.clean_streak < u32::MAX {
            self.clean_streak = self.clean_streak + 1;
        }
        if self.clean_streak >= self.cfg.growth_interval {
            let top: u8 = if self.cfg.max_level < MAX_LEVEL {
                self.cfg.max_level
            } else {
                MAX_LEVEL
            };
            self.ceiling = if self.ceiling < top {
                self.ceiling + 1
            } else {
                top
            };
            self.clean_streak = 0;
        }
    }

    /// Back off from the rung that actually failed, not from the ceiling.
    fn back_off(&mut self, level: u8, r: &BoostRung)
        requires
            old(self)@.valid(),
            *r == rung(level),
        ensures
            final(self)@ == old(self)@.backed_off(level),
            final(self)@.valid(),
    {
        let from: u8 = if level < self.ceiling {
            level
        } else {
            self.ceiling
        };
        let drop: u8 = if self.cfg.backoff_rungs > 1 {
            self.cfg.backoff_rungs
        } else {
            1
        };
        self.ceiling = if from > drop {
            from - drop
        } else {
            0
        };
        self.cooldown = (F32::from_u32(self.cfg.cooldown_frames) * (F32::one()
            + r.a_priori_risk)).to_u32();
        self.clean_streak = 0;
    }
}

/// The signal that a rejection is blamed on.
pub open spec fn spec_reason_signal(reason: DiscardReason) -> SignalKind {
    match reason {
        DiscardReason::LowConfidence(k) => k,
        DiscardReason::SceneCut => SignalKind::MotionResidual,
    }
}

/// The signal that a rejection is blamed on.
#[verifier::when_used_as_spec(spec_reason_signal)]
pub fn reason_signal(reason: DiscardReason) -> (k: SignalKind)
    ensures
        k == spec_reason_signal(reason),
{
    match reason {
        DiscardReason::LowConfidence(k) => k,
        DiscardReason::SceneCut => SignalKind::MotionResidual,
    }
}

/// Tuning for [`PerfGovernor`].
#[derive(Clone, Copy, Debug)]
pub struct PerfConfig {
    /// Frame time to aim for, in nanoseconds.
    pub target_frame_ns: u64,
    /// Smoothing factor for frame time, in `0..1`.
    pub ema_alpha: F32,
    /// How far over target a predicted frame time may sit and still be
    /// accepted.
    pub tolerance: F32,
    /// Consecutive frames agreeing on a different rung before acting.
    pub dwell_frames: u32,
    /// Highest rung this governor will ask for.
    pub max_level: u8,
}

/// The frame time of a refresh rate, in nanoseconds. Rates below one count as
/// one.
pub open spec fn spec_frame_time(fps: F32) -> u64 {
    (F32::from_u32(1_000_000_000) / fps.max(F32::one())).to_u64()
}

/// The frame time of a refresh rate, in nanoseconds. Rates below one count as
/// one.
#[verifier::when_used_as_spec(spec_frame_time)]
pub(crate) fn frame_time(fps: F32) -> (ns: u64)
    ensures
        ns == spec_frame_time(fps),
{
    (F32::from_u32(1_000_000_000) / fps.max(F32::one())).to_u64()
}

impl PerfConfig {
    /// The stock tuning for a frame time: smoothing over ten frames, 5% slack,
    /// a third of a second of dwell.
    pub open spec fn stock(target_frame_ns: u64) -> PerfConfig {
        PerfConfig {
            target_frame_ns,
            ema_alpha: F32::ratio(10, 100),
            tolerance: F32::ratio(105, 100),
            dwell_frames: 20,
            max_level: MAX_LEVEL,
        }
    }

    /// A configuration targeting a refresh rate.
    pub fn for_target_fps(fps: F32) -> (c: Self)
        ensures
            c == PerfConfig::stock(spec_frame_time(fps)),
    {
        PerfConfig { target_frame_ns: frame_time(fps), ..PerfConfig::default() }
    }

    /// The most aggressive rung that may be asked for under a ceiling.
    pub open spec fn cap(&self, ceiling: u8) -> u8 {
        let top = if self.max_level < MAX_LEVEL {
            self.max_level
        } else {
            MAX_LEVEL
        };
        if ceiling < top {
            ceiling
        } else {
            top
        }
    }

    /// The longest frame time that still counts as on target.
    pub open spec fn budget(&self) -> F64 {
        F64::from_u64(self.target_frame_ns) * self.tolerance.max(F32::one()).to_f64()
    }
}

impl Default for PerfConfig {
    fn default() -> (c: Self)
        ensures
            c == PerfConfig::stock(16_666_667),
    {
        PerfConfig {
            target_frame_ns: 16_666_667,
            ema_alpha: F32::ratio(10, 100),
            tolerance: F32::ratio(105, 100),
            dwell_frames: 20,
            max_level: MAX_LEVEL,
        }
    }
}

/// Whether a rung brings a native cost within a budget.
pub open spec fn fits(native: F64, budget: F64, level: u8) -> bool {
    (native * rung(level).relative_cost().to_f64()).le(budget)
}

/// The least aggressive rung, from `level` up to `cap`, that fits; `cap` where
/// none does.
pub open spec fn first_fit(native: F64, budget: F64, level: u8, cap: u8) -> u8
    decreases cap - level,
{
    if level >= cap || fits(native, budget, level) {
        level
    } else {
        first_fit(native, budget, (level + 1) as u8, cap)
    }
}

/// What a [`PerfGovernor`] knows.
pub struct PerfState {
    /// The tuning in force.
    pub cfg: PerfConfig,
    /// Smoothed frame time, in nanoseconds.
    pub ema_ns: F64,
    /// Whether a frame time has been seen.
    pub primed: bool,
    /// The rung being asked for.
    pub desired: u8,
    /// Consecutive frames that agreed on another rung.
    pub dwell: u32,
    /// The rung wanted last.
    pub last_want: u8,
}

impl PerfState {
    /// The rung asked for is on the ladder, and the dwell has not run out.
    pub open spec fn valid(self) -> bool {
        &&& self.desired <= MAX_LEVEL
        &&& self.dwell == 0 || self.dwell < self.cfg.dwell_frames
    }

    /// The smoothed frame time with one more frame in it.
    pub open spec fn smoothed(self, frame_ns: u64) -> F64 {
        let sample = F64::from_u64(frame_ns);
        if !self.primed {
            sample
        } else {
            self.ema_ns + self.cfg.ema_alpha.clamp(F32::zero(), F32::one()).to_f64() * (sample
                - self.ema_ns)
        }
    }

    /// What a native frame would cost, measured through the rung in use.
    pub open spec fn native_ns(self, active_level: u8) -> F64 {
        self.ema_ns / rung(active_level).relative_cost().max(F32::ratio(1, 1000)).to_f64()
    }

    /// The rung wanted for the smoothed frame time, under a cap.
    pub open spec fn want(self, active_level: u8, cap: u8) -> u8 {
        first_fit(self.native_ns(active_level), self.cfg.budget(), 0, cap)
    }

    /// The request after one frame: one rung toward what is wanted, once it has
    /// been wanted for long enough, and never above the cap.
    pub open spec fn observed(self, frame_ns: u64, active_level: u8, ceiling: u8) -> PerfState {
        let s = PerfState { ema_ns: self.smoothed(frame_ns), primed: true, ..self };
        let cap = self.cfg.cap(ceiling);
        let want = s.want(active_level, cap);
        let dwell: int = if want == self.desired {
            0
        } else if want != self.last_want {
            1
        } else {
            self.dwell + 1
        };
        let moves = want != self.desired && dwell >= self.cfg.dwell_frames;
        let next: int = if !moves {
            self.desired as int
        } else if want > self.desired {
            self.desired + 1
        } else {
            self.desired - 1
        };
        PerfState {
            desired: if next < cap {
                next as u8
            } else {
                cap
            },
            dwell: if moves {
                0
            } else {
                dwell as u32
            },
            last_want: want,
            ..s
        }
    }
}

/// Decides how aggressive reconstruction *needs* to be.
#[derive(Clone, Debug)]
pub struct PerfGovernor {
    cfg: PerfConfig,
    ema_ns: F64,
    primed: bool,
    desired: u8,
    dwell: u32,
    last_want: u8,
}

impl View for PerfGovernor {
    type V = PerfState;

    closed spec fn view(&self) -> PerfState {
        PerfState {
            cfg: self.cfg,
            ema_ns: self.ema_ns,
            primed: self.primed,
            desired: self.desired,
            dwell: self.dwell,
            last_want: self.last_want,
        }
    }
}

impl PerfGovernor {
    /// A governor that starts at native.
    pub fn new(cfg: PerfConfig) -> (p: Self)
        ensures
            p@ == (PerfState {
                cfg,
                ema_ns: F64::from_u64(cfg.target_frame_ns),
                primed: false,
                desired: 0,
                dwell: 0,
                last_want: 0,
            }),
            p@.valid(),
    {
        PerfGovernor {
            cfg,
            ema_ns: F64::from_u64(cfg.target_frame_ns),
            primed: false,
            desired: 0,
            dwell: 0,
            last_want: 0,
        }
    }

    /// The rung currently being asked for.
    pub fn desired(&self) -> (l: u8)
        ensures
            l == self@.desired,
    {
        self.desired
    }

    /// Smoothed frame time, in nanoseconds.
    pub fn smoothed_frame_ns(&self) -> (ns: u64)
        ensures
            ns == self@.ema_ns.to_u64(),
    {
        self.ema_ns.to_u64()
    }

    /// The configuration in force.
    pub fn config(&self) -> (c: &PerfConfig)
        ensures
            *c == self@.cfg,
    {
        &self.cfg
    }

    /// Estimated cost of a native frame right now, in nanoseconds: the measured
    /// frame time divided by the cost factor of the rung that produced it.
    pub fn estimated_native_ns(&self, active_level: u8) -> (ns: F64)
        ensures
            ns == self@.native_ns(active_level),
    {
        let cost = rung(active_level).relative_cost().max(F32::ratio(1, 1000)).to_f64();
        self.ema_ns / cost
    }

    /// Feed one frame time and update the request.
    ///
    /// `active_level` is the rung that produced this frame, which is the
    /// arbitrated level and not necessarily the one asked for. `ceiling` caps
    /// the request, so that no pent-up demand builds under a lowered ceiling.
    pub fn observe(&mut self, frame_ns: u64, active_level: u8, ceiling: u8) -> (l: u8)
        requires
            old(self)@.valid(),
        ensures
            final(self)@ == old(self)@.observed(frame_ns, active_level, ceiling),
            final(self)@.valid(),
            l == final(self)@.desired,
    {
        let sample = F64::from_u64(frame_ns);
        if !self.primed {
            self.ema_ns = sample;
            self.primed = true;
        } else {
            let a = self.cfg.ema_alpha.clamp(F32::zero(), F32::one()).to_f64();
            self.ema_ns = self.ema_ns + a * (sample - self.ema_ns);
        }

        let top: u8 = if self.cfg.max_level < MAX_LEVEL {
            self.cfg.max_level
        } else {
            MAX_LEVEL
        };
        let cap: u8 = if ceiling < top {
            ceiling
        } else {
            top
        };
        let budget = F64::from_u64(self.cfg.target_frame_ns) * self.cfg.tolerance.max(
            F32::one(),
        ).to_f64();
        let native = self.estimated_native_ns(active_level);

        let mut want: u8 = 0;
        while want < cap && !(native * rung(want).relative_cost().to_f64()).le(budget)
            invariant
                want <= cap,
                cap <= MAX_LEVEL,
                first_fit(native, budget, want, cap) == first_fit(native, budget, 0, cap),
            decreases cap - want,
        {
            want = want + 1;
        }

        if want == self.desired {
            self.dwell = 0;
        } else {
            if want != self.last_want {
                self.dwell = 0;
            }
            self.dwell = self.dwell + 1;
            if self.dwell >= self.cfg.dwell_frames {
                self.desired = if want > self.desired {
                    self.desired + 1
                } else {
                    self.desired - 1
                };
                self.dwell = 0;
            }
        }
        self.last_want = want;
        if self.desired > cap {
            self.desired = cap;
        }
        self.desired
    }
}

/// Tuning for [`BoostController`].
#[derive(Clone, Copy, Debug)]
pub struct ControllerConfig {
    /// Output width in pixels.
    pub output_width: u32,
    /// Output height in pixels.
    pub output_height: u32,
    /// Quality governor tuning.
    pub quality: QualityConfig,
    /// Perf governor tuning.
    pub perf: PerfConfig,
}

impl ControllerConfig {
    /// A configuration for an output size and refresh rate.
    pub fn for_target_fps(output_width: u32, output_height: u32, fps: F32) -> (c: Self)
        ensures
            c.output_width == output_width,
            c.output_height == output_height,
            c.quality.stock(),
            c.perf == PerfConfig::stock(spec_frame_time(fps)),
    {
        ControllerConfig {
            output_width,
            output_height,
            quality: QualityConfig::default(),
            perf: PerfConfig::for_target_fps(fps),
        }
    }
}

/// What happened to one frame.
#[derive(Clone, Copy, Debug)]
pub struct FrameOutcome {
    /// Monotonic frame index.
    pub frame: u64,
    /// Rung in use.
    pub level: u8,
    /// Quality ceiling after this frame.
    pub ceiling: u8,
    /// The decision.
    pub verdict: Verdict,
    /// Frames actually handed to the display, generated ones included.
    pub frames_presented: u32,
}

/// What a [`BoostController`] knows.
pub struct ControllerState {
    /// The tuning in force.
    pub cfg: ControllerConfig,
    /// How aggressive reconstruction may be.
    pub quality: QualityState,
    /// How aggressive it needs to be.
    pub perf: PerfState,
    /// The rung in use.
    pub active: u8,
    /// Index of the next frame to be resolved.
    pub frame: u64,
    /// The decision log.
    pub telemetry: Telemetry,
}

impl ControllerState {
    /// Both governors are valid, the rung in use is on the ladder, and the log
    /// has one entry's worth of counting for every frame.
    pub open spec fn valid(self) -> bool {
        &&& self.quality.valid()
        &&& self.perf.valid()
        &&& self.active <= MAX_LEVEL
        &&& self.telemetry.wf()
        &&& self.telemetry.frames == self.frame
        &&& self.frame <= self.telemetry.frames_presented_to_display
    }

    /// Whether one more frame can be counted.
    pub open spec fn has_room(self) -> bool {
        self.telemetry.frames_presented_to_display + 2 <= u64::MAX
    }

    /// The state once the next frame has been planned.
    pub open spec fn planned(self, last_frame_ns: u64) -> ControllerState {
        let perf = self.perf.observed(last_frame_ns, self.active, self.quality.ceiling);
        ControllerState {
            perf,
            // The veto.
            active: if perf.desired < self.quality.ceiling {
                perf.desired
            } else {
                self.quality.ceiling
            },
            ..self
        }
    }

    /// Frames handed to the display: one where the generated frame was thrown
    /// away, else all that the rung makes.
    pub open spec fn shown(self, v: Verdict) -> u32 {
        match v {
            Verdict::Discard { .. } => 1,
            _ => rung(self.active).presented_per_rendered(),
        }
    }

    /// The log entry for a verdict.
    pub open spec fn decision(self, v: Verdict) -> Decision {
        Decision {
            frame: self.frame,
            level: self.active,
            ceiling: self.quality.after(self.active, v).ceiling,
            confidence: v.confidence(),
            kind: match v {
                Verdict::Present { .. } => DecisionKind::Presented,
                Verdict::Discard { .. } => DecisionKind::Discarded,
                Verdict::Degrade { .. } => DecisionKind::Degraded,
            },
            dominant: match v {
                Verdict::Present { .. } => SignalKind::Disocclusion,
                Verdict::Discard { reason, .. } => reason_signal(reason),
                Verdict::Degrade { reason, .. } => reason_signal(reason),
            },
            scene_cut: match v {
                Verdict::Discard { reason: DiscardReason::SceneCut, .. } => true,
                _ => false,
            },
        }
    }

    /// What resolving a frame with these signals makes of the state.
    pub open spec fn resolves(self, signals: Signals, next: ControllerState) -> bool {
        let v = self.quality.verdict(self.active, signals);
        &&& next.cfg == self.cfg
        &&& next.quality == self.quality.after(self.active, v)
        &&& next.perf == self.perf
        &&& next.active == self.active
        &&& next.frame == self.frame + 1
        &&& self.telemetry.records(self.decision(v), self.shown(v), &next.telemetry)
    }
}

/// The arbiter: runs both governors and enforces the veto.
///
/// Call [`BoostController::plan`] before rendering and
/// [`BoostController::resolve`] after reconstructing, once per rendered frame.
#[derive(Clone, Debug)]
pub struct BoostController {
    cfg: ControllerConfig,
    quality: QualityGovernor,
    perf: PerfGovernor,
    active: u8,
    frame: u64,
    telemetry: Telemetry,
}

impl View for BoostController {
    type V = ControllerState;

    closed spec fn view(&self) -> ControllerState {
        ControllerState {
            cfg: self.cfg,
            quality: self.quality@,
            perf: self.perf@,
            active: self.active,
            frame: self.frame,
            telemetry: self.telemetry,
        }
    }
}

impl BoostController {
    /// Build a controller.
    pub fn new(cfg: ControllerConfig) -> (c: Self)
        ensures
            c@.valid(),
            c@.cfg == cfg,
            c@.quality == (QualityState {
                cfg: cfg.quality,
                ceiling: cfg.quality.top(),
                clean_streak: 0,
                cooldown: 0,
            }),
            c@.perf == (PerfState {
                cfg: cfg.perf,
                ema_ns: F64::from_u64(cfg.perf.target_frame_ns),
                primed: false,
                desired: 0,
                dwell: 0,
                last_want: 0,
            }),
            c@.active == 0,
            c@.frame == 0,
            c@.telemetry.fresh(256),
    {
        BoostController {
            quality: QualityGovernor::new(cfg.quality),
            perf: PerfGovernor::new(cfg.perf),
            cfg,
            active: 0,
            frame: 0,
            telemetry: Telemetry::default(),
        }
    }

    /// Decide what to render this frame.
    ///
    /// `last_frame_ns` is the measured time of the previous frame. Pass the
    /// target frame time on the very first call.
    pub fn plan(&mut self, last_frame_ns: u64) -> (p: BoostPlan)
        requires
            old(self)@.valid(),
        ensures
            final(self)@ == old(self)@.planned(last_frame_ns),
            final(self)@.valid(),
            p.level == final(self)@.active,
            p.rung == rung(p.level),
            p.render_width == p.rung.scaled_side(old(self)@.cfg.output_width),
            p.render_height == p.rung.scaled_side(old(self)@.cfg.output_height),
            p.generate == (p.rung.generated_per_rendered > 0),
    {
        let ceiling: u8 = self.quality.ceiling();
        // `self.active` still holds the rung that produced `last_frame_ns`.
        let desired: u8 = self.perf.observe(last_frame_ns, self.active, ceiling);

        // The veto, in one line.
        self.active = if desired < ceiling {
            desired
        } else {
            ceiling
        };

        let r = rung(self.active);
        let (render_width, render_height) = r.render_size(
            self.cfg.output_width,
            self.cfg.output_height,
        );
        BoostPlan {
            level: self.active,
            rung: r,
            render_width,
            render_height,
            generate: r.generated_per_rendered > 0,
        }
    }

    /// Judge the reconstruction and update the ceiling.
    pub fn resolve(&mut self, signals: &Signals) -> (o: FrameOutcome)
        requires
            old(self)@.valid(),
            old(self)@.has_room(),
        ensures
            old(self)@.resolves(*signals, final(self)@),
            final(self)@.valid(),
            o.frame == old(self)@.frame,
            o.level == old(self)@.active,
            o.ceiling == final(self)@.quality.ceiling,
            o.verdict == old(self)@.quality.verdict(old(self)@.active, *signals),
            o.frames_presented == old(self)@.shown(o.verdict),
    {
        let level: u8 = self.active;
        let r = rung(level);
        let verdict = self.quality.evaluate(level, signals);

        let frames_presented: u32 = match verdict {
            // The previous rendered frame is shown again in the slot.
            Verdict::Discard { .. } => 1,
            _ => r.presented_per_rendered(),
        };
        let (kind, dominant) = match verdict {
            Verdict::Present { .. } => (DecisionKind::Presented, SignalKind::Disocclusion),
            Verdict::Discard { reason, .. } => (DecisionKind::Discarded, reason_signal(reason)),
            Verdict::Degrade { reason, .. } => (DecisionKind::Degraded, reason_signal(reason)),
        };
        let scene_cut: bool = match verdict {
            Verdict::Discard { reason: DiscardReason::SceneCut, .. } => true,
            _ => false,
        };
        let ceiling: u8 = self.quality.ceiling();
        let outcome = FrameOutcome { frame: self.frame, level, ceiling, verdict, frames_presented };
        let decision = Decision {
            frame: self.frame,
            level,
            ceiling,
            confidence: verdict.confidence(),
            kind,
            dominant,
            scene_cut,
        };
        self.telemetry.record(decision, frames_presented);
        self.frame = self.frame + 1;
        outcome
    }

    /// The rung in use.
    pub fn level(&self) -> (l: u8)
        ensures
            l == self@.active,
    {
        self.active
    }

    /// The rung in use.
    pub fn rung(&self) -> (r: BoostRung)
        ensures
            r == rung(self@.active),
    {
        rung(self.active)
    }

    /// The quality ceiling.
    pub fn ceiling(&self) -> (l: u8)
        ensures
            l == self@.quality.ceiling,
    {
        self.quality.ceiling()
    }

    /// The rung performance is asking for.
    pub fn desired(&self) -> (l: u8)
        ensures
            l == self@.perf.desired,
    {
        self.perf.desired()
    }

    /// The decision log.
    pub fn telemetry(&self) -> (t: &Telemetry)
        ensures
            *t == self@.telemetry,
    {
        &self.telemetry
    }

    /// The decision log, once the controller is done.
    pub fn into_telemetry(self) -> (t: Telemetry)
        ensures
            t == self@.telemetry,
    {
        self.telemetry
    }

    /// The quality governor.
    pub fn quality(&self) -> (q: &QualityGovernor)
        ensures
            q@ == self@.quality,
    {
        &self.quality
    }

    /// The performance governor.
    pub fn perf(&self) -> (p: &PerfGovernor)
        ensures
            p@ == self@.perf,
    {
        &self.perf
    }
}

} // verus!
