//! Drives a scenario through the controller and the reconstruction passes, in a
//! closed loop.
//!
//! Frame time is computed from the rung the controller chose and fed back into
//! the next decision, so boosting really buys headroom. The signals are measured
//! on rendered pixels. The one thing modelled rather than measured is frame time
//! itself.

use crate::fp::{F32, F64};
use crate::frame::{clamped, lemma_place, GBuffer, ImageBuffer};
use crate::governor::{
    reason_signal, spec_frame_time, spec_reason_signal, BoostController, ControllerConfig,
    DiscardReason, PerfConfig, PerfState, QualityState, Verdict,
};
use crate::level::{rung, spec_rung, BoostPlan, MAX_LEVEL};
use crate::pacing::{spec_seed, FramePacer, PacerState, WINDOW};
use crate::recon::easu::{easu, upsampled, EasuConfig, Gather};
use crate::recon::interpolate::{interpolate_midpoint, rejected_below, InterpolateConfig};
use crate::recon::rcas::{rcas, Cross};
use crate::recon::reproject::{disoccluded_below, reproject, ReprojectConfig};
use crate::signals::{measure_pair, pair_totals, signals_of, SignalKind, Signals};
use crate::sim::scenario::{Beat, Scenario, Script};
use crate::sim::scene::{seen_at, spec_bars_for_spacing, Frame, Scene};
use crate::telemetry::Telemetry;
use vstd::prelude::*;

verus! {

/// Simulator settings.
#[derive(Clone, Copy, Debug)]
pub struct Config {
    /// Output width.
    pub output_width: u32,
    /// Output height.
    pub output_height: u32,
    /// Display refresh the controller targets.
    pub target_fps: F32,
    /// What one native frame would cost, with no boost at all.
    pub native_frame_ns: u64,
    /// Also run the spatial passes each frame.
    pub full_pipeline: bool,
}

impl Default for Config {
    fn default() -> (c: Self)
        ensures
            c == (Config {
                output_width: 192,
                output_height: 108,
                target_fps: F32::ratio(60, 1),
                native_frame_ns: 70_000_000,
                full_pipeline: true,
            }),
    {
        Config {
            output_width: 192,
            output_height: 108,
            target_fps: F32::ratio(60, 1),
            native_frame_ns: 70_000_000,
            full_pipeline: true,
        }
    }
}

impl Config {
    /// Small and quick.
    pub fn fast() -> (c: Self)
        ensures
            c == (Config {
                output_width: 96,
                output_height: 54,
                target_fps: F32::ratio(60, 1),
                native_frame_ns: 70_000_000,
                full_pipeline: false,
            }),
    {
        Config { output_width: 96, output_height: 54, full_pipeline: false, ..Config::default() }
    }

    /// Whether the pixels of a frame can be counted at every rung.
    pub open spec fn spec_renderable(&self) -> bool {
        forall|l: u8|
            l <= MAX_LEVEL ==> #[trigger] spec_rung(l).scaled_side(self.output_width)
                * spec_rung(l).scaled_side(self.output_height) <= u32::MAX
    }

    /// Whether the pixels of a frame can be counted at every rung.
    pub fn renderable(&self) -> (b: bool)
        ensures
            b == self.spec_renderable(),
    {
        let mut l: u8 = 0;
        while l <= MAX_LEVEL
            invariant
                l <= MAX_LEVEL + 1,
                forall|k: u8|
                    k < l ==> #[trigger] spec_rung(k).scaled_side(self.output_width)
                        * spec_rung(k).scaled_side(self.output_height) <= u32::MAX,
            decreases MAX_LEVEL + 1 - l,
        {
            let (w, h) = rung(l).render_size(self.output_width, self.output_height);
            assert(w * h <= 0xffff_ffff * 0xffff_ffff) by (nonlinear_arith)
                requires
                    w <= 0xffff_ffff,
                    h <= 0xffff_ffff,
            ;
            assert(w * h >= 0) by (nonlinear_arith);
            if w as u64 * h as u64 > 0xffff_ffff {
                assert(spec_rung(l).scaled_side(self.output_width) * spec_rung(l).scaled_side(
                    self.output_height,
                ) > u32::MAX);
                return false;
            }
            l = l + 1;
        }
        true
    }
}

/// What the controller decided about one frame.
#[derive(Clone, Copy, Debug, PartialEq, Eq, Structural)]
pub enum Judgement {
    /// Reconstruction accepted.
    Presented,
    /// A generated frame thrown away.
    Discarded,
    /// A real frame shown, but the rung lost the controller's trust.
    Degraded,
    /// Not judged: no comparable history this frame. Happens when render
    /// resolution moves and the previous frame is the wrong size.
    NotJudged,
}

/// One frame of the run.
#[derive(Clone, Copy, Debug)]
pub struct FrameRecord {
    /// Frame index.
    pub index: u32,
    /// Rung in use.
    pub level: u8,
    /// Quality ceiling after the frame.
    pub ceiling: u8,
    /// Confidence score, or 1 when not judged.
    pub confidence: F32,
    /// The decision.
    pub judgement: Judgement,
    /// Signal that dominated a rejection.
    pub dominant: Option<SignalKind>,
    /// Whether the cut detector fired.
    pub scene_cut: bool,
    /// Measured signals.
    pub signals: Signals,
    /// Modelled frame time.
    pub frame_ns: u64,
    /// Frames handed to the display.
    pub presented: u32,
}

/// Whether a frame was rejected.
pub open spec fn spec_rejection(f: FrameRecord) -> bool {
    f.judgement == Judgement::Discarded || f.judgement == Judgement::Degraded
}

pub(crate) fn rejection(f: &FrameRecord) -> (b: bool)
    ensures
        b == spec_rejection(*f),
{
    f.judgement == Judgement::Discarded || f.judgement == Judgement::Degraded
}

/// The simulator between two frames.
pub struct Sim {
    /// The settings.
    pub cfg: Config,
    /// What is drawn.
    pub scene: Scene,
    /// Decides what to draw.
    pub ctl: BoostController,
    /// Watches the intervals.
    pub pacer: FramePacer,
    /// The frame before.
    pub prev: Option<GBuffer>,
    /// Where the camera is.
    pub camera: [F32; 2],
    /// Shuffles the content.
    pub seed: u32,
    /// Time so far.
    pub clock: u64,
    /// What the last frame cost.
    pub frame_ns: u64,
    /// The rung of the last frame.
    pub last_level: Option<u8>,
}

impl Sim {
    /// The parts are valid, and the frame before can be measured against.
    pub open spec fn valid(&self) -> bool {
        &&& self.ctl@.valid()
        &&& self.pacer@.valid()
        &&& match self.prev {
            Some(p) => p.wf() && p.spec_width() * p.spec_height() <= u32::MAX,
            None => true,
        }
        &&& self.ctl@.cfg.output_width == self.cfg.output_width
        &&& self.ctl@.cfg.output_height == self.cfg.output_height
    }

    /// Before the first frame of a scenario.
    pub open spec fn starts(&self, scenario: Scenario, cfg: Config) -> bool {
        &&& self.valid()
        &&& self.cfg == cfg
        &&& self.scene == (Scene {
            output_width: cfg.output_width,
            output_height: cfg.output_height,
            foreground_bars: spec_bars_for_spacing(
                cfg.output_width,
                if scenario.fence {
                    F32::ratio(5, 1)
                } else {
                    F32::ratio(32, 1)
                },
            ),
            bar_duty: if scenario.fence {
                F32::half()
            } else {
                F32::ratio(28, 100)
            },
        })
        &&& self.ctl@.cfg.quality.stock()
        &&& self.ctl@.cfg.perf == PerfConfig::stock(spec_frame_time(cfg.target_fps))
        &&& self.ctl@.quality == (QualityState {
            cfg: self.ctl@.cfg.quality,
            ceiling: self.ctl@.cfg.quality.top(),
            clean_streak: 0,
            cooldown: 0,
        })
        &&& self.ctl@.perf == (PerfState {
            cfg: self.ctl@.cfg.perf,
            ema_ns: F64::from_u64(self.ctl@.cfg.perf.target_frame_ns),
            primed: false,
            desired: 0,
            dwell: 0,
            last_want: 0,
        })
        &&& self.ctl@.active == 0
        &&& self.ctl@.frame == 0
        &&& self.ctl@.telemetry.fresh(256)
        &&& self.pacer@ == (PacerState {
            interval_ema_ns: spec_seed(spec_frame_time(cfg.target_fps)),
            last_render_ns: None,
            window: Seq::new(WINDOW as nat, |i: int| spec_seed(spec_frame_time(cfg.target_fps))),
            filled: 0,
            cursor: 0,
        })
        &&& self.prev is None
        &&& self.camera@ == seq![F32::zero(), F32::zero()]
        &&& self.seed == 1
        &&& self.clock == 0
        &&& self.frame_ns == cfg.native_frame_ns
        &&& self.last_level is None
    }

    /// Set up a scenario.
    pub fn new(scenario: &Scenario, cfg: &Config) -> (s: Self)
        ensures
            s.starts(*scenario, *cfg),
    {
        let w: u32 = cfg.output_width;
        let h: u32 = cfg.output_height;
        let scene = if scenario.fence {
            Scene::fence(w, h)
        } else {
            Scene::open(w, h)
        };
        let s = Sim {
            cfg: *cfg,
            scene,
            ctl: BoostController::new(ControllerConfig::for_target_fps(w, h, cfg.target_fps)),
            pacer: FramePacer::for_target_fps(cfg.target_fps),
            prev: None,
            camera: [F32::zero(), F32::zero()],
            seed: 1,
            clock: 0,
            frame_ns: cfg.native_frame_ns,
            last_level: None,
        };
        assert(s.camera@ =~= seq![F32::zero(), F32::zero()]);
        s
    }

    /// Where the camera stands once a cut, if there is one, has moved it.
    pub open spec fn cut_camera(&self, beat: Beat) -> Seq<F32> {
        if beat.cut {
            seq![
                self.camera[0] + F32::from_u32(self.cfg.output_width) * F32::ratio(37, 1),
                self.camera[1],
            ]
        } else {
            self.camera@
        }
    }

    /// What planning a frame makes of the simulator. A cut is a different shot:
    /// unrelated content, and a camera the motion vectors describe nonsense
    /// about. A change of rung discards the interval history.
    pub open spec fn plans(
        &self,
        i: u32,
        beat: Beat,
        plan: BoostPlan,
        frame: Frame,
        next: &Sim,
    ) -> bool {
        let cam = self.cut_camera(beat);
        &&& next.cfg == self.cfg
        &&& next.scene == self.scene
        &&& next.prev == self.prev
        &&& next.clock == self.clock
        &&& next.frame_ns == self.frame_ns
        &&& next.seed == (if beat.cut {
            self.seed.wrapping_mul(1_664_525).wrapping_add(1_013_904_223)
        } else {
            self.seed
        })
        &&& next.camera@ == seq![cam[0] + beat.velocity[0], cam[1] + beat.velocity[1]]
        &&& next.ctl@ == self.ctl@.planned(self.frame_ns)
        &&& plan.level == next.ctl@.active
        &&& plan.rung == spec_rung(plan.level)
        &&& plan.render_width == plan.rung.scaled_side(self.cfg.output_width)
        &&& plan.render_height == plan.rung.scaled_side(self.cfg.output_height)
        &&& plan.generate == (plan.rung.generated_per_rendered > 0)
        &&& next.last_level == Some(plan.level)
        &&& next.pacer@ == (if self.last_level == Some(plan.level) {
            self.pacer@
        } else {
            PacerState { last_render_ns: None, filled: 0, cursor: 0, ..self.pacer@ }
        })
        &&& frame.camera@ == next.camera@
        &&& frame.prev_camera@ == cam
        &&& frame.flash == beat.flash
        &&& frame.particles == beat.particles
        &&& frame.seed == next.seed
        &&& frame.tick == i
    }

    /// Decide what to render for a beat.
    pub fn plan(&mut self, i: u32, beat: &Beat) -> (r: (BoostPlan, Frame))
        requires
            old(self).valid(),
        ensures
            old(self).plans(i, *beat, r.0, r.1, final(self)),
            final(self).valid(),
    {
        if beat.cut {
            self.seed = self.seed.wrapping_mul(1_664_525).wrapping_add(1_013_904_223);
            let shift = F32::from_u32(self.cfg.output_width) * F32::ratio(37, 1);
            self.camera = [self.camera[0] + shift, self.camera[1]];
        }
        let prev_camera = self.camera;
        assert(prev_camera@ =~= old(self).cut_camera(*beat));
        self.camera = [self.camera[0] + beat.velocity[0], self.camera[1] + beat.velocity[1]];
        assert(self.camera@ =~= seq![
            prev_camera[0] + beat.velocity[0],
            prev_camera[1] + beat.velocity[1],
        ]);
        let plan = self.ctl.plan(self.frame_ns);
        let same: bool = match self.last_level {
            Some(l) => l == plan.level,
            None => false,
        };
        if !same {
            self.pacer.reset();
            self.last_level = Some(plan.level);
        }
        let frame = Frame {
            camera: self.camera,
            prev_camera,
            flash: beat.flash,
            particles: beat.particles,
            seed: self.seed,
            tick: i,
        };
        (plan, frame)
    }

    /// Whether a frame has one of its own size before it.
    pub open spec fn comparable(&self, cur: &GBuffer) -> bool {
        match self.prev {
            Some(p) => p.spec_width() == cur.spec_width() && p.spec_height()
                == cur.spec_height(),
            None => false,
        }
    }

    /// The signals of a frame against the one before. A tenth of the rendered
    /// width per frame reads as full camera motion. At a spatial rung the
    /// disocclusion is what the temporal rungs would have hit.
    pub open spec fn measured(&self, plan: BoostPlan, cur: &GBuffer) -> Signals {
        if !self.comparable(cur) {
            Signals {
                disocclusion: F32::zero(),
                motion_residual: F32::zero(),
                luma_shift: F32::zero(),
                camera_motion: F32::zero(),
                depth_complexity: F32::zero(),
                pacing_instability: F32::zero(),
            }
        } else {
            let p = self.prev->0;
            let n = cur.spec_width() * cur.spec_height();
            let lost = if plan.rung.is_temporal() {
                rejected_below(
                    &p,
                    cur,
                    F32::half().clamp(F32::zero(), F32::one()),
                    InterpolateConfig {
                        depth_tolerance: F32::ratio(5, 100),
                        photo_tolerance: F32::ratio(20, 100),
                        hole_fill_passes: 3,
                    },
                    n as nat,
                )
            } else {
                disoccluded_below(&p, cur, F32::ratio(5, 100), n as nat)
            };
            Signals {
                disocclusion: F32::from_u32(lost as u32) / F32::from_u32(n as u32),
                pacing_instability: self.pacer@.instability(),
                ..signals_of(
                    pair_totals(&p, cur, n as nat),
                    n as u32,
                    F32::from_u32(cur.spec_width()) * F32::ratio(10, 100),
                )
            }
        }
    }

    /// Measure a frame against the one before.
    fn measure(&self, plan: &BoostPlan, cur: &GBuffer) -> (r: (Signals, bool))
        requires
            self.valid(),
            cur.wf(),
            cur.spec_width() * cur.spec_height() <= u32::MAX,
        ensures
            r.0 == self.measured(*plan, cur),
            r.1 == self.comparable(cur),
    {
        match &self.prev {
            Some(p) => {
                if p.width() == cur.width() && p.height() == cur.height() {
                    let speed = F32::from_u32(cur.width()) * F32::ratio(10, 100);
                    let mut signals = measure_pair(p, cur, speed);
                    signals.pacing_instability = self.pacer.instability();
                    signals.disocclusion = if plan.rung.is_temporal() {
                        interpolate_midpoint(
                            p,
                            cur,
                            F32::half(),
                            InterpolateConfig::default(),
                        ).disocclusion
                    } else {
                        reproject(p, cur, ReprojectConfig::default()).disocclusion
                    };
                    return (signals, true);
                }
            },
            None => {},
        }
        let s = Signals::default();
        proof {
            let z = Seq::new(6, |i: int| F32::zero());
            assert(s.fields()[0] == z[0] && s.fields()[1] == z[1] && s.fields()[2] == z[2]);
            assert(s.fields()[3] == z[3] && s.fields()[4] == z[4] && s.fields()[5] == z[5]);
        }
        (s, false)
    }

    /// What judging a frame makes of the simulator, and what is written down. A
    /// frame with nothing to compare against is not judged: the controller would
    /// be handed a clean bill of health it never earned.
    pub open spec fn judges(
        &self,
        i: u32,
        plan: BoostPlan,
        cur: &GBuffer,
        r: FrameRecord,
        next: &Sim,
    ) -> bool {
        let signals = self.measured(plan, cur);
        let v = self.ctl@.quality.verdict(self.ctl@.active, signals);
        &&& next.cfg == self.cfg
        &&& next.scene == self.scene
        &&& next.pacer == self.pacer
        &&& next.prev == self.prev
        &&& next.camera == self.camera
        &&& next.seed == self.seed
        &&& next.clock == self.clock
        &&& next.frame_ns == self.frame_ns
        &&& next.last_level == self.last_level
        &&& r.index == i
        &&& r.signals == signals
        &&& r.frame_ns == self.frame_ns
        &&& r.ceiling == next.ctl@.quality.ceiling
        &&& if self.comparable(cur) {
            &&& self.ctl@.resolves(signals, next.ctl@)
            &&& r.level == self.ctl@.active
            &&& r.confidence == v.confidence()
            &&& r.judgement == (match v {
                Verdict::Present { .. } => Judgement::Presented,
                Verdict::Discard { .. } => Judgement::Discarded,
                Verdict::Degrade { .. } => Judgement::Degraded,
            })
            &&& r.dominant == (match v {
                Verdict::Present { .. } => None,
                Verdict::Discard { reason, .. } => Some(spec_reason_signal(reason)),
                Verdict::Degrade { reason, .. } => Some(spec_reason_signal(reason)),
            })
            &&& r.scene_cut == (match v {
                Verdict::Discard { reason: DiscardReason::SceneCut, .. } => true,
                _ => false,
            })
            &&& r.presented == self.ctl@.shown(v)
        } else {
            &&& next.ctl@ == self.ctl@
            &&& r.level == plan.level
            &&& r.confidence == F32::one()
            &&& r.judgement == Judgement::NotJudged
            &&& r.dominant is None
            &&& !r.scene_cut
            &&& r.presented == 1
        }
    }

    /// Judge a rendered frame.
    pub fn judge(&mut self, i: u32, plan: &BoostPlan, cur: &GBuffer) -> (r: FrameRecord)
        requires
            old(self).valid(),
            old(self).ctl@.has_room(),
            cur.wf(),
            cur.spec_width() * cur.spec_height() <= u32::MAX,
        ensures
            old(self).judges(i, *plan, cur, r, final(self)),
            final(self).valid(),
    {
        let (signals, comparable) = self.measure(plan, cur);
        if !comparable {
            return FrameRecord {
                index: i,
                level: plan.level,
                ceiling: self.ctl.ceiling(),
                confidence: F32::one(),
                judgement: Judgement::NotJudged,
                dominant: None,
                scene_cut: false,
                signals,
                frame_ns: self.frame_ns,
                presented: 1,
            };
        }
        let outcome = self.ctl.resolve(&signals);
        let (judgement, dominant, scene_cut) = match outcome.verdict {
            Verdict::Present { .. } => (Judgement::Presented, None, false),
            Verdict::Discard { reason, .. } => (
                Judgement::Discarded,
                Some(reason_signal(reason)),
                match reason {
                    DiscardReason::SceneCut => true,
                    _ => false,
                },
            ),
            Verdict::Degrade { reason, .. } => (
                Judgement::Degraded,
                Some(reason_signal(reason)),
                false,
            ),
        };
        FrameRecord {
            index: i,
            level: outcome.level,
            ceiling: outcome.ceiling,
            confidence: outcome.verdict.confidence(),
            judgement,
            dominant,
            scene_cut,
            signals,
            frame_ns: self.frame_ns,
            presented: outcome.frames_presented,
        }
    }

    /// What a frame costs: the native cost, by the rung, by the load, and by a
    /// jitter of three hundredths of a sine.
    pub open spec fn cost(&self, plan: BoostPlan, load: F32, sine: F64) -> u64 {
        (F64::from_u64(self.cfg.native_frame_ns) * plan.rung.relative_cost().to_f64()
            * load.to_f64() * (F64::one() + F64::ratio(3, 100) * sine)).to_u64()
    }

    /// What the end of a frame makes of the simulator. A clock with no room left
    /// stands still.
    pub open spec fn closes(
        &self,
        plan: BoostPlan,
        load: F32,
        sine: F64,
        cur: GBuffer,
        next: &Sim,
    ) -> bool {
        let cost = self.cost(plan, load, sine);
        &&& next.cfg == self.cfg
        &&& next.scene == self.scene
        &&& next.ctl == self.ctl
        &&& next.camera == self.camera
        &&& next.seed == self.seed
        &&& next.last_level == self.last_level
        &&& next.prev == Some(cur)
        &&& next.frame_ns == cost
        &&& next.clock == (if self.clock + cost <= u64::MAX {
            (self.clock + cost) as u64
        } else {
            u64::MAX
        })
        &&& next.pacer@ == self.pacer@.rendered(next.clock)
    }

    /// Close the loop: the rung that was picked decides what the next decision
    /// is made from.
    pub fn close(&mut self, plan: &BoostPlan, load: F32, sine: F64, cur: GBuffer)
        requires
            old(self).valid(),
            plan.rung.generated_per_rendered < u32::MAX,
            cur.wf(),
            cur.spec_width() * cur.spec_height() <= u32::MAX,
        ensures
            old(self).closes(*plan, load, sine, cur, final(self)),
            final(self).valid(),
    {
        let jitter = F64::one() + F64::ratio(3, 100) * sine;
        let cost = (F64::from_u64(self.cfg.native_frame_ns) * plan.rung.relative_cost().to_f64()
            * load.to_f64() * jitter).to_u64();
        self.frame_ns = cost;
        self.clock = if self.clock <= u64::MAX - cost {
            self.clock + cost
        } else {
            u64::MAX
        };
        self.pacer.on_rendered(self.clock);
        self.prev = Some(cur);
    }
}

/// Whether every channel of a picture is a number.
pub open spec fn numeric(img: &ImageBuffer) -> bool {
    forall|k: int, c: int|
        0 <= k < img.pixels().len() && 0 <= c < 4 ==> !(#[trigger] img.pixels()[k]@[c]).is_nan()
}

fn is_numeric(img: &ImageBuffer) -> (b: bool)
    requires
        img.wf(),
    ensures
        b == numeric(img),
{
    let px = img.as_slice();
    let mut k: usize = 0;
    while k < px.len()
        invariant
            k <= px@.len(),
            px@ == img.pixels(),
            forall|j: int, c: int|
                0 <= j < k && 0 <= c < 4 ==> !(#[trigger] img.pixels()[j]@[c]).is_nan(),
        decreases px@.len() - k,
    {
        let p = px[k];
        assert(p == img.pixels()[k as int]);
        if p[0].is_nan() || p[1].is_nan() || p[2].is_nan() || p[3].is_nan() {
            assert(img.pixels()[k as int]@[0].is_nan() || img.pixels()[k as int]@[1].is_nan()
                || img.pixels()[k as int]@[2].is_nan() || img.pixels()[k as int]@[3].is_nan());
            return false;
        }
        k = k + 1;
    }
    true
}

/// Whether a channel is finite and displayable, give or take a hundredth.
pub open spec fn spec_displayable(v: F32) -> bool {
    v.is_finite() && v.ge(F32::ratio(1, 100).neg()) && v.le(F32::ratio(101, 100))
}

fn displayable(v: F32) -> (b: bool)
    ensures
        b == spec_displayable(v),
{
    v.is_finite() && v.ge(F32::ratio(1, 100).neg()) && v.le(F32::ratio(101, 100))
}

/// Whether every channel of a picture is displayable.
pub open spec fn all_displayable(img: &ImageBuffer) -> bool {
    forall|k: int, c: int|
        0 <= k < img.pixels().len() && 0 <= c < 4 ==> spec_displayable(
            #[trigger] img.pixels()[k]@[c],
        )
}

fn is_displayable(img: &ImageBuffer) -> (b: bool)
    requires
        img.wf(),
    ensures
        b == all_displayable(img),
{
    let px = img.as_slice();
    let mut k: usize = 0;
    while k < px.len()
        invariant
            k <= px@.len(),
            px@ == img.pixels(),
            forall|j: int, c: int|
                0 <= j < k && 0 <= c < 4 ==> spec_displayable(#[trigger] img.pixels()[j]@[c]),
        decreases px@.len() - k,
    {
        let p = px[k];
        assert(p == img.pixels()[k as int]);
        if !displayable(p[0]) || !displayable(p[1]) || !displayable(p[2]) || !displayable(p[3]) {
            assert(!spec_displayable(img.pixels()[k as int]@[0]) || !spec_displayable(
                img.pixels()[k as int]@[1],
            ) || !spec_displayable(img.pixels()[k as int]@[2]) || !spec_displayable(
                img.pixels()[k as int]@[3],
            ));
            return false;
        }
        k = k + 1;
    }
    true
}

/// Whether a picture is another one upsampled and sharpened by half.
pub open spec fn is_upscaled(src: &ImageBuffer, w: u32, h: u32, out: &ImageBuffer) -> bool {
    exists|up: ImageBuffer|
        {
            &&& up.wf() && up.spec_width() == w && up.spec_height() == h
            &&& out.wf() && out.spec_width() == w && out.spec_height() == h
            &&& forall|x: u32, y: u32|
                x < w && y < h ==> (#[trigger] up.px(x as int, y as int))@ == upsampled(
                    src,
                    w,
                    h,
                    (EasuConfig { anisotropy_strength: F32::one(), deringing: true }),
                    x,
                    y,
                )
            &&& forall|x: u32, y: u32|
                x < w && y < h ==> (#[trigger] out.px(x as int, y as int))@ == (
                #[trigger] Cross::around(&up, x as int, y as int)).sharpened(
                    F32::half().clamp(F32::zero(), F32::one()),
                )
        }
}

/// A picture of numbers has a range around every sample.
proof fn lemma_numeric_range(src: &ImageBuffer, w: u32, h: u32, x: u32, y: u32)
    requires
        src.wf(),
        numeric(src),
    ensures
        Gather::at(src, w, h, x, y).has_range(),
{
    let g = Gather::at(src, w, h, x, y);
    src.lemma_wf();
    assert forall|c: int| 0 <= c < 4 implies !(#[trigger] g.taps[5][c]).is_nan() by {
        let tx = clamped(g.bx - 1 + 5int % 4, src.spec_width() as int);
        let ty = clamped(g.by - 1 + 5int / 4, src.spec_height() as int);
        lemma_place(tx, ty, src.spec_width() as int, src.spec_height() as int);
        let k = ty * src.spec_width() + tx;
        assert(g.taps[5] == src.pixels()[k]@);
        assert(!src.pixels()[k]@[c].is_nan());
    }
}

/// Run the spatial passes over a picture, and say whether what they make of it
/// can be displayed. One that holds something other than numbers cannot.
pub fn survives_upscaling(src: &ImageBuffer, w: u32, h: u32) -> (b: bool)
    requires
        src.wf(),
        w > 0,
        h > 0,
        w * h <= usize::MAX,
    ensures
        b ==> numeric(src),
        numeric(src) ==> exists|out: ImageBuffer| #[trigger]
            is_upscaled(src, w, h, &out) && b == all_displayable(&out),
{
    if !is_numeric(src) {
        return false;
    }
    proof {
        assert forall|x: u32, y: u32| x < w && y < h implies #[trigger] Gather::at(
            src,
            w,
            h,
            x,
            y,
        ).has_range() by {
            lemma_numeric_range(src, w, h, x, y);
        }
    }
    let up = easu(src, w, h, EasuConfig::default());
    let sharp = rcas(&up, F32::half());
    assert(is_upscaled(src, w, h, &sharp)) by {
        assert forall|x: u32, y: u32| x < w && y < h implies (#[trigger] sharp.px(
            x as int,
            y as int,
        ))@ == (#[trigger] Cross::around(&up, x as int, y as int)).sharpened(
            F32::half().clamp(F32::zero(), F32::one()),
        ) by {}
    }
    is_displayable(&sharp)
}

/// Whether the spatial passes make something displayable of a picture.
pub open spec fn upscales(src: &ImageBuffer, w: u32, h: u32) -> bool {
    numeric(src) && exists|out: ImageBuffer| #[trigger]
        is_upscaled(src, w, h, &out) && all_displayable(&out)
}

/// Whether the spatial passes make something of a picture that cannot be
/// displayed.
pub open spec fn spoils(src: &ImageBuffer, w: u32, h: u32) -> bool {
    !numeric(src) || exists|out: ImageBuffer| #[trigger]
        is_upscaled(src, w, h, &out) && !all_displayable(&out)
}

/// The result of a run.
#[derive(Clone, Debug)]
pub struct RunReport {
    /// Scenario name.
    pub scenario: &'static str,
    /// Every frame.
    pub frames: Vec<FrameRecord>,
    /// The controller's own accounting.
    pub telemetry: Telemetry,
    /// Settings used.
    pub config: Config,
    /// The first frame that the spatial passes could not make displayable.
    pub spoiled: Option<u32>,
}

/// Everything that went into one frame of a run.
pub struct Turn {
    /// The sine the script was given.
    pub pulse: F32,
    /// What happened.
    pub beat: Beat,
    /// What was planned.
    pub plan: BoostPlan,
    /// What was to be drawn.
    pub frame: Frame,
    /// What was drawn.
    pub cur: GBuffer,
    /// The simulator once the frame was planned.
    pub planned: Sim,
    /// The simulator once it was judged.
    pub judged: Sim,
    /// The sine of the jitter.
    pub sine: F64,
}

impl Turn {
    /// Whether this is what led from one state of the simulator to the next.
    pub open spec fn leads<S: Fn(F32) -> F32, C: Fn(F32) -> F32, D: Fn(F64) -> F64>(
        self,
        from: Sim,
        to: Sim,
        i: u32,
        script: Script,
        r: FrameRecord,
        sin: &S,
        cos: &C,
        swing: &D,
    ) -> bool {
        let w = self.plan.render_width;
        let h = self.plan.render_height;
        &&& script.angle(i) matches Some(a) ==> call_ensures(sin, (a,), self.pulse)
        &&& script.plays(i, self.pulse, self.beat)
        &&& from.plans(i, self.beat, self.plan, self.frame, &self.planned)
        &&& self.cur.wf() && self.cur.spec_width() == w && self.cur.spec_height() == h
        &&& forall|x: u32, y: u32|
            x < w && y < h ==> from.scene.drawn(
                w,
                h,
                self.frame,
                x,
                y,
                sin,
                cos,
                #[trigger] seen_at(&self.cur, x, y),
            )
        &&& self.planned.judges(i, self.plan, &self.cur, r, &self.judged)
        &&& call_ensures(swing, (F64::from_u32(i) * F64::ratio(7, 10),), self.sine)
        &&& self.judged.closes(self.plan, self.beat.load, self.sine, self.cur, &to)
    }

    /// Whether the spatial passes have work to do.
    pub open spec fn scaled(self) -> bool {
        self.plan.render_width != self.planned.cfg.output_width || self.plan.render_height
            != self.planned.cfg.output_height
    }
}

/// Whether a report is that of a run through some states and turns.
pub open spec fn ran<S: Fn(F32) -> F32, C: Fn(F32) -> F32, D: Fn(F64) -> F64>(
    scenario: Scenario,
    cfg: Config,
    report: RunReport,
    sims: Seq<Sim>,
    turns: Seq<Turn>,
    sin: &S,
    cos: &C,
    swing: &D,
) -> bool {
    let n = scenario.frames as int;
    &&& report.scenario == scenario.name
    &&& report.config == cfg
    &&& report.frames@.len() == n
    &&& sims.len() == n + 1
    &&& turns.len() == n
    &&& sims[0].starts(scenario, cfg)
    &&& report.telemetry == sims[n].ctl@.telemetry
    &&& forall|k: int|
        0 <= k < n ==> (#[trigger] turns[k]).leads(
            sims[k],
            sims[k + 1],
            k as u32,
            scenario.script,
            report.frames@[k],
            sin,
            cos,
            swing,
        )
    &&& match report.spoiled {
        None => forall|k: int|
            0 <= k < n && cfg.full_pipeline && (#[trigger] turns[k]).scaled() ==> upscales(
                &turns[k].cur.color,
                cfg.output_width,
                cfg.output_height,
            ),
        Some(j) => {
            &&& j < n && cfg.full_pipeline && turns[j as int].scaled()
            &&& spoils(&turns[j as int].cur.color, cfg.output_width, cfg.output_height)
            &&& forall|k: int|
                0 <= k < j && (#[trigger] turns[k]).scaled() ==> upscales(
                    &turns[k].cur.color,
                    cfg.output_width,
                    cfg.output_height,
                )
        },
    }
}

/// Run one scenario, with a sine and a cosine for the scene and a sine for the
/// jitter.
///
/// Whatever the three functions give, each frame follows from the one before as
/// the simulator's own steps say.
#[verifier::rlimit(60)]
pub fn run<S: Fn(F32) -> F32, C: Fn(F32) -> F32, D: Fn(F64) -> F64>(
    scenario: &Scenario,
    cfg: &Config,
    sin: &S,
    cos: &C,
    swing: &D,
) -> (report: RunReport)
    requires
        cfg.spec_renderable(),
        cfg.full_pipeline ==> cfg.output_width > 0 && cfg.output_height > 0 && cfg.output_width
            * cfg.output_height <= usize::MAX,
        forall|a: F32| call_requires(sin, (a,)),
        forall|a: F32| call_requires(cos, (a,)),
        forall|a: F64| call_requires(swing, (a,)),
    ensures
        exists|sims: Seq<Sim>, turns: Seq<Turn>| #[trigger]
            ran(*scenario, *cfg, report, sims, turns, sin, cos, swing),
        report.telemetry.wf(),
        delivered(report.frames@, report.frames@.len()) <= 2 * scenario.frames,
{
    let mut sim = Sim::new(scenario, cfg);
    let mut frames: Vec<FrameRecord> = Vec::new();
    let mut spoiled: Option<u32> = None;
    let n: u32 = scenario.frames;
    let script = scenario.script;
    let ghost mut sims: Seq<Sim> = seq![sim];
    let ghost mut turns: Seq<Turn> = Seq::empty();
    let mut i: u32 = 0;
    while i < n
        invariant
            i <= n,
            n == scenario.frames,
            script == scenario.script,
            cfg.spec_renderable(),
            cfg.full_pipeline ==> cfg.output_width > 0 && cfg.output_height > 0
                && cfg.output_width * cfg.output_height <= usize::MAX,
            forall|a: F32| call_requires(sin, (a,)),
            forall|a: F32| call_requires(cos, (a,)),
            forall|a: F64| call_requires(swing, (a,)),
            sim.valid(),
            sim.cfg == *cfg,
            sim.ctl@.telemetry.frames_presented_to_display <= 2 * i,
            frames.len() == i,
            delivered(frames@, i as nat) <= 2 * i,
            sims.len() == i + 1,
            turns.len() == i,
            sims[i as int] == sim,
            sims[0].starts(*scenario, *cfg),
            forall|k: int|
                0 <= k < i ==> (#[trigger] turns[k]).leads(
                    sims[k],
                    sims[k + 1],
                    k as u32,
                    script,
                    frames@[k],
                    sin,
                    cos,
                    swing,
                ),
            match spoiled {
                None => forall|k: int|
                    0 <= k < i && cfg.full_pipeline && (#[trigger] turns[k]).scaled() ==> upscales(
                        &turns[k].cur.color,
                        cfg.output_width,
                        cfg.output_height,
                    ),
                Some(j) => {
                    &&& j < i && cfg.full_pipeline && turns[j as int].scaled()
                    &&& spoils(&turns[j as int].cur.color, cfg.output_width, cfg.output_height)
                    &&& forall|k: int|
                        0 <= k < j && (#[trigger] turns[k]).scaled() ==> upscales(
                            &turns[k].cur.color,
                            cfg.output_width,
                            cfg.output_height,
                        )
                },
            },
        decreases n - i,
    {
        let ghost before = sim;
        let pulse: F32 = match script.angle(i) {
            Some(a) => sin(a),
            None => F32::zero(),
        };
        let beat = script.beat(i, pulse);
        let (plan, frame) = sim.plan(i, &beat);
        let ghost planned = sim;
        assert(spec_rung(plan.level).scaled_side(cfg.output_width) * spec_rung(
            plan.level,
        ).scaled_side(cfg.output_height) <= u32::MAX);
        let w: u32 = plan.render_width;
        let h: u32 = plan.render_height;
        let cur = sim.scene.render(w, h, &frame, sin, cos);

        let scaled: bool = w != cfg.output_width || h != cfg.output_height;
        let mut fine: bool = true;
        if cfg.full_pipeline && scaled {
            fine = survives_upscaling(&cur.color, cfg.output_width, cfg.output_height);
        }
        let record = sim.judge(i, &plan, &cur);
        let ghost judged = sim;
        let ghost earlier = frames@;
        frames.push(record);
        proof {
            lemma_delivered_prefix(earlier, frames@, i as nat);
            assert(record.presented <= 2);
        }

        let sine = swing(F64::from_u32(i) * F64::ratio(7, 10));
        let ghost drawn = cur;
        sim.close(&plan, beat.load, sine, cur);
        let ghost turn = Turn { pulse, beat, plan, frame, cur: drawn, planned, judged, sine };
        if spoiled.is_none() && !fine {
            spoiled = Some(i);
        }
        proof {
            assert(turn.leads(before, sim, i, script, record, sin, cos, swing));
            let old_turns = turns;
            let old_sims = sims;
            turns = turns.push(turn);
            sims = sims.push(sim);
            assert forall|k: int| 0 <= k < i + 1 implies (#[trigger] turns[k]).leads(
                sims[k],
                sims[k + 1],
                k as u32,
                script,
                frames@[k],
                sin,
                cos,
                swing,
            ) by {
                if k < i {
                    assert(turns[k] == old_turns[k]);
                }
            }
        }
        i = i + 1;
    }
    let report = RunReport {
        scenario: scenario.name,
        frames,
        telemetry: sim.ctl.into_telemetry(),
        config: *cfg,
        spoiled,
    };
    assert(ran(*scenario, *cfg, report, sims, turns, sin, cos, swing));
    report
}

/// The sum of the first `n` frame times.
pub open spec fn elapsed(frames: Seq<FrameRecord>, n: nat) -> F64
    decreases n,
{
    if n == 0 {
        F64::zero()
    } else {
        elapsed(frames, (n - 1) as nat) + F64::from_u64(frames[n - 1].frame_ns)
    }
}

/// The frames that the first `n` handed to the display.
pub open spec fn delivered(frames: Seq<FrameRecord>, n: nat) -> nat
    decreases n,
{
    if n == 0 {
        0
    } else {
        delivered(frames, (n - 1) as nat) + frames[n - 1].presented as nat
    }
}

proof fn lemma_delivered(frames: Seq<FrameRecord>, m: nat, n: nat)
    requires
        m <= n,
    ensures
        delivered(frames, m) <= delivered(frames, n),
    decreases n,
{
    if m < n {
        lemma_delivered(frames, m, (n - 1) as nat);
    }
}

proof fn lemma_delivered_prefix(a: Seq<FrameRecord>, b: Seq<FrameRecord>, n: nat)
    requires
        n <= a.len() <= b.len(),
        forall|k: int| 0 <= k < n ==> a[k] == b[k],
    ensures
        delivered(a, n) == delivered(b, n),
    decreases n,
{
    if n > 0 {
        lemma_delivered_prefix(a, b, (n - 1) as nat);
    }
}

/// Those of the first `n` frames that were rejected, in order.
pub open spec fn rejected_frames(frames: Seq<FrameRecord>, n: nat) -> Seq<FrameRecord>
    decreases n,
{
    if n == 0 {
        seq![]
    } else {
        let before = rejected_frames(frames, (n - 1) as nat);
        if spec_rejection(frames[n - 1]) {
            before.push(frames[n - 1])
        } else {
            before
        }
    }
}

/// How many of the first `n` frames with an index in a range were rejected.
pub open spec fn rejected_count(frames: Seq<FrameRecord>, lo: u32, hi: u32, n: nat) -> nat
    decreases n,
{
    if n == 0 {
        0
    } else {
        let f = frames[n - 1];
        let here: nat = if lo <= f.index < hi && spec_rejection(f) {
            1
        } else {
            0
        };
        rejected_count(frames, lo, hi, (n - 1) as nat) + here
    }
}

/// How many of the first `n` frames with an index in a range were on a rung.
pub open spec fn on_rung(frames: Seq<FrameRecord>, lo: u32, hi: u32, level: int, n: nat) -> nat
    decreases n,
{
    if n == 0 {
        0
    } else {
        let f = frames[n - 1];
        let bin = if f.level < 7 {
            f.level as int
        } else {
            7
        };
        let here: nat = if lo <= f.index < hi && bin == level {
            1
        } else {
            0
        };
        on_rung(frames, lo, hi, level, (n - 1) as nat) + here
    }
}

/// Whether a place holds the largest of eight counts, the last of those where
/// several are level.
pub open spec fn is_mode(counts: Seq<u64>, m: int) -> bool {
    &&& 0 <= m < counts.len()
    &&& forall|j: int| 0 <= j < counts.len() ==> #[trigger] counts[j] <= counts[m]
    &&& forall|j: int| m < j < counts.len() ==> #[trigger] counts[j] < counts[m]
}

pub(crate) fn mode(counts: &[u64; 8]) -> (m: u8)
    ensures
        is_mode(counts@, m as int),
{
    let mut best: usize = 0;
    let mut j: usize = 1;
    while j < 8
        invariant
            1 <= j <= 8,
            best < j,
            forall|i: int| 0 <= i < j ==> #[trigger] counts@[i] <= counts@[best as int],
            forall|i: int| best < i < j ==> #[trigger] counts@[i] < counts@[best as int],
        decreases 8 - j,
    {
        if counts[j] >= counts[best] {
            best = j;
        }
        j = j + 1;
    }
    best as u8
}

impl RunReport {
    /// Mean modelled frame time, in nanoseconds; zero without frames.
    pub open spec fn spec_mean_frame_ns(&self) -> F64 {
        let n = self.frames@.len();
        if n == 0 {
            F64::zero()
        } else {
            elapsed(self.frames@, n) / F64::from_u64(n as u64)
        }
    }

    /// Mean modelled frame time, in nanoseconds; zero without frames.
    #[verifier::when_used_as_spec(spec_mean_frame_ns)]
    pub fn mean_frame_ns(&self) -> (t: F64)
        ensures
            t == self.spec_mean_frame_ns(),
    {
        let n: usize = self.frames.len();
        if n == 0 {
            return F64::zero();
        }
        self.elapsed_ns() / F64::from_u64(n as u64)
    }

    fn elapsed_ns(&self) -> (t: F64)
        ensures
            t == elapsed(self.frames@, self.frames@.len()),
    {
        let mut t = F64::zero();
        let mut k: usize = 0;
        while k < self.frames.len()
            invariant
                k <= self.frames.len(),
                t == elapsed(self.frames@, k as nat),
            decreases self.frames.len() - k,
        {
            t = t + F64::from_u64(self.frames[k].frame_ns);
            k = k + 1;
        }
        t
    }

    /// Frames per second the display actually receives: presented frames over
    /// elapsed time; zero where no time has passed.
    pub open spec fn spec_effective_fps(&self) -> F64 {
        let n = self.frames@.len();
        let t = elapsed(self.frames@, n);
        if t.le(F64::zero()) {
            F64::zero()
        } else {
            F64::from_u32(delivered(self.frames@, n) as u32) * F64::from_u32(1_000_000_000) / t
        }
    }

    /// Frames per second the display actually receives: presented frames over
    /// elapsed time; zero where no time has passed.
    #[verifier::when_used_as_spec(spec_effective_fps)]
    pub fn effective_fps(&self) -> (r: F64)
        requires
            delivered(self.frames@, self.frames@.len()) <= u32::MAX,
        ensures
            r == self.spec_effective_fps(),
    {
        let t = self.elapsed_ns();
        if t.le(F64::zero()) {
            return F64::zero();
        }
        let mut shown: u32 = 0;
        let mut k: usize = 0;
        while k < self.frames.len()
            invariant
                k <= self.frames.len(),
                shown == delivered(self.frames@, k as nat),
                delivered(self.frames@, self.frames@.len()) <= u32::MAX,
            decreases self.frames.len() - k,
        {
            proof {
                lemma_delivered(self.frames@, (k + 1) as nat, self.frames@.len());
            }
            shown = shown + self.frames[k].presented;
            k = k + 1;
        }
        F64::from_u32(shown) * F64::from_u32(1_000_000_000) / t
    }

    /// Highest rung reached; native without frames.
    pub fn max_level(&self) -> (l: u8)
        ensures
            forall|k: int| 0 <= k < self.frames@.len() ==> (#[trigger] self.frames@[k]).level <= l,
            self.frames@.len() == 0 ==> l == 0,
            self.frames@.len() > 0 ==> exists|k: int|
                0 <= k < self.frames@.len() && (#[trigger] self.frames@[k]).level == l,
    {
        let mut l: u8 = 0;
        let mut k: usize = 0;
        while k < self.frames.len()
            invariant
                k <= self.frames.len(),
                forall|j: int| 0 <= j < k ==> (#[trigger] self.frames@[j]).level <= l,
                k == 0 ==> l == 0,
                k > 0 ==> exists|j: int| 0 <= j < k && (#[trigger] self.frames@[j]).level == l,
            decreases self.frames.len() - k,
        {
            let here: u8 = self.frames[k].level;
            if k == 0 || here > l {
                l = here;
                assert(self.frames@[k as int].level == l);
            }
            k = k + 1;
        }
        l
    }

    /// Modal rung over a frame range, the higher one where several are level.
    pub fn typical_level(&self, range: std::ops::Range<u32>) -> (m: u8)
        ensures
            is_mode(
                Seq::new(
                    8,
                    |l: int|
                        on_rung(self.frames@, range.start, range.end, l, self.frames@.len()) as u64,
                ),
                m as int,
            ),
    {
        let mut counts: [u64; 8] = [0; 8];
        let lo: u32 = range.start;
        let hi: u32 = range.end;
        let mut k: usize = 0;
        while k < self.frames.len()
            invariant
                k <= self.frames.len(),
                forall|l: int|
                    0 <= l < 8 ==> #[trigger] counts@[l] == on_rung(
                        self.frames@,
                        lo,
                        hi,
                        l,
                        k as nat,
                    ),
                forall|l: int| 0 <= l < 8 ==> #[trigger] counts@[l] <= k,
            decreases self.frames.len() - k,
        {
            let f = self.frames[k];
            let ghost before = counts@;
            if lo <= f.index && f.index < hi {
                let bin: usize = if f.level < 7 {
                    f.level as usize
                } else {
                    7
                };
                assert(counts@[bin as int] <= k);
                counts[bin] = counts[bin] + 1;
                assert(counts@ == before.update(bin as int, (before[bin as int] + 1) as u64));
            }
            proof {
                assert forall|l: int| 0 <= l < 8 implies #[trigger] counts@[l] == on_rung(
                    self.frames@,
                    lo,
                    hi,
                    l,
                    (k + 1) as nat,
                ) && counts@[l] <= k + 1 by {
                    assert(before[l] == on_rung(self.frames@, lo, hi, l, k as nat));
                    assert(before[l] <= k);
                }
            }
            k = k + 1;
        }
        proof {
            let want = Seq::new(
                8,
                |l: int| on_rung(self.frames@, lo, hi, l, self.frames@.len()) as u64,
            );
            assert forall|l: int| 0 <= l < 8 implies counts@[l] == want[l] by {
                assert(counts@[l] == on_rung(self.frames@, lo, hi, l, k as nat));
            }
            assert(counts@ =~= want);
        }
        mode(&counts)
    }

    /// Rejections in a frame range.
    pub fn rejections_in(&self, range: std::ops::Range<u32>) -> (n: usize)
        ensures
            n == rejected_count(self.frames@, range.start, range.end, self.frames@.len()),
    {
        let mut n: usize = 0;
        let mut k: usize = 0;
        while k < self.frames.len()
            invariant
                k <= self.frames.len(),
                n <= k,
                n == rejected_count(self.frames@, range.start, range.end, k as nat),
            decreases self.frames.len() - k,
        {
            let f = self.frames[k];
            if range.start <= f.index && f.index < range.end && rejection(&f) {
                n = n + 1;
            }
            k = k + 1;
        }
        n
    }

    /// Every rejection, with the signal that caused it.
    pub fn rejections(&self) -> (v: Vec<FrameRecord>)
        ensures
            v@ == rejected_frames(self.frames@, self.frames@.len()),
    {
        let mut v: Vec<FrameRecord> = Vec::new();
        let mut k: usize = 0;
        while k < self.frames.len()
            invariant
                k <= self.frames.len(),
                v@ == rejected_frames(self.frames@, k as nat),
            decreases self.frames.len() - k,
        {
            let f = self.frames[k];
            if rejection(&f) {
                v.push(f);
            }
            k = k + 1;
        }
        v
    }
}

} // verus!
