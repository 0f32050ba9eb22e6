//! Per-frame evidence that reconstruction is going wrong.
//!
//! Six signals, each normalized to `0..=1` where 0 is benign. Penalties
//! multiply, because any one signal at full strength ruins a frame on its own;
//! each signal is free below a deadband, because every real frame has some of
//! all six. A spatial upscaler does not reproject, so the two classes of rung
//! are scored with different weights.

use crate::fp::{F32, F64};
use crate::frame::{lemma_place, lemma_row, lemma_row_end, DepthBuffer, GBuffer};
use crate::level::BoostRung;
use vstd::prelude::*;

verus! {

/// Which signal is being talked about.
#[derive(Clone, Copy, PartialEq, Eq, Structural, Debug)]
pub enum SignalKind {
    /// Fraction of output pixels with no valid source.
    Disocclusion,
    /// Change unexplained by the motion vectors.
    MotionResidual,
    /// Global luminance change between endpoints.
    LumaShift,
    /// Screen-space camera velocity.
    CameraMotion,
    /// Density of depth discontinuities.
    DepthComplexity,
    /// Variance in rendered-frame intervals.
    PacingInstability,
}

impl SignalKind {
    /// All signals, in the order [`Signals::as_array`] uses.
    pub const ALL: [SignalKind; 6] = [
        SignalKind::Disocclusion,
        SignalKind::MotionResidual,
        SignalKind::LumaShift,
        SignalKind::CameraMotion,
        SignalKind::DepthComplexity,
        SignalKind::PacingInstability,
    ];

    /// Short stable name, for logs.
    pub open spec fn spec_name(self) -> &'static str {
        match self {
            SignalKind::Disocclusion => "disocclusion",
            SignalKind::MotionResidual => "motion_residual",
            SignalKind::LumaShift => "luma_shift",
            SignalKind::CameraMotion => "camera_motion",
            SignalKind::DepthComplexity => "depth_complexity",
            SignalKind::PacingInstability => "pacing_instability",
        }
    }

    /// Short stable name, for logs.
    pub fn name(self) -> (s: &'static str)
        ensures
            s == self.spec_name(),
    {
        match self {
            SignalKind::Disocclusion => "disocclusion",
            SignalKind::MotionResidual => "motion_residual",
            SignalKind::LumaShift => "luma_shift",
            SignalKind::CameraMotion => "camera_motion",
            SignalKind::DepthComplexity => "depth_complexity",
            SignalKind::PacingInstability => "pacing_instability",
        }
    }
}

/// One frame's worth of evidence. Every field is normalized to `0..=1`.
#[derive(Clone, Copy, Debug, PartialEq)]
pub struct Signals {
    /// Fraction of output pixels that had no valid source in either endpoint.
    pub disocclusion: F32,
    /// Normalized residual after reprojecting one endpoint onto the other.
    pub motion_residual: F32,
    /// Normalized mean-luminance delta between endpoints.
    pub luma_shift: F32,
    /// Screen-space camera velocity, normalized against a reference speed.
    pub camera_motion: F32,
    /// Fraction of pixels sitting on a depth discontinuity.
    pub depth_complexity: F32,
    /// Normalized dispersion of recent rendered-frame intervals.
    pub pacing_instability: F32,
}

/// A measurement made safe to score: within `0..=1`, and the worst where it is
/// not a finite number.
pub open spec fn spec_sane(v: F32) -> F32 {
    if v.is_finite() {
        v.clamp(F32::zero(), F32::one())
    } else {
        F32::one()
    }
}

fn sane(v: F32) -> (r: F32)
    ensures
        r == spec_sane(v),
{
    if v.is_finite() {
        v.clamp(F32::zero(), F32::one())
    } else {
        F32::one()
    }
}

/// Signals with each field given in hundredths.
pub open spec fn hundredths(a: u32, b: u32, c: u32, d: u32, e: u32, f: u32) -> Signals {
    Signals {
        disocclusion: F32::ratio(a, 100),
        motion_residual: F32::ratio(b, 100),
        luma_shift: F32::ratio(c, 100),
        camera_motion: F32::ratio(d, 100),
        depth_complexity: F32::ratio(e, 100),
        pacing_instability: F32::ratio(f, 100),
    }
}

fn in_hundredths(a: u32, b: u32, c: u32, d: u32, e: u32, f: u32) -> (s: Signals)
    ensures
        s == hundredths(a, b, c, d, e, f),
{
    Signals {
        disocclusion: F32::ratio(a, 100),
        motion_residual: F32::ratio(b, 100),
        luma_shift: F32::ratio(c, 100),
        camera_motion: F32::ratio(d, 100),
        depth_complexity: F32::ratio(e, 100),
        pacing_instability: F32::ratio(f, 100),
    }
}

impl Default for Signals {
    fn default() -> (s: Self)
        ensures
            s.fields() == Seq::new(6, |i: int| F32::zero()),
    {
        let z = F32::zero();
        let s = Signals {
            disocclusion: z,
            motion_residual: z,
            luma_shift: z,
            camera_motion: z,
            depth_complexity: z,
            pacing_instability: z,
        };
        assert(s.fields() =~= Seq::new(6, |i: int| F32::zero()));
        s
    }
}

impl Signals {
    /// The six signals in the order of [`SignalKind::ALL`].
    pub open spec fn fields(self) -> Seq<F32> {
        seq![
            self.disocclusion,
            self.motion_residual,
            self.luma_shift,
            self.camera_motion,
            self.depth_complexity,
            self.pacing_instability,
        ]
    }

    /// A frame with nothing wrong with it.
    pub fn clean() -> (s: Self)
        ensures
            s == hundredths(2, 3, 1, 10, 12, 2),
    {
        in_hundredths(2, 3, 1, 10, 12, 2)
    }

    /// A hard cut: the motion vectors explain nothing and the image changed
    /// wholesale.
    pub fn scene_cut() -> (s: Self)
        ensures
            s == hundredths(85, 95, 70, 40, 30, 5),
    {
        in_hundredths(85, 95, 70, 40, 30, 5)
    }

    /// Field order matching [`SignalKind::ALL`].
    pub fn as_array(&self) -> (a: [F32; 6])
        ensures
            a@ == self.fields(),
    {
        let a = [
            self.disocclusion,
            self.motion_residual,
            self.luma_shift,
            self.camera_motion,
            self.depth_complexity,
            self.pacing_instability,
        ];
        assert(a@ =~= self.fields());
        a
    }

    /// Every field made safe to score.
    pub open spec fn spec_sanitized(&self) -> Self {
        Signals {
            disocclusion: spec_sane(self.disocclusion),
            motion_residual: spec_sane(self.motion_residual),
            luma_shift: spec_sane(self.luma_shift),
            camera_motion: spec_sane(self.camera_motion),
            depth_complexity: spec_sane(self.depth_complexity),
            pacing_instability: spec_sane(self.pacing_instability),
        }
    }

    /// Every field within `0..=1`, and at 1 where it was not a finite number.
    #[verifier::when_used_as_spec(spec_sanitized)]
    pub fn sanitized(&self) -> (s: Self)
        ensures
            s == self.spec_sanitized(),
            forall|i: int|
                0 <= i < 6 ==> F32::zero().le(#[trigger] s.fields()[i]) && s.fields()[i].le(
                    F32::one(),
                ),
    {
        reveal(F32::spec_clamp);
        Signals {
            disocclusion: sane(self.disocclusion),
            motion_residual: sane(self.motion_residual),
            luma_shift: sane(self.luma_shift),
            camera_motion: sane(self.camera_motion),
            depth_complexity: sane(self.depth_complexity),
            pacing_instability: sane(self.pacing_instability),
        }
    }

    /// Whether this looks like a hard cut: an unexplained image and a luminance
    /// jump, both.
    pub open spec fn spec_is_scene_cut(&self, w: &SignalWeights) -> bool {
        &&& self.spec_sanitized().motion_residual.ge(w.cut_residual)
        &&& self.spec_sanitized().luma_shift.ge(w.cut_luma)
    }

    /// Whether this looks like a hard cut: an unexplained image and a luminance
    /// jump, both. Either alone is common and benign.
    #[verifier::when_used_as_spec(spec_is_scene_cut)]
    pub fn is_scene_cut(&self, w: &SignalWeights) -> (b: bool)
        ensures
            b == self.spec_is_scene_cut(w),
    {
        let s = self.sanitized();
        s.motion_residual.ge(w.cut_residual) && s.luma_shift.ge(w.cut_luma)
    }

    /// The score of a frame for a rung.
    pub open spec fn spec_confidence(&self, rung: &BoostRung, w: &SignalWeights) -> Confidence {
        scored(self.spec_sanitized().fields(), w.class(rung.spec_is_temporal()), 6)
    }

    /// Score this frame for a given rung.
    #[verifier::when_used_as_spec(spec_confidence)]
    pub fn confidence(&self, rung: &BoostRung, w: &SignalWeights) -> (c: Confidence)
        ensures
            c == self.spec_confidence(rung, w),
    {
        let s = self.sanitized().as_array();
        let weights: [SignalWeight; 6] = if rung.is_temporal() {
            w.temporal
        } else {
            w.spatial
        };
        let kinds = SignalKind::ALL;

        let mut value = F32::one();
        let mut dominant = SignalKind::Disocclusion;
        let mut dominant_penalty = F32::zero();
        let mut i: usize = 0;
        while i < 6
            invariant
                i <= 6,
                kinds@ == SignalKind::ALL@,
                (Confidence { value, dominant, dominant_penalty }) == scored(
                    s@,
                    weights@,
                    i as nat,
                ),
            decreases 6 - i,
        {
            let penalty = weights[i].penalty(s[i]);
            if penalty.gt(dominant_penalty) {
                dominant_penalty = penalty;
                dominant = kinds[i];
            }
            value = value * (F32::one() - penalty).clamp(F32::zero(), F32::one());
            i = i + 1;
        }
        Confidence { value, dominant, dominant_penalty }
    }
}

/// The result of scoring a frame.
#[derive(Clone, Copy, Debug)]
pub struct Confidence {
    /// How much to trust this reconstruction, in `0..=1`.
    pub value: F32,
    /// The signal that contributed the largest single penalty.
    pub dominant: SignalKind,
    /// That signal's penalty, in `0..=1`.
    pub dominant_penalty: F32,
}

/// The score of the first `n` signals: what each penalty leaves, multiplied, and
/// the first of the largest penalties.
pub open spec fn scored(s: Seq<F32>, w: Seq<SignalWeight>, n: nat) -> Confidence
    decreases n,
{
    if n == 0 {
        Confidence {
            value: F32::one(),
            dominant: SignalKind::Disocclusion,
            dominant_penalty: F32::zero(),
        }
    } else {
        let c = scored(s, w, (n - 1) as nat);
        let p = w[n - 1].penalty(s[n - 1]);
        let worse = p.gt(c.dominant_penalty);
        Confidence {
            value: c.value * (F32::one() - p).clamp(F32::zero(), F32::one()),
            dominant: if worse {
                SignalKind::ALL[n - 1]
            } else {
                c.dominant
            },
            dominant_penalty: if worse {
                p
            } else {
                c.dominant_penalty
            },
        }
    }
}

/// Weight and deadband for one signal.
#[derive(Clone, Copy, Debug)]
pub struct SignalWeight {
    /// Multiplier on the signal's excess. Above 1, the signal can veto alone.
    pub weight: F32,
    /// Value below which the signal is free.
    pub deadband: F32,
}

impl SignalWeight {
    /// Construct a weight.
    pub fn new(weight: F32, deadband: F32) -> (w: Self)
        ensures
            w.weight == weight,
            w.deadband == deadband,
    {
        SignalWeight { weight, deadband }
    }

    /// Ignore this signal entirely.
    pub open spec fn spec_ignored() -> Self {
        SignalWeight { weight: F32::zero(), deadband: F32::one() }
    }

    /// Ignore this signal entirely.
    #[verifier::when_used_as_spec(spec_ignored)]
    pub fn ignored() -> (w: Self)
        ensures
            w == Self::spec_ignored(),
    {
        SignalWeight { weight: F32::zero(), deadband: F32::one() }
    }

    /// A weight with its decimals given in hundredths.
    pub open spec fn hundredths(weight: u32, deadband: u32) -> Self {
        SignalWeight { weight: F32::ratio(weight, 100), deadband: F32::ratio(deadband, 100) }
    }

    fn in_hundredths(weight: u32, deadband: u32) -> (w: Self)
        ensures
            w == Self::hundredths(weight, deadband),
    {
        SignalWeight { weight: F32::ratio(weight, 100), deadband: F32::ratio(deadband, 100) }
    }

    /// The share of the range above the deadband that a value takes up: all of
    /// it from 1 on, wherever the deadband sits.
    pub open spec fn excess(&self, value: F32) -> F32 {
        if value.ge(F32::one()) {
            F32::one()
        } else {
            let span = (F32::one() - self.deadband).max(F32::ratio(1, 10000));
            ((value - self.deadband) / span).clamp(F32::zero(), F32::one())
        }
    }

    /// Penalty contributed by a signal value: its weighted excess over the
    /// deadband, in `0..=1`.
    pub open spec fn spec_penalty(&self, value: F32) -> F32 {
        if self.weight.le(F32::zero()) {
            F32::zero()
        } else {
            (self.weight * self.excess(value)).clamp(F32::zero(), F32::one())
        }
    }

    /// Penalty contributed by a signal value: its weighted excess over the
    /// deadband, in `0..=1`. The excess is rescaled, so that a signal at 1
    /// yields all of it wherever the deadband sits.
    #[verifier::when_used_as_spec(spec_penalty)]
    pub fn penalty(&self, value: F32) -> (p: F32)
        ensures
            p == self.spec_penalty(value),
    {
        if self.weight.le(F32::zero()) {
            return F32::zero();
        }
        let excess = if value.ge(F32::one()) {
            F32::one()
        } else {
            let span = (F32::one() - self.deadband).max(F32::ratio(1, 10000));
            ((value - self.deadband) / span).clamp(F32::zero(), F32::one())
        };
        (self.weight * excess).clamp(F32::zero(), F32::one())
    }
}

/// How each signal is scored, per rung class.
#[derive(Clone, Copy, Debug)]
pub struct SignalWeights {
    /// Weights for rungs that only upscale spatially.
    pub spatial: [SignalWeight; 6],
    /// Weights for rungs that reproject across time.
    pub temporal: [SignalWeight; 6],
    /// Motion residual at or above which a cut is possible.
    pub cut_residual: F32,
    /// Luma shift at or above which a cut is possible.
    pub cut_luma: F32,
}

impl SignalWeights {
    /// The weights for a class of rung.
    pub open spec fn class(&self, temporal: bool) -> Seq<SignalWeight> {
        if temporal {
            self.temporal@
        } else {
            self.spatial@
        }
    }

    /// The stock weights. A spatial upscaler is blind to everything temporal;
    /// frame generation is exposed to all of it, and either of its first two
    /// signals vetoes alone.
    pub open spec fn stock(&self) -> bool {
        &&& self.spatial@ == seq![
            SignalWeight::ignored(),
            SignalWeight::ignored(),
            SignalWeight::ignored(),
            SignalWeight::hundredths(35, 45),
            SignalWeight::hundredths(80, 35),
            SignalWeight::ignored(),
        ]
        &&& self.temporal@ == seq![
            SignalWeight::hundredths(170, 6),
            SignalWeight::hundredths(150, 10),
            SignalWeight::hundredths(100, 8),
            SignalWeight::hundredths(50, 25),
            SignalWeight::hundredths(60, 30),
            SignalWeight::hundredths(90, 15),
        ]
        &&& self.cut_residual == F32::ratio(55, 100)
        &&& self.cut_luma == F32::ratio(40, 100)
    }
}

impl Default for SignalWeights {
    fn default() -> (w: Self)
        ensures
            w.stock(),
    {
        let w = SignalWeights {
            spatial: [
                SignalWeight::ignored(),
                SignalWeight::ignored(),
                SignalWeight::ignored(),
                SignalWeight::in_hundredths(35, 45),
                SignalWeight::in_hundredths(80, 35),
                SignalWeight::ignored(),
            ],
            temporal: [
                SignalWeight::in_hundredths(170, 6),
                SignalWeight::in_hundredths(150, 10),
                SignalWeight::in_hundredths(100, 8),
                SignalWeight::in_hundredths(50, 25),
                SignalWeight::in_hundredths(60, 30),
                SignalWeight::in_hundredths(90, 15),
            ],
            cut_residual: F32::ratio(55, 100),
            cut_luma: F32::ratio(40, 100),
        };
        assert(w.spatial@ =~= seq![
            SignalWeight::ignored(),
            SignalWeight::ignored(),
            SignalWeight::ignored(),
            SignalWeight::hundredths(35, 45),
            SignalWeight::hundredths(80, 35),
            SignalWeight::ignored(),
        ]);
        assert(w.temporal@ =~= seq![
            SignalWeight::hundredths(170, 6),
            SignalWeight::hundredths(150, 10),
            SignalWeight::hundredths(100, 8),
            SignalWeight::hundredths(50, 25),
            SignalWeight::hundredths(60, 30),
            SignalWeight::hundredths(90, 15),
        ]);
        w
    }
}

/// Rec. 709 relative luminance.
pub open spec fn spec_luma(c: Seq<F32>) -> F32 {
    F32::ratio(2126, 10000) * c[0] + F32::ratio(7152, 10000) * c[1] + F32::ratio(722, 10000) * c[2]
}

/// The weights of the channels in luminance.
pub(crate) struct LumaWeights {
    red: F32,
    green: F32,
    blue: F32,
}

impl LumaWeights {
    pub(crate) closed spec fn right(self) -> bool {
        &&& self.red == F32::ratio(2126, 10000)
        &&& self.green == F32::ratio(7152, 10000)
        &&& self.blue == F32::ratio(722, 10000)
    }

    pub(crate) fn new() -> (w: LumaWeights)
        ensures
            w.right(),
    {
        LumaWeights {
            red: F32::ratio(2126, 10000),
            green: F32::ratio(7152, 10000),
            blue: F32::ratio(722, 10000),
        }
    }

    pub(crate) fn luma(&self, c: [F32; 4]) -> (l: F32)
        requires
            self.right(),
        ensures
            l == spec_luma(c@),
    {
        self.red * c[0] + self.green * c[1] + self.blue * c[2]
    }
}

/// Rec. 709 relative luminance.
pub fn luma(c: [F32; 4]) -> (l: F32)
    ensures
        l == spec_luma(c@),
{
    LumaWeights::new().luma(c)
}

/// What a pair of frames adds up to, pixel by pixel.
#[derive(Clone, Copy, Debug)]
pub struct PairTotals {
    /// Luminance change that the motion vectors leave unexplained, relative to
    /// the local luminance.
    pub residual: F64,
    /// How many pixels went into the residual.
    pub residual_norm: F64,
    /// Lengths of the motion vectors.
    pub speed: F64,
    /// Luminance of the older frame.
    pub luma_prev: F64,
    /// Luminance of the newer frame.
    pub luma_next: F64,
    /// Pixels on a depth discontinuity.
    pub discontinuities: u32,
}

impl PairTotals {
    /// No pixels yet.
    pub open spec fn empty() -> Self {
        PairTotals {
            residual: F64::zero(),
            residual_norm: F64::zero(),
            speed: F64::zero(),
            luma_prev: F64::zero(),
            luma_next: F64::zero(),
            discontinuities: 0,
        }
    }
}

/// The difference of two depths relative to the larger.
pub open spec fn spec_depth_step(a: F32, b: F32) -> F32 {
    (a - b).abs() / a.abs().max(b.abs()).max(F32::ratio(1, 10000))
}

fn depth_step(a: F32, b: F32) -> (r: F32)
    ensures
        r == spec_depth_step(a, b),
{
    (a - b).abs() / a.abs().max(b.abs()).max(F32::ratio(1, 10000))
}

/// Whether the depth jumps by more than a tenth to the right or down.
pub open spec fn spec_discontinuous(depth: &DepthBuffer, x: int, y: int) -> bool {
    let d = depth.px(x, y);
    spec_depth_step(d, depth.px(x + 1, y)).gt(F32::ratio(1, 10)) || spec_depth_step(
        d,
        depth.px(x, y + 1),
    ).gt(F32::ratio(1, 10))
}

fn discontinuous(depth: &DepthBuffer, x: u32, y: u32) -> (b: bool)
    requires
        depth.wf(),
        x < depth.spec_width(),
        y < depth.spec_height(),
    ensures
        b == spec_discontinuous(depth, x as int, y as int),
{
    let d = depth.at(x, y);
    let dx = depth.at(x + 1, y);
    let dy = depth.at(x, y + 1);
    depth_step(d, dx).gt(F32::ratio(1, 10)) || depth_step(d, dy).gt(F32::ratio(1, 10))
}

/// Where the center of a pixel was in the previous frame.
pub open spec fn spec_came_from(v: u32, motion: F32) -> F32 {
    F32::from_u32(v) + F32::half() + motion
}

/// Where the center of a pixel was in the previous frame.
#[verifier::when_used_as_spec(spec_came_from)]
pub(crate) fn came_from(v: u32, motion: F32) -> (p: F32)
    ensures
        p == spec_came_from(v, motion),
{
    F32::from_u32(v) + F32::half() + motion
}

/// The change at a pixel that its motion vector leaves unexplained, relative to
/// the luminance there.
pub open spec fn unexplained(l_next: F32, l_there: F32) -> F32 {
    (l_next - l_there).abs() / (l_next.abs() + l_there.abs()).max(F32::ratio(1, 1000))
}

/// The totals with one more pixel.
pub open spec fn with_pixel(
    t: PairTotals,
    prev: &GBuffer,
    next: &GBuffer,
    x: u32,
    y: u32,
) -> PairTotals {
    let l_next = spec_luma(next.color.px(x as int, y as int)@);
    let mv = next.motion.px(x as int, y as int)@;
    let there = prev.color.sampled(spec_came_from(x, mv[0]), spec_came_from(y, mv[1]));
    PairTotals {
        residual: t.residual + unexplained(l_next, spec_luma(there)).to_f64(),
        residual_norm: t.residual_norm + F64::one(),
        speed: t.speed + (mv[0] * mv[0] + mv[1] * mv[1]).sqrt().to_f64(),
        luma_prev: t.luma_prev + spec_luma(prev.color.px(x as int, y as int)@).to_f64(),
        luma_next: t.luma_next + l_next.to_f64(),
        discontinuities: if spec_discontinuous(&next.depth, x as int, y as int) {
            (t.discontinuities + 1) as u32
        } else {
            t.discontinuities
        },
    }
}

fn add_pixel(t: PairTotals, prev: &GBuffer, next: &GBuffer, x: u32, y: u32) -> (r: PairTotals)
    requires
        prev.wf(),
        next.wf(),
        x < next.spec_width(),
        y < next.spec_height(),
        t.discontinuities < u32::MAX,
    ensures
        r == with_pixel(t, prev, next, x, y),
{
    let here = next.color.at(x, y);
    let l_next = luma(here);
    let luma_next = t.luma_next + l_next.to_f64();
    let luma_prev = t.luma_prev + luma(prev.color.at(x, y)).to_f64();

    let mv = next.motion.at(x, y);
    let speed = t.speed + (mv[0] * mv[0] + mv[1] * mv[1]).sqrt().to_f64();

    let sx = came_from(x, mv[0]);
    let sy = came_from(y, mv[1]);
    let there = prev.color.sample_bilinear(sx, sy);
    let l_there = luma(there);

    // Normalized by local magnitude, so bright areas do not dominate.
    let denom = (l_next.abs() + l_there.abs()).max(F32::ratio(1, 1000));
    let residual = t.residual + ((l_next - l_there).abs() / denom).to_f64();
    let residual_norm = t.residual_norm + F64::one();

    let discontinuities: u32 = if discontinuous(&next.depth, x, y) {
        t.discontinuities + 1
    } else {
        t.discontinuities
    };
    PairTotals { residual, residual_norm, speed, luma_prev, luma_next, discontinuities }
}

/// The totals over the first `k` pixels, row by row.
pub open spec fn pair_totals(prev: &GBuffer, next: &GBuffer, k: nat) -> PairTotals
    decreases k,
{
    if k == 0 {
        PairTotals::empty()
    } else {
        let w = next.spec_width() as int;
        with_pixel(
            pair_totals(prev, next, (k - 1) as nat),
            prev,
            next,
            ((k - 1) % w) as u32,
            ((k - 1) / w) as u32,
        )
    }
}

/// The signals that the totals over `n` pixels amount to.
pub open spec fn signals_of(t: PairTotals, n: u32, reference_speed: F32) -> Signals {
    let count = F32::from_u32(n);
    let zero = F32::zero();
    let one = F32::one();
    let mean_residual = if t.residual_norm.gt(F64::zero()) {
        (t.residual / t.residual_norm).to_f32()
    } else {
        zero
    };
    let mean_speed = (t.speed / count.to_f64()).to_f32();
    let luma_delta = ((t.luma_next - t.luma_prev).abs() / count.to_f64()).to_f32();
    Signals {
        disocclusion: zero,
        motion_residual: (mean_residual * F32::four()).clamp(zero, one),
        luma_shift: (luma_delta * F32::four()).clamp(zero, one),
        camera_motion: (mean_speed / reference_speed.max(F32::ratio(1, 1000))).clamp(zero, one),
        depth_complexity: (F32::from_u32(t.discontinuities) / count).clamp(zero, one),
        pacing_instability: zero,
    }
}

/// Turn the totals over `n` pixels into signals.
///
/// The residual is a mean that tends to about a third for unrelated images, so
/// it saturates at a quarter; so does a mean-luminance jump.
pub fn summarize_pair(t: PairTotals, n: u32, reference_speed: F32) -> (s: Signals)
    ensures
        s == signals_of(t, n, reference_speed),
{
    let count = F32::from_u32(n);
    let zero = F32::zero();
    let one = F32::one();
    let mean_residual = if t.residual_norm.gt(F64::zero()) {
        (t.residual / t.residual_norm).to_f32()
    } else {
        zero
    };
    let mean_speed = (t.speed / count.to_f64()).to_f32();
    let luma_delta = ((t.luma_next - t.luma_prev).abs() / count.to_f64()).to_f32();
    Signals {
        disocclusion: zero,
        motion_residual: (mean_residual * F32::four()).clamp(zero, one),
        luma_shift: (luma_delta * F32::four()).clamp(zero, one),
        camera_motion: (mean_speed / reference_speed.max(F32::ratio(1, 1000))).clamp(zero, one),
        depth_complexity: (F32::from_u32(t.discontinuities) / count).clamp(zero, one),
        pacing_instability: zero,
    }
}

/// Measure the rung-independent signals from a pair of consecutive frames.
///
/// `next.motion` points from each pixel of `next` back to where that surface was
/// in `prev`. Disocclusion and pacing instability are left at zero: the first
/// comes from reconstruction and the second from the pacer. `reference_speed` is
/// the velocity, in pixels per frame, that reads as full camera motion.
pub fn measure_pair(prev: &GBuffer, next: &GBuffer, reference_speed: F32) -> (s: Signals)
    requires
        prev.wf(),
        next.wf(),
        prev.spec_width() == next.spec_width(),
        prev.spec_height() == next.spec_height(),
        next.spec_width() * next.spec_height() <= u32::MAX,
    ensures
        s == signals_of(
            pair_totals(prev, next, (next.spec_width() * next.spec_height()) as nat),
            (next.spec_width() * next.spec_height()) as u32,
            reference_speed,
        ),
{
    let w: u32 = next.width();
    let h: u32 = next.height();
    let n: u32 = w * h;
    let mut t = PairTotals {
        residual: F64::zero(),
        residual_norm: F64::zero(),
        speed: F64::zero(),
        luma_prev: F64::zero(),
        luma_next: F64::zero(),
        discontinuities: 0,
    };
    let mut k: u32 = 0;
    let mut x: u32 = 0;
    let mut y: u32 = 0;
    proof {
        next.color.lemma_wf();
        assert(0 * w == 0) by (nonlinear_arith);
    }
    while k < n
        invariant
            prev.wf(),
            next.wf(),
            w == next.spec_width(),
            h == next.spec_height(),
            w > 0,
            n == w * h,
            k <= n,
            x < w,
            y <= h,
            k == y * w + x,
            k < n ==> y < h,
            t.discontinuities <= k,
            t == pair_totals(prev, next, k as nat),
        decreases n - k,
    {
        proof {
            lemma_place(x as int, y as int, w as int, h as int);
        }
        t = add_pixel(t, prev, next, x, y);
        k = k + 1;
        if x < w - 1 {
            x = x + 1;
        } else {
            proof {
                lemma_row_end(x as int, y as int, w as int);
            }
            x = 0;
            y = y + 1;
        }
        proof {
            lemma_row(k as int, x as int, y as int, w as int, h as int);
        }
    }
    summarize_pair(t, n, reference_speed)
}

} // verus!
