//! Why the controller did what it did.
//!
//! An adaptive system that cannot explain itself is untunable, so every
//! decision is logged with the signal that dominated it.

use crate::fp::F32;
use crate::level::{rung, LEVELS};
use crate::signals::SignalKind;
use crate::text::{decimal32, digits, push_decimal32, push_number};
use std::collections::VecDeque;
use vstd::prelude::*;
use vstd::string::*;

verus! {

/// What the controller decided about one frame.
#[derive(Clone, Copy, Debug, PartialEq, Eq, Structural)]
pub enum DecisionKind {
    /// Reconstruction was trusted and shown.
    Presented,
    /// A generated frame was thrown away.
    Discarded,
    /// A real frame was shown, but the rung lost the controller's trust.
    Degraded,
}

/// One entry in the decision log.
#[derive(Clone, Copy, Debug)]
pub struct Decision {
    /// Monotonic frame index.
    pub frame: u64,
    /// Rung in use when the decision was made.
    pub level: u8,
    /// Quality ceiling after the decision.
    pub ceiling: u8,
    /// Confidence score for the frame.
    pub confidence: F32,
    /// What was decided.
    pub kind: DecisionKind,
    /// Signal that dominated the score. Meaningful mostly on rejections.
    pub dominant: SignalKind,
    /// Whether this frame was judged a hard cut.
    pub scene_cut: bool,
}

/// Rolling decision log plus lifetime counters.
#[derive(Clone, Debug)]
pub struct Telemetry {
    /// The retained decisions, oldest first.
    pub history: VecDeque<Decision>,
    /// How many decisions are retained at most.
    pub capacity: usize,
    /// Frames the controller has resolved.
    pub frames: u64,
    /// Frames whose reconstruction was accepted.
    pub presented: u64,
    /// Generated frames thrown away.
    pub discarded: u64,
    /// Frames that were shown but cost the rung its trust.
    pub degraded: u64,
    /// Hard cuts detected.
    pub scene_cuts: u64,
    /// Rejections attributed to each signal, indexed as [`SignalKind::ALL`].
    pub rejections_by_signal: [u64; 6],
    /// Frames spent on each rung.
    pub frames_at_level: [u64; 7],
    /// Total frames handed to the display, generated ones included.
    pub frames_presented_to_display: u64,
    /// Total frames the renderer actually drew.
    pub frames_rendered: u64,
}

/// The sum of some counters.
pub open spec fn tally(s: Seq<u64>) -> nat
    decreases s.len(),
{
    if s.len() == 0 {
        0
    } else {
        tally(s.drop_last()) + s.last() as nat
    }
}

/// Raising one counter raises the sum.
proof fn lemma_tally_update(s: Seq<u64>, i: int)
    requires
        0 <= i < s.len(),
        s[i] < u64::MAX,
    ensures
        tally(s.update(i, (s[i] + 1) as u64)) == tally(s) + 1,
    decreases s.len(),
{
    let t = s.update(i, (s[i] + 1) as u64);
    if i == s.len() - 1 {
        assert(t.drop_last() =~= s.drop_last());
    } else {
        assert(t.drop_last() =~= s.drop_last().update(i, (s[i] + 1) as u64));
        lemma_tally_update(s.drop_last(), i);
    }
}

/// No counter is above the sum.
proof fn lemma_tally_bound(s: Seq<u64>, i: int)
    requires
        0 <= i < s.len(),
    ensures
        s[i] <= tally(s),
    decreases s.len(),
{
    if i < s.len() - 1 {
        lemma_tally_bound(s.drop_last(), i);
    }
}

/// Counters that are all zero.
proof fn lemma_tally_zero(s: Seq<u64>)
    requires
        forall|i: int| 0 <= i < s.len() ==> s[i] == 0,
    ensures
        tally(s) == 0,
    decreases s.len(),
{
    if s.len() > 0 {
        lemma_tally_zero(s.drop_last());
    }
}

/// Where a signal stands in [`SignalKind::ALL`].
pub open spec fn spec_signal_index(k: SignalKind) -> int {
    match k {
        SignalKind::Disocclusion => 0,
        SignalKind::MotionResidual => 1,
        SignalKind::LumaShift => 2,
        SignalKind::CameraMotion => 3,
        SignalKind::DepthComplexity => 4,
        SignalKind::PacingInstability => 5,
    }
}

fn signal_index(k: SignalKind) -> (i: usize)
    ensures
        i == spec_signal_index(k),
        SignalKind::ALL[i as int] == k,
{
    let all = SignalKind::ALL;
    let mut i: usize = 0;
    while i < 5 && all[i] != k
        invariant
            i <= 5,
            all@ == SignalKind::ALL@,
            forall|j: int| 0 <= j < i ==> SignalKind::ALL[j] != k,
        decreases 5 - i,
    {
        i = i + 1;
    }
    proof {
        assert(SignalKind::ALL[spec_signal_index(k)] == k);
    }
    i
}

impl Default for Telemetry {
    fn default() -> (t: Self)
        ensures
            t.fresh(256),
    {
        Self::with_capacity(256)
    }
}

impl Telemetry {
    /// The retained decisions, oldest first.
    pub open spec fn log(&self) -> Seq<Decision> {
        self.history@
    }

    /// How many decisions are retained at most.
    pub open spec fn limit(&self) -> nat {
        self.capacity as nat
    }

    /// The counters account for every frame, and the log is bounded.
    pub open spec fn wf(&self) -> bool {
        &&& self.limit() >= 1
        &&& self.log().len() <= self.limit()
        &&& self.presented + self.discarded + self.degraded == self.frames
        &&& self.frames_rendered == self.frames
        &&& self.scene_cuts <= self.frames
        &&& tally(self.rejections_by_signal@) == self.discarded + self.degraded
        &&& tally(self.frames_at_level@) == self.frames
    }

    /// Nothing recorded yet.
    pub open spec fn fresh(&self, limit: nat) -> bool {
        &&& self.wf()
        &&& self.limit() == limit
        &&& self.log() == Seq::<Decision>::empty()
        &&& self.frames == 0
        &&& self.frames_presented_to_display == 0
    }

    /// A log retaining the last `capacity` decisions, at least one.
    pub fn with_capacity(capacity: usize) -> (t: Self)
        ensures
            t.fresh(if capacity > 1 {
                capacity as nat
            } else {
                1
            }),
    {
        let t = Telemetry {
            history: VecDeque::with_capacity(capacity),
            capacity: if capacity > 1 {
                capacity
            } else {
                1
            },
            frames: 0,
            presented: 0,
            discarded: 0,
            degraded: 0,
            scene_cuts: 0,
            rejections_by_signal: [0; 6],
            frames_at_level: [0; 7],
            frames_presented_to_display: 0,
            frames_rendered: 0,
        };
        proof {
            lemma_tally_zero(t.rejections_by_signal@);
            lemma_tally_zero(t.frames_at_level@);
        }
        t
    }

    /// The rung a decision counts for.
    pub open spec fn slot(level: u8) -> int {
        if level < LEVELS {
            level as int
        } else {
            LEVELS - 1
        }
    }

    /// What one more decision makes of the counters and the log.
    pub open spec fn records(&self, d: Decision, shown: u32, next: &Telemetry) -> bool {
        let rejected = d.kind != DecisionKind::Presented;
        let i = spec_signal_index(d.dominant);
        let l = Self::slot(d.level);
        &&& next.limit() == self.limit()
        &&& next.log() == (if self.log().len() == self.limit() {
            self.log().drop_first()
        } else {
            self.log()
        }).push(d)
        &&& next.frames == self.frames + 1
        &&& next.frames_rendered == self.frames_rendered + 1
        &&& next.frames_presented_to_display == self.frames_presented_to_display + shown
        &&& next.presented == self.presented + if d.kind == DecisionKind::Presented { 1int } else { 0 }
        &&& next.discarded == self.discarded + if d.kind == DecisionKind::Discarded { 1int } else { 0 }
        &&& next.degraded == self.degraded + if d.kind == DecisionKind::Degraded { 1int } else { 0 }
        &&& next.scene_cuts == self.scene_cuts + if d.scene_cut { 1int } else { 0 }
        &&& next.frames_at_level@ == self.frames_at_level@.update(
            l,
            (self.frames_at_level[l] + 1) as u64,
        )
        &&& next.rejections_by_signal@ == (if rejected {
            self.rejections_by_signal@.update(i, (self.rejections_by_signal[i] + 1) as u64)
        } else {
            self.rejections_by_signal@
        })
    }

    /// Log one decision, which handed `shown` frames to the display.
    pub fn record(&mut self, d: Decision, shown: u32)
        requires
            old(self).wf(),
            old(self).frames < u64::MAX,
            old(self).frames_presented_to_display + shown <= u64::MAX,
        ensures
            final(self).wf(),
            old(self).records(d, shown, final(self)),
    {
        let level: usize = if (d.level as usize) < LEVELS {
            d.level as usize
        } else {
            LEVELS - 1
        };
        let index: usize = signal_index(d.dominant);
        proof {
            lemma_tally_bound(self.frames_at_level@, level as int);
            lemma_tally_bound(self.rejections_by_signal@, index as int);
            lemma_tally_update(self.frames_at_level@, level as int);
            lemma_tally_update(self.rejections_by_signal@, index as int);
        }
        self.frames = self.frames + 1;
        self.frames_rendered = self.frames_rendered + 1;
        self.frames_presented_to_display = self.frames_presented_to_display + shown as u64;
        self.frames_at_level[level] = self.frames_at_level[level] + 1;

        match d.kind {
            DecisionKind::Presented => {
                self.presented = self.presented + 1;
            },
            DecisionKind::Discarded => {
                self.discarded = self.discarded + 1;
            },
            DecisionKind::Degraded => {
                self.degraded = self.degraded + 1;
            },
        }
        if d.kind != DecisionKind::Presented {
            self.rejections_by_signal[index] = self.rejections_by_signal[index] + 1;
        }
        if d.scene_cut {
            self.scene_cuts = self.scene_cuts + 1;
        }
        if self.history.len() == self.capacity {
            let _ = self.history.pop_front();
        }
        self.history.push_back(d);
        assert(self.log() =~= (if old(self).log().len() == old(self).limit() {
            old(self).log().drop_first()
        } else {
            old(self).log()
        }).push(d));
    }

    /// The retained decisions, oldest first.
    pub fn history(&self) -> (v: Vec<Decision>)
        ensures
            v@ == self.log(),
    {
        let mut v: Vec<Decision> = Vec::new();
        let mut i: usize = 0;
        while i < self.history.len()
            invariant
                i <= self.history@.len(),
                v@ == self.history@.subrange(0, i as int),
            decreases self.history@.len() - i,
        {
            v.push(self.history[i]);
            i = i + 1;
            assert(v@ =~= self.history@.subrange(0, i as int));
        }
        assert(v@ =~= self.log());
        v
    }

    /// The most recent decision, if any.
    pub fn last(&self) -> (d: Option<&Decision>)
        ensures
            match d {
                Some(x) => self.log().len() > 0 && *x == self.log().last(),
                None => self.log().len() == 0,
            },
    {
        let n: usize = self.history.len();
        if n == 0 {
            None
        } else {
            Some(&self.history[n - 1])
        }
    }

    /// Presented frames per rendered frame over the run; one before any.
    pub open spec fn spec_boost_ratio(&self) -> F32 {
        if self.frames_rendered == 0 {
            F32::one()
        } else {
            F32::from_u64(self.frames_presented_to_display) / F32::from_u64(self.frames_rendered)
        }
    }

    /// Presented frames per rendered frame over the run; one before any.
    #[verifier::when_used_as_spec(spec_boost_ratio)]
    pub fn boost_ratio(&self) -> (r: F32)
        ensures
            r == self.spec_boost_ratio(),
    {
        if self.frames_rendered == 0 {
            return F32::one();
        }
        F32::from_u64(self.frames_presented_to_display) / F32::from_u64(self.frames_rendered)
    }

    /// Fraction of frames whose reconstruction was rejected; none before any.
    pub open spec fn spec_discard_rate(&self) -> F32 {
        if self.frames == 0 {
            F32::zero()
        } else {
            F32::from_u64((self.discarded + self.degraded) as u64) / F32::from_u64(self.frames)
        }
    }

    /// Fraction of frames whose reconstruction was rejected; none before any.
    #[verifier::when_used_as_spec(spec_discard_rate)]
    pub fn discard_rate(&self) -> (r: F32)
        requires
            self.wf(),
        ensures
            r == self.spec_discard_rate(),
    {
        if self.frames == 0 {
            return F32::zero();
        }
        F32::from_u64(self.discarded + self.degraded) / F32::from_u64(self.frames)
    }

    /// The cost of the frames on the first `n` rungs.
    pub open spec fn cost_below(&self, n: nat) -> F32
        decreases n,
    {
        if n == 0 {
            F32::zero()
        } else {
            self.cost_below((n - 1) as nat) + rung((n - 1) as u8).relative_cost() * F32::from_u64(
                self.frames_at_level[n - 1],
            )
        }
    }

    /// Mean cost per presented frame relative to native; one before any frame.
    pub open spec fn spec_mean_relative_cost(&self) -> F32 {
        if self.frames == 0 {
            F32::one()
        } else {
            self.cost_below(LEVELS as nat) / F32::from_u64(self.frames)
        }
    }

    /// Mean cost per presented frame relative to native; one before any frame.
    #[verifier::when_used_as_spec(spec_mean_relative_cost)]
    pub fn mean_relative_cost(&self) -> (r: F32)
        ensures
            r == self.spec_mean_relative_cost(),
    {
        if self.frames == 0 {
            return F32::one();
        }
        let mut total = F32::zero();
        let mut level: u8 = 0;
        while (level as usize) < LEVELS
            invariant
                level <= LEVELS,
                total == self.cost_below(level as nat),
            decreases LEVELS - level,
        {
            total = total + rung(level).relative_cost() * F32::from_u64(
                self.frames_at_level[level as usize],
            );
            level = level + 1;
        }
        total / F32::from_u64(self.frames)
    }

    /// The signal behind the most rejections, the last one where several are
    /// level. There is one exactly when something was rejected.
    pub open spec fn is_worst(&self, worst: Option<SignalKind>) -> bool {
        match worst {
            Some(k) => {
                let i = spec_signal_index(k);
                &&& self.rejections_by_signal[i] > 0
                &&& forall|j: int|
                    0 <= j < 6 ==> #[trigger] self.rejections_by_signal[j]
                        <= self.rejections_by_signal[i]
                &&& forall|j: int|
                    i < j < 6 ==> #[trigger] self.rejections_by_signal[j]
                        < self.rejections_by_signal[i]
            },
            None => forall|j: int| 0 <= j < 6 ==> #[trigger] self.rejections_by_signal[j] == 0,
        }
    }

    /// Signal responsible for the most rejections, if there were any.
    pub fn worst_signal(&self) -> (worst: Option<SignalKind>)
        ensures
            self.is_worst(worst),
    {
        let all = SignalKind::ALL;
        let mut best: usize = 0;
        let mut i: usize = 1;
        while i < 6
            invariant
                1 <= i <= 6,
                best < i,
                forall|j: int|
                    0 <= j < i ==> #[trigger] self.rejections_by_signal[j]
                        <= self.rejections_by_signal[best as int],
                forall|j: int|
                    best < j < i ==> #[trigger] self.rejections_by_signal[j]
                        < self.rejections_by_signal[best as int],
            decreases 6 - i,
        {
            if self.rejections_by_signal[i] >= self.rejections_by_signal[best] {
                best = i;
            }
            i = i + 1;
        }
        if self.rejections_by_signal[best] > 0 {
            Some(all[best])
        } else {
            None
        }
    }

    /// The one-line summary, given the signal to blame.
    pub open spec fn summary_text(&self, worst: Option<SignalKind>) -> Seq<char> {
        digits(self.frames as nat) + " frames, boost "@ + decimal32(self.boost_ratio(), 2)
            + "x, cost "@ + decimal32(self.mean_relative_cost(), 2) + "x native, "@ + decimal32(
            self.discard_rate() * F32::ratio(100, 1),
            1,
        ) + "% rejected"@ + (match worst {
            Some(k) => " (mostly "@ + k.spec_name()@ + ")"@,
            None => seq![],
        })
    }

    /// A one-line summary.
    pub fn summary(&self) -> (s: String)
        requires
            self.wf(),
        ensures
            exists|worst: Option<SignalKind>|
                self.is_worst(worst) && s@ == #[trigger] self.summary_text(worst),
    {
        let worst = self.worst_signal();
        let mut s = String::new();
        push_number(&mut s, self.frames);
        s.append(" frames, boost ");
        push_decimal32(&mut s, self.boost_ratio(), 2);
        s.append("x, cost ");
        push_decimal32(&mut s, self.mean_relative_cost(), 2);
        s.append("x native, ");
        push_decimal32(&mut s, self.discard_rate() * F32::ratio(100, 1), 1);
        s.append("% rejected");
        match worst {
            Some(k) => {
                s.append(" (mostly ");
                s.append(k.name());
                s.append(")");
            },
            None => {},
        }
        assert(s@ =~= self.summary_text(worst));
        s
    }
}

} // verus!
