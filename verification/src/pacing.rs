//! Present-time scheduling for generated frames.
//!
//! A generated frame has a deadline. The pacer estimates the rendered-frame
//! interval, spreads generated frames evenly over it, and reports how irregular
//! the intervals have been.
//!
//! To place an image between two frames the later one must exist, so
//! interpolation holds the earlier frame back by a full interval:
//!
//! ```text
//!   rendered:   A-------B-------C-------
//!   presented:  --------A---M---B---M---
//! ```

use crate::fp::{F32, F64};
use crate::governor::{frame_time, spec_frame_time};
use crate::level::{BoostRung, GenMode};
use vstd::prelude::*;

verus! {

/// Which image a slot presents.
#[derive(Clone, Copy, Debug, PartialEq)]
pub enum SlotKind {
    /// A frame the renderer actually drew. Under interpolation this is the
    /// older end of the interval, released now that the newer one exists.
    Rendered,
    /// A frame that was never rendered.
    Generated {
        /// Zero-based index among the generated frames of this interval.
        index: u32,
        /// Position between the endpoints; above 1, past the newest one.
        t: F32,
    },
}

/// One scheduled presentation.
#[derive(Clone, Copy, Debug, PartialEq)]
pub struct PresentSlot {
    /// Deadline, on the clock fed to [`FramePacer::on_rendered`].
    pub at_ns: u64,
    /// What to show.
    pub kind: SlotKind,
}

/// How many recent intervals feed the instability estimate.
pub const WINDOW: usize = 16;

/// What a [`FramePacer`] knows.
pub struct PacerState {
    /// Smoothed interval, in nanoseconds.
    pub interval_ema_ns: F64,
    /// When the last frame was rendered.
    pub last_render_ns: Option<u64>,
    /// The recent intervals, in a ring.
    pub window: Seq<F64>,
    /// How many places of the ring hold an interval.
    pub filled: nat,
    /// The place the next interval goes to.
    pub cursor: nat,
}

impl PacerState {
    /// The ring has its size, and its marks are within it.
    pub open spec fn valid(self) -> bool {
        &&& self.window.len() == WINDOW
        &&& self.filled <= WINDOW
        &&& self.cursor < WINDOW
    }

    /// The state once a rendered frame has completed. A clock that stood still
    /// or went back teaches nothing about the interval.
    pub open spec fn rendered(self, now_ns: u64) -> PacerState {
        match self.last_render_ns {
            Some(prev) if prev < now_ns => {
                let dt = F64::from_u64((now_ns - prev) as u64);
                PacerState {
                    interval_ema_ns: self.interval_ema_ns + F64::ratio(15, 100) * (dt
                        - self.interval_ema_ns),
                    last_render_ns: Some(now_ns),
                    window: self.window.update(self.cursor as int, dt),
                    filled: if self.filled < WINDOW {
                        self.filled + 1
                    } else {
                        self.filled
                    },
                    cursor: (self.cursor + 1) % (WINDOW as nat),
                }
            },
            _ => PacerState { last_render_ns: Some(now_ns), ..self },
        }
    }

    /// Smoothed interval in whole nanoseconds, at least one.
    pub open spec fn interval(self) -> u64 {
        self.interval_ema_ns.max(F64::one()).to_u64()
    }

    /// The mean of the recent intervals.
    pub open spec fn mean(self) -> F64 {
        total(self.window, self.filled) / F64::from_u64(self.filled as u64)
    }

    /// The spread of the recent intervals relative to their mean, which
    /// saturates at a quarter. Nothing is said before there are four.
    pub open spec fn instability(self) -> F32 {
        let mean = self.mean();
        if self.filled < 4 || mean.le(F64::zero()) {
            F32::zero()
        } else {
            let var = spread(self.window, mean, self.filled) / F64::from_u64(self.filled as u64);
            ((var.sqrt() / mean).to_f32() / F32::ratio(1, 4)).clamp(F32::zero(), F32::one())
        }
    }

    /// Where in the interval the generated frame `i` belongs.
    pub open spec fn offset(self, count: u32, i: u32) -> F64 {
        let step = F64::from_u64(self.interval()) / F64::from_u32((count + 1) as u32);
        step * F64::from_u32((i + 1) as u32)
    }

    /// How long after the rendered frame the generated frame `i` is due, in whole
    /// nanoseconds: where it belongs, and at least one later than the frame
    /// before it.
    pub open spec fn delay(self, count: u32, i: u32) -> u64 {
        let ns = self.offset(count, i).to_u64();
        if ns > i {
            ns
        } else {
            (i + 1) as u64
        }
    }

    /// The slot of the generated frame `i`.
    pub open spec fn generated_slot(self, rung: BoostRung, at: u64, i: u32) -> PresentSlot {
        let offset = self.offset(rung.generated_per_rendered, i);
        let frac = (offset / F64::from_u64(self.interval())).to_f32();
        PresentSlot {
            at_ns: (at + self.delay(rung.generated_per_rendered, i)) as u64,
            kind: SlotKind::Generated {
                index: i,
                t: if rung.gen_mode == GenMode::Extrapolate {
                    F32::one() + frac
                } else {
                    frac
                },
            },
        }
    }

    /// Whether the clock has room for every slot, and the slots can be counted.
    pub open spec fn has_time_for(self, rung: BoostRung, at: u64) -> bool {
        rung.gen_mode != GenMode::Off ==> {
            &&& rung.generated_per_rendered < u32::MAX
            &&& forall|i: u32|
                i < rung.generated_per_rendered ==> at + #[trigger] self.delay(
                    rung.generated_per_rendered,
                    i,
                ) <= u64::MAX
        }
    }

    /// The slots unblocked by a frame: the rendered one at once, then the
    /// generated ones.
    pub open spec fn slots(self, rung: BoostRung, at: u64) -> Seq<PresentSlot> {
        let first = PresentSlot { at_ns: at, kind: SlotKind::Rendered };
        if rung.generated_per_rendered == 0 || rung.gen_mode == GenMode::Off {
            seq![first]
        } else {
            seq![first] + Seq::new(
                rung.generated_per_rendered as nat,
                |i: int| self.generated_slot(rung, at, i as u32),
            )
        }
    }
}

/// The sum of the first `n` numbers.
pub open spec fn total(s: Seq<F64>, n: nat) -> F64
    decreases n,
{
    if n == 0 {
        F64::zero()
    } else {
        total(s, (n - 1) as nat) + s[n - 1]
    }
}

/// The sum of the first `n` squared distances from a mean.
pub open spec fn spread(s: Seq<F64>, mean: F64, n: nat) -> F64
    decreases n,
{
    if n == 0 {
        F64::zero()
    } else {
        spread(s, mean, (n - 1) as nat) + (s[n - 1] - mean) * (s[n - 1] - mean)
    }
}

/// Estimates the rendered-frame interval and places generated frames in it.
#[derive(Clone, Debug)]
pub struct FramePacer {
    interval_ema_ns: F64,
    last_render_ns: Option<u64>,
    window: [F64; 16],
    filled: usize,
    cursor: usize,
}

impl View for FramePacer {
    type V = PacerState;

    closed spec fn view(&self) -> PacerState {
        PacerState {
            interval_ema_ns: self.interval_ema_ns,
            last_render_ns: self.last_render_ns,
            window: self.window@,
            filled: self.filled as nat,
            cursor: self.cursor as nat,
        }
    }
}

/// An expected interval made usable: at least one nanosecond.
pub open spec fn spec_seed(expected_interval_ns: u64) -> F64 {
    F64::from_u64(
        if expected_interval_ns > 1 {
            expected_interval_ns
        } else {
            1
        },
    )
}

impl FramePacer {
    /// A pacer seeded with an expected interval.
    pub fn new(expected_interval_ns: u64) -> (p: Self)
        ensures
            p@.valid(),
            p@ == (PacerState {
                interval_ema_ns: spec_seed(expected_interval_ns),
                last_render_ns: None,
                window: Seq::new(WINDOW as nat, |i: int| spec_seed(expected_interval_ns)),
                filled: 0,
                cursor: 0,
            }),
    {
        let seed = F64::from_u64(
            if expected_interval_ns > 1 {
                expected_interval_ns
            } else {
                1
            },
        );
        let p = FramePacer {
            interval_ema_ns: seed,
            last_render_ns: None,
            window: [seed; 16],
            filled: 0,
            cursor: 0,
        };
        assert(p.window@ =~= Seq::new(WINDOW as nat, |i: int| spec_seed(expected_interval_ns)));
        p
    }

    /// A pacer for a target refresh rate.
    pub fn for_target_fps(fps: F32) -> (p: Self)
        ensures
            p@.valid(),
            p@ == (PacerState {
                interval_ema_ns: spec_seed(spec_frame_time(fps)),
                last_render_ns: None,
                window: Seq::new(WINDOW as nat, |i: int| spec_seed(spec_frame_time(fps))),
                filled: 0,
                cursor: 0,
            }),
    {
        Self::new(frame_time(fps))
    }

    /// Discard the interval history.
    ///
    /// Call this whenever something legitimately changes the rendered-frame
    /// interval, a rung change above all. Variation that the controller caused
    /// is explained, and must not come back to it as evidence. The smoothed
    /// interval is kept: it is the best estimate there is, and it re-converges.
    pub fn reset(&mut self)
        ensures
            final(self)@ == (PacerState {
                last_render_ns: None,
                filled: 0,
                cursor: 0,
                ..old(self)@
            }),
            old(self)@.valid() ==> final(self)@.valid(),
    {
        self.last_render_ns = None;
        self.filled = 0;
        self.cursor = 0;
    }

    /// Record that a rendered frame completed.
    pub fn on_rendered(&mut self, now_ns: u64)
        requires
            old(self)@.valid(),
        ensures
            final(self)@ == old(self)@.rendered(now_ns),
            final(self)@.valid(),
    {
        if let Some(prev) = self.last_render_ns {
            if prev < now_ns {
                let dt = F64::from_u64(now_ns - prev);
                self.interval_ema_ns = self.interval_ema_ns + F64::ratio(15, 100) * (dt
                    - self.interval_ema_ns);
                self.window[self.cursor] = dt;
                self.cursor = (self.cursor + 1) % WINDOW;
                if self.filled < WINDOW {
                    self.filled = self.filled + 1;
                }
            }
        }
        self.last_render_ns = Some(now_ns);
    }

    /// Smoothed rendered-frame interval, in nanoseconds.
    pub fn interval_ns(&self) -> (ns: u64)
        ensures
            ns == self@.interval(),
    {
        self.interval_ema_ns.max(F64::one()).to_u64()
    }

    /// How irregular recent intervals have been, in `0..=1`.
    pub fn instability(&self) -> (v: F32)
        requires
            self@.valid(),
        ensures
            v == self@.instability(),
    {
        if self.filled < 4 {
            return F32::zero();
        }
        let n = F64::from_u64(self.filled as u64);
        let mut sum = F64::zero();
        let mut i: usize = 0;
        while i < self.filled
            invariant
                i <= self.filled <= WINDOW,
                sum == total(self.window@, i as nat),
            decreases self.filled - i,
        {
            sum = sum + self.window[i];
            i = i + 1;
        }
        let mean = sum / n;
        if mean.le(F64::zero()) {
            return F32::zero();
        }
        let mut square = F64::zero();
        let mut k: usize = 0;
        while k < self.filled
            invariant
                k <= self.filled <= WINDOW,
                square == spread(self.window@, mean, k as nat),
            decreases self.filled - k,
        {
            let d = self.window[k] - mean;
            square = square + d * d;
            k = k + 1;
        }
        let var = square / n;
        let cv = (var.sqrt() / mean).to_f32();
        let quarter = F32::ratio(1, 4);
        (cv / quarter).clamp(F32::zero(), F32::one())
    }

    /// Extra latency the rung adds at the current interval, in nanoseconds.
    pub fn added_latency_ns(&self, rung: &BoostRung) -> (ns: u64)
        ensures
            ns == (F64::from_u64(self@.interval()) * rung.added_latency_frames().to_f64()).to_u64(),
    {
        (F64::from_u64(self.interval_ns()) * rung.added_latency_frames().to_f64()).to_u64()
    }

    /// The presentation slots unblocked by the frame that finished at
    /// `rendered_at_ns`, in presentation order and strictly increasing in time.
    pub fn slots_for(&self, rung: &BoostRung, rendered_at_ns: u64) -> (slots: Vec<PresentSlot>)
        requires
            self@.has_time_for(*rung, rendered_at_ns),
        ensures
            slots@ == self@.slots(*rung, rendered_at_ns),
    {
        let count: u32 = rung.generated_per_rendered;
        let mut slots: Vec<PresentSlot> = Vec::new();
        slots.push(PresentSlot { at_ns: rendered_at_ns, kind: SlotKind::Rendered });
        if count == 0 || rung.gen_mode == GenMode::Off {
            assert(slots@ =~= self@.slots(*rung, rendered_at_ns));
            return slots;
        }
        let interval = F64::from_u64(self.interval_ns());
        let step = interval / F64::from_u32(count + 1);
        let mut i: u32 = 0;
        while i < count
            invariant
                i <= count,
                count == rung.generated_per_rendered,
                count < u32::MAX,
                count > 0,
                rung.gen_mode != GenMode::Off,
                interval == F64::from_u64(self@.interval()),
                step == interval / F64::from_u32((count + 1) as u32),
                forall|k: u32|
                    k < count ==> rendered_at_ns + #[trigger] self@.delay(count, k) <= u64::MAX,
                slots.len() == i + 1,
                slots[0] == (PresentSlot { at_ns: rendered_at_ns, kind: SlotKind::Rendered }),
                forall|k: int|
                    0 <= k < i ==> #[trigger] slots[k + 1] == self@.generated_slot(
                        *rung,
                        rendered_at_ns,
                        k as u32,
                    ),
            decreases count - i,
        {
            let offset = step * F64::from_u32(i + 1);
            assert(offset == self@.offset(count, i));
            let frac = (offset / interval).to_f32();
            let t = if rung.gen_mode == GenMode::Extrapolate {
                // Past the newest endpoint, into time that has not happened.
                F32::one() + frac
            } else {
                frac
            };
            let ns: u64 = offset.to_u64();
            let delay: u64 = if ns > i as u64 {
                ns
            } else {
                i as u64 + 1
            };
            assert(delay == self@.delay(count, i));
            let slot = PresentSlot {
                at_ns: rendered_at_ns + delay,
                kind: SlotKind::Generated { index: i, t },
            };
            assert(slot == self@.generated_slot(*rung, rendered_at_ns, i));
            slots.push(slot);
            i = i + 1;
        }
        proof {
            let want = self@.slots(*rung, rendered_at_ns);
            assert(slots@.len() == want.len());
            assert forall|k: int| 0 <= k < slots@.len() implies slots@[k] == want[k] by {
                if k > 0 {
                    assert(slots[(k - 1) + 1] == self@.generated_slot(
                        *rung,
                        rendered_at_ns,
                        (k - 1) as u32,
                    ));
                }
            }
            assert(slots@ =~= want);
        }
        slots
    }

    /// How far a presentation missed its slot, in nanoseconds. Negative is
    /// early, positive is late.
    pub fn pacing_error_ns(slot: &PresentSlot, actual_ns: u64) -> (e: i64)
        requires
            i64::MIN <= actual_ns - slot.at_ns <= i64::MAX,
        ensures
            e == actual_ns - slot.at_ns,
    {
        (actual_ns as i128 - slot.at_ns as i128) as i64
    }
}

} // verus!
