//! Scripted sequences, each aimed at one way reconstruction fails.
//!
//! A script turns a frame index into a [`Beat`]: what the camera is doing, what
//! the lighting is doing, and how much unexplained content is on screen. Two of
//! the scripts follow a sine, which the caller supplies.

use crate::fp::F32;
use crate::text::same_text;
use vstd::prelude::*;

verus! {

/// What is happening in one frame.
#[derive(Clone, Copy, Debug)]
pub struct Beat {
    /// Camera velocity in output pixels per frame, at parallax 1.
    pub velocity: [F32; 2],
    /// Additive luminance. Negative darkens.
    pub flash: F32,
    /// Fraction of pixels carrying content the motion vectors do not describe.
    pub particles: F32,
    /// Cut to an unrelated shot this frame.
    pub cut: bool,
    /// Multiplier on native render cost.
    pub load: F32,
}

impl Beat {
    /// Whether a beat has a horizontal velocity and is otherwise at rest.
    pub open spec fn only_moves(self, velocity: F32) -> bool {
        &&& self.velocity@ == seq![velocity, F32::zero()]
        &&& self.flash == F32::zero()
        &&& self.particles == F32::zero()
        &&& !self.cut
        &&& self.load == F32::one()
    }
}

fn moving(velocity: F32) -> (b: Beat)
    ensures
        b.only_moves(velocity),
{
    let b = Beat { velocity: [velocity, F32::zero()], ..Beat::default() };
    assert(b.velocity@ =~= seq![velocity, F32::zero()]);
    b
}

impl Default for Beat {
    fn default() -> (b: Self)
        ensures
            b.only_moves(F32::zero()),
    {
        let b = Beat {
            velocity: [F32::zero(), F32::zero()],
            flash: F32::zero(),
            particles: F32::zero(),
            cut: false,
            load: F32::one(),
        };
        assert(b.velocity@ =~= seq![F32::zero(), F32::zero()]);
        b
    }
}

/// What drives a scenario.
#[derive(Clone, Copy, PartialEq, Eq, Structural, Debug)]
pub enum Script {
    /// A slow pan.
    Calm,
    /// Calm, a hard whip pan, then calm again.
    Whip,
    /// Two cuts: one that darkens, and one that keeps the exposure.
    Cuts,
    /// A burst of effects that the motion vectors say nothing about.
    Particles,
    /// A pan across thin geometry.
    FencePan,
    /// Render cost that swings while reconstruction stays easy.
    LoadSwing,
}

/// Half a turn, to the nearest number.
pub open spec fn spec_half_turn() -> F32 {
    F32 { bits: 0x4049_0fdb }
}

/// A full turn, to the nearest number.
pub open spec fn spec_full_turn() -> F32 {
    F32 { bits: 0x40c9_0fdb }
}

impl Script {
    /// The angle whose sine a frame needs, if it needs one.
    pub open spec fn spec_angle(self, i: u32) -> Option<F32> {
        match self {
            Script::Particles => if 500 <= i < 800 {
                Some(F32::from_u32((i - 500) as u32) / F32::ratio(300, 1) * spec_half_turn())
            } else {
                None
            },
            Script::LoadSwing => Some(F32::from_u32(i) / F32::ratio(300, 1) * spec_full_turn()),
            _ => None,
        }
    }

    /// The angle whose sine a frame needs, if it needs one.
    #[verifier::when_used_as_spec(spec_angle)]
    pub fn angle(self, i: u32) -> (a: Option<F32>)
        ensures
            a == self.spec_angle(i),
    {
        match self {
            Script::Particles => if i >= 500 && i < 800 {
                Some(F32::from_u32(i - 500) / F32::ratio(300, 1) * F32 { bits: 0x4049_0fdb })
            } else {
                None
            },
            Script::LoadSwing => Some(
                F32::from_u32(i) / F32::ratio(300, 1) * F32 { bits: 0x40c9_0fdb },
            ),
            _ => None,
        }
    }

    /// Whether a beat is what the script has for a frame, given the sine of its
    /// angle.
    pub open spec fn plays(self, i: u32, sine: F32, b: Beat) -> bool {
        let calm = F32::ratio(6, 10);
        match self {
            Script::Calm => b.only_moves(calm),
            Script::Whip => b.only_moves(
                if 500 <= i < 700 {
                    F32::ratio(16, 1)
                } else {
                    calm
                },
            ),
            Script::Cuts => {
                &&& (Beat { flash: F32::zero(), cut: false, ..b }).only_moves(calm)
                &&& b.flash == if i >= 500 {
                    F32::ratio(28, 100).neg()
                } else {
                    F32::zero()
                }
                &&& b.cut == (i == 500 || i == 1000)
            },
            Script::Particles => {
                &&& (Beat { particles: F32::zero(), ..b }).only_moves(calm)
                &&& b.particles == if 500 <= i < 800 {
                    F32::ratio(45, 100) * sine
                } else {
                    F32::zero()
                }
            },
            Script::FencePan => b.only_moves(F32::ratio(12, 10)),
            Script::LoadSwing => {
                &&& (Beat { load: F32::one(), ..b }).only_moves(calm)
                &&& b.load == F32::one() + F32::ratio(55, 100) * sine
            },
        }
    }

    /// What is happening in a frame, given the sine of its angle.
    pub fn beat(self, i: u32, sine: F32) -> (b: Beat)
        ensures
            self.plays(i, sine, b),
    {
        let calm = F32::ratio(6, 10);
        match self {
            Script::Calm => moving(calm),
            Script::Whip => moving(
                if i >= 500 && i < 700 {
                    F32::ratio(16, 1)
                } else {
                    calm
                },
            ),
            Script::Cuts => Beat {
                flash: if i >= 500 {
                    F32::ratio(28, 100).neg()
                } else {
                    F32::zero()
                },
                cut: i == 500 || i == 1000,
                ..moving(calm)
            },
            Script::Particles => Beat {
                particles: if i >= 500 && i < 800 {
                    F32::ratio(45, 100) * sine
                } else {
                    F32::zero()
                },
                ..moving(calm)
            },
            Script::FencePan => moving(F32::ratio(12, 10)),
            Script::LoadSwing => Beat {
                load: F32::one() + F32::ratio(55, 100) * sine,
                ..moving(calm)
            },
        }
    }
}

/// A named sequence.
#[derive(Clone, Copy, Debug)]
pub struct Scenario {
    /// Identifier, as passed on the command line.
    pub name: &'static str,
    /// What it is for, and what the controller ought to do.
    pub blurb: &'static str,
    /// Length in rendered frames.
    pub frames: u32,
    /// Use the thin-geometry scene instead of open terrain.
    pub fence: bool,
    /// The script.
    pub script: Script,
}

/// How many scenarios there are.
pub const SCENARIOS: usize = 6;

/// Every scenario, by its place in the catalogue.
pub open spec fn spec_scenario(k: int) -> Scenario {
    if k == 0 {
        Scenario {
            name: "calm-pan",
            blurb: "A slow pan over open terrain. Nothing is wrong. The controller should climb to the rung that meets the budget and then stop moving — a system that fidgets on easy content will fidget on everything.",
            frames: 1200,
            fence: false,
            script: Script::Calm,
        }
    } else if k == 1 {
        Scenario {
            name: "whip-turn",
            blurb: "A fast whip pan between calm stretches. Parallax opens large disocclusions, so temporal reconstruction has nothing to work from. Expect generated frames to be discarded during the whip and the ladder to climb back after it, slowly.",
            frames: 1500,
            fence: false,
            script: Script::Whip,
        }
    } else if k == 2 {
        Scenario {
            name: "scene-cut",
            blurb: "Two cuts. The first changes exposure and takes the hard path: collapse to spatial, long cooldown. The second does not, so the cut detector abstains and disocclusion catches it instead — same discard, gentler response. Defense in depth, on purpose.",
            frames: 1500,
            fence: false,
            script: Script::Cuts,
        }
    } else if k == 3 {
        Scenario {
            name: "particle-burst",
            blurb: "Effects the G-buffer never mentions. Geometry stays perfectly well behaved, so depth and motion vectors report a healthy frame throughout; only photo-consistency notices anything. This is the failure that makes shipped frame generation look broken.",
            frames: 1200,
            fence: false,
            script: Script::Particles,
        }
    } else if k == 4 {
        Scenario {
            name: "fence",
            blurb: "A pan across thin geometry — bars a couple of pixels wide, clean at native and gone by half resolution. Nothing here is a temporal problem; it is spatial. The ladder should cap low and stay there, probing the next rung now and then and backing off each time, rather than trading detail it cannot get back.",
            frames: 1200,
            fence: true,
            script: Script::FencePan,
        }
    } else {
        Scenario {
            name: "load-swing",
            blurb: "Render cost rises and falls while reconstruction stays easy. Only the perf governor has any business reacting. If the quality ceiling moves here, the two governors are coupled through something they should not be.",
            frames: 1200,
            fence: false,
            script: Script::LoadSwing,
        }
    }
}

/// Every scenario the simulator knows.
pub fn catalogue() -> (v: Vec<Scenario>)
    ensures
        v.len() == SCENARIOS,
        forall|k: int| 0 <= k < SCENARIOS ==> #[trigger] v[k] == spec_scenario(k),
{
    vec![
        Scenario {
            name: "calm-pan",
            blurb: "A slow pan over open terrain. Nothing is wrong. The controller should climb to the rung that meets the budget and then stop moving — a system that fidgets on easy content will fidget on everything.",
            frames: 1200,
            fence: false,
            script: Script::Calm,
        },
        Scenario {
            name: "whip-turn",
            blurb: "A fast whip pan between calm stretches. Parallax opens large disocclusions, so temporal reconstruction has nothing to work from. Expect generated frames to be discarded during the whip and the ladder to climb back after it, slowly.",
            frames: 1500,
            fence: false,
            script: Script::Whip,
        },
        Scenario {
            name: "scene-cut",
            blurb: "Two cuts. The first changes exposure and takes the hard path: collapse to spatial, long cooldown. The second does not, so the cut detector abstains and disocclusion catches it instead — same discard, gentler response. Defense in depth, on purpose.",
            frames: 1500,
            fence: false,
            script: Script::Cuts,
        },
        Scenario {
            name: "particle-burst",
            blurb: "Effects the G-buffer never mentions. Geometry stays perfectly well behaved, so depth and motion vectors report a healthy frame throughout; only photo-consistency notices anything. This is the failure that makes shipped frame generation look broken.",
            frames: 1200,
            fence: false,
            script: Script::Particles,
        },
        Scenario {
            name: "fence",
            blurb: "A pan across thin geometry — bars a couple of pixels wide, clean at native and gone by half resolution. Nothing here is a temporal problem; it is spatial. The ladder should cap low and stay there, probing the next rung now and then and backing off each time, rather than trading detail it cannot get back.",
            frames: 1200,
            fence: true,
            script: Script::FencePan,
        },
        Scenario {
            name: "load-swing",
            blurb: "Render cost rises and falls while reconstruction stays easy. Only the perf governor has any business reacting. If the quality ceiling moves here, the two governors are coupled through something they should not be.",
            frames: 1200,
            fence: false,
            script: Script::LoadSwing,
        },
    ]
}

/// Look up a scenario by name.
pub fn by_name(name: &str) -> (found: Option<Scenario>)
    ensures
        match found {
            Some(s) => exists|k: int|
                0 <= k < SCENARIOS && s == #[trigger] spec_scenario(k) && s.name@ == name@
                    && forall|j: int| 0 <= j < k ==> (#[trigger] spec_scenario(j)).name@ != name@,
            None => forall|k: int|
                0 <= k < SCENARIOS ==> (#[trigger] spec_scenario(k)).name@ != name@,
        },
{
    let all = catalogue();
    let mut k: usize = 0;
    while k < all.len()
        invariant
            k <= all.len(),
            all.len() == SCENARIOS,
            forall|j: int| 0 <= j < SCENARIOS ==> #[trigger] all[j] == spec_scenario(j),
            forall|j: int| 0 <= j < k ==> (#[trigger] spec_scenario(j)).name@ != name@,
        decreases all.len() - k,
    {
        assert(all[k as int] == spec_scenario(k as int));
        if same_text(all[k].name, name) {
            return Some(all[k]);
        }
        k = k + 1;
    }
    None
}

} // verus!
