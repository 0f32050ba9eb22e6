//! The boost ladder.
//!
//! Boost is an ordered ladder of rungs, each cheaper and riskier than the one
//! below it. The controller decides which rung the current frame has earned.
//!
//! Two levers are folded into that one order:
//!
//! - **Spatial**: render at a fraction of output resolution and upscale.
//! - **Temporal**: render every other frame and generate the ones in between.
//!
//! All the spatial rungs come first, because spatial reconstruction degrades
//! gracefully (a soft frame) while temporal reconstruction degrades
//! catastrophically (a frame that never existed).

use crate::fp::F32;
use crate::text::same_text;
use vstd::prelude::*;

verus! {

/// How a rung produces frames the renderer never drew.
#[derive(Clone, Copy, PartialEq, Eq, Structural, Debug)]
pub enum GenMode {
    /// Every presented frame was rendered.
    Off,
    /// Generate between two rendered frames. Both ends are known, but the later
    /// one must exist before the middle can be shown.
    Interpolate,
    /// Generate past the newest rendered frame by extending motion forward.
    /// Holds nothing back, and has no second end to constrain the result.
    Extrapolate,
}

/// One rung of the boost ladder.
#[derive(Clone, Copy, Debug)]
pub struct BoostRung {
    /// Stable identifier, for logs and configuration.
    pub name: &'static str,
    /// Linear render resolution as a fraction of output.
    pub render_scale: F32,
    /// Frames generated per rendered frame.
    pub generated_per_rendered: u32,
    /// How generated frames are produced.
    pub gen_mode: GenMode,
    /// Artifact risk in `0..=1` before any evidence. It lengthens the wait
    /// before a rung that failed is tried again.
    pub a_priori_risk: F32,
}

/// Number of rungs on the ladder.
pub const LEVELS: usize = 7;

/// Highest valid rung index.
pub const MAX_LEVEL: u8 = 6;

/// Reconstruction overhead per presented frame, as a fraction of a native
/// frame: 4%.
pub open spec fn spec_recon_cost() -> F32 {
    F32::ratio(4, 100)
}

/// Reconstruction overhead per presented frame, as a fraction of a native
/// frame: 4%.
#[verifier::when_used_as_spec(spec_recon_cost)]
pub fn recon_cost() -> (c: F32)
    ensures
        c == spec_recon_cost(),
{
    F32::ratio(4, 100)
}

impl BoostRung {
    /// Presented frames per rendered frame.
    pub open spec fn spec_presented_per_rendered(&self) -> u32 {
        (1 + self.generated_per_rendered) as u32
    }

    /// Presented frames per rendered frame.
    #[verifier::when_used_as_spec(spec_presented_per_rendered)]
    pub fn presented_per_rendered(&self) -> (n: u32)
        requires
            self.generated_per_rendered < u32::MAX,
        ensures
            n == self.spec_presented_per_rendered(),
            n == 1 + self.generated_per_rendered,
    {
        1 + self.generated_per_rendered
    }

    /// Cost per presented frame relative to native: the pixels drawn, spread
    /// over every frame presented, and the reconstruction pass.
    pub open spec fn spec_relative_cost(&self) -> F32 {
        (self.render_scale * self.render_scale) / F32::from_u32(self.presented_per_rendered())
            + spec_recon_cost()
    }

    /// Cost per presented frame relative to native: the pixels drawn, spread
    /// over every frame presented, and the reconstruction pass.
    #[verifier::when_used_as_spec(spec_relative_cost)]
    pub fn relative_cost(&self) -> (c: F32)
        requires
            self.generated_per_rendered < u32::MAX,
        ensures
            c == self.spec_relative_cost(),
    {
        let render = self.render_scale * self.render_scale;
        render / F32::from_u32(self.presented_per_rendered()) + recon_cost()
    }

    /// Extra latency in rendered-frame intervals. Only interpolation has any:
    /// it holds a frame back until the next one exists.
    pub open spec fn spec_added_latency_frames(&self) -> F32 {
        match self.gen_mode {
            GenMode::Off => F32::zero(),
            GenMode::Extrapolate => F32::zero(),
            GenMode::Interpolate => F32::one(),
        }
    }

    /// Extra latency in rendered-frame intervals. Only interpolation has any:
    /// it holds a frame back until the next one exists.
    #[verifier::when_used_as_spec(spec_added_latency_frames)]
    pub fn added_latency_frames(&self) -> (n: F32)
        ensures
            n == self.spec_added_latency_frames(),
    {
        match self.gen_mode {
            GenMode::Off => F32::zero(),
            GenMode::Extrapolate => F32::zero(),
            GenMode::Interpolate => F32::one(),
        }
    }

    /// Whether this rung reprojects across time.
    pub open spec fn spec_is_temporal(&self) -> bool {
        self.gen_mode != GenMode::Off
    }

    /// Whether this rung reprojects across time.
    #[verifier::when_used_as_spec(spec_is_temporal)]
    pub fn is_temporal(&self) -> (b: bool)
        ensures
            b == self.spec_is_temporal(),
    {
        self.gen_mode != GenMode::Off
    }

    /// One side of the render size: the output side scaled, rounded, and at
    /// least one.
    pub open spec fn scaled_side(&self, side: u32) -> u32 {
        let n = (F32::from_u32(side) * self.render_scale).round().to_u32();
        if n < 1 {
            1
        } else {
            n
        }
    }

    fn scale_side(&self, side: u32) -> (n: u32)
        ensures
            n == self.scaled_side(side),
    {
        let n = (F32::from_u32(side) * self.render_scale).round().to_u32();
        if n < 1 {
            1
        } else {
            n
        }
    }

    /// Render dimensions for an output size. Never empty.
    pub fn render_size(&self, out_w: u32, out_h: u32) -> (size: (u32, u32))
        ensures
            size.0 == self.scaled_side(out_w),
            size.1 == self.scaled_side(out_h),
            size.0 >= 1,
            size.1 >= 1,
    {
        (self.scale_side(out_w), self.scale_side(out_h))
    }
}

/// A rung, with its decimals given in hundredths.
pub open spec fn rung_of(
    name: &'static str,
    scale: u32,
    generated: u32,
    gen_mode: GenMode,
    risk: u32,
) -> BoostRung {
    BoostRung {
        name,
        render_scale: F32::ratio(scale, 100),
        generated_per_rendered: generated,
        gen_mode,
        a_priori_risk: F32::ratio(risk, 100),
    }
}

fn make_rung(
    name: &'static str,
    scale: u32,
    generated: u32,
    gen_mode: GenMode,
    risk: u32,
) -> (r: BoostRung)
    ensures
        r == rung_of(name, scale, generated, gen_mode, risk),
{
    BoostRung {
        name,
        render_scale: F32::ratio(scale, 100),
        generated_per_rendered: generated,
        gen_mode,
        a_priori_risk: F32::ratio(risk, 100),
    }
}

/// The ladder from honest to aggressive. Levels past the top are the top.
pub open spec fn spec_rung(level: u8) -> BoostRung {
    if level == 0 {
        rung_of("native", 100, 0, GenMode::Off, 0)
    } else if level == 1 {
        rung_of("ultra_quality", 77, 0, GenMode::Off, 10)
    } else if level == 2 {
        rung_of("quality", 67, 0, GenMode::Off, 18)
    } else if level == 3 {
        rung_of("balanced", 59, 0, GenMode::Off, 28)
    } else if level == 4 {
        rung_of("performance", 50, 0, GenMode::Off, 40)
    } else if level == 5 {
        rung_of("performance_gen", 50, 1, GenMode::Interpolate, 65)
    } else {
        rung_of("ultra_performance_gen", 33, 1, GenMode::Interpolate, 85)
    }
}

/// Look up a rung, saturating at the top of the ladder.
#[verifier::when_used_as_spec(spec_rung)]
pub fn rung(level: u8) -> (r: BoostRung)
    ensures
        r == spec_rung(level),
{
    if level == 0 {
        make_rung("native", 100, 0, GenMode::Off, 0)
    } else if level == 1 {
        make_rung("ultra_quality", 77, 0, GenMode::Off, 10)
    } else if level == 2 {
        make_rung("quality", 67, 0, GenMode::Off, 18)
    } else if level == 3 {
        make_rung("balanced", 59, 0, GenMode::Off, 28)
    } else if level == 4 {
        make_rung("performance", 50, 0, GenMode::Off, 40)
    } else if level == 5 {
        make_rung("performance_gen", 50, 1, GenMode::Interpolate, 65)
    } else {
        make_rung("ultra_performance_gen", 33, 1, GenMode::Interpolate, 85)
    }
}

/// Every rung, in order.
pub fn ladder() -> (rungs: Vec<BoostRung>)
    ensures
        rungs.len() == LEVELS,
        forall|i: int| 0 <= i < LEVELS ==> rungs[i] == spec_rung(i as u8),
{
    let mut rungs: Vec<BoostRung> = Vec::new();
    let mut level: u8 = 0;
    while level <= MAX_LEVEL
        invariant
            level <= LEVELS,
            rungs.len() == level,
            forall|i: int| 0 <= i < level ==> rungs[i] == spec_rung(i as u8),
        decreases LEVELS - level,
    {
        rungs.push(rung(level));
        level = level + 1;
    }
    rungs
}

/// Lowest rung that reprojects across time: where "degrades softly" ends.
pub fn first_temporal_level() -> (l: u8)
    ensures
        l <= MAX_LEVEL,
        spec_rung(l).spec_is_temporal(),
        forall|k: u8| k < l ==> !spec_rung(k).spec_is_temporal(),
        l == 5,
{
    let mut l: u8 = 0;
    while l < MAX_LEVEL && !rung(l).is_temporal()
        invariant
            l <= 5,
            forall|k: u8| k < l ==> !spec_rung(k).spec_is_temporal(),
        decreases MAX_LEVEL - l,
    {
        l = l + 1;
    }
    l
}

/// Highest rung that does not reproject across time.
pub fn highest_spatial_level() -> (l: u8)
    ensures
        !spec_rung(l).spec_is_temporal(),
        spec_rung((l + 1) as u8).spec_is_temporal(),
        l == 4,
{
    first_temporal_level() - 1
}

/// Find a rung index by name.
pub fn level_by_name(name: &str) -> (found: Option<u8>)
    ensures
        match found {
            Some(l) => l <= MAX_LEVEL && spec_rung(l).name@ == name@ && forall|k: u8|
                k < l ==> spec_rung(k).name@ != name@,
            None => forall|k: u8| spec_rung(k).name@ != name@,
        },
{
    let mut l: u8 = 0;
    while l <= MAX_LEVEL
        invariant
            l <= LEVELS,
            forall|k: u8| k < l ==> spec_rung(k).name@ != name@,
        decreases LEVELS - l,
    {
        if same_text(rung(l).name, name) {
            return Some(l);
        }
        l = l + 1;
    }
    assert(spec_rung(6).name@ != name@);
    assert forall|k: u8| spec_rung(k).name@ != name@ by {
        if k > 6 {
            assert(spec_rung(k) == spec_rung(6));
        }
    }
    None
}

/// What the controller wants the renderer to do this frame.
#[derive(Clone, Copy, Debug)]
pub struct BoostPlan {
    /// Index of the rung.
    pub level: u8,
    /// The rung itself.
    pub rung: BoostRung,
    /// Width the renderer should draw at.
    pub render_width: u32,
    /// Height the renderer should draw at.
    pub render_height: u32,
    /// Whether a frame should be generated after this rendered frame.
    pub generate: bool,
}

} // verus!
