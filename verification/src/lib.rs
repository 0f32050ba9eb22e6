//! FrameBoost: present more frames than you render, and know when to stop.
//!
//! FrameBoost sits between a renderer and a swapchain. The renderer draws fewer
//! and smaller frames than the display consumes, and the difference is
//! reconstructed: in space by upscaling, in time by generating frames.
//!
//! Reconstruction is approximate, and when it is wrong it is visibly wrong. What
//! the library is about is the loop that watches its own output and gives the
//! boost back when reconstruction stops being trustworthy. There are two
//! governors and one rule between them: quality vetoes performance.
//!
//! - [`level`]: the boost ladder, what each rung costs and risks.
//! - [`signals`]: the evidence of a frame that reconstruction is going wrong.
//! - [`governor`]: the two governors, and the controller that arbitrates.
//! - [`pacing`]: present times for generated frames.
//! - [`recon`]: the reconstruction passes.
//! - [`telemetry`]: why the controller did what it did.
//! - [`gpu`]: what surrounds the passes where a device runs them.
//! - [`sim`]: a headless simulator that closes the loop.
//! - [`laws`]: what holds of all of it together.
//!
//! Numbers with a fraction are [`fp::F32`] and [`fp::F64`], which compute what
//! the machine's own single and double precision do, bit for bit. Sines, cosines
//! and decimal input are handed in by the caller.

pub mod fp;
pub mod frame;
pub mod governor;
pub mod gpu;
pub mod laws;
pub mod level;
pub mod pacing;
pub mod recon;
pub mod signals;
pub mod sim;
pub mod telemetry;
pub mod text;

pub use frame::{DepthBuffer, GBuffer, ImageBuffer, MotionBuffer};
pub use governor::{
    BoostController, ControllerConfig, DiscardReason, FrameOutcome, PerfConfig, PerfGovernor,
    QualityConfig, QualityGovernor, Verdict,
};
pub use level::{BoostPlan, BoostRung, GenMode};
pub use pacing::{FramePacer, PresentSlot, SlotKind};
pub use signals::{Confidence, SignalKind, SignalWeights, Signals};
pub use telemetry::{Decision, Telemetry};
