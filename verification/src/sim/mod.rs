//! A headless simulator: scripted scenarios, a synthetic renderer, and the
//! controller run against them in a closed loop.

pub mod harness;
pub mod options;
pub mod report;
pub mod scenario;
pub mod scene;

pub use harness::{run, Config, FrameRecord, Judgement, RunReport};
pub use scenario::{by_name, Beat, Scenario};
pub use scene::{Frame, Scene};
