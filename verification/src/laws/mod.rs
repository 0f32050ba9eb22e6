//! What holds of the library as a whole, beyond what each function says of
//! itself.

pub mod accounting;
pub mod control;
pub mod device;
pub mod edges;
pub mod evidence;
pub mod filling;
pub mod grading;
pub mod ladder;
pub mod measuring;
pub mod mixing;
pub mod motion;
pub mod pacing;
pub mod recon;
pub mod reporting;
pub mod sampling;
pub mod scenery;
pub mod sharpening;
pub mod smoothing;
pub mod spacing;
pub mod trust;
pub mod upsampling;
pub mod wording;
