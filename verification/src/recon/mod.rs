//! The reconstruction passes.
//!
//! In the order a frame moves through them:
//!
//! 1. [`reproject`](reproject::reproject): warp the previous frame into the
//!    current one along the motion vectors, and report where that fails.
//! 2. [`interpolate_midpoint`](interpolate::interpolate_midpoint): build a frame
//!    that was never rendered from the two on either side of it.
//! 3. [`easu`](easu::easu): edge-adaptive spatial upsampling.
//! 4. [`rcas`](rcas::rcas): sharpening that will not clip.

pub mod easu;
pub mod interpolate;
pub mod rcas;
pub mod reproject;

pub use easu::{easu, EasuConfig};
pub use interpolate::{interpolate_midpoint, InterpolateConfig, Interpolated};
pub use rcas::rcas;
pub use reproject::{reproject, ReprojectConfig, Reprojected};

use crate::fp::F32;
use vstd::prelude::*;

verus! {

/// Relative difference between two depths, in `0..=1`.
pub open spec fn spec_relative_depth_delta(a: F32, b: F32) -> F32 {
    let scale = a.abs().max(b.abs()).max(F32::ratio(1, 10000));
    ((a - b).abs() / scale).min(F32::one())
}

/// Relative difference between two depths, in `0..=1`.
///
/// Relative, because a discrepancy that is a disocclusion at arm's length is
/// rounding error on a mountain.
#[verifier::when_used_as_spec(spec_relative_depth_delta)]
pub fn relative_depth_delta(a: F32, b: F32) -> (d: F32)
    ensures
        d == spec_relative_depth_delta(a, b),
{
    let scale = a.abs().max(b.abs()).max(F32::ratio(1, 10000));
    ((a - b).abs() / scale).min(F32::one())
}

/// Validity from a relative error: 1 up to the tolerance, 0 from twice it on,
/// and a ramp between.
pub open spec fn spec_soft_validity(error: F32, tolerance: F32) -> F32 {
    let t = tolerance.max(F32::ratio(1, 1000000));
    if error.le(t) {
        F32::one()
    } else if error.ge(F32::two() * t) {
        F32::zero()
    } else {
        F32::one() - (error - t) / t
    }
}

/// Validity from a relative error: 1 up to the tolerance, 0 from twice it on,
/// and a ramp between. A hard mask would stamp its own edges into the output.
#[verifier::when_used_as_spec(spec_soft_validity)]
pub fn soft_validity(error: F32, tolerance: F32) -> (v: F32)
    ensures
        v == spec_soft_validity(error, tolerance),
{
    let t = tolerance.max(F32::ratio(1, 1000000));
    if error.le(t) {
        F32::one()
    } else if error.ge(F32::two() * t) {
        F32::zero()
    } else {
        F32::one() - (error - t) / t
    }
}

} // verus!
