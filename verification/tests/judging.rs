//! Signals, confidence and the decision log.

use frameboost::fp::F32;
use frameboost::frame::{DepthBuffer, GBuffer, ImageBuffer, MotionBuffer};
use frameboost::level::{level_by_name, rung, BoostRung};
use frameboost::signals::{measure_pair, SignalKind, SignalWeight, SignalWeights, Signals};
use frameboost::telemetry::{Decision, DecisionKind, Telemetry};

fn s(x: f32) -> F32 {
    F32::from_bits(x.to_bits())
}

fn v(x: F32) -> f32 {
    f32::from_bits(x.to_bits())
}

fn spatial() -> BoostRung {
    rung(level_by_name("quality").unwrap())
}

fn temporal() -> BoostRung {
    rung(level_by_name("performance_gen").unwrap())
}

#[test]
fn a_clean_frame_is_trusted_everywhere() {
    let w = SignalWeights::default();
    let c = Signals::clean();
    assert!(v(c.confidence(&spatial(), &w).value) > 0.95);
    assert!(v(c.confidence(&temporal(), &w).value) > 0.95);
}

#[test]
fn disocclusion_sinks_temporal_but_not_spatial() {
    let w = SignalWeights::default();
    let c = Signals { disocclusion: s(0.75), ..Signals::clean() };
    assert!(v(c.confidence(&temporal(), &w).value) < 0.15);
    assert!(v(c.confidence(&spatial(), &w).value) > 0.95);
}

#[test]
fn thin_geometry_sinks_spatial() {
    let w = SignalWeights::default();
    let c = Signals { depth_complexity: s(0.95), ..Signals::clean() };
    assert!(v(c.confidence(&spatial(), &w).value) < 0.6);
}

#[test]
fn a_saturated_veto_signal_zeroes_confidence_alone() {
    let w = SignalWeights::default();
    for (kind, c) in [
        (SignalKind::Disocclusion, Signals { disocclusion: s(1.0), ..Default::default() }),
        (SignalKind::MotionResidual, Signals { motion_residual: s(1.0), ..Default::default() }),
    ] {
        let c = c.confidence(&temporal(), &w);
        assert_eq!(v(c.value), 0.0, "{kind:?} should be able to veto alone");
        assert_eq!(c.dominant, kind);
    }
}

#[test]
fn dominant_signal_is_reported() {
    let w = SignalWeights::default();
    let c = Signals { disocclusion: s(0.10), motion_residual: s(0.60), ..Signals::clean() };
    assert_eq!(c.confidence(&temporal(), &w).dominant, SignalKind::MotionResidual);
}

#[test]
fn a_cut_needs_both_residual_and_luma() {
    let w = SignalWeights::default();
    assert!(Signals::scene_cut().is_scene_cut(&w));
    let whip = Signals { motion_residual: s(0.90), luma_shift: s(0.05), ..Signals::clean() };
    assert!(!whip.is_scene_cut(&w));
    let fade = Signals { motion_residual: s(0.10), luma_shift: s(0.80), ..Signals::clean() };
    assert!(!fade.is_scene_cut(&w));
}

#[test]
fn deadband_rescaling_preserves_the_extreme() {
    for deadband in [0.0f32, 0.3, 0.6, 0.9] {
        let sw = SignalWeight::new(s(1.0), s(deadband));
        assert!((v(sw.penalty(s(1.0))) - 1.0).abs() < 1e-5);
        assert_eq!(v(sw.penalty(s(deadband))), 0.0);
    }
}

#[test]
fn non_finite_signals_fail_closed() {
    let w = SignalWeights::default();
    let c = Signals { disocclusion: s(f32::NAN), ..Signals::clean() };
    assert_eq!(v(c.confidence(&temporal(), &w).value), 0.0);
}

#[test]
fn sanitizing_bounds_every_signal() {
    let c = Signals {
        disocclusion: s(f32::INFINITY),
        motion_residual: s(f32::NEG_INFINITY),
        luma_shift: s(-3.0),
        camera_motion: s(7.5),
        depth_complexity: s(0.25),
        pacing_instability: s(f32::NAN),
    }
    .sanitized();
    assert_eq!(c.as_array().map(v), [1.0, 1.0, 0.0, 1.0, 0.25, 1.0]);
}

#[test]
fn the_clean_score_on_a_spatial_rung() {
    // Every signal of a clean frame stays within its deadband.
    let w = SignalWeights::default();
    assert_eq!(v(Signals::clean().confidence(&spatial(), &w).value), 1.0);
}

#[test]
fn signals_have_stable_names() {
    let names: Vec<&str> = SignalKind::ALL.iter().map(|k| k.name()).collect();
    assert_eq!(
        names,
        vec![
            "disocclusion",
            "motion_residual",
            "luma_shift",
            "camera_motion",
            "depth_complexity",
            "pacing_instability"
        ]
    );
}

fn flat(luma: f32, depth: f32, mv: [f32; 2]) -> GBuffer {
    GBuffer::new(
        ImageBuffer::new(8, 8, [s(luma), s(luma), s(luma), s(1.0)]),
        DepthBuffer::new(8, 8, s(depth)),
        MotionBuffer::new(8, 8, [s(mv[0]), s(mv[1])]),
    )
}

#[test]
fn a_still_pair_measures_clean() {
    let a = flat(0.5, 2.0, [0.0, 0.0]);
    let m = measure_pair(&a, &a, s(8.0));
    assert_eq!(m.as_array().map(v), [0.0; 6]);
}

#[test]
fn a_flash_measures_as_residual_and_luma_shift() {
    let m = measure_pair(&flat(0.1, 2.0, [0.0, 0.0]), &flat(0.9, 2.0, [0.0, 0.0]), s(8.0));
    assert!(v(m.motion_residual) > 0.7, "{}", v(m.motion_residual));
    assert!(v(m.luma_shift) > 0.7, "{}", v(m.luma_shift));
    assert_eq!(v(m.camera_motion), 0.0);
    assert_eq!(v(m.depth_complexity), 0.0);
}

#[test]
fn speed_is_measured_against_the_reference() {
    let m = measure_pair(&flat(0.5, 2.0, [0.0, 0.0]), &flat(0.5, 2.0, [4.0, 0.0]), s(8.0));
    assert_eq!(v(m.camera_motion), 0.5);
}

fn decision(frame: u64, level: u8, kind: DecisionKind) -> Decision {
    Decision {
        frame,
        level,
        ceiling: 6,
        confidence: s(0.9),
        kind,
        dominant: SignalKind::Disocclusion,
        scene_cut: false,
    }
}

#[test]
fn history_is_bounded() {
    let mut t = Telemetry::with_capacity(4);
    for i in 0..10 {
        t.record(decision(i, 0, DecisionKind::Presented), 1);
    }
    assert_eq!(t.history().len(), 4);
    assert_eq!(t.last().unwrap().frame, 9);
    assert_eq!(t.frames, 10);
    let kept: Vec<u64> = t.history().iter().map(|d| d.frame).collect();
    assert_eq!(kept, vec![6, 7, 8, 9]);
}

#[test]
fn boost_ratio_counts_generated_frames() {
    let mut t = Telemetry::default();
    for i in 0..10 {
        t.record(decision(i, 5, DecisionKind::Presented), 2);
    }
    assert!((v(t.boost_ratio()) - 2.0).abs() < 1e-6);
}

#[test]
fn discarding_pulls_the_boost_ratio_back_down() {
    let mut t = Telemetry::default();
    for i in 0..5 {
        t.record(decision(i, 5, DecisionKind::Presented), 2);
    }
    for i in 5..10 {
        t.record(decision(i, 5, DecisionKind::Discarded), 1);
    }
    assert!((v(t.boost_ratio()) - 1.5).abs() < 1e-6);
    assert!((v(t.discard_rate()) - 0.5).abs() < 1e-6);
}

#[test]
fn worst_signal_is_none_when_nothing_was_rejected() {
    let mut t = Telemetry::default();
    t.record(decision(0, 0, DecisionKind::Presented), 1);
    assert!(t.worst_signal().is_none());
}

#[test]
fn an_empty_log_has_neutral_figures() {
    let t = Telemetry::default();
    assert_eq!(v(t.boost_ratio()), 1.0);
    assert_eq!(v(t.discard_rate()), 0.0);
    assert_eq!(v(t.mean_relative_cost()), 1.0);
    assert!(t.last().is_none());
    assert_eq!(t.summary(), "0 frames, boost 1.00x, cost 1.00x native, 0.0% rejected");
}

#[test]
fn the_summary_names_the_worst_signal() {
    let mut t = Telemetry::default();
    t.record(decision(0, 0, DecisionKind::Presented), 1);
    t.record(decision(1, 5, DecisionKind::Discarded), 1);
    assert_eq!(t.worst_signal(), Some(SignalKind::Disocclusion));
    assert_eq!(
        t.summary(),
        format!(
            "2 frames, boost {:.2}x, cost {:.2}x native, {:.1}% rejected (mostly disocclusion)",
            1.0f32,
            v(t.mean_relative_cost()),
            50.0f32
        )
    );
}
