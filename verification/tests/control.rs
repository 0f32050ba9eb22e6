//! The two governors and the controller between them.

use frameboost::fp::{F32, F64};
use frameboost::governor::{
    BoostController, ControllerConfig, DiscardReason, PerfConfig, PerfGovernor, QualityConfig,
    QualityGovernor, Verdict,
};
use frameboost::level::{highest_spatial_level, level_by_name, rung, MAX_LEVEL};
use frameboost::signals::Signals;

const OVER_BUDGET: u64 = 25_000_000;
const UNDER_BUDGET: u64 = 8_000_000;

fn s(x: f32) -> F32 {
    F32::from_bits(x.to_bits())
}

fn v(x: F32) -> f32 {
    f32::from_bits(x.to_bits())
}

fn vd(x: F64) -> f64 {
    f64::from_bits(x.to_bits())
}

fn controller() -> BoostController {
    BoostController::new(ControllerConfig::for_target_fps(3840, 2160, s(60.0)))
}

fn run(ctl: &mut BoostController, frames: u32, frame_ns: u64, signals: &Signals) {
    for _ in 0..frames {
        ctl.plan(frame_ns);
        ctl.resolve(signals);
    }
}

#[test]
fn starts_honest() {
    let ctl = controller();
    assert_eq!(ctl.level(), 0);
    assert_eq!(ctl.ceiling(), MAX_LEVEL);
}

#[test]
fn climbs_when_over_budget_and_clean() {
    let mut ctl = controller();
    run(&mut ctl, 400, OVER_BUDGET, &Signals::clean());
    assert!(ctl.level() > 0, "level {}", ctl.level());
    assert!(v(ctl.telemetry().boost_ratio()) >= 1.0);
}

#[test]
fn gives_rungs_back_when_headroom_appears() {
    let mut ctl = controller();
    run(&mut ctl, 400, OVER_BUDGET, &Signals::clean());
    let boosted = ctl.level();
    assert!(boosted > 0);
    run(&mut ctl, 600, UNDER_BUDGET, &Signals::clean());
    assert!(
        ctl.level() < boosted,
        "expected to give rungs back: {boosted} -> {}",
        ctl.level()
    );
}

#[test]
fn holds_still_when_the_budget_is_met() {
    let mut ctl = controller();
    let target = ctl.perf().config().target_frame_ns;
    run(&mut ctl, 500, target, &Signals::clean());
    assert_eq!(ctl.level(), 0);
}

fn run_closed_loop(
    ctl: &mut BoostController,
    frames: u32,
    native_ns: u64,
    signals: &Signals,
) -> Vec<u8> {
    let mut frame_ns = native_ns;
    let mut levels = Vec::with_capacity(frames as usize);
    for _ in 0..frames {
        let plan = ctl.plan(frame_ns);
        ctl.resolve(signals);
        frame_ns = (native_ns as f64 * v(plan.rung.relative_cost()) as f64) as u64;
        levels.push(plan.level);
    }
    levels
}

#[test]
fn does_not_hunt_between_rungs() {
    for native_ms in [20.0f64, 35.0, 55.0, 70.0, 120.0, 400.0] {
        let mut ctl = controller();
        let native_ns = (native_ms * 1e6) as u64;
        let levels = run_closed_loop(&mut ctl, 2000, native_ns, &Signals::clean());
        let settled = &levels[1500..];
        let first = settled[0];
        assert!(
            settled.iter().all(|l| *l == first),
            "hunted at {native_ms} ms native: settled to {:?}",
            &settled[..40.min(settled.len())]
        );
    }
}

#[test]
fn settles_on_a_rung_that_actually_meets_the_budget() {
    let mut ctl = controller();
    let native_ns = 70_000_000u64;
    run_closed_loop(&mut ctl, 2000, native_ns, &Signals::clean());

    let level = ctl.level();
    let achieved = native_ns as f64 * v(rung(level).relative_cost()) as f64;
    let budget = ctl.perf().config().target_frame_ns as f64 * 1.05;
    assert!(achieved <= budget, "rung {level} misses the budget: {achieved} ns");

    if level > 0 {
        let one_less = native_ns as f64 * v(rung(level - 1).relative_cost()) as f64;
        assert!(one_less > budget, "rung {} would have done: overshot", level - 1);
    }
}

#[test]
fn the_native_cost_estimate_is_stable_across_rungs() {
    let native_ns = 90_000_000u64;
    for level in 0..=MAX_LEVEL {
        let mut perf = PerfGovernor::new(PerfConfig::default());
        let frame_ns = (native_ns as f64 * v(rung(level).relative_cost()) as f64) as u64;
        for _ in 0..200 {
            perf.observe(frame_ns, level, level);
        }
        let est = vd(perf.estimated_native_ns(level));
        let err = (est - native_ns as f64).abs() / native_ns as f64;
        assert!(err < 0.01, "rung {level} estimated {est} ns, off by {err:.3}");
    }
}

#[test]
fn quality_vetoes_performance() {
    let mut ctl = controller();
    let awful =
        Signals { disocclusion: s(0.95), depth_complexity: s(0.95), ..Signals::clean() };
    run(&mut ctl, 1000, OVER_BUDGET, &awful);
    assert_eq!(ctl.level(), 0, "boosted into a scene it cannot reconstruct");
    assert_eq!(ctl.ceiling(), 0);
}

#[test]
fn a_generated_frame_is_discarded_not_shown() {
    let mut ctl = controller();
    run(&mut ctl, 900, OVER_BUDGET, &Signals::clean());
    let gen_level = level_by_name("performance_gen").unwrap();
    if ctl.level() < gen_level {
        run(&mut ctl, 2000, OVER_BUDGET, &Signals::clean());
    }
    assert!(ctl.rung().is_temporal(), "test needs a temporal rung");

    ctl.plan(OVER_BUDGET);
    let out = ctl.resolve(&Signals { disocclusion: s(0.95), ..Signals::clean() });
    assert!(matches!(out.verdict, Verdict::Discard { .. }));
    assert_eq!(out.frames_presented, 1);
}

#[test]
fn native_frames_are_never_rejected() {
    let mut q = QualityGovernor::new(QualityConfig::default());
    let hopeless = Signals {
        disocclusion: s(1.0),
        motion_residual: s(1.0),
        luma_shift: s(1.0),
        camera_motion: s(1.0),
        depth_complexity: s(1.0),
        pacing_instability: s(1.0),
    };
    for _ in 0..500 {
        assert!(
            matches!(q.evaluate(0, &hopeless), Verdict::Present { .. }),
            "native must always present"
        );
    }
    assert!(q.ceiling() > 0, "ceiling never recovered from native");
}

#[test]
fn difficult_content_settles_instead_of_collapsing() {
    let mut ctl = controller();
    let unresolvable =
        Signals { depth_complexity: s(1.0), camera_motion: s(1.0), ..Signals::clean() };
    run(&mut ctl, 3000, OVER_BUDGET, &unresolvable);
    assert!(ctl.level() <= 1, "boosted into content it cannot resolve");
    assert!(
        v(ctl.telemetry().discard_rate()) < 0.20,
        "thrashing rather than settling: {:.2}",
        v(ctl.telemetry().discard_rate())
    );
}

#[test]
fn a_spatial_rung_degrades_rather_than_discarding() {
    let mut q = QualityGovernor::new(QualityConfig::default());
    let spatial = level_by_name("balanced").unwrap();
    let got = q.evaluate(
        spatial,
        &Signals { depth_complexity: s(1.0), camera_motion: s(1.0), ..Signals::clean() },
    );
    assert!(matches!(got, Verdict::Degrade { .. }), "{got:?}");
}

#[test]
fn a_scene_cut_retreats_to_spatial_not_to_native() {
    let mut q = QualityGovernor::new(QualityConfig::default());
    let gen = level_by_name("performance_gen").unwrap();
    let got = q.evaluate(gen, &Signals::scene_cut());
    assert_eq!(
        got,
        Verdict::Discard { reason: DiscardReason::SceneCut, confidence: s(0.0) }
    );
    assert_eq!(q.ceiling(), highest_spatial_level());
    assert_eq!(q.cooldown(), QualityConfig::default().cut_cooldown_frames);
}

#[test]
fn cooldown_blocks_an_immediate_reclimb() {
    let mut q = QualityGovernor::new(QualityConfig::default());
    let start = q.ceiling();
    q.evaluate(start, &Signals { disocclusion: s(1.0), ..Signals::clean() });
    let dropped = q.ceiling();
    assert!(dropped < start);
    let cfg = QualityConfig::default();
    for _ in 0..(cfg.growth_interval + 5) {
        q.evaluate(dropped, &Signals::clean());
    }
    assert_eq!(q.ceiling(), dropped, "climbed back during cooldown");
}

#[test]
fn recovers_after_the_cooldown_expires() {
    let mut q = QualityGovernor::new(QualityConfig::default());
    let start = q.ceiling();
    q.evaluate(start, &Signals { disocclusion: s(1.0), ..Signals::clean() });
    let dropped = q.ceiling();
    for _ in 0..3000 {
        q.evaluate(dropped, &Signals::clean());
    }
    assert!(q.ceiling() > dropped, "never recovered");
    assert_eq!(q.ceiling(), start, "should recover all the way");
}

#[test]
fn riskier_rungs_earn_longer_probation() {
    let bad = Signals {
        disocclusion: s(1.0),
        motion_residual: s(1.0),
        depth_complexity: s(1.0),
        camera_motion: s(1.0),
        ..Signals::clean()
    };
    let mut low = QualityGovernor::new(QualityConfig::default());
    low.evaluate(level_by_name("quality").unwrap(), &bad);
    let mut high = QualityGovernor::new(QualityConfig::default());
    high.evaluate(level_by_name("ultra_performance_gen").unwrap(), &bad);
    assert!(high.cooldown() > low.cooldown());
}

#[test]
fn recovery_is_gradual_not_a_snap_back() {
    let mut ctl = controller();
    let awful =
        Signals { disocclusion: s(0.99), depth_complexity: s(0.99), ..Signals::clean() };
    run(&mut ctl, 1500, OVER_BUDGET, &awful);
    assert_eq!(ctl.level(), 0);
    assert_eq!(ctl.desired(), 0, "perf demand should be pinned to the ceiling");

    let mut jumps = 0;
    let mut prev = ctl.level();
    for _ in 0..3000 {
        ctl.plan(OVER_BUDGET);
        ctl.resolve(&Signals::clean());
        if ctl.level() > prev + 1 {
            jumps += 1;
        }
        prev = ctl.level();
    }
    assert_eq!(jumps, 0, "level jumped more than one rung at a time");
    assert!(ctl.level() > 0, "never recovered");
}

#[test]
fn backs_off_from_the_rung_that_failed() {
    let mut q = QualityGovernor::new(QualityConfig::default());
    assert_eq!(q.ceiling(), MAX_LEVEL);
    let low = 1u8;
    q.evaluate(
        low,
        &Signals { depth_complexity: s(1.0), camera_motion: s(1.0), ..Signals::clean() },
    );
    assert_eq!(q.ceiling(), 0);
}

#[test]
fn telemetry_tracks_the_whole_run() {
    let mut ctl = controller();
    run(&mut ctl, 200, OVER_BUDGET, &Signals::clean());
    let t = ctl.telemetry();
    assert_eq!(t.frames, 200);
    assert!(v(t.mean_relative_cost()) <= 1.05);
    assert!(!t.summary().is_empty());
}

#[test]
fn boosts_on_a_clean_sequence_and_throws_a_cut_away() {
    let mut ctl = controller();
    for _ in 0..600 {
        let plan = ctl.plan(25_000_000);
        assert!(plan.render_width <= 3840);
        ctl.resolve(&Signals::clean());
    }
    assert!(ctl.level() > 0, "should have boosted on a clean, over-budget sequence");
    ctl.plan(25_000_000);
    let outcome = ctl.resolve(&Signals::scene_cut());
    assert!(matches!(outcome.verdict, Verdict::Discard { .. }));
    assert_eq!(outcome.frames_presented, 1);
}

#[test]
fn the_ceiling_bounds_the_active_rung() {
    let mut ctl = controller();
    for k in 0..2000u32 {
        let plan = ctl.plan(OVER_BUDGET);
        assert!(plan.level <= ctl.ceiling());
        assert_eq!(plan.level, ctl.desired());
        let signals = if k % 97 == 0 { Signals::scene_cut() } else { Signals::clean() };
        ctl.resolve(&signals);
    }
}

#[test]
fn the_first_sample_primes_the_average() {
    let mut perf = PerfGovernor::new(PerfConfig::default());
    perf.observe(20_000_000, 0, 6);
    assert_eq!(perf.smoothed_frame_ns(), 20_000_000);
    perf.observe(10_000_000, 0, 6);
    let want = 20_000_000.0 + 0.10f32 as f64 * (10_000_000.0 - 20_000_000.0);
    assert_eq!(perf.smoothed_frame_ns(), want as u64);
}

#[test]
fn defaults_as_written_down() {
    let q = QualityConfig::default();
    assert_eq!(v(q.reject_below), 0.55);
    assert_eq!(
        (q.growth_interval, q.backoff_rungs, q.cooldown_frames, q.cut_cooldown_frames, q.max_level),
        (120, 1, 60, 300, 6)
    );
    let p = PerfConfig::default();
    assert_eq!((p.target_frame_ns, p.dwell_frames, p.max_level), (16_666_667, 20, 6));
    assert_eq!((v(p.ema_alpha), v(p.tolerance)), (0.10, 1.05));
    assert_eq!(
        PerfConfig::for_target_fps(s(60.0)).target_frame_ns,
        (1_000_000_000.0f32 / 60.0) as u64
    );
}
