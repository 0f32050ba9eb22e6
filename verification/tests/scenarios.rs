//! The control loop end to end: synthetic renderer, reconstruction passes,
//! measured signals and closed-loop frame time.

use frameboost::fp::{F32, F64};
use frameboost::signals::SignalKind;
use frameboost::sim::harness::{run, Config, Judgement, RunReport};
use frameboost::sim::scenario::{by_name, Scenario};

fn s(x: f32) -> F32 {
    F32::from_bits(x.to_bits())
}

fn v(x: F32) -> f32 {
    f32::from_bits(x.to_bits())
}

fn vd(x: F64) -> f64 {
    f64::from_bits(x.to_bits())
}

fn play(scenario: &Scenario, cfg: &Config) -> RunReport {
    run(
        scenario,
        cfg,
        &|a: F32| s(v(a).sin()),
        &|a: F32| s(v(a).cos()),
        &|a: F64| F64::from_bits(vd(a).sin().to_bits()),
    )
}

fn go(name: &str) -> RunReport {
    let scenario = by_name(name).unwrap_or_else(|| panic!("no scenario '{name}'"));
    play(&scenario, &Config::fast())
}

fn levels_in(r: &RunReport, range: std::ops::Range<u32>) -> Vec<u8> {
    r.frames.iter().filter(|f| range.contains(&f.index)).map(|f| f.level).collect()
}

#[test]
fn easy_content_settles_and_then_stops_moving() {
    let r = go("calm-pan");
    let tail = levels_in(&r, 700..1200);
    let first = tail[0];
    assert!(first > 0, "never boosted on trivially easy content");
    assert!(
        tail.iter().all(|l| *l == first),
        "still moving late in an unchanging scene: {:?}",
        &tail[..30]
    );
    assert_eq!(r.rejections_in(200..1200), 0, "rejected a clean frame");
}

#[test]
fn boosting_actually_buys_frame_time() {
    let r = go("calm-pan");
    assert!(
        vd(r.mean_frame_ns()) < r.config.native_frame_ns as f64 * 0.5,
        "boost bought nothing: {:.1} ms mean vs {:.1} ms native",
        vd(r.mean_frame_ns()) / 1e6,
        r.config.native_frame_ns as f64 / 1e6
    );
    assert!(
        vd(r.effective_fps()) > v(r.config.target_fps) as f64,
        "did not reach the target: {:.1} fps",
        vd(r.effective_fps())
    );
}

#[test]
fn a_whip_pan_discards_generated_frames_and_is_recovered_from() {
    let r = go("whip-turn");
    let during: Vec<_> =
        r.rejections().into_iter().filter(|f| (480..760).contains(&f.index)).collect();
    assert!(!during.is_empty(), "sailed through a whip pan");
    assert!(
        during.iter().any(|f| f.dominant == Some(SignalKind::Disocclusion)),
        "rejected for the wrong reason: {:?}",
        during.iter().map(|f| f.dominant).collect::<Vec<_>>()
    );
    assert!(
        during.iter().all(|f| f.judgement == Judgement::Discarded),
        "a temporal rung should discard, not merely degrade"
    );

    let before = r.typical_level(300..480);
    let after = r.typical_level(1000..1500);
    assert!(after >= before, "never recovered: {before} -> {after}");
}

#[test]
fn an_exposure_changing_cut_takes_the_hard_path() {
    let r = go("scene-cut");
    let cut = r
        .rejections()
        .into_iter()
        .find(|f| (500..505).contains(&f.index))
        .expect("missed the first cut entirely");
    assert!(cut.scene_cut, "not recognised as a cut");
    assert_eq!(cut.judgement, Judgement::Discarded);
    assert!(r.telemetry.scene_cuts >= 1);

    let after = r.typical_level(505..760);
    let before = r.typical_level(300..495);
    assert!(after < before, "cut cost nothing: {before} -> {after}");
}

#[test]
fn a_cut_without_an_exposure_change_is_still_caught() {
    let r = go("scene-cut");
    let second = r
        .rejections()
        .into_iter()
        .find(|f| (1000..1006).contains(&f.index))
        .expect("second cut went through undetected");
    assert!(!second.scene_cut, "cut detector should have abstained here");
    assert_eq!(second.judgement, Judgement::Discarded);
}

#[test]
fn content_the_gbuffer_never_mentions_is_caught() {
    let r = go("particle-burst");
    let during: Vec<_> =
        r.rejections().into_iter().filter(|f| (490..830).contains(&f.index)).collect();
    assert!(!during.is_empty(), "the burst went entirely unnoticed");
    assert!(
        during.iter().any(|f| f.dominant == Some(SignalKind::MotionResidual)),
        "caught, but not by the signal that should have caught it: {:?}",
        during.iter().map(|f| f.dominant).collect::<Vec<_>>()
    );
    assert_eq!(r.rejections_in(0..450), 0, "rejected frames before the burst started");
}

#[test]
fn thin_geometry_caps_the_ladder_without_collapsing_it() {
    let r = go("fence");
    assert!(r.max_level() > 0, "gave up entirely on difficult content");
    let settled = r.typical_level(400..1200);
    assert!(settled > 0, "collapsed to native and stayed there");
    assert!(settled < 5, "boosted into content it cannot resolve: rung {settled}");
    assert!(
        v(r.telemetry.discard_rate()) < 0.10,
        "thrashing: {:.1}% rejected",
        v(r.telemetry.discard_rate()) * 100.0
    );
    assert_eq!(r.telemetry.worst_signal(), Some(SignalKind::DepthComplexity));
}

#[test]
fn render_load_alone_never_moves_the_quality_ceiling() {
    let r = go("load-swing");
    assert_eq!(v(r.telemetry.discard_rate()), 0.0, "load caused a rejection");

    let ceilings: Vec<u8> = r.frames.iter().map(|f| f.ceiling).collect();
    let top = *ceilings.iter().max().unwrap();
    assert!(
        ceilings.iter().all(|c| *c == top),
        "the quality ceiling moved in response to load alone"
    );

    let mut seen: Vec<u8> = r.frames.iter().map(|f| f.level).collect();
    seen.sort_unstable();
    seen.dedup();
    assert!(
        seen.len() >= 3,
        "perf governor barely reacted to a large load swing: {seen:?}"
    );
}

/// A stretch long enough for the ladder to be climbed, with the spatial passes on.
fn full_stretch(name: &str) {
    let cfg = Config { full_pipeline: true, ..Config::fast() };
    let mut short = by_name(name).unwrap();
    short.frames = 240;
    let r = play(&short, &cfg);
    assert_eq!(r.frames.len(), 240, "{name} produced the wrong length");
    assert!(r.max_level() > 0, "{name} never used a spatial pass");
    assert!(r.spoiled.is_none(), "{name} spoiled a frame");
    assert!(
        r.frames.iter().all(|f| v(f.confidence).is_finite()),
        "{name} produced a non-finite confidence"
    );
}

#[test]
fn calm_pan_runs_the_full_pipeline_without_producing_garbage() {
    full_stretch("calm-pan");
}

#[test]
fn whip_turn_runs_the_full_pipeline_without_producing_garbage() {
    full_stretch("whip-turn");
}

#[test]
fn scene_cut_runs_the_full_pipeline_without_producing_garbage() {
    full_stretch("scene-cut");
}

#[test]
fn particle_burst_runs_the_full_pipeline_without_producing_garbage() {
    full_stretch("particle-burst");
}

#[test]
fn fence_runs_the_full_pipeline_without_producing_garbage() {
    full_stretch("fence");
}

#[test]
fn load_swing_runs_the_full_pipeline_without_producing_garbage() {
    full_stretch("load-swing");
}
