//! The boost ladder.

use frameboost::fp::F32;
use frameboost::level::{
    first_temporal_level, highest_spatial_level, ladder, level_by_name, recon_cost, rung, GenMode,
    MAX_LEVEL,
};

fn v(x: F32) -> f32 {
    f32::from_bits(x.to_bits())
}

#[test]
fn ladder_is_monotonic() {
    for w in ladder().windows(2) {
        let (lo, hi) = (&w[0], &w[1]);
        assert!(
            v(hi.relative_cost()) < v(lo.relative_cost()),
            "{} is not cheaper than {}",
            hi.name,
            lo.name
        );
        assert!(
            v(hi.a_priori_risk) > v(lo.a_priori_risk),
            "{} is not riskier than {}",
            hi.name,
            lo.name
        );
    }
}

#[test]
fn spatial_rungs_precede_temporal_rungs() {
    let all = ladder();
    let first_temporal = all.iter().position(|r| r.is_temporal()).unwrap();
    assert!(all[..first_temporal].iter().all(|r| !r.is_temporal()));
    assert!(all[first_temporal..].iter().all(|r| r.is_temporal()));
    assert_eq!(first_temporal_level() as usize, first_temporal);
    assert_eq!(highest_spatial_level() as usize, first_temporal - 1);
}

#[test]
fn interpolation_costs_a_frame_of_latency() {
    let gen = rung(level_by_name("performance_gen").unwrap());
    assert_eq!(v(gen.added_latency_frames()), 1.0);
    assert_eq!(v(rung(0).added_latency_frames()), 0.0);
}

#[test]
fn native_costs_about_one_frame() {
    assert!((v(rung(0).relative_cost()) - (1.0 + v(recon_cost()))).abs() < 1e-6);
}

#[test]
fn render_size_never_degenerates() {
    let top = rung(MAX_LEVEL);
    assert_eq!(top.render_size(1, 1), (1, 1));
}

#[test]
fn the_ladder_as_written_down() {
    let want = [
        ("native", 1.0f32, 0, GenMode::Off, 0.0f32),
        ("ultra_quality", 0.77, 0, GenMode::Off, 0.10),
        ("quality", 0.67, 0, GenMode::Off, 0.18),
        ("balanced", 0.59, 0, GenMode::Off, 0.28),
        ("performance", 0.50, 0, GenMode::Off, 0.40),
        ("performance_gen", 0.50, 1, GenMode::Interpolate, 0.65),
        ("ultra_performance_gen", 0.33, 1, GenMode::Interpolate, 0.85),
    ];
    let got = ladder();
    assert_eq!(got.len(), want.len());
    for (k, (r, w)) in got.iter().zip(want.iter()).enumerate() {
        assert_eq!(r.name, w.0);
        assert_eq!(v(r.render_scale), w.1);
        assert_eq!(r.generated_per_rendered, w.2);
        assert_eq!(r.gen_mode, w.3);
        assert_eq!(v(r.a_priori_risk), w.4);
        assert_eq!(level_by_name(w.0), Some(k as u8));
        assert_eq!(rung(k as u8).name, w.0);
    }
    assert_eq!(rung(200).name, "ultra_performance_gen");
    assert_eq!(level_by_name("turbo"), None);
}

#[test]
fn render_sizes_round_to_the_nearest_pixel() {
    assert_eq!(rung(1).render_size(3840, 2160), (2957, 1663));
    assert_eq!(rung(2).render_size(3840, 2160), (2573, 1447));
    assert_eq!(rung(4).render_size(191, 107), (96, 54));
    assert_eq!(rung(0).render_size(0, 0), (1, 1));
}
