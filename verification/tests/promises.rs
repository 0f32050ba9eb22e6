//! What holds of the library as a whole, on values.

use frameboost::fp::F32;
use frameboost::frame::{GBuffer, ImageBuffer};
use frameboost::governor::{PerfConfig, PerfGovernor, QualityConfig, QualityGovernor, Verdict};
use frameboost::level::{ladder, rung, MAX_LEVEL};
use frameboost::recon::interpolate::{interpolate_midpoint, InterpolateConfig};
use frameboost::recon::rcas::rcas;
use frameboost::signals::{measure_pair, SignalWeight, Signals};

fn s(x: f32) -> F32 {
    F32::from_bits(x.to_bits())
}

fn v(x: F32) -> f32 {
    f32::from_bits(x.to_bits())
}

fn ruined() -> Signals {
    Signals { disocclusion: s(1.0), ..Signals::clean() }
}

#[test]
fn recovery_takes_probation_and_then_the_growth_interval() {
    let mut q = QualityGovernor::new(QualityConfig::default());
    assert!(matches!(q.evaluate(5, &ruined()), Verdict::Discard { .. }));
    assert_eq!((q.ceiling(), q.cooldown()), (4, 99));
    let sum = 99 + 120;
    for k in 0..sum - 1 {
        q.evaluate(4, &Signals::clean());
        assert_eq!(q.ceiling(), 4, "moved after {} clean frames", k + 1);
    }
    q.evaluate(4, &Signals::clean());
    assert_eq!(q.ceiling(), 5);
}

#[test]
fn trust_comes_back_all_the_way() {
    let cfg = QualityConfig { growth_interval: 3, cooldown_frames: 2, ..QualityConfig::default() };
    let mut q = QualityGovernor::new(cfg);
    for level in [6, 5] {
        q.evaluate(level, &ruined());
    }
    for _ in 0..40 {
        // Thin geometry is what a spatial rung cannot do.
        let fence = Signals { depth_complexity: s(1.0), ..Signals::clean() };
        q.evaluate(q.ceiling(), &fence);
        if q.ceiling() == 0 {
            break;
        }
    }
    assert_eq!(q.ceiling(), 0);
    let served = q.cooldown();
    for _ in 0..served + 3 * u32::from(MAX_LEVEL) {
        q.evaluate(0, &Signals::clean());
    }
    assert_eq!(q.ceiling(), MAX_LEVEL);
}

#[test]
fn native_credits_are_earned_whatever_the_signals_say() {
    let mut q = QualityGovernor::new(QualityConfig { max_level: 1, ..QualityConfig::default() });
    q.evaluate(1, &Signals { depth_complexity: s(1.0), ..Signals::clean() });
    assert_eq!(q.ceiling(), 0);
    for _ in 0..q.cooldown() + 120 {
        assert!(q.evaluate(0, &ruined()).accepted());
    }
    assert_eq!(q.ceiling(), 1);
}

#[test]
fn another_rung_is_wanted_for_the_whole_dwell_before_the_request_moves() {
    let mut p = PerfGovernor::new(PerfConfig::default());
    for k in 0..19 {
        assert_eq!(p.observe(60_000_000, 0, MAX_LEVEL), 0, "moved after {} frames", k + 1);
    }
    assert_eq!(p.observe(60_000_000, 0, MAX_LEVEL), 1);
    // One rung for each dwell, however far the target is.
    for _ in 0..19 {
        assert_eq!(p.observe(60_000_000, 0, MAX_LEVEL), 1);
    }
    assert_eq!(p.observe(60_000_000, 0, MAX_LEVEL), 2);
}

#[test]
fn a_change_of_mind_starts_the_dwell_again() {
    let mut p = PerfGovernor::new(PerfConfig { ema_alpha: s(1.0), ..PerfConfig::default() });
    for k in 0..200 {
        // Two rungs in turn, neither of them the one in use.
        let ns = if k % 2 == 0 { 25_000_000 } else { 60_000_000 };
        assert_eq!(p.observe(ns, 0, MAX_LEVEL), 0);
    }
}

#[test]
fn a_lowered_ceiling_leaves_no_pent_up_demand() {
    let mut p = PerfGovernor::new(PerfConfig { dwell_frames: 1, ..PerfConfig::default() });
    for _ in 0..10 {
        p.observe(200_000_000, 0, MAX_LEVEL);
    }
    assert_eq!(p.desired(), MAX_LEVEL);
    assert_eq!(p.observe(200_000_000, 0, 2), 2);
    assert_eq!(p.observe(200_000_000, 0, MAX_LEVEL), 3);
}

#[test]
fn adjacent_rungs_differ_by_the_factors_that_rule_a_deadband_out() {
    let costs: Vec<f32> = ladder().iter().map(|r| v(r.relative_cost())).collect();
    let ratios: Vec<f32> = costs.windows(2).map(|w| w[0] / w[1]).collect();
    let least = ratios.iter().cloned().fold(f32::MAX, f32::min);
    let most = ratios.iter().cloned().fold(0.0, f32::max);
    assert_eq!((format!("{least:.2}"), format!("{most:.2}")), ("1.26".into(), "1.76".into()));
}

#[test]
fn rendering_never_exceeds_the_output() {
    for level in 0..=MAX_LEVEL {
        for side in [1u32, 2, 3, 7, 99, 108, 192, 1079, 3840, 65_535, 16_777_215] {
            let (w, h) = rung(level).render_size(side, 1);
            assert!(w >= 1 && w <= side && h == 1, "rung {level}, side {side}: {w}x{h}");
            if level == 0 {
                assert_eq!(w, side);
            }
        }
    }
}

/// A grey cross, sharpened in its middle.
fn sharpened(mid: f32, ring: [f32; 4], sharpness: f32) -> f32 {
    let grey = |x: f32| [s(x), s(x), s(x), s(1.0)];
    let mut src = ImageBuffer::new(3, 3, grey(0.5));
    src.set(1, 1, grey(mid));
    for (k, (x, y)) in [(1, 0), (0, 1), (2, 1), (1, 2)].iter().enumerate() {
        src.set(*x, *y, grey(ring[k]));
    }
    v(rcas(&src, s(sharpness)).at(1, 1)[0])
}

/// The same with the lobe that the neighbours alone leave room for.
fn by_the_neighbours(mid: f32, ring: [f32; 4], sharpness: f32) -> f32 {
    let least = ring.iter().cloned().fold(f32::INFINITY, f32::min);
    let most = ring.iter().cloned().fold(f32::NEG_INFINITY, f32::max);
    let hit_min = least / (4.0 * most).max(1e-6);
    let hit_max = (1.0 - most) / (4.0 * least - 4.0).min(-1e-6);
    let lobe = (-hit_min).max(hit_max).clamp(-0.1875, 0.0) * sharpness;
    (lobe * (ring[0] + ring[1] + ring[2] + ring[3]) + mid) / (4.0 * lobe + 1.0)
}

#[test]
fn sharpening_eases_off_only_for_a_pixel_it_would_carry_out_of_range() {
    // Black and white have nowhere to go.
    assert_eq!(sharpened(0.0, [0.5; 4], 1.0), 0.0);
    assert_eq!(sharpened(1.0, [0.5; 4], 1.0), 1.0);
    // What is nearly black is pushed all the way, and no further.
    assert!(sharpened(0.1, [0.5; 4], 1.0).abs() < 1e-6);
    assert!((sharpened(0.9, [0.5; 4], 1.0) - 1.0).abs() < 1e-6);
    // A dark pixel with room enough is sharpened as far as its neighbours allow.
    let ring = [0.25, 0.25, 0.25, 0.75];
    assert_eq!(sharpened(0.125, ring, 1.0), by_the_neighbours(0.125, ring, 1.0));
    assert!(sharpened(0.125, ring, 1.0).abs() < 1e-6);

    let range = -1e-4..=1.0 + 1e-4;
    let steps = [0.0f32, 0.02, 0.3, 0.5, 0.97, 1.0];
    let (mut kept, mut eased) = (0, 0);
    for mid in steps {
        for a in steps {
            for b in steps {
                for ring in [[a, b, a, b], [a, a, a, b]] {
                    for sharpness in [0.4, 1.0] {
                        let out = sharpened(mid, ring, sharpness);
                        let plain = by_the_neighbours(mid, ring, sharpness);
                        assert!(range.contains(&out), "{mid} among {ring:?}: {out}");
                        if range.contains(&plain) {
                            assert_eq!(out.to_bits(), plain.to_bits(), "{mid} among {ring:?}");
                            kept += 1;
                        } else {
                            eased += 1;
                        }
                    }
                }
            }
        }
    }
    assert!(kept > 0 && eased > 0);
    // Values outside the range are sharpened as they are.
    let bright = [0.5, 3.0, 2.0, 0.25];
    assert_eq!(sharpened(-0.5, [0.5; 4], 1.0), by_the_neighbours(-0.5, [0.5; 4], 1.0));
    assert_eq!(sharpened(0.1, bright, 1.0), by_the_neighbours(0.1, bright, 1.0));
}

#[test]
fn a_request_goes_all_the_way_and_stays() {
    let mut p = PerfGovernor::new(PerfConfig { dwell_frames: 3, ..PerfConfig::default() });
    // Long enough for the fourth rung, and no more than that.
    let ns = 55_000_000;
    for frame in 1..=60u32 {
        let now = p.observe(ns, 0, MAX_LEVEL);
        assert_eq!(u32::from(now), (frame / 3).min(4), "after {frame} frames");
    }
    for frame in 1..=60u32 {
        let now = p.observe(1_000_000, 0, 4);
        assert!(now <= 4);
        if frame == 60 {
            assert_eq!(now, 0);
        }
    }
}

#[test]
fn identical_images_measure_as_nothing() {
    let mut prev = GBuffer::blank(8, 6);
    for y in 0..6u32 {
        for x in 0..8u32 {
            let n = ((x * 5 + y * 3) % 7) as f32 / 3.0 - 0.5;
            prev.color.set(x, y, [s(n), s(0.5 - n), s(n * n), s(1.0)]);
        }
    }
    let m = measure_pair(&prev, &prev, s(12.0));
    assert_eq!((v(m.motion_residual), v(m.luma_shift), v(m.camera_motion)), (0.0, 0.0, 0.0));
}

#[test]
fn a_saturated_signal_costs_its_weight_wherever_the_deadband_sits() {
    for deadband in [0.0f32, 0.5, 0.9999, 0.99995, 1.0] {
        for weight in [0.25f32, 1.0, 1.7] {
            let w = SignalWeight::new(s(weight), s(deadband));
            assert_eq!(v(w.penalty(s(1.0))), weight.min(1.0), "deadband {deadband}");
            let mut before = 0.0;
            for k in 0..=100 {
                let value = k as f32 / 100.0;
                let p = v(w.penalty(s(value)));
                assert!((before..=1.0).contains(&p), "{value} over {deadband}: {p} after {before}");
                if value < deadband {
                    assert_eq!(p, 0.0);
                }
                before = p;
            }
        }
    }
    assert_eq!(v(SignalWeight::ignored().penalty(s(1.0))), 0.0);
}

#[test]
fn a_request_steps_down_only_to_a_rung_that_fits() {
    let mut p = PerfGovernor::new(PerfConfig { dwell_frames: 2, ..PerfConfig::default() });
    for _ in 0..40 {
        p.observe(170_000_000, 0, MAX_LEVEL);
    }
    assert_eq!(p.desired(), MAX_LEVEL);
    let budget = 16_666_667.0f64 * f64::from(1.05f32);
    let mut before = p.desired();
    for k in 0..200u64 {
        let now = p.observe(170_000_000 - k * 800_000, 0, MAX_LEVEL);
        let native = f64::from_bits(p.estimated_native_ns(0).to_bits());
        let cost = |level: u8| f64::from(v(rung(level).relative_cost()));
        if now < before {
            assert_eq!(now, before - 1);
            assert!(native * cost(now) <= budget, "rung {now} misses the budget");
        }
        if now > before {
            assert!(native * cost(before) > budget, "rung {before} met the budget");
        }
        before = now;
    }
    assert!(before < MAX_LEVEL);
}

#[test]
fn measured_signals_are_fractions_of_whatever_was_drawn() {
    for scale in [0.0f32, 1.0, -3.0e4, 1.0e36] {
        let mut prev = GBuffer::blank(9, 7);
        let mut next = GBuffer::blank(9, 7);
        for y in 0..7u32 {
            for x in 0..9u32 {
                let n = ((x * 31 + y * 17) % 13) as f32 / 6.0 - 1.0;
                prev.color.set(x, y, [s(n * scale), s(-n * scale), s(scale), s(1.0)]);
                next.color.set(x, y, [s(-n * scale), s(scale), s(n), s(1.0)]);
                next.motion.set(x, y, [s(n * scale), s(-n * scale)]);
                next.depth.set(x, y, s(n));
            }
        }
        let m = measure_pair(&prev, &next, s(12.0));
        for (k, x) in m.as_array().iter().enumerate() {
            assert!((0.0..=1.0).contains(&v(*x)), "signal {k} at {scale}: {}", v(*x));
        }
    }
}

#[test]
fn filling_grows_one_pixel_for_each_pass() {
    // A ramp that stands still, but for four columns whose motion leads nowhere.
    let mut g = GBuffer::blank(12, 4);
    for y in 0..4u32 {
        for x in 0..12u32 {
            let c = s(x as f32 / 16.0);
            g.color.set(x, y, [c, c, c, s(1.0)]);
            g.depth.set(x, y, s(1.0));
            if x < 4 {
                g.motion.set(x, y, [s(1000.0), s(0.0)]);
            }
        }
    }
    let frame = |passes: u32| {
        let cfg = InterpolateConfig { hole_fill_passes: passes, ..InterpolateConfig::default() };
        interpolate_midpoint(&g, &g, s(0.5), cfg).color
    };
    let unfilled = frame(0);
    for passes in 0..6u32 {
        let filled = frame(passes);
        for y in 0..4 {
            for x in 0..12 {
                let hole_in_reach = x < 4 && x + passes >= 4;
                let changed = filled.at(x, y) != unfilled.at(x, y);
                assert_eq!(changed, hole_in_reach, "({x}, {y}) after {passes} passes");
            }
        }
    }
}
