//! Present-time scheduling.

use frameboost::fp::F32;
use frameboost::level::{level_by_name, rung, BoostRung, GenMode};
use frameboost::pacing::{FramePacer, PresentSlot, SlotKind};

const HZ60: u64 = 16_666_667;

fn s(x: f32) -> F32 {
    F32::from_bits(x.to_bits())
}

fn v(x: F32) -> f32 {
    f32::from_bits(x.to_bits())
}

fn gen_rung() -> BoostRung {
    rung(level_by_name("performance_gen").unwrap())
}

fn extrapolating() -> BoostRung {
    BoostRung { gen_mode: GenMode::Extrapolate, ..gen_rung() }
}

#[test]
fn learns_the_interval() {
    let mut p = FramePacer::for_target_fps(s(30.0));
    let mut t = 0u64;
    for _ in 0..200 {
        p.on_rendered(t);
        t += HZ60;
    }
    let learned = p.interval_ns() as f64;
    assert!((learned - HZ60 as f64).abs() / (HZ60 as f64) < 0.02, "learned {learned}");
}

#[test]
fn steady_rendering_is_stable() {
    let mut p = FramePacer::for_target_fps(s(60.0));
    let mut t = 0u64;
    for _ in 0..64 {
        p.on_rendered(t);
        t += HZ60;
    }
    assert!(v(p.instability()) < 0.01);
}

#[test]
fn erratic_rendering_reports_instability() {
    let mut p = FramePacer::for_target_fps(s(60.0));
    let mut t = 0u64;
    for i in 0..64 {
        p.on_rendered(t);
        t += if i % 2 == 0 { 8_000_000 } else { 25_000_000 };
    }
    assert!(v(p.instability()) > 0.5, "instability {}", v(p.instability()));
}

#[test]
fn a_reset_clears_the_instability_history() {
    let mut p = FramePacer::for_target_fps(s(60.0));
    let mut t = 0u64;
    for _ in 0..32 {
        p.on_rendered(t);
        t += 25_000_000;
    }
    p.reset();
    for _ in 0..32 {
        p.on_rendered(t);
        t += 11_000_000;
    }
    assert!(
        v(p.instability()) < 0.05,
        "a clean run after a reset still looks unstable: {}",
        v(p.instability())
    );
}

#[test]
fn without_a_reset_a_step_change_does_look_unstable() {
    let mut p = FramePacer::for_target_fps(s(60.0));
    let mut t = 0u64;
    for _ in 0..12 {
        p.on_rendered(t);
        t += 25_000_000;
    }
    for _ in 0..6 {
        p.on_rendered(t);
        t += 11_000_000;
    }
    assert!(v(p.instability()) > 0.3, "{}", v(p.instability()));
}

#[test]
fn says_nothing_before_it_has_evidence() {
    let mut p = FramePacer::for_target_fps(s(60.0));
    p.on_rendered(0);
    p.on_rendered(HZ60);
    assert_eq!(v(p.instability()), 0.0);
}

#[test]
fn a_backwards_clock_does_not_poison_the_estimate() {
    let mut p = FramePacer::for_target_fps(s(60.0));
    p.on_rendered(1_000_000_000);
    let before = p.interval_ns();
    p.on_rendered(0);
    assert_eq!(p.interval_ns(), before);
    p.on_rendered(HZ60);
    assert!(p.interval_ns() > 0);
    assert!((p.interval_ns() as f64) < 1e11);
}

#[test]
fn generated_frames_are_evenly_spaced() {
    let mut p = FramePacer::for_target_fps(s(60.0));
    let mut t = 0u64;
    for _ in 0..32 {
        p.on_rendered(t);
        t += HZ60;
    }
    let slots = p.slots_for(&gen_rung(), t);
    assert_eq!(slots.len(), 2);
    assert_eq!(slots[0].kind, SlotKind::Rendered);
    let gap = slots[1].at_ns - slots[0].at_ns;
    assert!((gap as i64 - (HZ60 / 2) as i64).abs() < 200_000, "gap {gap}");
    match slots[1].kind {
        SlotKind::Generated { index, t } => {
            assert_eq!(index, 0);
            assert!((v(t) - 0.5).abs() < 1e-4);
        }
        other => panic!("{other:?}"),
    }
}

#[test]
fn slots_are_strictly_increasing() {
    let mut p = FramePacer::for_target_fps(s(60.0));
    p.on_rendered(0);
    p.on_rendered(HZ60);
    for r in [gen_rung(), extrapolating()] {
        let slots = p.slots_for(&r, 5 * HZ60);
        for w in slots.windows(2) {
            assert!(w[1].at_ns > w[0].at_ns, "{slots:?}");
        }
    }
}

#[test]
fn extrapolation_projects_past_the_newest_frame() {
    let p = FramePacer::for_target_fps(s(60.0));
    let slots = p.slots_for(&extrapolating(), 0);
    match slots[1].kind {
        SlotKind::Generated { t, .. } => assert!(v(t) > 1.0, "t {}", v(t)),
        other => panic!("{other:?}"),
    }
}

#[test]
fn only_interpolation_costs_latency() {
    let mut p = FramePacer::for_target_fps(s(60.0));
    p.on_rendered(0);
    p.on_rendered(HZ60);
    assert!(p.added_latency_ns(&gen_rung()) > HZ60 / 2);
    assert_eq!(p.added_latency_ns(&extrapolating()), 0);
    assert_eq!(p.added_latency_ns(&rung(0)), 0);
}

#[test]
fn no_generation_means_present_immediately() {
    let p = FramePacer::for_target_fps(s(60.0));
    let slots = p.slots_for(&rung(0), 12_345);
    assert_eq!(slots, vec![PresentSlot { at_ns: 12_345, kind: SlotKind::Rendered }]);
}

#[test]
fn pacing_error_is_signed() {
    let slot = PresentSlot { at_ns: 1_000, kind: SlotKind::Rendered };
    assert_eq!(FramePacer::pacing_error_ns(&slot, 1_200), 200);
    assert_eq!(FramePacer::pacing_error_ns(&slot, 800), -200);
}

#[test]
fn several_generated_frames_share_the_interval() {
    let p = FramePacer::new(12_000_000);
    let r = BoostRung { generated_per_rendered: 2, ..gen_rung() };
    let slots = p.slots_for(&r, 1_000);
    let at: Vec<u64> = slots.iter().map(|k| k.at_ns).collect();
    assert_eq!(at, vec![1_000, 4_001_000, 8_001_000]);
}

#[test]
fn slots_never_coincide_however_short_the_interval() {
    let p = FramePacer::new(1);
    let at = |slots: Vec<PresentSlot>| slots.iter().map(|k| k.at_ns).collect::<Vec<u64>>();
    assert_eq!(at(p.slots_for(&gen_rung(), 0)), vec![0, 1]);
    let many = BoostRung { generated_per_rendered: 5, ..gen_rung() };
    assert_eq!(at(FramePacer::new(3).slots_for(&many, 10)), vec![10, 11, 12, 13, 14, 15]);
    assert_eq!(at(FramePacer::new(7).slots_for(&many, 10)), vec![10, 11, 12, 13, 14, 15]);
    assert_eq!(at(FramePacer::new(60).slots_for(&many, 10)), vec![10, 20, 30, 40, 50, 60]);
}

#[test]
fn a_rung_that_generates_nothing_presents_one_slot() {
    let off = BoostRung {
        gen_mode: GenMode::Off,
        generated_per_rendered: u32::MAX,
        ..gen_rung()
    };
    let slots = FramePacer::new(1).slots_for(&off, u64::MAX);
    assert_eq!(slots, vec![PresentSlot { at_ns: u64::MAX, kind: SlotKind::Rendered }]);
}

#[test]
fn an_interval_is_never_nothing() {
    assert_eq!(FramePacer::new(0).interval_ns(), 1);
    let mut p = FramePacer::new(1);
    p.on_rendered(5);
    p.on_rendered(5);
    assert!(p.interval_ns() >= 1);
}
