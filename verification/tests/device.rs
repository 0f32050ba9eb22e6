//! Planning for a compute device: layouts, packing and the passes.

use frameboost::fp::F32;
use frameboost::frame::{DepthBuffer, ImageBuffer, MotionBuffer};
use frameboost::gpu::{
    assemble_color, assemble_scalar, easu_params, flatten_color, flatten_motion, flatten_scalar,
    groups, interpolate_params, mask_fraction, measure_sums, numbers_of, pack, partials_size,
    plan_copy, plan_fill, scalar_params, size_params, strip_rows, uniform_bytes, unpack, words_of,
    FillStep, PassKind, PlaneFormat, Side, Slot,
};
use frameboost::recon::easu::EasuConfig;
use frameboost::recon::interpolate::InterpolateConfig;

fn s(x: f32) -> F32 {
    F32::from_bits(x.to_bits())
}

fn v(x: F32) -> f32 {
    f32::from_bits(x.to_bits())
}

#[test]
fn packed_numbers_are_their_own_memory() {
    let numbers = vec![s(1.5), s(-0.0), s(f32::MAX), s(3.25e-20)];
    let bytes = pack(&numbers);
    let mut want: Vec<u8> = Vec::new();
    for n in &numbers {
        want.extend_from_slice(&v(*n).to_ne_bytes());
    }
    assert_eq!(bytes, want);
    let back: Vec<u32> = unpack(&bytes).iter().map(|x| x.to_bits()).collect();
    let sent: Vec<u32> = numbers.iter().map(|x| x.to_bits()).collect();
    assert_eq!(back, sent);
}

#[test]
fn words_are_the_patterns_of_numbers() {
    let numbers = vec![s(1.0), s(-2.5), s(f32::INFINITY), F32::from_bits(0x7fc0_1234)];
    let words = words_of(&numbers);
    assert_eq!(words, vec![0x3f80_0000, 0xc020_0000, 0x7f80_0000, 0x7fc0_1234]);
    let back: Vec<u32> = numbers_of(&words).iter().map(|x| x.to_bits()).collect();
    assert_eq!(back, words);
}

#[test]
fn parameters_are_words_in_memory_order() {
    let words = size_params(640, 360);
    assert_eq!(words, [640, 360, 0, 0]);
    let mut want: Vec<u8> = Vec::new();
    for w in words {
        want.extend_from_slice(&w.to_ne_bytes());
    }
    assert_eq!(uniform_bytes(&words), want);
}

#[test]
fn rows_are_padded_to_the_alignment_and_no_further() {
    let l = plan_copy(PlaneFormat::Color, 5, 3);
    assert_eq!((l.unpadded, l.padded, l.rows, l.size()), (80, 256, 3, 768));
    let exact = plan_copy(PlaneFormat::Color, 16, 2);
    assert_eq!((exact.unpadded, exact.padded), (256, 256));
    let over = plan_copy(PlaneFormat::Vec2, 33, 1);
    assert_eq!((over.unpadded, over.padded), (264, 512));
    let scalar = plan_copy(PlaneFormat::Scalar, 70, 45);
    assert_eq!((scalar.unpadded, scalar.padded, scalar.rows), (280, 512, 45));
}

#[test]
fn padding_is_stripped_on_the_way_back() {
    let (w, h) = (5u32, 3u32);
    let mut img = ImageBuffer::zeroed(w, h);
    for y in 0..h {
        for x in 0..w {
            img.set(x, y, [s(x as f32), s(y as f32), s(0.5), s(1.0)]);
        }
    }
    let l = plan_copy(PlaneFormat::Color, w, h);
    let tight = pack(&flatten_color(&img));
    let mut copied = vec![0xabu8; l.size() as usize];
    for row in 0..h as usize {
        let from = row * l.unpadded as usize;
        let to = row * l.padded as usize;
        copied[to..to + l.unpadded as usize]
            .copy_from_slice(&tight[from..from + l.unpadded as usize]);
    }
    let back = assemble_color(w, h, &strip_rows(&copied, l));
    assert_eq!(back, img);
}

#[test]
fn scalars_and_vectors_flatten_in_reading_order() {
    let d = DepthBuffer::from_vec(2, 2, vec![s(1.0), s(2.0), s(3.0), s(4.0)]);
    let flat: Vec<f32> = flatten_scalar(&d).iter().map(|x| v(*x)).collect();
    assert_eq!(flat, vec![1.0, 2.0, 3.0, 4.0]);
    assert_eq!(assemble_scalar(2, 2, flatten_scalar(&d)), d);
    let m = MotionBuffer::from_vec(2, 1, vec![[s(1.0), s(-1.0)], [s(0.5), s(0.25)]]);
    let flat: Vec<f32> = flatten_motion(&m).iter().map(|x| v(*x)).collect();
    assert_eq!(flat, vec![1.0, -1.0, 0.5, 0.25]);
}

#[test]
fn work_groups_cover_every_pixel() {
    assert_eq!(groups(64, 48), (8, 6));
    assert_eq!(groups(65, 41), (9, 6));
    assert_eq!(groups(1, 1), (1, 1));
    assert_eq!(groups(0, 3), (0, 1));
    assert_eq!(partials_size(64, 48, 4), 48 * 16);
    assert_eq!(partials_size(65, 41, 8), 54 * 32);
    assert_eq!(partials_size(0, 10, 4), 4);
    assert_eq!(partials_size(65_536, 65_536, 100), 8192 * 8192 * 400);
}

#[test]
fn a_mask_fraction_adds_up_the_groups() {
    let sums: Vec<F32> =
        [3.0f32, 9.0, 9.0, 9.0, 5.0, 9.0, 9.0, 9.0].iter().map(|x| s(*x)).collect();
    assert_eq!(v(mask_fraction(&sums, 8, 4)), 0.25);
}

#[test]
fn measured_sums_become_signals() {
    let block = [3.2f32, 64.0, 10.0, 14.0, 8.0, 0.0, 0.0, 0.0];
    let mut sums: Vec<F32> = block.iter().map(|x| s(*x)).collect();
    sums.extend(block.iter().map(|x| s(*x)));
    let m = measure_sums(&sums, 16, 8, s(4.0));
    let n = 128.0f64;
    let want = [
        0.0f32,
        (((3.2f32 as f64 * 2.0) / n) as f32 * 4.0).clamp(0.0, 1.0),
        (((28.0f64 - 20.0).abs() / n) as f32 * 4.0).clamp(0.0, 1.0),
        (((128.0f64 / n) as f32) / 4.0).clamp(0.0, 1.0),
        ((16.0f64 / n) as f32).clamp(0.0, 1.0),
        0.0,
    ];
    assert_eq!(m.as_array().map(v), want);
}

/// Runs a plan over planes that only count their passes.
fn passes_done(steps: &[FillStep]) -> u32 {
    let (mut target, mut scratch) = (0u32, 1000u32);
    for step in steps {
        match step {
            FillStep::Pass { from: Side::Target } => scratch = target + 1,
            FillStep::Pass { from: Side::Scratch } => target = scratch + 1,
            FillStep::CopyBack => target = scratch,
        }
    }
    target
}

#[test]
fn a_fill_runs_exactly_the_passes_asked_for() {
    for n in 0..9 {
        let steps = plan_fill(n);
        assert_eq!(passes_done(&steps), n, "{n} passes: {steps:?}");
        let copies = steps.iter().filter(|k| **k == FillStep::CopyBack).count();
        assert_eq!(copies as u32, n % 2);
    }
}

#[test]
fn parameters_lie_where_the_shaders_read_them() {
    let e = EasuConfig { anisotropy_strength: s(0.75), deringing: true };
    assert_eq!(
        easu_params(1, 2, 3, 4, e),
        [1, 2, 3, 4, 0.75f32.to_bits(), 1, 0, 0]
    );
    assert_eq!(scalar_params(7, 8, s(0.3)), [7, 8, 0.3f32.to_bits(), 0]);
    let i = InterpolateConfig {
        depth_tolerance: s(0.05),
        photo_tolerance: s(0.2),
        hole_fill_passes: 3,
    };
    assert_eq!(
        interpolate_params(7, 8, s(0.5), i),
        [7, 8, 0.5f32.to_bits(), 0.05f32.to_bits(), 0.2f32.to_bits(), 0, 0, 0]
    );
}

#[test]
fn passes_bind_what_they_read_before_what_they_write() {
    for (kind, label, textures) in [
        (PassKind::Easu, "easu", 1),
        (PassKind::Rcas, "rcas", 1),
        (PassKind::Reproject, "reproject", 5),
        (PassKind::Interpolate, "interpolate", 5),
        (PassKind::HoleFill, "hole_fill", 2),
        (PassKind::Signals, "signals", 4),
        (PassKind::ReduceMask, "reduce_mask", 1),
    ] {
        let slots = kind.slots();
        assert_eq!(kind.label(), label);
        assert_eq!(slots.iter().take_while(|k| **k == Slot::Tex).count(), textures);
        assert_eq!(*slots.last().unwrap(), Slot::Uniform);
    }
}
