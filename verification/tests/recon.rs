//! The reconstruction passes.

use frameboost::fp::F32;
use frameboost::frame::{DepthBuffer, GBuffer, ImageBuffer, MotionBuffer};
use frameboost::recon::easu::{analyze, easu, EasuConfig};
use frameboost::recon::interpolate::{interpolate_midpoint, InterpolateConfig};
use frameboost::recon::rcas::rcas;
use frameboost::recon::reproject::{reproject, ReprojectConfig};
use frameboost::recon::{relative_depth_delta, soft_validity};
use frameboost::signals::luma as luma_of;

fn s(x: f32) -> F32 {
    F32::from_bits(x.to_bits())
}

fn v(x: F32) -> f32 {
    f32::from_bits(x.to_bits())
}

fn lift<const N: usize>(a: [f32; N]) -> [F32; N] {
    a.map(s)
}

fn luma(c: [F32; 4]) -> f32 {
    v(luma_of(c))
}

fn constant(w: u32, h: u32, x: f32) -> ImageBuffer {
    ImageBuffer::new(w, h, lift([x, x, x, 1.0]))
}

/// A vertical step edge: dark left, bright right.
fn step_edge(w: u32, h: u32, at: u32) -> ImageBuffer {
    let mut img = ImageBuffer::new(w, h, lift([0.1, 0.1, 0.1, 1.0]));
    for y in 0..h {
        for x in at..w {
            img.set(x, y, lift([0.9, 0.9, 0.9, 1.0]));
        }
    }
    img
}

fn bilinear(src: &ImageBuffer, out_w: u32, out_h: u32) -> ImageBuffer {
    let mut out = ImageBuffer::zeroed(out_w, out_h);
    for oy in 0..out_h {
        for ox in 0..out_w {
            let sx = (ox as f32 + 0.5) * src.width() as f32 / out_w as f32;
            let sy = (oy as f32 + 0.5) * src.height() as f32 / out_h as f32;
            out.set(ox, oy, src.sample_bilinear(s(sx), s(sy)));
        }
    }
    out
}

/// Width of the transition, in output pixels, along a horizontal scanline.
fn transition_width(img: &ImageBuffer, row: u32) -> u32 {
    let (lo, hi) = (0.1f32, 0.9f32);
    let low_t = lo + 0.15 * (hi - lo);
    let high_t = lo + 0.85 * (hi - lo);
    let mut count = 0;
    for x in 0..img.width() {
        let l = luma(img.at(x, row));
        if l > low_t && l < high_t {
            count += 1;
        }
    }
    count
}

#[test]
fn output_has_the_requested_size() {
    let out = easu(&constant(8, 8, 0.5), 19, 7, EasuConfig::default());
    assert_eq!((out.width(), out.height()), (19, 7));
}

#[test]
fn a_flat_image_stays_flat() {
    let out = easu(&constant(8, 8, 0.42), 24, 24, EasuConfig::default());
    for y in 0..out.height() {
        for x in 0..out.width() {
            let c = out.at(x, y).map(v);
            assert!((c[0] - 0.42).abs() < 1e-3, "({x},{y}) = {c:?}");
            assert!((c[3] - 1.0).abs() < 1e-3, "alpha drifted: {c:?}");
        }
    }
}

#[test]
fn edges_stay_sharper_than_bilinear() {
    let src = step_edge(16, 16, 8);
    let e = easu(&src, 48, 48, EasuConfig::default());
    let b = bilinear(&src, 48, 48);
    let (we, wb) = (transition_width(&e, 24), transition_width(&b, 24));
    assert!(we < wb, "easu {we} px transition vs bilinear {wb} px");
}

#[test]
fn deringing_prevents_overshoot() {
    let src = step_edge(16, 16, 8);
    let out = easu(&src, 48, 48, EasuConfig::default());
    for y in 0..out.height() {
        for x in 0..out.width() {
            let l = luma(out.at(x, y));
            assert!(l >= 0.1 - 1e-3 && l <= 0.9 + 1e-3, "({x},{y}) rang to {l}");
        }
    }
}

#[test]
fn without_deringing_the_kernel_overshoots() {
    let src = step_edge(16, 16, 8);
    let cfg = EasuConfig { deringing: false, ..EasuConfig::default() };
    let out = easu(&src, 48, 48, cfg);
    let mut rang = false;
    for x in 0..48 {
        let l = luma(out.at(x, 24));
        if l < 0.1 - 1e-3 || l > 0.9 + 1e-3 {
            rang = true;
        }
    }
    assert!(rang);
}

#[test]
fn anisotropy_is_high_on_an_edge_and_low_on_flat() {
    let mut flat = [0.5f32; 16];
    assert!(v(analyze(&lift(flat)).anisotropy) < 1e-3);

    for j in 0..4 {
        for i in 0..4 {
            flat[j * 4 + i] = if i < 2 { 0.0 } else { 1.0 };
        }
    }
    let edge = analyze(&lift(flat));
    assert!(v(edge.anisotropy) > 0.9, "anisotropy {}", v(edge.anisotropy));
    assert!(v(edge.y).abs() > 0.9, "edge direction {} {}", v(edge.x), v(edge.y));
}

#[test]
fn a_single_pixel_source_does_not_panic() {
    let out = easu(&constant(1, 1, 0.3), 8, 8, EasuConfig::default());
    assert_eq!((out.width(), out.height()), (8, 8));
    assert!((v(out.at(4, 4)[0]) - 0.3).abs() < 1e-3);
}

#[test]
fn downscaling_is_defined_even_though_it_is_not_the_point() {
    let out = easu(&step_edge(32, 32, 16), 8, 8, EasuConfig::default());
    for y in 0..8 {
        for x in 0..8 {
            assert!(out.at(x, y).iter().all(|c| v(*c).is_finite()));
        }
    }
}

/// A frame with a white stripe at column `stripe`, foreground depth on it.
fn striped(w: u32, h: u32, stripe: u32, mv: [f32; 2]) -> GBuffer {
    let mut color = ImageBuffer::new(w, h, lift([0.0, 0.0, 0.0, 1.0]));
    let mut depth = DepthBuffer::new(w, h, s(10.0));
    for y in 0..h {
        color.set(stripe, y, lift([1.0, 1.0, 1.0, 1.0]));
        depth.set(stripe, y, s(1.0));
    }
    GBuffer::new(color, depth, MotionBuffer::new(w, h, lift(mv)))
}

#[test]
fn the_feature_lands_at_the_midpoint() {
    let prev = striped(24, 4, 5, [0.0, 0.0]);
    let next = striped(24, 4, 9, [-4.0, 0.0]);
    let out = interpolate_midpoint(&prev, &next, s(0.5), InterpolateConfig::default());

    let here = luma(out.color.at(7, 2));
    for x in [5u32, 6, 8, 9] {
        let there = luma(out.color.at(x, 2));
        assert!(
            here > there + 0.3,
            "stripe should be at column 7, not {x}: {here} vs {there}"
        );
    }
}

#[test]
fn endpoints_are_reproduced() {
    let prev = striped(24, 4, 5, [0.0, 0.0]);
    let next = striped(24, 4, 9, [-4.0, 0.0]);

    let at_zero = interpolate_midpoint(&prev, &next, s(0.0), InterpolateConfig::default());
    assert!(luma(at_zero.color.at(5, 2)) > 0.9, "t=0 should equal prev");

    let at_one = interpolate_midpoint(&prev, &next, s(1.0), InterpolateConfig::default());
    assert!(luma(at_one.color.at(9, 2)) > 0.9, "t=1 should equal next");
}

#[test]
fn a_static_scene_generates_nothing_new() {
    let prev = striped(16, 4, 5, [0.0, 0.0]);
    let next = striped(16, 4, 5, [0.0, 0.0]);
    let out = interpolate_midpoint(&prev, &next, s(0.5), InterpolateConfig::default());
    assert_eq!(v(out.disocclusion), 0.0);
    for y in 0..4 {
        for x in 0..16 {
            let d = luma(out.color.at(x, y)) - luma(next.color.at(x, y));
            assert!(d.abs() < 1e-4, "({x},{y}) drifted by {d}");
        }
    }
}

#[test]
fn edges_that_leave_the_frame_are_reported() {
    let prev = striped(16, 4, 5, [0.0, 0.0]);
    let next = striped(16, 4, 9, [-4.0, 0.0]);
    let out = interpolate_midpoint(&prev, &next, s(0.5), InterpolateConfig::default());
    assert!(v(out.disocclusion) > 0.2, "{}", v(out.disocclusion));
}

#[test]
fn content_the_motion_vectors_do_not_explain_is_caught() {
    let w = 16;
    let prev = GBuffer::new(
        ImageBuffer::new(w, 4, lift([0.0, 0.0, 0.0, 1.0])),
        DepthBuffer::new(w, 4, s(5.0)),
        MotionBuffer::zeroed(w, 4),
    );
    let next = GBuffer::new(
        ImageBuffer::new(w, 4, lift([1.0, 1.0, 1.0, 1.0])),
        DepthBuffer::new(w, 4, s(5.0)),
        MotionBuffer::zeroed(w, 4),
    );
    let out = interpolate_midpoint(&prev, &next, s(0.5), InterpolateConfig::default());
    assert!(
        v(out.disocclusion) > 0.9,
        "photo-consistency missed it: {}",
        v(out.disocclusion)
    );
}

#[test]
fn rejected_pixels_are_never_left_black() {
    let prev = striped(16, 4, 5, [0.0, 0.0]);
    let next = striped(16, 4, 9, [-9.0, 0.0]);
    let out = interpolate_midpoint(&prev, &next, s(0.5), InterpolateConfig::default());
    for y in 0..4 {
        for x in 0..16 {
            assert_eq!(v(out.color.at(x, y)[3]), 1.0, "alpha lost at ({x},{y})");
        }
    }
}

#[test]
fn hole_filling_does_not_change_the_reported_disocclusion() {
    let prev = striped(24, 4, 5, [0.0, 0.0]);
    let next = striped(24, 4, 9, [-4.0, 0.0]);
    let unfilled = interpolate_midpoint(
        &prev,
        &next,
        s(0.5),
        InterpolateConfig { hole_fill_passes: 0, ..Default::default() },
    );
    let filled = interpolate_midpoint(&prev, &next, s(0.5), InterpolateConfig::default());
    assert_eq!(v(unfilled.disocclusion), v(filled.disocclusion));
}

#[test]
fn depth_delta_is_scale_free() {
    let near = v(relative_depth_delta(s(1.0), s(1.1)));
    let far = v(relative_depth_delta(s(4000.0), s(4000.1)));
    assert!(near > 0.05);
    assert!(far < 1e-3);
}

#[test]
fn validity_ramps_instead_of_stepping() {
    assert_eq!(v(soft_validity(s(0.0), s(0.1))), 1.0);
    assert_eq!(v(soft_validity(s(0.1), s(0.1))), 1.0);
    assert!((v(soft_validity(s(0.15), s(0.1))) - 0.5).abs() < 1e-5);
    assert_eq!(v(soft_validity(s(0.2), s(0.1))), 0.0);
    assert_eq!(v(soft_validity(s(5.0), s(0.1))), 0.0);
}

/// A vertical edge, blurred across a few columns.
fn soft_edge(w: u32, h: u32) -> ImageBuffer {
    let mut hard = ImageBuffer::new(w, h, lift([0.15, 0.15, 0.15, 1.0]));
    for y in 0..h {
        for x in w / 2..w {
            hard.set(x, y, lift([0.85, 0.85, 0.85, 1.0]));
        }
    }
    let mut img = ImageBuffer::zeroed(w, h);
    for y in 0..h {
        for x in 0..w {
            let (xi, yi) = (x as i32, y as i32);
            let l = hard.at_clamped(xi - 1, yi).map(v);
            let c = hard.at(x, y).map(v);
            let r = hard.at_clamped(xi + 1, yi).map(v);
            let mut p = [0.0f32; 4];
            for ch in 0..3 {
                p[ch] = 0.25 * l[ch] + 0.5 * c[ch] + 0.25 * r[ch];
            }
            p[3] = 1.0;
            img.set(x, y, lift(p));
        }
    }
    img
}

/// Steepest adjacent step along a scanline.
fn max_gradient(img: &ImageBuffer, row: u32) -> f32 {
    let mut peak = 0.0f32;
    for x in 1..img.width() {
        peak = peak.max((luma(img.at(x, row)) - luma(img.at(x - 1, row))).abs());
    }
    peak
}

#[test]
fn zero_sharpness_is_the_identity() {
    let src = soft_edge(16, 4);
    assert_eq!(rcas(&src, s(0.0)), src);
}

#[test]
fn a_flat_image_is_untouched() {
    let src = constant(8, 8, 0.5);
    let out = rcas(&src, s(1.0));
    for y in 0..8 {
        for x in 0..8 {
            assert!((luma(out.at(x, y)) - 0.5).abs() < 1e-4);
        }
    }
}

#[test]
fn sharpening_steepens_the_transition() {
    let src = soft_edge(32, 4);
    let out = rcas(&src, s(1.0));
    let (before, after) = (max_gradient(&src, 2), max_gradient(&out, 2));
    assert!(after > before * 1.02, "no sharpening happened: {before} -> {after}");
}

#[test]
fn a_linear_ramp_is_left_alone() {
    let mut src = ImageBuffer::zeroed(16, 3);
    for y in 0..3 {
        for x in 0..16 {
            let l = 0.2 + 0.03 * x as f32;
            src.set(x, y, lift([l, l, l, 1.0]));
        }
    }
    let out = rcas(&src, s(1.0));
    for x in 2..14 {
        let d = luma(out.at(x, 1)) - luma(src.at(x, 1));
        assert!(d.abs() < 1e-3, "x={x} moved by {d}");
    }
}

#[test]
fn nothing_is_pushed_out_of_range() {
    let src = soft_edge(32, 4);
    let out = rcas(&src, s(1.0));
    for y in 0..4 {
        for x in 0..32 {
            for c in 0..3 {
                let l = v(out.at(x, y)[c]);
                assert!(l >= -1e-4 && l <= 1.0 + 1e-4, "({x},{y}) ch{c} = {l}");
            }
        }
    }
}

#[test]
fn extremes_do_not_explode() {
    let mut src = ImageBuffer::new(9, 9, lift([0.0, 0.0, 0.0, 1.0]));
    for y in 0..9 {
        for x in 4..9 {
            src.set(x, y, lift([1.0, 1.0, 1.0, 1.0]));
        }
    }
    let out = rcas(&src, s(1.0));
    for y in 0..9 {
        for x in 0..9 {
            for c in 0..3 {
                let l = v(out.at(x, y)[c]);
                assert!(l.is_finite(), "({x},{y}) ch{c} = {l}");
                assert!(l >= -1e-4 && l <= 1.0 + 1e-4, "({x},{y}) ch{c} = {l}");
            }
        }
    }
}

#[test]
fn alpha_is_passed_through() {
    let mut src = ImageBuffer::new(8, 8, lift([0.2, 0.4, 0.6, 0.33]));
    src.set(4, 4, lift([0.9, 0.9, 0.9, 0.77]));
    let out = rcas(&src, s(1.0));
    assert!((v(out.at(0, 0)[3]) - 0.33).abs() < 1e-6);
    assert!((v(out.at(4, 4)[3]) - 0.77).abs() < 1e-6);
}

#[test]
fn sharpness_scales_monotonically() {
    let src = soft_edge(32, 4);
    let weak = max_gradient(&rcas(&src, s(0.25)), 2);
    let strong = max_gradient(&rcas(&src, s(1.0)), 2);
    assert!(strong > weak, "weak {weak}, strong {strong}");
}

#[test]
fn exact_motion_vectors_reproduce_the_frame() {
    let prev = striped(16, 4, 5, [0.0, 0.0]);
    let current = striped(16, 4, 9, [-4.0, 0.0]);
    let r = reproject(&prev, &current, ReprojectConfig::default());

    for y in 0..4 {
        let c = r.color.at(9, y).map(v);
        assert!(c[0] > 0.99, "stripe not reprojected: {c:?}");
        assert!(v(r.validity.at(9, y)) > 0.99);
    }
}

#[test]
fn the_leading_edge_is_disoccluded() {
    let prev = striped(16, 4, 5, [0.0, 0.0]);
    let current = striped(16, 4, 9, [-4.0, 0.0]);
    let r = reproject(&prev, &current, ReprojectConfig::default());

    for x in 0..4 {
        assert_eq!(v(r.validity.at(x, 0)), 0.0, "column {x} should be disoccluded");
    }
    assert!((v(r.disocclusion) - 0.25).abs() < 1e-5, "{}", v(r.disocclusion));
}

#[test]
fn disoccluded_pixels_fall_back_to_the_current_frame() {
    let prev = striped(16, 4, 5, [0.0, 0.0]);
    let mut current = striped(16, 4, 9, [-4.0, 0.0]);
    for y in 0..4 {
        current.color.set(1, y, lift([0.25, 0.5, 0.75, 1.0]));
    }
    let r = reproject(&prev, &current, ReprojectConfig::default());
    assert_eq!(r.color.at(1, 0).map(v), [0.25, 0.5, 0.75, 1.0]);
}

#[test]
fn depth_mismatch_rejects_the_sample() {
    let w = 8;
    let prev = GBuffer::new(
        ImageBuffer::new(w, 1, lift([1.0, 0.0, 0.0, 1.0])),
        DepthBuffer::new(w, 1, s(100.0)),
        MotionBuffer::zeroed(w, 1),
    );
    let current = GBuffer::new(
        ImageBuffer::new(w, 1, lift([0.0, 1.0, 0.0, 1.0])),
        DepthBuffer::new(w, 1, s(1.0)),
        MotionBuffer::zeroed(w, 1),
    );
    let r = reproject(&prev, &current, ReprojectConfig::default());
    assert_eq!(v(r.disocclusion), 1.0);
    assert_eq!(r.color.at(3, 0).map(v), [0.0, 1.0, 0.0, 1.0]);
}

#[test]
fn a_static_scene_reprojects_perfectly() {
    let prev = striped(16, 4, 5, [0.0, 0.0]);
    let current = striped(16, 4, 5, [0.0, 0.0]);
    let r = reproject(&prev, &current, ReprojectConfig::default());
    assert_eq!(v(r.disocclusion), 0.0);
    assert_eq!(r.color, prev.color);
}

#[test]
fn a_depth_delta_never_leaves_its_range() {
    for (a, b) in [
        (0.0f32, 0.0f32),
        (-1.0, 1.0),
        (f32::MAX, f32::MAX),
        (f32::INFINITY, 1.0),
        (f32::NAN, 1.0),
        (1e-30, -1e-30),
    ] {
        let d = v(relative_depth_delta(s(a), s(b)));
        assert!((0.0..=1.0).contains(&d), "{a} {b} -> {d}");
    }
}
