//! The synthetic renderer.

use frameboost::fp::F32;
use frameboost::frame::GBuffer;
use frameboost::recon::reproject::{reproject, ReprojectConfig};
use frameboost::sim::scene::{hash_f, Frame, Scene};

fn s(x: f32) -> F32 {
    F32::from_bits(x.to_bits())
}

fn v(x: F32) -> f32 {
    f32::from_bits(x.to_bits())
}

fn frame(cam: f32, prev: f32) -> Frame {
    Frame {
        camera: [s(cam), s(0.0)],
        prev_camera: [s(prev), s(0.0)],
        flash: s(0.0),
        particles: s(0.0),
        seed: 7,
        tick: 0,
    }
}

fn draw(scene: &Scene, w: u32, h: u32, f: &Frame) -> GBuffer {
    scene.render(w, h, f, &|a: F32| s(v(a).sin()), &|a: F32| s(v(a).cos()))
}

#[test]
fn a_still_camera_produces_no_motion() {
    let scene = Scene::open(160, 90);
    let g = draw(&scene, 160, 90, &frame(0.0, 0.0));
    for y in 0..90 {
        for x in 0..160 {
            assert_eq!(g.motion.at(x, y).map(v), [0.0, 0.0]);
        }
    }
}

#[test]
fn panning_disoccludes_at_foreground_silhouettes() {
    let scene = Scene::open(160, 90);
    let prev = draw(&scene, 160, 90, &frame(0.0, 0.0));
    let cur = draw(&scene, 160, 90, &frame(6.0, 0.0));
    let r = reproject(&prev, &cur, ReprojectConfig::default());
    assert!(
        v(r.disocclusion) > 0.02,
        "expected real disocclusion, got {}",
        v(r.disocclusion)
    );
    assert!(
        v(r.disocclusion) < 0.60,
        "a 6 px pan should not disocclude most of the screen: {}",
        v(r.disocclusion)
    );
}

#[test]
fn motion_vectors_are_exact_for_a_static_scene() {
    let scene = Scene::open(160, 90);
    let a = draw(&scene, 160, 90, &frame(3.0, 3.0));
    let b = draw(&scene, 160, 90, &frame(3.0, 3.0));
    let r = reproject(&a, &b, ReprojectConfig::default());
    assert_eq!(v(r.disocclusion), 0.0);
}

#[test]
fn a_fence_has_far_more_depth_complexity_than_open_terrain() {
    let open = draw(&Scene::open(160, 90), 160, 90, &frame(0.0, 0.0));
    let fence = draw(&Scene::fence(160, 90), 160, 90, &frame(0.0, 0.0));
    let count = |g: &GBuffer| {
        let mut n = 0;
        for y in 0..g.height() {
            for x in 1..g.width() {
                if (v(g.depth.at(x, y)) - v(g.depth.at(x - 1, y))).abs() > 0.1 {
                    n += 1;
                }
            }
        }
        n
    };
    assert!(count(&fence) > count(&open) * 3);
}

#[test]
fn rendering_smaller_shows_the_same_scene() {
    let scene = Scene::open(160, 90);
    let full = draw(&scene, 160, 90, &frame(0.0, 0.0));
    let half = draw(&scene, 80, 45, &frame(0.0, 0.0));
    let mean = |g: &GBuffer| {
        let mut sum = 0.0;
        for y in 0..g.height() {
            for x in 0..g.width() {
                sum += v(g.color.at(x, y)[1]);
            }
        }
        sum / (g.width() * g.height()) as f32
    };
    assert!((mean(&full) - mean(&half)).abs() < 0.05);
}

#[test]
fn motion_vectors_scale_with_render_resolution() {
    let scene = Scene::open(160, 90);
    let full = draw(&scene, 160, 90, &frame(8.0, 0.0));
    let half = draw(&scene, 80, 45, &frame(8.0, 0.0));
    let a = v(full.motion.at(80, 10)[0]).abs();
    let b = v(half.motion.at(40, 5)[0]).abs();
    assert!(a > 0.0 && (a / 2.0 - b).abs() < 0.2, "{a} vs {b}");
}

#[test]
fn the_hash_matches_its_integer_form() {
    for (x, y, seed) in [(0u32, 0u32, 0u32), (1, 2, 3), (u32::MAX, 7, 99), (12345, 67890, 7)] {
        let mut h = x.wrapping_mul(0x9e3779b1)
            ^ y.wrapping_mul(0x85ebca6b)
            ^ seed.wrapping_mul(0xc2b2ae35);
        h ^= h >> 16;
        h = h.wrapping_mul(0x7feb352d);
        h ^= h >> 15;
        h = h.wrapping_mul(0x846ca68b);
        h ^= h >> 16;
        assert_eq!(v(hash_f(x, y, seed)), h as f32 / u32::MAX as f32);
    }
}
