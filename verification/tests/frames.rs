//! Planes: sampling, bounds and contents.

use frameboost::fp::F32;
use frameboost::frame::{DepthBuffer, GBuffer, ImageBuffer, MotionBuffer};

fn s(x: f32) -> F32 {
    F32::from_bits(x.to_bits())
}

fn v(x: F32) -> f32 {
    f32::from_bits(x.to_bits())
}

fn lift<const N: usize>(a: [f32; N]) -> [F32; N] {
    a.map(s)
}

#[test]
fn sampling_a_pixel_center_is_exact() {
    let mut g = ImageBuffer::zeroed(4, 4);
    g.set(2, 1, lift([1.0, 0.5, 0.25, 1.0]));
    let c = g.sample_bilinear(s(2.5), s(1.5)).map(v);
    for (a, b) in c.iter().zip([1.0f32, 0.5, 0.25, 1.0].iter()) {
        assert!((a - b).abs() < 1e-6, "{c:?}");
    }
}

#[test]
fn sampling_a_midpoint_averages_neighbours() {
    let mut g = DepthBuffer::zeroed(2, 1);
    g.set(0, 0, s(1.0));
    g.set(1, 0, s(3.0));
    assert!((v(g.sample_bilinear(s(1.0), s(0.5))) - 2.0).abs() < 1e-6);
}

#[test]
fn sampling_outside_clamps_to_the_edge() {
    let mut g = DepthBuffer::zeroed(2, 2);
    g.set(0, 0, s(7.0));
    assert_eq!(v(g.sample_bilinear(s(-100.0), s(-100.0))), 7.0);
    assert_eq!(v(g.at_clamped(-5, -5)), 7.0);
}

#[test]
fn contains_matches_pixel_space() {
    let g = DepthBuffer::zeroed(4, 4);
    assert!(g.contains(s(0.0), s(0.0)));
    assert!(g.contains(s(3.99), s(3.99)));
    assert!(!g.contains(s(4.0), s(2.0)));
    assert!(!g.contains(s(-0.01), s(2.0)));
    assert!(!g.contains(s(f32::NAN), s(2.0)));
}

#[test]
fn coordinates_far_outside_and_not_numbers_still_clamp() {
    let mut g = DepthBuffer::zeroed(3, 2);
    g.set(2, 1, s(4.0));
    g.set(0, 0, s(9.0));
    assert_eq!(v(g.sample_bilinear(s(1e30), s(1e30))), 4.0);
    assert_eq!(v(g.sample_bilinear(s(-1e30), s(-1e30))), 9.0);
    assert_eq!(v(g.at_clamped(i32::MAX, i32::MAX)), 4.0);
    assert_eq!(v(g.at_clamped(i32::MIN, i32::MIN)), 9.0);
}

#[test]
fn a_plane_keeps_what_it_is_given_row_by_row() {
    let data: Vec<F32> = (0..6).map(|k| s(k as f32)).collect();
    let g = DepthBuffer::from_vec(3, 2, data);
    assert_eq!((g.width(), g.height(), g.len(), g.is_empty()), (3, 2, 6, false));
    assert_eq!(v(g.at(2, 0)), 2.0);
    assert_eq!(v(g.at(0, 1)), 3.0);
    let all: Vec<f32> = g.as_slice().iter().map(|x| v(*x)).collect();
    assert_eq!(all, vec![0.0, 1.0, 2.0, 3.0, 4.0, 5.0]);
}

#[test]
fn the_pixels_can_be_written_in_place() {
    let mut g = DepthBuffer::new(2, 2, s(1.0));
    g.as_mut_slice()[3] = s(8.0);
    assert_eq!(v(g.at(1, 1)), 8.0);
    assert_eq!(v(g.at(0, 0)), 1.0);
}

#[test]
fn a_blank_frame_is_opaque_black_far_away_and_still() {
    let g = GBuffer::blank(2, 3);
    assert_eq!((g.width(), g.height()), (2, 3));
    for y in 0..3 {
        for x in 0..2 {
            assert_eq!(g.color.at(x, y).map(v), [0.0, 0.0, 0.0, 1.0]);
            assert_eq!(v(g.depth.at(x, y)), f32::MAX);
            assert_eq!(g.motion.at(x, y).map(v), [0.0, 0.0]);
        }
    }
}

#[test]
fn planes_of_one_size_make_a_frame() {
    let g = GBuffer::new(
        ImageBuffer::zeroed(4, 4),
        DepthBuffer::zeroed(4, 4),
        MotionBuffer::zeroed(4, 4),
    );
    assert_eq!((g.width(), g.height()), (4, 4));
}
