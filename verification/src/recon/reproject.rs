//! Warp the previous frame into the current one, and find out where it breaks.

use crate::fp::F32;
use crate::frame::{lemma_place, lemma_row, lemma_row_end, GBuffer, Grid, ImageBuffer};
use crate::recon::{relative_depth_delta, soft_validity};
use crate::signals::{came_from, spec_came_from};
use vstd::prelude::*;

verus! {

/// Tuning for [`reproject`].
#[derive(Clone, Copy, Debug)]
pub struct ReprojectConfig {
    /// Relative depth difference tolerated before a sample is rejected.
    pub depth_tolerance: F32,
}

impl Default for ReprojectConfig {
    fn default() -> (c: Self)
        ensures
            c.depth_tolerance == F32::ratio(5, 100),
    {
        ReprojectConfig { depth_tolerance: F32::ratio(5, 100) }
    }
}

/// The result of warping one frame onto another.
#[derive(Clone, Debug)]
pub struct Reprojected {
    /// The previous frame's color, resampled into the current frame's pixels.
    pub color: ImageBuffer,
    /// Per-pixel confidence in `0..=1`.
    pub validity: Grid<F32>,
    /// Fraction of pixels with no usable source, in `0..=1`.
    pub disocclusion: F32,
}

/// Where a pixel was in the previous frame.
pub open spec fn source(current: &GBuffer, x: u32, y: u32) -> (F32, F32) {
    let mv = current.motion.px(x as int, y as int)@;
    (spec_came_from(x, mv[0]), spec_came_from(y, mv[1]))
}

/// How far the previous frame can be believed at a pixel. Depth is
/// point-sampled: filtered across a silhouette it would match neither side.
pub open spec fn believed(
    prev: &GBuffer,
    current: &GBuffer,
    tolerance: F32,
    x: u32,
    y: u32,
) -> F32 {
    let (sx, sy) = source(current, x, y);
    if !prev.color.contains(sx, sy) {
        F32::zero()
    } else {
        soft_validity(
            relative_depth_delta(
                prev.depth.px(sx.floor().to_i32() as int, sy.floor().to_i32() as int),
                current.depth.px(x as int, y as int),
            ),
            tolerance,
        )
    }
}

/// Whether a pixel has no usable source: off-screen last frame, or another
/// surface.
pub open spec fn disoccluded(
    prev: &GBuffer,
    current: &GBuffer,
    tolerance: F32,
    x: u32,
    y: u32,
) -> bool {
    let (sx, sy) = source(current, x, y);
    !prev.color.contains(sx, sy) || believed(prev, current, tolerance, x, y).le(F32::zero())
}

/// The color of a pixel: what was there, or what is there now.
pub open spec fn warped(
    prev: &GBuffer,
    current: &GBuffer,
    tolerance: F32,
    x: u32,
    y: u32,
) -> Seq<F32> {
    let (sx, sy) = source(current, x, y);
    if disoccluded(prev, current, tolerance, x, y) {
        current.color.px(x as int, y as int)@
    } else {
        prev.color.sampled(sx, sy)
    }
}

/// The confidence in a pixel.
pub open spec fn validity_at(
    prev: &GBuffer,
    current: &GBuffer,
    tolerance: F32,
    x: u32,
    y: u32,
) -> F32 {
    if disoccluded(prev, current, tolerance, x, y) {
        F32::zero()
    } else {
        believed(prev, current, tolerance, x, y)
    }
}

/// How many of the first `k` pixels have no usable source.
pub open spec fn disoccluded_below(
    prev: &GBuffer,
    current: &GBuffer,
    tolerance: F32,
    k: nat,
) -> nat
    decreases k,
{
    if k == 0 {
        0
    } else {
        let w = current.spec_width() as int;
        let here: nat = if disoccluded(
            prev,
            current,
            tolerance,
            ((k - 1) % w) as u32,
            ((k - 1) / w) as u32,
        ) {
            1
        } else {
            0
        };
        disoccluded_below(prev, current, tolerance, (k - 1) as nat) + here
    }
}

/// Warp one pixel: its color, its confidence, and whether it has no source.
fn warp_pixel(prev: &GBuffer, current: &GBuffer, tolerance: F32, x: u32, y: u32) -> (r: (
    [F32; 4],
    F32,
    bool,
))
    requires
        prev.wf(),
        current.wf(),
    ensures
        r.0@ == warped(prev, current, tolerance, x, y),
        r.1 == validity_at(prev, current, tolerance, x, y),
        r.2 == disoccluded(prev, current, tolerance, x, y),
{
    let mv = current.motion.at(x, y);
    let sx = came_from(x, mv[0]);
    let sy = came_from(y, mv[1]);
    if !prev.color.contains(sx, sy) {
        // Off-screen last frame: nothing is known about it.
        return (current.color.at(x, y), F32::zero(), true);
    }
    let src_depth = prev.depth.at_clamped(sx.floor().to_i32(), sy.floor().to_i32());
    let dst_depth = current.depth.at(x, y);
    let v = soft_validity(relative_depth_delta(src_depth, dst_depth), tolerance);
    if v.le(F32::zero()) {
        (current.color.at(x, y), F32::zero(), true)
    } else {
        (prev.color.sample_bilinear(sx, sy), v, false)
    }
}

/// Warp `prev` into the pixel grid of `current` along `current`'s motion
/// vectors.
///
/// Each destination pixel reads one source position. A sample is rejected when
/// it falls outside the previous frame, or when the depth there disagrees with
/// the depth here; a rejected pixel falls back to the current frame.
pub fn reproject(prev: &GBuffer, current: &GBuffer, cfg: ReprojectConfig) -> (r: Reprojected)
    requires
        prev.wf(),
        current.wf(),
        prev.spec_width() == current.spec_width(),
        prev.spec_height() == current.spec_height(),
        current.spec_width() * current.spec_height() <= u32::MAX,
    ensures
        r.color.wf(),
        r.color.spec_width() == current.spec_width(),
        r.color.spec_height() == current.spec_height(),
        r.validity.wf(),
        r.validity.spec_width() == current.spec_width(),
        r.validity.spec_height() == current.spec_height(),
        forall|x: u32, y: u32|
            x < current.spec_width() && y < current.spec_height() ==> {
                &&& #[trigger] r.color.px(x as int, y as int)@ == warped(
                    prev,
                    current,
                    cfg.depth_tolerance,
                    x,
                    y,
                )
                &&& r.validity.px(x as int, y as int) == validity_at(
                    prev,
                    current,
                    cfg.depth_tolerance,
                    x,
                    y,
                )
            },
        r.disocclusion == F32::from_u32(
            disoccluded_below(
                prev,
                current,
                cfg.depth_tolerance,
                (current.spec_width() * current.spec_height()) as nat,
            ) as u32,
        ) / F32::from_u32((current.spec_width() * current.spec_height()) as u32),
{
    let w: u32 = current.width();
    let h: u32 = current.height();
    let n: u32 = w * h;
    let tolerance = cfg.depth_tolerance;
    let mut color: Vec<[F32; 4]> = Vec::new();
    let mut validity: Vec<F32> = Vec::new();
    let mut invalid: u32 = 0;
    let mut k: u32 = 0;
    let mut x: u32 = 0;
    let mut y: u32 = 0;
    proof {
        current.color.lemma_wf();
        assert(0 * w == 0) by (nonlinear_arith);
    }
    while k < n
        invariant
            prev.wf(),
            current.wf(),
            w == current.spec_width(),
            h == current.spec_height(),
            w > 0,
            n == w * h,
            k <= n,
            x < w,
            y <= h,
            k == y * w + x,
            k < n ==> y < h,
            color.len() == k,
            validity.len() == k,
            invalid <= k,
            invalid == disoccluded_below(prev, current, tolerance, k as nat),
            forall|i: int|
                0 <= i < k ==> {
                    &&& (#[trigger] color[i])@ == warped(
                        prev,
                        current,
                        tolerance,
                        (i % (w as int)) as u32,
                        (i / (w as int)) as u32,
                    )
                    &&& validity[i] == validity_at(
                        prev,
                        current,
                        tolerance,
                        (i % (w as int)) as u32,
                        (i / (w as int)) as u32,
                    )
                },
        decreases n - k,
    {
        proof {
            lemma_place(x as int, y as int, w as int, h as int);
        }
        let (c, v, lost) = warp_pixel(prev, current, tolerance, x, y);
        color.push(c);
        validity.push(v);
        if lost {
            invalid = invalid + 1;
        }
        k = k + 1;
        if x < w - 1 {
            x = x + 1;
        } else {
            proof {
                lemma_row_end(x as int, y as int, w as int);
            }
            x = 0;
            y = y + 1;
        }
        proof {
            lemma_row(k as int, x as int, y as int, w as int, h as int);
        }
    }
    let ghost colors = color@;
    let ghost marks = validity@;
    let color = ImageBuffer::from_vec(w, h, color);
    let validity = Grid::<F32>::from_vec(w, h, validity);
    proof {
        assert forall|x: u32, y: u32| x < w && y < h implies {
            &&& #[trigger] color.px(x as int, y as int)@ == warped(prev, current, tolerance, x, y)
            &&& validity.px(x as int, y as int) == validity_at(prev, current, tolerance, x, y)
        } by {
            lemma_place(x as int, y as int, w as int, h as int);
            assert(color.px(x as int, y as int) == colors[y * w + x]);
        }
    }
    Reprojected {
        color,
        validity,
        disocclusion: F32::from_u32(invalid) / F32::from_u32(n),
    }
}

} // verus!
