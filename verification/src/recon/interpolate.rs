//! Build a frame that was never rendered.
//!
//! A surface's screen position is taken to be linear in time across one rendered
//! interval, so with the motion vector `mv` of the newer frame the output pixel
//! `q` at time `t` reads
//!
//! ```text
//!   next at  q - (1 - t) * mv
//!   prev at  q + t * mv
//! ```
//!
//! The two samples must agree in depth, which catches correspondences that cross
//! a silhouette, and in luminance, which catches what the motion vectors never
//! described. A rejected pixel is held from the nearest rendered frame in time
//! and then, if it has believable neighbours, filled from them.

use crate::fp::F32;
use crate::frame::{lemma_place, lemma_row, lemma_row_end, GBuffer, Grid, ImageBuffer};
use crate::recon::{relative_depth_delta, soft_validity};
use crate::signals::{luma, spec_luma};
use vstd::prelude::*;

verus! {

/// Tuning for [`interpolate_midpoint`].
#[derive(Clone, Copy, Debug)]
pub struct InterpolateConfig {
    /// Relative depth disagreement tolerated between the two samples.
    pub depth_tolerance: F32,
    /// Luminance disagreement tolerated between the two samples, absolute.
    pub photo_tolerance: F32,
    /// Dilation passes used to fill rejected pixels from believable neighbours.
    pub hole_fill_passes: u32,
}

impl Default for InterpolateConfig {
    fn default() -> (c: Self)
        ensures
            c.depth_tolerance == F32::ratio(5, 100),
            c.photo_tolerance == F32::ratio(20, 100),
            c.hole_fill_passes == 3,
    {
        InterpolateConfig {
            depth_tolerance: F32::ratio(5, 100),
            photo_tolerance: F32::ratio(20, 100),
            hole_fill_passes: 3,
        }
    }
}

/// A generated frame and how much of it was invented.
#[derive(Clone, Debug)]
pub struct Interpolated {
    /// The generated frame.
    pub color: ImageBuffer,
    /// Fraction of pixels whose correspondence was rejected, in `0..=1`.
    /// Counted before hole filling: a filled hole is still invented.
    pub disocclusion: F32,
}

/// Where an output pixel reads the newer frame.
pub open spec fn newer(next: &GBuffer, t: F32, x: u32, y: u32) -> (F32, F32) {
    let mv = next.motion.px(x as int, y as int)@;
    (
        (F32::from_u32(x) + F32::half()) - (F32::one() - t) * mv[0],
        (F32::from_u32(y) + F32::half()) - (F32::one() - t) * mv[1],
    )
}

/// Where an output pixel reads the older frame.
pub open spec fn older(next: &GBuffer, t: F32, x: u32, y: u32) -> (F32, F32) {
    let mv = next.motion.px(x as int, y as int)@;
    (
        (F32::from_u32(x) + F32::half()) + t * mv[0],
        (F32::from_u32(y) + F32::half()) + t * mv[1],
    )
}

/// How far a correspondence can be believed: not at all outside either frame,
/// else as far as depth and luminance agree.
pub open spec fn agreement(
    prev: &GBuffer,
    next: &GBuffer,
    t: F32,
    cfg: InterpolateConfig,
    x: u32,
    y: u32,
) -> F32 {
    let (nx, ny) = newer(next, t, x, y);
    let (px, py) = older(next, t, x, y);
    if next.color.contains(nx, ny) && prev.color.contains(px, py) {
        let dn = next.depth.px(nx.floor().to_i32() as int, ny.floor().to_i32() as int);
        let dp = prev.depth.px(px.floor().to_i32() as int, py.floor().to_i32() as int);
        let ln = spec_luma(next.color.sampled(nx, ny));
        let lp = spec_luma(prev.color.sampled(px, py));
        soft_validity(relative_depth_delta(dn, dp), cfg.depth_tolerance) * soft_validity(
            (ln - lp).abs(),
            cfg.photo_tolerance.max(F32::ratio(1, 10000)),
        )
    } else {
        F32::zero()
    }
}

/// Whether there is no believable correspondence at a pixel.
pub open spec fn rejected(
    prev: &GBuffer,
    next: &GBuffer,
    t: F32,
    cfg: InterpolateConfig,
    x: u32,
    y: u32,
) -> bool {
    !agreement(prev, next, t, cfg, x, y).gt(F32::zero())
}

/// Two colors mixed.
pub open spec fn mixed(a: Seq<F32>, b: Seq<F32>, t: F32) -> Seq<F32> {
    Seq::new(4, |i: int| a[i] + (b[i] - a[i]) * t)
}

/// The color of a pixel before hole filling.
pub open spec fn blended_or_held(
    prev: &GBuffer,
    next: &GBuffer,
    t: F32,
    cfg: InterpolateConfig,
    x: u32,
    y: u32,
) -> Seq<F32> {
    if rejected(prev, next, t, cfg, x, y) {
        if t.lt(F32::half()) {
            prev.color.px(x as int, y as int)@
        } else {
            next.color.px(x as int, y as int)@
        }
    } else {
        let (nx, ny) = newer(next, t, x, y);
        let (px, py) = older(next, t, x, y);
        mixed(prev.color.sampled(px, py), next.color.sampled(nx, ny), t)
    }
}

/// The confidence in a pixel before hole filling.
pub open spec fn trusted(
    prev: &GBuffer,
    next: &GBuffer,
    t: F32,
    cfg: InterpolateConfig,
    x: u32,
    y: u32,
) -> F32 {
    if rejected(prev, next, t, cfg, x, y) {
        F32::zero()
    } else {
        agreement(prev, next, t, cfg, x, y)
    }
}

/// How many of the first `k` pixels have no believable correspondence.
pub open spec fn rejected_below(
    prev: &GBuffer,
    next: &GBuffer,
    t: F32,
    cfg: InterpolateConfig,
    k: nat,
) -> nat
    decreases k,
{
    if k == 0 {
        0
    } else {
        let w = next.spec_width() as int;
        let here: nat = if rejected(
            prev,
            next,
            t,
            cfg,
            ((k - 1) % w) as u32,
            ((k - 1) / w) as u32,
        ) {
            1
        } else {
            0
        };
        rejected_below(prev, next, t, cfg, (k - 1) as nat) + here
    }
}

/// Mix two colors.
fn lerp(a: [F32; 4], b: [F32; 4], t: F32) -> (c: [F32; 4])
    ensures
        c@ == mixed(a@, b@, t),
{
    let c = [
        a[0] + (b[0] - a[0]) * t,
        a[1] + (b[1] - a[1]) * t,
        a[2] + (b[2] - a[2]) * t,
        a[3] + (b[3] - a[3]) * t,
    ];
    assert(c@ =~= mixed(a@, b@, t));
    c
}

/// The nearest rendered frame in time.
fn hold(prev: &GBuffer, next: &GBuffer, x: u32, y: u32, t: F32) -> (c: [F32; 4])
    requires
        prev.wf(),
        next.wf(),
    ensures
        c == (if t.lt(F32::half()) {
            prev.color.px(x as int, y as int)
        } else {
            next.color.px(x as int, y as int)
        }),
{
    if t.lt(F32::half()) {
        prev.color.at(x, y)
    } else {
        next.color.at(x, y)
    }
}

/// Generate one pixel: its color, its confidence, and whether it was rejected.
fn generate_pixel(
    prev: &GBuffer,
    next: &GBuffer,
    t: F32,
    cfg: &InterpolateConfig,
    x: u32,
    y: u32,
) -> (r: ([F32; 4], F32, bool))
    requires
        prev.wf(),
        next.wf(),
    ensures
        r.0@ == blended_or_held(prev, next, t, *cfg, x, y),
        r.1 == trusted(prev, next, t, *cfg, x, y),
        r.2 == rejected(prev, next, t, *cfg, x, y),
{
    let mv = next.motion.at(x, y);
    let qx = F32::from_u32(x) + F32::half();
    let qy = F32::from_u32(y) + F32::half();
    let nx = qx - (F32::one() - t) * mv[0];
    let ny = qy - (F32::one() - t) * mv[1];
    let px = qx + t * mv[0];
    let py = qy + t * mv[1];
    if next.color.contains(nx, ny) && prev.color.contains(px, py) {
        let cn = next.color.sample_bilinear(nx, ny);
        let cp = prev.color.sample_bilinear(px, py);
        let dn = next.depth.at_clamped(nx.floor().to_i32(), ny.floor().to_i32());
        let dp = prev.depth.at_clamped(px.floor().to_i32(), py.floor().to_i32());
        let depth_ok = soft_validity(relative_depth_delta(dn, dp), cfg.depth_tolerance);
        let photo_ok = soft_validity(
            (luma(cn) - luma(cp)).abs(),
            cfg.photo_tolerance.max(F32::ratio(1, 10000)),
        );
        let confidence = depth_ok * photo_ok;
        if confidence.gt(F32::zero()) {
            return (lerp(cp, cn, t), confidence, false);
        }
    }
    (hold(prev, next, x, y, t), F32::zero(), true)
}

/// A picture with a confidence for each pixel, row by row.
pub struct Patch {
    /// Width in pixels.
    pub width: int,
    /// Height in pixels.
    pub height: int,
    /// The colors.
    pub color: Seq<Seq<F32>>,
    /// The confidences.
    pub valid: Seq<F32>,
}

/// A color and the weight it has gathered.
pub struct Gathered {
    /// The weighted sum of the colors.
    pub color: Seq<F32>,
    /// The sum of the weights.
    pub weight: F32,
}

impl Patch {
    /// What the first `n` of the nine pixels around a place contribute: each
    /// believable neighbour inside the picture, by its confidence.
    pub open spec fn gathered(self, x: int, y: int, n: nat) -> Gathered
        decreases n,
    {
        if n == 0 {
            Gathered { color: Seq::new(4, |i: int| F32::zero()), weight: F32::zero() }
        } else {
            self.with_neighbour(x, y, (n - 1) as nat, self.gathered(x, y, (n - 1) as nat))
        }
    }

    /// What has been gathered, with the share of neighbour `n`: one that is
    /// believable and inside the picture counts by its confidence.
    pub open spec fn with_neighbour(self, x: int, y: int, n: nat, g: Gathered) -> Gathered {
        let nx = x + n % 3 - 1;
        let ny = y + n / 3 - 1;
        let k = ny * self.width + nx;
        if n == 4 || nx < 0 || ny < 0 || nx >= self.width || ny >= self.height
            || self.valid[k].le(F32::zero()) {
            g
        } else {
            Gathered {
                color: Seq::new(4, |i: int| g.color[i] + self.color[k][i] * self.valid[k]),
                weight: g.weight + self.valid[k],
            }
        }
    }

    /// Whether a pass fills the pixel at place `k`.
    pub open spec fn fills(self, k: int) -> bool {
        &&& !self.valid[k].gt(F32::zero())
        &&& self.gathered(k % self.width, k / self.width, 9).weight.gt(F32::zero())
    }

    /// The picture after one pass. A filled pixel takes the average of its
    /// believable neighbours, and half their say in the next pass.
    pub open spec fn pass(self) -> Patch {
        Patch {
            color: Seq::new(
                self.color.len(),
                |k: int|
                    if self.fills(k) {
                        let g = self.gathered(k % self.width, k / self.width, 9);
                        Seq::new(4, |i: int| g.color[i] / g.weight)
                    } else {
                        self.color[k]
                    },
            ),
            valid: Seq::new(
                self.valid.len(),
                |k: int|
                    if self.fills(k) {
                        F32::half()
                    } else {
                        self.valid[k]
                    },
            ),
            ..self
        }
    }

    /// The picture after some passes.
    pub open spec fn passes(self, n: nat) -> Patch
        decreases n,
    {
        if n == 0 {
            self
        } else {
            self.pass().passes((n - 1) as nat)
        }
    }

    /// What two buffers hold.
    pub open spec fn of(color: &ImageBuffer, valid: &Grid<F32>) -> Patch {
        Patch {
            width: color.spec_width() as int,
            height: color.spec_height() as int,
            color: Seq::new(color.pixels().len(), |k: int| color.pixels()[k]@),
            valid: valid.pixels(),
        }
    }
}

/// Once a pass fills nothing, no later pass does.
proof fn lemma_settled(p: Patch, n: nat)
    requires
        p.color.len() == p.valid.len(),
        forall|k: int| 0 <= k < p.valid.len() ==> !p.fills(k),
    ensures
        p.passes(n) == p,
    decreases n,
{
    if n > 0 {
        assert(p.pass().color =~= p.color);
        assert(p.pass().valid =~= p.valid);
        assert(p.pass() == p);
        lemma_settled(p, (n - 1) as nat);
    }
}

/// Gather from the neighbours of one pixel.
fn gather(color: &ImageBuffer, valid: &Grid<F32>, x: u32, y: u32) -> (r: ([F32; 4], F32))
    requires
        color.wf(),
        valid.wf(),
        valid.spec_width() == color.spec_width(),
        valid.spec_height() == color.spec_height(),
        x < color.spec_width(),
        y < color.spec_height(),
    ensures
        ({
            let g = Patch::of(color, valid).gathered(x as int, y as int, 9);
            r.0@ == g.color && r.1 == g.weight
        }),
{
    let w: u32 = color.width();
    let h: u32 = color.height();
    let zero = F32::zero();
    let mut acc = [zero, zero, zero, zero];
    let mut weight = zero;
    let mut n: u32 = 0;
    let ghost p = Patch::of(color, valid);
    proof {
        color.lemma_wf();
        valid.lemma_wf();
        assert(acc@ =~= Seq::new(4, |i: int| F32::zero()));
    }
    while n < 9
        invariant
            n <= 9,
            zero == F32::zero(),
            color.wf(),
            valid.wf(),
            w == color.spec_width() == valid.spec_width(),
            h == color.spec_height() == valid.spec_height(),
            color.pixels().len() == w * h,
            valid.pixels().len() == w * h,
            x < w,
            y < h,
            p == Patch::of(color, valid),
            acc@ == p.gathered(x as int, y as int, n as nat).color,
            weight == p.gathered(x as int, y as int, n as nat).weight,
        decreases 9 - n,
    {
        let nx: i64 = x as i64 + (n % 3) as i64 - 1;
        let ny: i64 = y as i64 + (n / 3) as i64 - 1;
        let ghost g = p.gathered(x as int, y as int, n as nat);
        if n != 4 && nx >= 0 && ny >= 0 && nx < w as i64 && ny < h as i64 {
            proof {
                lemma_place(nx as int, ny as int, w as int, h as int);
            }
            let v = valid.at(nx as u32, ny as u32);
            let c = color.at(nx as u32, ny as u32);
            let ghost k = ny * w + nx;
            assert(p.color[k] == c@);
            assert(p.valid[k] == v);
            if !v.le(zero) {
                acc = [
                    acc[0] + c[0] * v,
                    acc[1] + c[1] * v,
                    acc[2] + c[2] * v,
                    acc[3] + c[3] * v,
                ];
                weight = weight + v;
            }
        }
        assert(acc@ =~= p.gathered(x as int, y as int, (n + 1) as nat).color);
        n = n + 1;
    }
    (acc, weight)
}

/// Run one pass, and say whether it filled anything.
fn fill_pass(color: &ImageBuffer, valid: &Grid<F32>) -> (r: (ImageBuffer, Grid<F32>, bool))
    requires
        color.wf(),
        valid.wf(),
        valid.spec_width() == color.spec_width(),
        valid.spec_height() == color.spec_height(),
        color.spec_width() * color.spec_height() <= u32::MAX,
    ensures
        r.0.wf(),
        r.1.wf(),
        r.0.spec_width() == color.spec_width(),
        r.0.spec_height() == color.spec_height(),
        r.1.spec_width() == color.spec_width(),
        r.1.spec_height() == color.spec_height(),
        Patch::of(&r.0, &r.1) == Patch::of(color, valid).pass(),
        !r.2 ==> forall|k: int|
            0 <= k < valid.pixels().len() ==> !Patch::of(color, valid).fills(k),
{
    let w: u32 = color.width();
    let h: u32 = color.height();
    let n: u32 = w * h;
    let mut new_color: Vec<[F32; 4]> = Vec::new();
    let mut new_valid: Vec<F32> = Vec::new();
    let mut filled_any: bool = false;
    let mut k: u32 = 0;
    let mut x: u32 = 0;
    let mut y: u32 = 0;
    let ghost p = Patch::of(color, valid);
    proof {
        color.lemma_wf();
        valid.lemma_wf();
        assert(0 * w == 0) by (nonlinear_arith);
    }
    while k < n
        invariant
            color.wf(),
            valid.wf(),
            w == color.spec_width() == valid.spec_width(),
            h == color.spec_height() == valid.spec_height(),
            color.pixels().len() == w * h,
            valid.pixels().len() == w * h,
            w > 0,
            n == w * h,
            k <= n,
            x < w,
            y <= h,
            k == y * w + x,
            k < n ==> y < h,
            p == Patch::of(color, valid),
            new_color.len() == k,
            new_valid.len() == k,
            forall|i: int| 0 <= i < k ==> (#[trigger] new_color[i])@ == p.pass().color[i],
            forall|i: int| 0 <= i < k ==> #[trigger] new_valid[i] == p.pass().valid[i],
            !filled_any ==> forall|i: int| 0 <= i < k ==> !p.fills(i),
        decreases n - k,
    {
        proof {
            lemma_place(x as int, y as int, w as int, h as int);
        }
        let v = valid.at(x, y);
        let c = color.at(x, y);
        let mut out = c;
        let mut mark = v;
        if !v.gt(F32::zero()) {
            let (acc, weight) = gather(color, valid, x, y);
            if weight.gt(F32::zero()) {
                out = [acc[0] / weight, acc[1] / weight, acc[2] / weight, acc[3] / weight];
                mark = F32::half();
                filled_any = true;
                proof {
                    let g = p.gathered(x as int, y as int, 9);
                    assert(out@ =~= Seq::new(4, |i: int| g.color[i] / g.weight));
                }
            }
        }
        new_color.push(out);
        new_valid.push(mark);
        k = k + 1;
        if x < w - 1 {
            x = x + 1;
        } else {
            proof {
                lemma_row_end(x as int, y as int, w as int);
            }
            x = 0;
            y = y + 1;
        }
        proof {
            lemma_row(k as int, x as int, y as int, w as int, h as int);
        }
    }
    let ghost colors = new_color@;
    let ghost marks = new_valid@;
    let new_color = ImageBuffer::from_vec(w, h, new_color);
    let new_valid = Grid::<F32>::from_vec(w, h, new_valid);
    proof {
        let q = Patch::of(&new_color, &new_valid);
        assert(q.color =~= p.pass().color);
        assert(q.valid =~= p.pass().valid);
    }
    (new_color, new_valid, filled_any)
}

/// Grow the believable region outward, one pixel per pass.
fn fill_holes(color: ImageBuffer, valid: Grid<F32>, passes: u32) -> (r: (ImageBuffer, Grid<F32>))
    requires
        color.wf(),
        valid.wf(),
        valid.spec_width() == color.spec_width(),
        valid.spec_height() == color.spec_height(),
        color.spec_width() * color.spec_height() <= u32::MAX,
    ensures
        r.0.wf(),
        r.1.wf(),
        r.0.spec_width() == color.spec_width(),
        r.0.spec_height() == color.spec_height(),
        r.1.spec_width() == color.spec_width(),
        r.1.spec_height() == color.spec_height(),
        Patch::of(&r.0, &r.1) == Patch::of(&color, &valid).passes(passes as nat),
{
    let ghost start = Patch::of(&color, &valid);
    let ghost w = color.spec_width();
    let ghost h = color.spec_height();
    let mut image = color;
    let mut marks = valid;
    let mut left: u32 = passes;
    while left > 0
        invariant
            left <= passes,
            image.wf(),
            marks.wf(),
            w == color.spec_width(),
            h == color.spec_height(),
            start == Patch::of(&color, &valid),
            w == image.spec_width() == marks.spec_width(),
            h == image.spec_height() == marks.spec_height(),
            w * h <= u32::MAX,
            Patch::of(&image, &marks).passes(left as nat) == start.passes(passes as nat),
        decreases left,
    {
        let (c, v, filled_any) = fill_pass(&image, &marks);
        if !filled_any {
            proof {
                image.lemma_wf();
                marks.lemma_wf();
                lemma_settled(Patch::of(&image, &marks), left as nat);
            }
            return (image, marks);
        }
        image = c;
        marks = v;
        left = left - 1;
    }
    (image, marks)
}

/// The frame before hole filling.
pub open spec fn unfilled(
    prev: &GBuffer,
    next: &GBuffer,
    t: F32,
    cfg: InterpolateConfig,
) -> Patch {
    let w = next.spec_width() as int;
    let n = (next.spec_width() * next.spec_height()) as nat;
    Patch {
        width: w,
        height: next.spec_height() as int,
        color: Seq::new(
            n,
            |k: int| blended_or_held(prev, next, t, cfg, (k % w) as u32, (k / w) as u32),
        ),
        valid: Seq::new(n, |k: int| trusted(prev, next, t, cfg, (k % w) as u32, (k / w) as u32)),
    }
}

/// Generate the frame at time `t` between `prev` and `next`.
///
/// `t` is clamped to `0..=1`; one half is the midpoint.
pub fn interpolate_midpoint(
    prev: &GBuffer,
    next: &GBuffer,
    t: F32,
    cfg: InterpolateConfig,
) -> (r: Interpolated)
    requires
        prev.wf(),
        next.wf(),
        prev.spec_width() == next.spec_width(),
        prev.spec_height() == next.spec_height(),
        next.spec_width() * next.spec_height() <= u32::MAX,
    ensures
        r.color.wf(),
        r.color.spec_width() == next.spec_width(),
        r.color.spec_height() == next.spec_height(),
        ({
            let at = t.clamp(F32::zero(), F32::one());
            let n = (next.spec_width() * next.spec_height()) as nat;
            let done = unfilled(prev, next, at, cfg).passes(cfg.hole_fill_passes as nat);
            &&& done.color == Seq::new(n, |k: int| r.color.pixels()[k]@)
            &&& r.disocclusion == F32::from_u32(
                rejected_below(prev, next, at, cfg, n) as u32,
            ) / F32::from_u32(n as u32)
        }),
{
    let t = t.clamp(F32::zero(), F32::one());
    let w: u32 = next.width();
    let h: u32 = next.height();
    let n: u32 = w * h;
    let mut color: Vec<[F32; 4]> = Vec::new();
    let mut valid: Vec<F32> = Vec::new();
    let mut lost: u32 = 0;
    let mut k: u32 = 0;
    let mut x: u32 = 0;
    let mut y: u32 = 0;
    let ghost p = unfilled(prev, next, t, cfg);
    proof {
        next.color.lemma_wf();
        assert(0 * w == 0) by (nonlinear_arith);
    }
    while k < n
        invariant
            prev.wf(),
            next.wf(),
            w == next.spec_width(),
            h == next.spec_height(),
            w > 0,
            n == w * h,
            k <= n,
            x < w,
            y <= h,
            k == y * w + x,
            k < n ==> y < h,
            p == unfilled(prev, next, t, cfg),
            color.len() == k,
            valid.len() == k,
            lost <= k,
            lost == rejected_below(prev, next, t, cfg, k as nat),
            forall|i: int| 0 <= i < k ==> (#[trigger] color[i])@ == p.color[i],
            forall|i: int| 0 <= i < k ==> #[trigger] valid[i] == p.valid[i],
        decreases n - k,
    {
        proof {
            lemma_place(x as int, y as int, w as int, h as int);
        }
        let (c, v, dropped) = generate_pixel(prev, next, t, &cfg, x, y);
        color.push(c);
        valid.push(v);
        if dropped {
            lost = lost + 1;
        }
        k = k + 1;
        if x < w - 1 {
            x = x + 1;
        } else {
            proof {
                lemma_row_end(x as int, y as int, w as int);
            }
            x = 0;
            y = y + 1;
        }
        proof {
            lemma_row(k as int, x as int, y as int, w as int, h as int);
        }
    }
    let disocclusion = F32::from_u32(lost) / F32::from_u32(n);
    let color = ImageBuffer::from_vec(w, h, color);
    let valid = Grid::<F32>::from_vec(w, h, valid);
    proof {
        let q = Patch::of(&color, &valid);
        assert(q.color =~= p.color);
        assert(q.valid =~= p.valid);
    }
    let (color, _) = fill_holes(color, valid, cfg.hole_fill_passes);
    proof {
        color.lemma_wf();
        let done = p.passes(cfg.hole_fill_passes as nat);
        assert(done.color =~= Seq::new(n as nat, |k: int| color.pixels()[k]@));
    }
    Interpolated { color, disocclusion }
}

} // verus!
