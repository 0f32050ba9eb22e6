//! Edge-adaptive spatial upsampling.
//!
//! The pass works out which way the local edge runs, then stretches the
//! reconstruction kernel along it and squeezes it across it.
//!
//! The direction comes from the structure tensor of the luma gradient over the
//! tap neighbourhood. Its principal eigenvector is the gradient, the other one
//! is the edge, and the normalized eigenvalue gap says how edge-like the
//! neighbourhood is:
//!
//! ```text
//!   anisotropy = (l1 - l2) / (l1 + l2)
//! ```
//!
//! The kernel is a windowed approximation of a Lanczos-2 lobe on the squared
//! distance after the warp. Its negative lobe puts acutance back, and would
//! ring; the deringing clamp keeps the first and discards the second.

use crate::fp::facts::{lemma_add_settled, lemma_mul_zero, settled};
use crate::fp::F32;
use crate::frame::{lemma_place, lemma_row, lemma_row_end, ImageBuffer};
use crate::signals::{spec_luma, LumaWeights};
use vstd::prelude::*;

verus! {

/// Tuning for [`easu`].
#[derive(Clone, Copy, Debug)]
pub struct EasuConfig {
    /// How far the kernel is warped at full anisotropy, in `0..=2`.
    pub anisotropy_strength: F32,
    /// Clamp the result to the range of the four nearest taps.
    pub deringing: bool,
}

impl Default for EasuConfig {
    fn default() -> (c: Self)
        ensures
            c.anisotropy_strength == F32::one(),
            c.deringing,
    {
        EasuConfig { anisotropy_strength: F32::one(), deringing: true }
    }
}

/// Kernel weight on squared distance: positive out to 1, negative from there to
/// 2, where it ends.
pub open spec fn spec_tap_weight(d2: F32) -> F32 {
    let b = F32::ratio(2, 5) * d2 - F32::one();
    let a = F32::half() * d2 - F32::one();
    (b * b * F32::ratio(25, 16) - F32::ratio(9, 16)) * (a * a)
}

/// The numbers that shape the kernel, and its weight where it ends.
struct Kernel {
    slope: F32,
    gain: F32,
    dip: F32,
    end: F32,
}

impl Kernel {
    spec fn right(self) -> bool {
        &&& self.slope == F32::ratio(2, 5)
        &&& self.gain == F32::ratio(25, 16)
        &&& self.dip == F32::ratio(9, 16)
        &&& self.end == spec_tap_weight(F32::two())
    }

    fn new() -> (k: Kernel)
        ensures
            k.right(),
    {
        let slope = F32::ratio(2, 5);
        let gain = F32::ratio(25, 16);
        let dip = F32::ratio(9, 16);
        Kernel { slope, gain, dip, end: Kernel::shape(F32::two(), slope, gain, dip) }
    }

    fn shape(d2: F32, slope: F32, gain: F32, dip: F32) -> (w: F32)
        requires
            slope == F32::ratio(2, 5),
            gain == F32::ratio(25, 16),
            dip == F32::ratio(9, 16),
        ensures
            w == spec_tap_weight(d2),
    {
        let b = slope * d2 - F32::one();
        let a = F32::half() * d2 - F32::one();
        (b * b * gain - dip) * (a * a)
    }

    fn tap_weight(&self, d2: F32) -> (w: F32)
        requires
            self.right(),
        ensures
            w == spec_tap_weight(d2),
    {
        if d2.to_bits() == F32::two().to_bits() {
            self.end
        } else {
            Kernel::shape(d2, self.slope, self.gain, self.dip)
        }
    }
}

/// Add a tap to a sum of taps. A weight of zero adds nothing, unless the tap is
/// beyond counting.
fn put_tap(acc: [F32; 4], c: [F32; 4], w: F32) -> (r: [F32; 4])
    requires
        forall|i: int| 0 <= i < 4 ==> settled(#[trigger] acc[i]),
    ensures
        r@ == Seq::new(4, |i: int| acc[i] + c[i] * w),
        forall|i: int| 0 <= i < 4 ==> settled(#[trigger] r[i]),
{
    proof {
        assert forall|i: int| 0 <= i < 4 implies settled(#[trigger] acc[i] + c[i] * w) && (c[i].is_finite()
            && w.key() == 0 ==> acc[i] + c[i] * w == acc[i]) by {
            lemma_add_settled(acc[i], c[i] * w);
            if c[i].is_finite() && w.key() == 0 {
                lemma_mul_zero(c[i], w);
            }
        }
    }
    let r = if (w.to_bits() == 0 || w.to_bits() == 0x8000_0000) && c[0].is_finite()
        && c[1].is_finite() && c[2].is_finite() && c[3].is_finite() {
        acc
    } else {
        [acc[0] + c[0] * w, acc[1] + c[1] * w, acc[2] + c[2] * w, acc[3] + c[3] * w]
    };
    assert(r@ =~= Seq::new(4, |i: int| acc[i] + c[i] * w));
    r
}

/// The structure tensor of a patch.
#[derive(Clone, Copy)]
pub struct Tensor {
    /// Squared horizontal gradients.
    pub jxx: F32,
    /// Squared vertical gradients.
    pub jyy: F32,
    /// Products of the two.
    pub jxy: F32,
}

/// The horizontal gradient at a tap of a 4x4 patch.
pub open spec fn gradient_x(lum: Seq<F32>, k: int) -> F32 {
    F32::half() * (lum[k + 1] - lum[k - 1])
}

/// The vertical gradient at a tap of a 4x4 patch.
pub open spec fn gradient_y(lum: Seq<F32>, k: int) -> F32 {
    F32::half() * (lum[k + 4] - lum[k - 4])
}

/// The structure tensor over the first `n` of the four inner taps.
pub open spec fn tensor(lum: Seq<F32>, n: nat) -> Tensor
    decreases n,
{
    if n == 0 {
        Tensor { jxx: F32::zero(), jyy: F32::zero(), jxy: F32::zero() }
    } else {
        let t = tensor(lum, (n - 1) as nat);
        let k = (1 + (n - 1) / 2) * 4 + 1 + (n - 1) % 2;
        let gx = gradient_x(lum, k);
        let gy = gradient_y(lum, k);
        Tensor { jxx: t.jxx + gx * gx, jyy: t.jyy + gy * gy, jxy: t.jxy + gx * gy }
    }
}

/// An edge: which way it runs, and how clean it is.
#[derive(Clone, Copy)]
pub struct Edge {
    /// Horizontal part of the direction.
    pub x: F32,
    /// Vertical part of the direction.
    pub y: F32,
    /// From 0 on flat or isotropic texture to 1 on a clean straight edge.
    pub anisotropy: F32,
}

impl Tensor {
    /// The eigenvalues, the larger first.
    pub open spec fn eigenvalues(self) -> (F32, F32) {
        let trace = self.jxx + self.jyy;
        let diff = self.jxx - self.jyy;
        let disc = (diff * diff + F32::four() * self.jxy * self.jxy).max(F32::zero()).sqrt();
        (F32::half() * (trace + disc), F32::half() * (trace - disc))
    }

    /// The principal eigenvector, not yet of unit length.
    pub open spec fn principal(self) -> (F32, F32) {
        if self.jxy.abs().gt(F32::ratio(1, 100000000)) {
            (self.eigenvalues().0 - self.jyy, self.jxy)
        } else if self.jxx.ge(self.jyy) {
            (F32::one(), F32::zero())
        } else {
            (F32::zero(), F32::one())
        }
    }

    /// The edge: perpendicular to the principal eigenvector, or none at all
    /// where the patch is flat.
    pub open spec fn edge(self) -> Edge {
        let tiny = F32::ratio(1, 100000000);
        let (l1, l2) = self.eigenvalues();
        let (gx, gy) = self.principal();
        let len = (gx * gx + gy * gy).sqrt();
        if (self.jxx + self.jyy).le(tiny) {
            Edge { x: F32::one(), y: F32::zero(), anisotropy: F32::zero() }
        } else {
            Edge {
                x: (if len.gt(tiny) {
                    gy / len
                } else {
                    F32::zero()
                }).neg(),
                y: if len.gt(tiny) {
                    gx / len
                } else {
                    F32::one()
                },
                anisotropy: ((l1 - l2) / (l1 + l2).max(tiny)).clamp(F32::zero(), F32::one()),
            }
        }
    }
}

/// Edge direction and anisotropy of a 4x4 luma patch.
///
/// Gradients are central differences at the four inner taps, the only ones with
/// neighbours on both sides.
pub fn analyze(lum: &[F32; 16]) -> (e: Edge)
    ensures
        e == tensor(lum@, 4).edge(),
{
    let mut jxx = F32::zero();
    let mut jyy = F32::zero();
    let mut jxy = F32::zero();
    let mut n: usize = 0;
    while n < 4
        invariant
            n <= 4,
            (Tensor { jxx, jyy, jxy }) == tensor(lum@, n as nat),
        decreases 4 - n,
    {
        let k: usize = (1 + n / 2) * 4 + 1 + n % 2;
        let gx = F32::half() * (lum[k + 1] - lum[k - 1]);
        let gy = F32::half() * (lum[k + 4] - lum[k - 4]);
        jxx = jxx + gx * gx;
        jyy = jyy + gy * gy;
        jxy = jxy + gx * gy;
        n = n + 1;
    }

    // Eigenvalues of the symmetric 2x2 tensor.
    let trace = jxx + jyy;
    let diff = jxx - jyy;
    let disc = (diff * diff + F32::four() * jxy * jxy).max(F32::zero()).sqrt();
    let l1 = F32::half() * (trace + disc);
    let l2 = F32::half() * (trace - disc);
    let tiny = F32::ratio(1, 100000000);
    if trace.le(tiny) {
        return Edge { x: F32::one(), y: F32::zero(), anisotropy: F32::zero() };
    }
    let anisotropy = ((l1 - l2) / (l1 + l2).max(tiny)).clamp(F32::zero(), F32::one());

    let (gx, gy) = if jxy.abs().gt(tiny) {
        (l1 - jyy, jxy)
    } else if jxx.ge(jyy) {
        (F32::one(), F32::zero())
    } else {
        (F32::zero(), F32::one())
    };
    let len = (gx * gx + gy * gy).sqrt();
    let (ux, uy) = if len.gt(tiny) {
        (gx / len, gy / len)
    } else {
        (F32::one(), F32::zero())
    };
    Edge { x: uy.neg(), y: ux, anisotropy }
}

/// How an output pixel looks at the source: where its center falls, and the tap
/// below and left of that. The taps span `bx - 1 ..= bx + 2`.
pub struct Gather {
    /// Horizontal position of the sample.
    pub sx: F32,
    /// Vertical position of the sample.
    pub sy: F32,
    /// Column of the tap below-left.
    pub bx: int,
    /// Row of the tap below-left.
    pub by: int,
    /// The taps, row by row.
    pub taps: Seq<Seq<F32>>,
}

/// The place of an output pixel's center in the source.
pub open spec fn spec_mapped(v: u32, from: u32, to: u32) -> F32 {
    (F32::from_u32(v) + F32::half()) * (F32::from_u32(from) / F32::from_u32(to))
}

impl Gather {
    /// The sample and the taps for an output pixel.
    pub open spec fn at(src: &ImageBuffer, out_w: u32, out_h: u32, ox: u32, oy: u32) -> Gather {
        let sx = spec_mapped(ox, src.spec_width(), out_w);
        let sy = spec_mapped(oy, src.spec_height(), out_h);
        let bx = (sx - F32::half()).floor().to_i32() as int;
        let by = (sy - F32::half()).floor().to_i32() as int;
        Gather {
            sx,
            sy,
            bx,
            by,
            taps: Seq::new(16, |k: int| src.px(bx - 1 + k % 4, by - 1 + k / 4)@),
        }
    }

    /// The luminance of the taps.
    pub open spec fn luma(self) -> Seq<F32> {
        Seq::new(16, |k: int| spec_luma(self.taps[k]))
    }

    /// The edge that runs through the taps.
    pub open spec fn edge(self) -> Edge {
        tensor(self.luma(), 4).edge()
    }

    /// The weight of tap `k`: its distance, warped wider along the edge and
    /// narrower across, put through the kernel.
    pub open spec fn weight(self, edge: Edge, stretch: F32, k: int) -> F32 {
        let dx = F32::from_i64((self.bx - 1 + k % 4) as i64) + F32::half() - self.sx;
        let dy = F32::from_i64((self.by - 1 + k / 4) as i64) + F32::half() - self.sy;
        let along = (dx * edge.x + dy * edge.y) / stretch;
        let across = (dx * edge.y.neg() + dy * edge.x) * stretch;
        spec_tap_weight((along * along + across * across).min(F32::two()))
    }

    /// The weighted sum of the first `n` taps, with the sum of the weights.
    pub open spec fn weighed(self, edge: Edge, stretch: F32, n: nat) -> (Seq<F32>, F32)
        decreases n,
    {
        if n == 0 {
            (Seq::new(4, |i: int| F32::zero()), F32::zero())
        } else {
            let (acc, wsum) = self.weighed(edge, stretch, (n - 1) as nat);
            let w = self.weight(edge, stretch, n - 1);
            (Seq::new(4, |i: int| acc[i] + self.taps[n - 1][i] * w), wsum + w)
        }
    }

    /// The least of the four nearest taps in a channel.
    pub open spec fn low(self, c: int) -> F32 {
        F32::infinity().min(self.taps[5][c]).min(self.taps[6][c]).min(self.taps[9][c]).min(
            self.taps[10][c],
        )
    }

    /// The greatest of the four nearest taps in a channel.
    pub open spec fn high(self, c: int) -> F32 {
        F32::neg_infinity().max(self.taps[5][c]).max(self.taps[6][c]).max(self.taps[9][c]).max(
            self.taps[10][c],
        )
    }

    /// Whether each channel has a number among its four nearest taps.
    pub open spec fn has_range(self) -> bool {
        forall|c: int|
            0 <= c < 4 ==> !(#[trigger] self.taps[5][c]).is_nan() || !self.taps[6][c].is_nan()
                || !self.taps[9][c].is_nan() || !self.taps[10][c].is_nan()
    }
}

/// The color of an output pixel.
pub open spec fn upsampled(
    src: &ImageBuffer,
    out_w: u32,
    out_h: u32,
    cfg: EasuConfig,
    ox: u32,
    oy: u32,
) -> Seq<F32> {
    let g = Gather::at(src, out_w, out_h, ox, oy);
    let edge = g.edge();
    let strength = cfg.anisotropy_strength.clamp(F32::zero(), F32::two());
    let (acc, wsum) = g.weighed(edge, F32::one() + edge.anisotropy * strength, 16);
    let raw = if wsum.abs().gt(F32::ratio(1, 100000)) {
        let inv = F32::one() / wsum;
        Seq::new(4, |c: int| acc[c] * inv)
    } else {
        src.sampled(g.sx, g.sy)
    };
    if cfg.deringing {
        Seq::new(4, |c: int| raw[c].clamp(g.low(c), g.high(c)))
    } else {
        raw
    }
}

/// A coordinate moved up to zero where it is below.
fn floor_zero(v: i64) -> (u: u32)
    requires
        v < 0x1_0000_0000,
    ensures
        u == (if v < 0 {
            0
        } else {
            v as int
        }),
{
    if v < 0 {
        0
    } else {
        v as u32
    }
}

/// The taps around a sample.
fn gather(src: &ImageBuffer, bx: i32, by: i32) -> (taps: [[F32; 4]; 16])
    requires
        src.wf(),
    ensures
        forall|k: int|
            0 <= k < 16 ==> (#[trigger] taps[k])@ == src.px(bx - 1 + k % 4, by - 1 + k / 4)@,
{
    let zero = F32::zero();
    let mut taps = [[zero, zero, zero, zero]; 16];
    let mut k: usize = 0;
    while k < 16
        invariant
            k <= 16,
            src.wf(),
            forall|m: int|
                0 <= m < k ==> (#[trigger] taps[m])@ == src.px(bx - 1 + m % 4, by - 1 + m / 4)@,
        decreases 16 - k,
    {
        let x: i64 = bx as i64 - 1 + (k % 4) as i64;
        let y: i64 = by as i64 - 1 + (k / 4) as i64;
        let c = src.at(floor_zero(x), floor_zero(y));
        proof {
            src.lemma_wf();
            assert(c == src.px(x as int, y as int));
        }
        taps[k] = c;
        k = k + 1;
    }
    taps
}

/// The luminance of some taps.
fn tap_luma(taps: &[[F32; 4]; 16]) -> (lum: [F32; 16])
    ensures
        forall|k: int| 0 <= k < 16 ==> #[trigger] lum[k] == spec_luma(taps[k]@),
{
    let weights = LumaWeights::new();
    let mut lum = [F32::zero(); 16];
    let mut k: usize = 0;
    while k < 16
        invariant
            k <= 16,
            weights.right(),
            forall|m: int| 0 <= m < k ==> #[trigger] lum[m] == spec_luma(taps[m]@),
        decreases 16 - k,
    {
        lum[k] = weights.luma(taps[k]);
        k = k + 1;
    }
    lum
}

/// How far the four taps of a row or a column lie from a sample, along the edge
/// and across it.
fn offsets(b: i32, s: F32, along: F32, across: F32) -> (r: [[F32; 2]; 4])
    ensures
        forall|i: int|
            0 <= i < 4 ==> {
                let d = F32::from_i64((b - 1 + i) as i64) + F32::half() - s;
                (#[trigger] r[i])[0] == d * along && r[i][1] == d * across
            },
{
    let zero = F32::zero();
    let mut r = [[zero, zero]; 4];
    let mut i: usize = 0;
    while i < 4
        invariant
            i <= 4,
            forall|j: int|
                0 <= j < i ==> {
                    let d = F32::from_i64((b - 1 + j) as i64) + F32::half() - s;
                    (#[trigger] r[j])[0] == d * along && r[j][1] == d * across
                },
        decreases 4 - i,
    {
        let d = F32::from_i64(b as i64 - 1 + i as i64) + F32::half() - s;
        r[i] = [d * along, d * across];
        i = i + 1;
    }
    r
}

/// Sum the taps by their weights.
fn weigh(
    taps: &[[F32; 4]; 16],
    bx: i32,
    by: i32,
    sx: F32,
    sy: F32,
    edge: &Edge,
    stretch: F32,
    Ghost(g): Ghost<Gather>,
) -> (r: ([F32; 4], F32))
    requires
        g.bx == bx,
        g.by == by,
        g.sx == sx,
        g.sy == sy,
        g.taps == Seq::new(16, |k: int| taps[k]@),
    ensures
        r.0@ == g.weighed(*edge, stretch, 16).0,
        r.1 == g.weighed(*edge, stretch, 16).1,
{
    let zero = F32::zero();
    let mut acc = [zero, zero, zero, zero];
    let mut wsum = zero;
    let mut k: usize = 0;
    let kernel = Kernel::new();
    let xs = offsets(bx, sx, edge.x, edge.y.neg());
    let ys = offsets(by, sy, edge.y, edge.x);
    assert(acc@ =~= g.weighed(*edge, stretch, 0).0);
    while k < 16
        invariant
            k <= 16,
            kernel.right(),
            forall|i: int| 0 <= i < 4 ==> settled(#[trigger] acc[i]),
            forall|i: int|
                0 <= i < 4 ==> {
                    let d = F32::from_i64((bx - 1 + i) as i64) + F32::half() - sx;
                    (#[trigger] xs[i])[0] == d * edge.x && xs[i][1] == d * edge.y.neg()
                },
            forall|i: int|
                0 <= i < 4 ==> {
                    let d = F32::from_i64((by - 1 + i) as i64) + F32::half() - sy;
                    (#[trigger] ys[i])[0] == d * edge.y && ys[i][1] == d * edge.x
                },
            g.bx == bx,
            g.by == by,
            g.sx == sx,
            g.sy == sy,
            g.taps == Seq::new(16, |k: int| taps[k]@),
            acc@ == g.weighed(*edge, stretch, k as nat).0,
            wsum == g.weighed(*edge, stretch, k as nat).1,
        decreases 16 - k,
    {
        let dx = xs[k % 4];
        let dy = ys[k / 4];
        let along = (dx[0] + dy[0]) / stretch;
        let across = (dx[1] + dy[1]) * stretch;
        let d2 = (along * along + across * across).min(F32::two());
        let w = kernel.tap_weight(d2);
        let c = taps[k];
        acc = put_tap(acc, c, w);
        wsum = wsum + w;
        proof {
            assert(g.taps[k as int] == c@);
            assert(w == g.weight(*edge, stretch, k as int));
            assert(acc@ =~= g.weighed(*edge, stretch, (k + 1) as nat).0);
        }
        k = k + 1;
    }
    (acc, wsum)
}

/// The four nearest taps span a range as soon as one of them is a number.
proof fn lemma_range(a: F32, b: F32, c: F32, d: F32)
    requires
        !a.is_nan() || !b.is_nan() || !c.is_nan() || !d.is_nan(),
    ensures
        F32::infinity().min(a).min(b).min(c).min(d).le(
            F32::neg_infinity().max(a).max(b).max(c).max(d),
        ),
{
    reveal(F32::spec_min);
    reveal(F32::spec_max);
}

/// Hold a channel within the range of four taps.
fn dering(v: F32, a: F32, b: F32, c: F32, d: F32) -> (r: F32)
    requires
        !a.is_nan() || !b.is_nan() || !c.is_nan() || !d.is_nan(),
    ensures
        r == v.clamp(
            F32::infinity().min(a).min(b).min(c).min(d),
            F32::neg_infinity().max(a).max(b).max(c).max(d),
        ),
{
    proof {
        lemma_range(a, b, c, d);
    }
    let lo = F32::infinity().min(a).min(b).min(c).min(d);
    let hi = F32::neg_infinity().max(a).max(b).max(c).max(d);
    v.clamp(lo, hi)
}

/// Upsample one pixel.
fn upsample_pixel(
    src: &ImageBuffer,
    out_w: u32,
    out_h: u32,
    cfg: &EasuConfig,
    ox: u32,
    oy: u32,
) -> (c: [F32; 4])
    requires
        src.wf(),
        cfg.deringing ==> Gather::at(src, out_w, out_h, ox, oy).has_range(),
    ensures
        c@ == upsampled(src, out_w, out_h, *cfg, ox, oy),
{
    let sx = (F32::from_u32(ox) + F32::half()) * (F32::from_u32(src.width()) / F32::from_u32(
        out_w,
    ));
    let sy = (F32::from_u32(oy) + F32::half()) * (F32::from_u32(src.height()) / F32::from_u32(
        out_h,
    ));
    let bx: i32 = (sx - F32::half()).floor().to_i32();
    let by: i32 = (sy - F32::half()).floor().to_i32();
    let ghost g = Gather::at(src, out_w, out_h, ox, oy);
    let taps = gather(src, bx, by);
    assert(g.taps =~= Seq::new(16, |k: int| taps[k]@));
    let lum = tap_luma(&taps);
    assert(lum@ =~= g.luma());
    let edge = analyze(&lum);
    let strength = cfg.anisotropy_strength.clamp(F32::zero(), F32::two());
    let stretch = F32::one() + edge.anisotropy * strength;
    let (acc, wsum) = weigh(&taps, bx, by, sx, sy, &edge, stretch, Ghost(g));
    let raw: [F32; 4] = if wsum.abs().gt(F32::ratio(1, 100000)) {
        let inv = F32::one() / wsum;
        [acc[0] * inv, acc[1] * inv, acc[2] * inv, acc[3] * inv]
    } else {
        // Degenerate weights: something defined rather than a division by
        // almost nothing.
        src.sample_bilinear(sx, sy)
    };
    if !cfg.deringing {
        assert(raw@ =~= upsampled(src, out_w, out_h, *cfg, ox, oy));
        return raw;
    }
    proof {
        assert(g.taps[5] == taps[5]@ && g.taps[6] == taps[6]@);
        assert(g.taps[9] == taps[9]@ && g.taps[10] == taps[10]@);
        assert(!g.taps[5][0].is_nan() || !g.taps[6][0].is_nan() || !g.taps[9][0].is_nan()
            || !g.taps[10][0].is_nan());
        assert(!g.taps[5][1].is_nan() || !g.taps[6][1].is_nan() || !g.taps[9][1].is_nan()
            || !g.taps[10][1].is_nan());
        assert(!g.taps[5][2].is_nan() || !g.taps[6][2].is_nan() || !g.taps[9][2].is_nan()
            || !g.taps[10][2].is_nan());
        assert(!g.taps[5][3].is_nan() || !g.taps[6][3].is_nan() || !g.taps[9][3].is_nan()
            || !g.taps[10][3].is_nan());
    }
    let a = taps[5];
    let b = taps[6];
    let c = taps[9];
    let d = taps[10];
    let out = [
        dering(raw[0], a[0], b[0], c[0], d[0]),
        dering(raw[1], a[1], b[1], c[1], d[1]),
        dering(raw[2], a[2], b[2], c[2], d[2]),
        dering(raw[3], a[3], b[3], c[3], d[3]),
    ];
    assert(out@ =~= upsampled(src, out_w, out_h, *cfg, ox, oy));
    out
}

/// Resample `src` to `out_w` by `out_h` with an edge-adaptive kernel.
///
/// With deringing on, each channel needs a number among the four taps nearest to
/// every output pixel.
pub fn easu(src: &ImageBuffer, out_w: u32, out_h: u32, cfg: EasuConfig) -> (out: ImageBuffer)
    requires
        src.wf(),
        out_w > 0,
        out_h > 0,
        out_w * out_h <= usize::MAX,
        cfg.deringing ==> forall|ox: u32, oy: u32|
            ox < out_w && oy < out_h ==> #[trigger] Gather::at(
                src,
                out_w,
                out_h,
                ox,
                oy,
            ).has_range(),
    ensures
        out.wf(),
        out.spec_width() == out_w,
        out.spec_height() == out_h,
        forall|ox: u32, oy: u32|
            ox < out_w && oy < out_h ==> #[trigger] out.px(ox as int, oy as int)@ == upsampled(
                src,
                out_w,
                out_h,
                cfg,
                ox,
                oy,
            ),
{
    let n: usize = out_w as usize * out_h as usize;
    let mut data: Vec<[F32; 4]> = Vec::new();
    let mut k: usize = 0;
    let mut x: u32 = 0;
    let mut y: u32 = 0;
    assert(0 * out_w == 0) by (nonlinear_arith);
    while k < n
        invariant
            src.wf(),
            out_w > 0,
            n == out_w * out_h,
            k <= n,
            x < out_w,
            y <= out_h,
            k == y * out_w + x,
            k < n ==> y < out_h,
            cfg.deringing ==> forall|ox: u32, oy: u32|
                ox < out_w && oy < out_h ==> #[trigger] Gather::at(
                    src,
                    out_w,
                    out_h,
                    ox,
                    oy,
                ).has_range(),
            data.len() == k,
            forall|i: int|
                0 <= i < k ==> (#[trigger] data[i])@ == upsampled(
                    src,
                    out_w,
                    out_h,
                    cfg,
                    (i % (out_w as int)) as u32,
                    (i / (out_w as int)) as u32,
                ),
        decreases n - k,
    {
        proof {
            lemma_place(x as int, y as int, out_w as int, out_h as int);
        }
        data.push(upsample_pixel(src, out_w, out_h, &cfg, x, y));
        k = k + 1;
        if x < out_w - 1 {
            x = x + 1;
        } else {
            proof {
                lemma_row_end(x as int, y as int, out_w as int);
            }
            x = 0;
            y = y + 1;
        }
        proof {
            lemma_row(k as int, x as int, y as int, out_w as int, out_h as int);
        }
    }
    let ghost pixels = data@;
    let out = ImageBuffer::from_vec(out_w, out_h, data);
    proof {
        assert forall|ox: u32, oy: u32| ox < out_w && oy < out_h implies #[trigger] out.px(
            ox as int,
            oy as int,
        )@ == upsampled(src, out_w, out_h, cfg, ox, oy) by {
            lemma_place(ox as int, oy as int, out_w as int, out_h as int);
            assert(out.px(ox as int, oy as int) == pixels[oy * out_w + ox]);
        }
    }
    out
}

} // verus!
