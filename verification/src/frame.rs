//! Image, depth and motion buffers, and the sampling rules the rest of the
//! library assumes.
//!
//! # Conventions
//!
//! - **Pixel space.** Pixel `(x, y)` has its center at `(x + 0.5, y + 0.5)`, and
//!   every continuous coordinate is in that space.
//! - **Color.** Linear RGBA.
//! - **Depth.** Linear view-space depth, increasing away from the camera.
//! - **Motion.** For each pixel of the current frame, the offset in pixels to
//!   where that surface was in the previous frame.
//! - **Edges.** All sampling clamps.

use crate::fp::F32;
use vstd::prelude::*;

verus! {

/// Each of some numbers, scaled.
pub open spec fn scaled(s: Seq<F32>, k: F32) -> Seq<F32> {
    Seq::new(s.len(), |i: int| s[i] * k)
}

/// Some numbers added one by one to as many others.
pub open spec fn summed(s: Seq<F32>, t: Seq<F32>) -> Seq<F32> {
    Seq::new(s.len(), |i: int| s[i] + t[i])
}

/// A value that can be filtered: a row of numbers, its lanes.
pub trait Texel: Copy {
    /// The numbers that make up the value.
    spec fn lanes(self) -> Seq<F32>;

    /// How many there are.
    spec fn lane_count() -> nat;

    /// The additive identity.
    fn zero() -> (r: Self)
        ensures
            r.lanes() == Seq::new(Self::lane_count(), |i: int| F32::zero()),
    ;

    /// Multiply by a scalar.
    fn scale(self, k: F32) -> (r: Self)
        ensures
            r.lanes() == scaled(self.lanes(), k),
    ;

    /// Add another value.
    fn add(self, other: Self) -> (r: Self)
        ensures
            r.lanes() == summed(self.lanes(), other.lanes()),
    ;
}

impl Texel for F32 {
    open spec fn lanes(self) -> Seq<F32> {
        seq![self]
    }

    open spec fn lane_count() -> nat {
        1
    }

    fn zero() -> (r: Self) {
        let r = F32 { bits: 0 };
        assert(r.lanes() =~= Seq::new(1, |i: int| F32::zero()));
        r
    }

    fn scale(self, k: F32) -> (r: Self) {
        let r = self * k;
        assert(r.lanes() =~= scaled(self.lanes(), k));
        r
    }

    fn add(self, other: Self) -> (r: Self) {
        let r = self + other;
        assert(r.lanes() =~= summed(self.lanes(), other.lanes()));
        r
    }
}

impl<const N: usize> Texel for [F32; N] {
    open spec fn lanes(self) -> Seq<F32> {
        self@
    }

    open spec fn lane_count() -> nat {
        N as nat
    }

    fn zero() -> (r: Self) {
        [F32::zero(); N]
    }

    fn scale(self, k: F32) -> (r: Self) {
        let mut r = self;
        let mut i: usize = 0;
        while i < N
            invariant
                i <= N,
                forall|j: int| 0 <= j < i ==> r[j] == self[j] * k,
                forall|j: int| i <= j < N ==> r[j] == self[j],
            decreases N - i,
        {
            r[i] = r[i] * k;
            i = i + 1;
        }
        assert(r@ =~= scaled(self@, k));
        r
    }

    fn add(self, other: Self) -> (r: Self) {
        let mut r = self;
        let mut i: usize = 0;
        while i < N
            invariant
                i <= N,
                forall|j: int| 0 <= j < i ==> r[j] == self[j] + other[j],
                forall|j: int| i <= j < N ==> r[j] == self[j],
            decreases N - i,
        {
            r[i] = r[i] + other[i];
            i = i + 1;
        }
        assert(r@ =~= summed(self@, other@));
        r
    }
}

/// A coordinate held within `0..side`.
pub open spec fn clamped(v: int, side: int) -> int {
    if v < 0 {
        0
    } else if v >= side {
        side - 1
    } else {
        v
    }
}

/// A dense 2-D buffer.
#[derive(Clone, Debug, PartialEq)]
pub struct Grid<T> {
    width: u32,
    height: u32,
    data: Vec<T>,
}

impl<T> Grid<T> {
    /// Dimensions that are not zero, and a pixel for each place.
    pub closed spec fn wf(&self) -> bool {
        &&& self.width > 0
        &&& self.height > 0
        &&& self.data.len() == self.width * self.height
    }

    /// Width in pixels.
    pub closed spec fn spec_width(&self) -> u32 {
        self.width
    }

    /// Height in pixels.
    pub closed spec fn spec_height(&self) -> u32 {
        self.height
    }

    /// The pixels, row by row.
    pub closed spec fn pixels(&self) -> Seq<T> {
        self.data@
    }

    /// The pixel at a place, with coordinates outside moved to the edge.
    pub open spec fn px(&self, x: int, y: int) -> T {
        self.pixels()[clamped(y, self.spec_height() as int) * self.spec_width() + clamped(
            x,
            self.spec_width() as int,
        )]
    }

    /// Width in pixels.
    #[verifier::when_used_as_spec(spec_width)]
    pub fn width(&self) -> (w: u32)
        ensures
            w == self.spec_width(),
    {
        self.width
    }

    /// Height in pixels.
    #[verifier::when_used_as_spec(spec_height)]
    pub fn height(&self) -> (h: u32)
        ensures
            h == self.spec_height(),
    {
        self.height
    }

    /// What a well-formed buffer is, in terms of what can be seen of it.
    pub broadcast proof fn lemma_wf(&self)
        requires
            #[trigger] self.wf(),
        ensures
            self.spec_width() > 0,
            self.spec_height() > 0,
            self.pixels().len() == self.spec_width() * self.spec_height(),
            self.pixels().len() <= usize::MAX,
    {
    }
}

/// Rows do not overlap: the place of a pixel, and nothing past the end.
pub proof fn lemma_place(x: int, y: int, w: int, h: int)
    requires
        0 <= x < w,
        0 <= y < h,
    ensures
        0 <= y * w + x < w * h,
        (y * w + x) / w == y,
        (y * w + x) % w == x,
{
    assert(0 <= y * w) by (nonlinear_arith)
        requires
            0 <= y,
            0 < w,
    ;
    assert(y * w + w <= w * h) by (nonlinear_arith)
        requires
            y + 1 <= h,
            0 < w,
    ;
    vstd::arithmetic::div_mod::lemma_fundamental_div_mod_converse(y * w + x, w, y, x);
}

/// A place that is not past the end is in a row that is not past the end.
pub proof fn lemma_row(k: int, x: int, y: int, w: int, h: int)
    requires
        0 <= x < w,
        0 <= y,
        k == y * w + x,
    ensures
        k < w * h ==> y < h,
        k <= w * h ==> y <= h,
{
    if y >= h {
        assert(y * w >= w * h) by (nonlinear_arith)
            requires
                y >= h,
                w > 0,
        ;
    }
    if y > h {
        assert(y * w >= w * h + w) by (nonlinear_arith)
            requires
                y >= h + 1,
                w > 0,
        ;
    }
}

/// The place after the last one of a row is the first one of the next.
pub proof fn lemma_row_end(x: int, y: int, w: int)
    requires
        x + 1 == w,
    ensures
        y * w + x + 1 == (y + 1) * w,
{
    assert((y + 1) * w == y * w + w) by (nonlinear_arith);
}

impl<T: Texel> Grid<T> {
    /// Allocate a buffer filled with `value`.
    pub fn new(width: u32, height: u32, value: T) -> (g: Self)
        requires
            width > 0,
            height > 0,
            width * height <= usize::MAX,
        ensures
            g.wf(),
            g.spec_width() == width,
            g.spec_height() == height,
            g.pixels() == Seq::new((width * height) as nat, |i: int| value),
    {
        let n: usize = area(width, height);
        let mut data: Vec<T> = Vec::with_capacity(n);
        while data.len() < n
            invariant
                data.len() <= n,
                forall|i: int| 0 <= i < data.len() ==> data[i] == value,
            decreases n - data.len(),
        {
            data.push(value);
        }
        assert(data@ =~= Seq::new((width * height) as nat, |i: int| value));
        Grid { width, height, data }
    }

    /// Allocate a zeroed buffer.
    pub fn zeroed(width: u32, height: u32) -> (g: Self)
        requires
            width > 0,
            height > 0,
            width * height <= usize::MAX,
        ensures
            g.wf(),
            g.spec_width() == width,
            g.spec_height() == height,
            g.pixels().len() == width * height,
            forall|i: int|
                0 <= i < g.pixels().len() ==> #[trigger] g.pixels()[i].lanes() == Seq::new(
                    T::lane_count(),
                    |j: int| F32::zero(),
                ),
    {
        Self::new(width, height, T::zero())
    }

    /// Wrap existing data.
    pub fn from_vec(width: u32, height: u32, data: Vec<T>) -> (g: Self)
        requires
            width > 0,
            height > 0,
            data.len() == width * height,
        ensures
            g.wf(),
            g.spec_width() == width,
            g.spec_height() == height,
            g.pixels() == data@,
    {
        Grid { width, height, data }
    }

    /// Number of pixels.
    pub fn len(&self) -> (n: usize)
        ensures
            n == self.pixels().len(),
            self.wf() ==> n == self.spec_width() * self.spec_height(),
    {
        self.data.len()
    }

    /// Whether the buffer has no pixels. Never so of a well-formed one: its
    /// dimensions are not zero.
    pub fn is_empty(&self) -> (b: bool)
        ensures
            b == (self.pixels().len() == 0),
            self.wf() ==> !b,
    {
        proof {
            if self.wf() {
                assert(self.width * self.height > 0) by (nonlinear_arith)
                    requires
                        self.width > 0,
                        self.height > 0,
                ;
            }
        }
        self.data.is_empty()
    }

    /// The raw pixels, row-major.
    pub fn as_slice(&self) -> (s: &[T])
        ensures
            s@ == self.pixels(),
    {
        self.data.as_slice()
    }

    /// The raw pixels, mutably.
    pub fn as_mut_slice(&mut self) -> (s: &mut [T])
        ensures
            s@ == old(self).pixels(),
            final(self).pixels() == final(s)@,
            final(self).spec_width() == old(self).spec_width(),
            final(self).spec_height() == old(self).spec_height(),
            old(self).wf() && final(s)@.len() == s@.len() ==> final(self).wf(),
    {
        self.data.as_mut_slice()
    }

    fn index(&self, x: u32, y: u32) -> (i: usize)
        requires
            self.wf(),
        ensures
            i == clamped(y as int, self.spec_height() as int) * self.spec_width() + clamped(
                x as int,
                self.spec_width() as int,
            ),
            i < self.pixels().len(),
    {
        let cx: u32 = if x < self.width {
            x
        } else {
            self.width - 1
        };
        let cy: u32 = if y < self.height {
            y
        } else {
            self.height - 1
        };
        proof {
            lemma_place(cx as int, cy as int, self.width as int, self.height as int);
            assert(cy * self.width >= 0) by (nonlinear_arith);
        }
        (cy as usize) * (self.width as usize) + cx as usize
    }

    /// Read a pixel, clamping out-of-range coordinates to the edge.
    pub fn at(&self, x: u32, y: u32) -> (v: T)
        requires
            self.wf(),
        ensures
            v == self.px(x as int, y as int),
    {
        self.data[self.index(x, y)]
    }

    /// Read with signed coordinates, clamping to the edge.
    pub fn at_clamped(&self, x: i32, y: i32) -> (v: T)
        requires
            self.wf(),
        ensures
            v == self.px(x as int, y as int),
    {
        let cx: u32 = if x < 0 {
            0
        } else {
            x as u32
        };
        let cy: u32 = if y < 0 {
            0
        } else {
            y as u32
        };
        self.at(cx, cy)
    }

    /// Write a pixel. Out-of-range coordinates clamp to the edge.
    pub fn set(&mut self, x: u32, y: u32, value: T)
        requires
            old(self).wf(),
        ensures
            final(self).wf(),
            final(self).spec_width() == old(self).spec_width(),
            final(self).spec_height() == old(self).spec_height(),
            final(self).pixels() == old(self).pixels().update(
                clamped(y as int, old(self).spec_height() as int) * old(self).spec_width()
                    + clamped(x as int, old(self).spec_width() as int),
                value,
            ),
    {
        let i: usize = self.index(x, y);
        self.data.set(i, value);
    }

    /// Whether a continuous coordinate lands inside the buffer.
    pub open spec fn spec_contains(&self, x: F32, y: F32) -> bool {
        x.ge(F32::zero()) && y.ge(F32::zero()) && x.lt(F32::from_u32(self.spec_width()))
            && y.lt(F32::from_u32(self.spec_height()))
    }

    /// Whether a continuous coordinate lands inside the buffer.
    #[verifier::when_used_as_spec(spec_contains)]
    pub fn contains(&self, x: F32, y: F32) -> (b: bool)
        ensures
            b == self.spec_contains(x, y),
    {
        x.ge(F32::zero()) && y.ge(F32::zero()) && x.lt(F32::from_u32(self.width)) && y.lt(
            F32::from_u32(self.height),
        )
    }

    /// The lanes of a bilinear sample: the four pixels around the coordinate,
    /// weighted by how near they are.
    pub open spec fn sampled(&self, x: F32, y: F32) -> Seq<F32> {
        let fx = x - F32::half();
        let fy = y - F32::half();
        let tx = fx - fx.floor();
        let ty = fy - fy.floor();
        let x0 = fx.floor().to_i32();
        let y0 = fy.floor().to_i32();
        let x1 = spec_after(x0) as int;
        let y1 = spec_after(y0) as int;
        let top = blended(self.px(x0 as int, y0 as int).lanes(), self.px(x1, y0 as int).lanes(), tx);
        let bot = blended(self.px(x0 as int, y1).lanes(), self.px(x1, y1).lanes(), tx);
        blended(top, bot, ty)
    }

    /// Bilinear sample at a continuous pixel-space coordinate.
    pub fn sample_bilinear(&self, x: F32, y: F32) -> (v: T)
        requires
            self.wf(),
        ensures
            v.lanes() == self.sampled(x, y),
    {
        let fx = x - F32::half();
        let fy = y - F32::half();
        let xf = fx.floor();
        let yf = fy.floor();
        let tx = fx - xf;
        let ty = fy - yf;
        let x0: i32 = xf.to_i32();
        let y0: i32 = yf.to_i32();
        let x1: i32 = after(x0);
        let y1: i32 = after(y0);

        let c00 = self.at_clamped(x0, y0);
        let c10 = self.at_clamped(x1, y0);
        let c01 = self.at_clamped(x0, y1);
        let c11 = self.at_clamped(x1, y1);

        let top = c00.scale(F32::one() - tx).add(c10.scale(tx));
        let bot = c01.scale(F32::one() - tx).add(c11.scale(tx));
        top.scale(F32::one() - ty).add(bot.scale(ty))
    }
}

/// The next coordinate, or the same one where there is none.
pub open spec fn spec_after(v: i32) -> i32 {
    if v < i32::MAX {
        (v + 1) as i32
    } else {
        v
    }
}

fn after(v: i32) -> (n: i32)
    ensures
        n == spec_after(v),
{
    if v < i32::MAX {
        v + 1
    } else {
        v
    }
}

/// Two rows of numbers mixed: `1 - t` of the first and `t` of the second.
pub open spec fn blended(a: Seq<F32>, b: Seq<F32>, t: F32) -> Seq<F32> {
    summed(scaled(a, F32::one() - t), scaled(b, t))
}

/// The number of pixels in a buffer.
fn area(width: u32, height: u32) -> (n: usize)
    requires
        width * height <= usize::MAX,
    ensures
        n == width * height,
{
    width as usize * height as usize
}

/// Linear RGBA color.
pub type ImageBuffer = Grid<[F32; 4]>;

/// Linear view-space depth.
pub type DepthBuffer = Grid<F32>;

/// Per-pixel offset, in pixels, to the previous frame.
pub type MotionBuffer = Grid<[F32; 2]>;

/// One rendered frame: everything reconstruction needs from the renderer.
#[derive(Clone, Debug)]
pub struct GBuffer {
    /// Linear RGBA.
    pub color: ImageBuffer,
    /// Linear view-space depth.
    pub depth: DepthBuffer,
    /// Offsets to the previous frame, in pixels.
    pub motion: MotionBuffer,
}

impl GBuffer {
    /// Three well-formed planes of one size.
    pub open spec fn wf(&self) -> bool {
        &&& self.color.wf()
        &&& self.depth.wf()
        &&& self.motion.wf()
        &&& self.depth.spec_width() == self.color.spec_width()
        &&& self.depth.spec_height() == self.color.spec_height()
        &&& self.motion.spec_width() == self.color.spec_width()
        &&& self.motion.spec_height() == self.color.spec_height()
    }

    /// Assemble a frame from planes of one size.
    pub fn new(color: ImageBuffer, depth: DepthBuffer, motion: MotionBuffer) -> (g: Self)
        requires
            color.wf(),
            depth.wf(),
            motion.wf(),
            depth.spec_width() == color.spec_width(),
            depth.spec_height() == color.spec_height(),
            motion.spec_width() == color.spec_width(),
            motion.spec_height() == color.spec_height(),
        ensures
            g.wf(),
            g.color == color,
            g.depth == depth,
            g.motion == motion,
    {
        GBuffer { color, depth, motion }
    }

    /// An empty frame: black, at the far plane, with no motion.
    pub fn blank(width: u32, height: u32) -> (g: Self)
        requires
            width > 0,
            height > 0,
            width * height <= usize::MAX,
        ensures
            g.wf(),
            g.spec_width() == width,
            g.spec_height() == height,
            forall|x: int, y: int|
                0 <= x < width && 0 <= y < height ==> {
                    &&& #[trigger] g.color.px(x, y)@ == seq![
                        F32::zero(),
                        F32::zero(),
                        F32::zero(),
                        F32::one(),
                    ]
                    &&& g.depth.px(x, y) == F32::max_value()
                    &&& g.motion.px(x, y)@ == seq![F32::zero(), F32::zero()]
                },
    {
        let color = ImageBuffer::new(
            width,
            height,
            [F32::zero(), F32::zero(), F32::zero(), F32::one()],
        );
        let depth = DepthBuffer::new(width, height, F32::max_value());
        let motion = MotionBuffer::zeroed(width, height);
        proof {
            assert forall|x: int, y: int| 0 <= x < width && 0 <= y < height implies {
                &&& #[trigger] color.px(x, y)@ == seq![
                    F32::zero(),
                    F32::zero(),
                    F32::zero(),
                    F32::one(),
                ]
                &&& depth.px(x, y) == F32::max_value()
                &&& motion.px(x, y)@ == seq![F32::zero(), F32::zero()]
            } by {
                lemma_place(x, y, width as int, height as int);
                assert(motion.px(x, y).lanes() =~= seq![F32::zero(), F32::zero()]);
            }
        }
        GBuffer { color, depth, motion }
    }

    /// Width in pixels.
    pub open spec fn spec_width(&self) -> u32 {
        self.color.spec_width()
    }

    /// Width in pixels.
    #[verifier::when_used_as_spec(spec_width)]
    pub fn width(&self) -> (w: u32)
        ensures
            w == self.spec_width(),
    {
        self.color.width()
    }

    /// Height in pixels.
    pub open spec fn spec_height(&self) -> u32 {
        self.color.spec_height()
    }

    /// Height in pixels.
    #[verifier::when_used_as_spec(spec_height)]
    pub fn height(&self) -> (h: u32)
        ensures
            h == self.spec_height(),
    {
        self.color.height()
    }
}

} // verus!
