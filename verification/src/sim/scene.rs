//! A synthetic renderer, good enough to break reconstruction honestly.
//!
//! The scene is three parallax layers. Layers at different depths move at
//! different screen rates, so camera motion exposes background that was hidden
//! behind foreground last frame. Motion vectors are exact: every surface's
//! previous screen position is known.
//!
//! Sines and cosines come from the caller. For each pixel the scene says which
//! angles it needs, and draws with the values it is given.

use crate::fp::facts::lemma_ratio_le;
use crate::fp::F32;
use crate::frame::{
    lemma_place, lemma_row, lemma_row_end, DepthBuffer, GBuffer, ImageBuffer, MotionBuffer,
};
use vstd::prelude::*;

verus! {

/// Depth and parallax rate of one layer.
#[derive(Clone, Copy, Debug)]
pub struct Layer {
    /// View-space depth.
    pub depth: F32,
    /// Screen movement per unit of camera movement. Near layers move most.
    pub parallax: F32,
    /// Color.
    pub tint: [F32; 3],
}

/// Which layer is seen.
#[derive(Clone, Copy, PartialEq, Eq, Structural, Debug)]
pub enum LayerKind {
    /// Vertical bars, nearest to the camera.
    Foreground,
    /// Terrain in the lower third.
    Midground,
    /// Everything behind.
    Background,
}

impl LayerKind {
    /// View-space depth.
    pub open spec fn depth(self) -> F32 {
        match self {
            LayerKind::Foreground => F32::ratio(2, 1),
            LayerKind::Midground => F32::ratio(12, 1),
            LayerKind::Background => F32::ratio(60, 1),
        }
    }

    /// Screen movement per unit of camera movement.
    pub open spec fn parallax(self) -> F32 {
        match self {
            LayerKind::Foreground => F32::one(),
            LayerKind::Midground => F32::ratio(45, 100),
            LayerKind::Background => F32::ratio(12, 100),
        }
    }

    /// Color.
    pub open spec fn tint(self) -> Seq<F32> {
        match self {
            LayerKind::Foreground => seq![F32::one(), F32::ratio(82, 100), F32::ratio(55, 100)],
            LayerKind::Midground => seq![
                F32::ratio(62, 100),
                F32::ratio(78, 100),
                F32::ratio(70, 100),
            ],
            LayerKind::Background => seq![
                F32::ratio(45, 100),
                F32::ratio(55, 100),
                F32::ratio(85, 100),
            ],
        }
    }

    fn layer(self) -> (l: Layer)
        ensures
            l.depth == self.depth(),
            l.parallax == self.parallax(),
            l.tint@ == self.tint(),
    {
        let l = match self {
            LayerKind::Foreground => Layer {
                depth: F32::ratio(2, 1),
                parallax: F32::one(),
                tint: [F32::one(), F32::ratio(82, 100), F32::ratio(55, 100)],
            },
            LayerKind::Midground => Layer {
                depth: F32::ratio(12, 1),
                parallax: F32::ratio(45, 100),
                tint: [F32::ratio(62, 100), F32::ratio(78, 100), F32::ratio(70, 100)],
            },
            LayerKind::Background => Layer {
                depth: F32::ratio(60, 1),
                parallax: F32::ratio(12, 100),
                tint: [F32::ratio(45, 100), F32::ratio(55, 100), F32::ratio(85, 100)],
            },
        };
        assert(l.tint@ =~= self.tint());
        l
    }
}

/// Where the camera is, and what the scene looks like right now.
#[derive(Clone, Copy, Debug)]
pub struct Frame {
    /// Camera position in output pixels, at parallax 1.
    pub camera: [F32; 2],
    /// Camera position last frame.
    pub prev_camera: [F32; 2],
    /// Additive luminance across the whole frame.
    pub flash: F32,
    /// Fraction of pixels carrying content the motion vectors do not describe.
    pub particles: F32,
    /// Changes when the scene cuts, reshuffling all procedural content.
    pub seed: u32,
    /// Frame index, used only to re-roll particles each frame.
    pub tick: u32,
}

/// The scene being rendered.
#[derive(Clone, Copy, Debug)]
pub struct Scene {
    /// Output width in pixels, the resolution world coordinates are defined in.
    pub output_width: u32,
    /// Output height in pixels.
    pub output_height: u32,
    /// Vertical foreground bars per output width.
    pub foreground_bars: u32,
    /// Bar width as a fraction of their spacing.
    pub bar_duty: F32,
}

/// Bar count giving a fixed bar spacing in output pixels, at least two.
pub open spec fn spec_bars_for_spacing(output_width: u32, spacing_px: F32) -> u32 {
    let n = (F32::from_u32(output_width) / spacing_px).round().to_u32();
    if n < 2 {
        2
    } else {
        n
    }
}

fn bars_for_spacing(output_width: u32, spacing_px: F32) -> (n: u32)
    ensures
        n == spec_bars_for_spacing(output_width, spacing_px),
{
    let n = (F32::from_u32(output_width) / spacing_px).round().to_u32();
    if n < 2 {
        2
    } else {
        n
    }
}

/// An integer hash of a place and a seed.
pub open spec fn hash_bits(x: u32, y: u32, seed: u32) -> u32 {
    let a = x.wrapping_mul(0x9e3779b1) ^ y.wrapping_mul(0x85ebca6b) ^ seed.wrapping_mul(0xc2b2ae35);
    let b = (a ^ (a >> 16)).wrapping_mul(0x7feb352d);
    let c = (b ^ (b >> 15)).wrapping_mul(0x846ca68b);
    c ^ (c >> 16)
}

/// The hash mapped to `0..=1`.
pub open spec fn spec_hash_f(x: u32, y: u32, seed: u32) -> F32 {
    F32::from_u32(hash_bits(x, y, seed)) / F32::from_u32(u32::MAX)
}

/// An integer hash of a place and a seed, mapped to `0..=1`.
pub fn hash_f(x: u32, y: u32, seed: u32) -> (h: F32)
    ensures
        h == spec_hash_f(x, y, seed),
{
    let a: u32 = x.wrapping_mul(0x9e3779b1) ^ y.wrapping_mul(0x85ebca6b) ^ seed.wrapping_mul(
        0xc2b2ae35,
    );
    let b: u32 = (a ^ (a >> 16)).wrapping_mul(0x7feb352d);
    let c: u32 = (b ^ (b >> 15)).wrapping_mul(0x846ca68b);
    let d: u32 = c ^ (c >> 16);
    F32::from_u32(d) / F32::from_u32(u32::MAX)
}

/// A smooth ramp from 0 to 1.
pub open spec fn spec_smoothstep(t: F32) -> F32 {
    t * t * (F32::ratio(3, 1) - F32::two() * t)
}

fn smoothstep(t: F32) -> (r: F32)
    ensures
        r == spec_smoothstep(t),
{
    t * t * (F32::ratio(3, 1) - F32::two() * t)
}

/// Bilinearly interpolated value noise.
pub open spec fn spec_value_noise(x: F32, y: F32, seed: u32) -> F32 {
    let tx = spec_smoothstep(x - x.floor());
    let ty = spec_smoothstep(y - y.floor());
    let ix = x.floor().to_i32() as u32;
    let iy = y.floor().to_i32() as u32;
    let jx = ix.wrapping_add(1);
    let jy = iy.wrapping_add(1);
    let c00 = spec_hash_f(ix, iy, seed);
    let c10 = spec_hash_f(jx, iy, seed);
    let c01 = spec_hash_f(ix, jy, seed);
    let c11 = spec_hash_f(jx, jy, seed);
    let top = c00 + (c10 - c00) * tx;
    let bot = c01 + (c11 - c01) * tx;
    top + (bot - top) * ty
}

fn value_noise(x: F32, y: F32, seed: u32) -> (n: F32)
    ensures
        n == spec_value_noise(x, y, seed),
{
    let xi = x.floor();
    let yi = y.floor();
    let tx = smoothstep(x - xi);
    let ty = smoothstep(y - yi);
    let ix: u32 = xi.to_i32() as u32;
    let iy: u32 = yi.to_i32() as u32;
    let jx: u32 = ix.wrapping_add(1);
    let jy: u32 = iy.wrapping_add(1);
    let c00 = hash_f(ix, iy, seed);
    let c10 = hash_f(jx, iy, seed);
    let c01 = hash_f(ix, jy, seed);
    let c11 = hash_f(jx, jy, seed);
    let top = c00 + (c10 - c00) * tx;
    let bot = c01 + (c11 - c01) * tx;
    top + (bot - top) * ty
}

/// What the circular functions gave for one pixel.
#[derive(Clone, Copy, Debug)]
pub struct Waves {
    /// The sine that shapes the horizon. Not looked at behind a bar.
    pub horizon: F32,
    /// The sine of the stripes.
    pub across: F32,
    /// The cosine of the stripes.
    pub down: F32,
}

/// One rendered pixel.
pub struct Pixel {
    /// Linear RGBA.
    pub color: Seq<F32>,
    /// View-space depth.
    pub depth: F32,
    /// Offset to the previous frame, in render pixels.
    pub motion: Seq<F32>,
}

/// A color with the flash in it.
pub open spec fn flashed(c: Seq<F32>, flash: F32) -> Seq<F32> {
    if flash.key() == 0 {
        c
    } else {
        let zero = F32::zero();
        let one = F32::one();
        seq![
            (c[0] + flash).clamp(zero, one),
            (c[1] + flash).clamp(zero, one),
            (c[2] + flash).clamp(zero, one),
            c[3],
        ]
    }
}

fn flash_color(c: [F32; 4], flash: F32) -> (r: [F32; 4])
    ensures
        r@ == flashed(c@, flash),
{
    let zero = F32::zero();
    let one = F32::one();
    if flash == zero {
        return c;
    }
    let r = [
        (c[0] + flash).clamp(zero, one),
        (c[1] + flash).clamp(zero, one),
        (c[2] + flash).clamp(zero, one),
        c[3],
    ];
    assert(r@ =~= flashed(c@, flash));
    r
}

/// A color with the particles in it: content the motion vectors do not describe.
pub open spec fn sparked(c: Seq<F32>, f: Frame, x: u32, y: u32) -> Seq<F32> {
    let roll = f.seed.wrapping_add(f.tick.wrapping_mul(0x9e3779b1));
    let one = F32::one();
    if f.particles.gt(F32::zero()) && spec_hash_f(x ^ 0x9e37, y ^ 0x85eb, roll).lt(f.particles) {
        let spark = spec_hash_f(x, y, roll.wrapping_mul(2654435761));
        seq![
            (c[0] + spark).min(one),
            (c[1] + spark * F32::ratio(7, 10)).min(one),
            (c[2] + spark * F32::ratio(3, 10)).min(one),
            one,
        ]
    } else {
        c
    }
}

fn spark_color(c: [F32; 4], f: &Frame, x: u32, y: u32) -> (r: [F32; 4])
    ensures
        r@ == sparked(c@, *f, x, y),
{
    if !f.particles.gt(F32::zero()) {
        return c;
    }
    let roll: u32 = f.seed.wrapping_add(f.tick.wrapping_mul(0x9e3779b1));
    if !hash_f(x ^ 0x9e37, y ^ 0x85eb, roll).lt(f.particles) {
        return c;
    }
    let spark = hash_f(x, y, roll.wrapping_mul(2654435761));
    let one = F32::one();
    let r = [
        (c[0] + spark).min(one),
        (c[1] + spark * F32::ratio(7, 10)).min(one),
        (c[2] + spark * F32::ratio(3, 10)).min(one),
        one,
    ];
    assert(r@ =~= sparked(c@, *f, x, y));
    r
}

/// Procedural texture, tinted per layer.
pub open spec fn spec_shade(wx: F32, wy: F32, tint: Seq<F32>, seed: u32, waves: Waves) -> Seq<F32> {
    let n = spec_value_noise(wx * F32::ratio(9, 100), wy * F32::ratio(9, 100), seed) * F32::ratio(
        55,
        100,
    ) + spec_value_noise(wx * F32::ratio(31, 100), wy * F32::ratio(27, 100), seed ^ 0x51ed)
        * F32::ratio(30, 100) + spec_value_noise(
        wx * F32::ratio(77, 100),
        wy * F32::ratio(71, 100),
        seed ^ 0x2f9d,
    ) * F32::ratio(15, 100);
    let stripes = F32::ratio(12, 100) * (waves.across * waves.down);
    let v = (F32::ratio(28, 100) + F32::ratio(62, 100) * n + stripes).clamp(
        F32::ratio(2, 100),
        F32::ratio(98, 100),
    );
    seq![v * tint[0], v * tint[1], v * tint[2], F32::one()]
}

fn shade(wx: F32, wy: F32, tint: &[F32; 3], seed: u32, waves: &Waves) -> (c: [F32; 4])
    ensures
        c@ == spec_shade(wx, wy, tint@, seed, *waves),
{
    let n = value_noise(wx * F32::ratio(9, 100), wy * F32::ratio(9, 100), seed) * F32::ratio(
        55,
        100,
    ) + value_noise(wx * F32::ratio(31, 100), wy * F32::ratio(27, 100), seed ^ 0x51ed)
        * F32::ratio(30, 100) + value_noise(
        wx * F32::ratio(77, 100),
        wy * F32::ratio(71, 100),
        seed ^ 0x2f9d,
    ) * F32::ratio(15, 100);
    let stripes = F32::ratio(12, 100) * (waves.across * waves.down);
    proof {
        lemma_ratio_le(2, 100, 98, 100);
    }
    let v = (F32::ratio(28, 100) + F32::ratio(62, 100) * n + stripes).clamp(
        F32::ratio(2, 100),
        F32::ratio(98, 100),
    );
    let c = [v * tint[0], v * tint[1], v * tint[2], F32::one()];
    assert(c@ =~= spec_shade(wx, wy, tint@, seed, *waves));
    c
}

/// A screen coordinate in output-pixel units.
pub open spec fn spec_screen(v: u32, output: u32, render: u32) -> F32 {
    (F32::from_u32(v) + F32::half()) * (F32::from_u32(output) / F32::from_u32(render))
}

impl Scene {
    /// A scene with ordinary, well-separated foreground objects.
    pub fn open(output_width: u32, output_height: u32) -> (s: Self)
        ensures
            s.output_width == output_width,
            s.output_height == output_height,
            s.foreground_bars == spec_bars_for_spacing(output_width, F32::ratio(32, 1)),
            s.bar_duty == F32::ratio(28, 100),
    {
        Scene {
            output_width,
            output_height,
            foreground_bars: bars_for_spacing(output_width, F32::ratio(32, 1)),
            bar_duty: F32::ratio(28, 100),
        }
    }

    /// A scene dominated by thin geometry: cleanly resolved at native, gone by
    /// half resolution.
    pub fn fence(output_width: u32, output_height: u32) -> (s: Self)
        ensures
            s.output_width == output_width,
            s.output_height == output_height,
            s.foreground_bars == spec_bars_for_spacing(output_width, F32::ratio(5, 1)),
            s.bar_duty == F32::half(),
    {
        Scene {
            output_width,
            output_height,
            foreground_bars: bars_for_spacing(output_width, F32::ratio(5, 1)),
            bar_duty: F32::half(),
        }
    }

    /// Whether a bar covers a screen position.
    pub open spec fn behind_bar(self, sx: F32, f: Frame) -> bool {
        let bars = F32::from_u32(
            if self.foreground_bars > 1 {
                self.foreground_bars
            } else {
                1
            },
        );
        let at = (sx + f.camera[0] * F32::one()) / (F32::from_u32(self.output_width) / bars);
        (at - at.floor()).lt(self.bar_duty)
    }

    fn is_behind_bar(&self, sx: F32, f: &Frame) -> (b: bool)
        ensures
            b == self.behind_bar(sx, *f),
    {
        let bars = F32::from_u32(
            if self.foreground_bars > 1 {
                self.foreground_bars
            } else {
                1
            },
        );
        let spacing = F32::from_u32(self.output_width) / bars;
        let at = (sx + f.camera[0] * F32::one()) / spacing;
        (at - at.floor()).lt(self.bar_duty)
    }

    /// The angle whose sine shapes the horizon.
    pub open spec fn horizon_angle(self, sx: F32, f: Frame) -> F32 {
        (sx + f.camera[0] * LayerKind::Midground.parallax()) * F32::ratio(5, 100)
    }

    /// Front-to-back visibility at a screen position.
    pub open spec fn layer_at(self, sx: F32, sy: F32, f: Frame, horizon: F32) -> LayerKind {
        let h = F32::from_u32(self.output_height);
        if self.behind_bar(sx, f) {
            LayerKind::Foreground
        } else if sy.gt(h * F32::ratio(66, 100) + horizon * h * F32::ratio(6, 100)) {
            LayerKind::Midground
        } else {
            LayerKind::Background
        }
    }

    /// The angles of the stripes: one whose sine and one whose cosine is needed.
    pub open spec fn stripe_angles(wx: F32, wy: F32) -> (F32, F32) {
        (wx * F32::ratio(22, 100), wy * F32::ratio(17, 100))
    }

    /// World position of a screen position on a layer.
    pub open spec fn world(s: F32, camera: F32, kind: LayerKind) -> F32 {
        s + camera * kind.parallax()
    }

    /// A pixel, given what the circular functions gave for it.
    pub open spec fn pixel(
        self,
        width: u32,
        height: u32,
        f: Frame,
        x: u32,
        y: u32,
        waves: Waves,
    ) -> Pixel {
        let scale = F32::from_u32(self.output_width) / F32::from_u32(width);
        let scale_y = F32::from_u32(self.output_height) / F32::from_u32(height);
        let sx = (F32::from_u32(x) + F32::half()) * scale;
        let sy = (F32::from_u32(y) + F32::half()) * scale_y;
        let kind = self.layer_at(sx, sy, f, waves.horizon);
        let wx = Self::world(sx, f.camera[0], kind);
        let wy = Self::world(sy, f.camera[1], kind);
        let shaded = spec_shade(wx, wy, kind.tint(), f.seed, waves);
        Pixel {
            color: sparked(flashed(shaded, f.flash), f, x, y),
            depth: kind.depth(),
            motion: seq![
                (f.camera[0] - f.prev_camera[0]) * kind.parallax() / scale,
                (f.camera[1] - f.prev_camera[1]) * kind.parallax() / scale_y,
            ],
        }
    }

    /// Draw one pixel with given sines.
    fn draw_pixel(
        &self,
        scale: F32,
        scale_y: F32,
        f: &Frame,
        x: u32,
        y: u32,
        kind: LayerKind,
        waves: &Waves,
        Ghost(width): Ghost<u32>,
        Ghost(height): Ghost<u32>,
    ) -> (r: ([F32; 4], F32, [F32; 2]))
        requires
            scale == F32::from_u32(self.output_width) / F32::from_u32(width),
            scale_y == F32::from_u32(self.output_height) / F32::from_u32(height),
            kind == self.layer_at(
                (F32::from_u32(x) + F32::half()) * scale,
                (F32::from_u32(y) + F32::half()) * scale_y,
                *f,
                waves.horizon,
            ),
        ensures
            ({
                let p = self.pixel(width, height, *f, x, y, *waves);
                r.0@ == p.color && r.1 == p.depth && r.2@ == p.motion
            }),
    {
        let sx = (F32::from_u32(x) + F32::half()) * scale;
        let sy = (F32::from_u32(y) + F32::half()) * scale_y;
        let layer = kind.layer();
        let wx = sx + f.camera[0] * layer.parallax;
        let wy = sy + f.camera[1] * layer.parallax;
        let shaded = shade(wx, wy, &layer.tint, f.seed, waves);
        let color = spark_color(flash_color(shaded, f.flash), f, x, y);
        let motion = [
            (f.camera[0] - f.prev_camera[0]) * layer.parallax / scale,
            (f.camera[1] - f.prev_camera[1]) * layer.parallax / scale_y,
        ];
        assert(motion@ =~= self.pixel(width, height, *f, x, y, *waves).motion);
        (color, layer.depth, motion)
    }

    /// Whether sines could have come from two functions for a pixel.
    pub open spec fn waves_of<S: Fn(F32) -> F32, C: Fn(F32) -> F32>(
        self,
        width: u32,
        height: u32,
        f: Frame,
        x: u32,
        y: u32,
        sin: &S,
        cos: &C,
        waves: Waves,
    ) -> bool {
        let sx = spec_screen(x, self.output_width, width);
        let sy = spec_screen(y, self.output_height, height);
        let kind = self.layer_at(sx, sy, f, waves.horizon);
        let (a, b) = Self::stripe_angles(
            Self::world(sx, f.camera[0], kind),
            Self::world(sy, f.camera[1], kind),
        );
        &&& self.behind_bar(sx, f) || call_ensures(
            sin,
            (self.horizon_angle(sx, f),),
            waves.horizon,
        )
        &&& call_ensures(sin, (a,), waves.across)
        &&& call_ensures(cos, (b,), waves.down)
    }

    /// Whether a color, a depth and a motion vector are what two functions make
    /// of a pixel.
    #[verifier::opaque]
    pub open spec fn drawn<S: Fn(F32) -> F32, C: Fn(F32) -> F32>(
        self,
        width: u32,
        height: u32,
        f: Frame,
        x: u32,
        y: u32,
        sin: &S,
        cos: &C,
        drawn: Pixel,
    ) -> bool {
        exists|waves: Waves|
            self.waves_of(width, height, f, x, y, sin, cos, waves) && drawn == #[trigger] self.pixel(
                width,
                height,
                f,
                x,
                y,
                waves,
            )
    }

    /// Draw one pixel with a sine and a cosine.
    fn draw_with<S: Fn(F32) -> F32, C: Fn(F32) -> F32>(
        &self,
        width: u32,
        height: u32,
        f: &Frame,
        x: u32,
        y: u32,
        sin: &S,
        cos: &C,
    ) -> (r: ([F32; 4], F32, [F32; 2]))
        requires
            forall|a: F32| call_requires(sin, (a,)),
            forall|a: F32| call_requires(cos, (a,)),
        ensures
            self.drawn(
                width,
                height,
                *f,
                x,
                y,
                sin,
                cos,
                (Pixel { color: r.0@, depth: r.1, motion: r.2@ }),
            ),
    {
        let scale = F32::from_u32(self.output_width) / F32::from_u32(width);
        let scale_y = F32::from_u32(self.output_height) / F32::from_u32(height);
        let sx = (F32::from_u32(x) + F32::half()) * scale;
        let sy = (F32::from_u32(y) + F32::half()) * scale_y;
        let mut horizon = F32::zero();
        let mut kind = LayerKind::Foreground;
        if !self.is_behind_bar(sx, f) {
            let mid = LayerKind::Midground.layer();
            horizon = sin((sx + f.camera[0] * mid.parallax) * F32::ratio(5, 100));
            let h = F32::from_u32(self.output_height);
            kind = if sy.gt(h * F32::ratio(66, 100) + horizon * h * F32::ratio(6, 100)) {
                LayerKind::Midground
            } else {
                LayerKind::Background
            };
        }
        let parallax = kind.layer().parallax;
        let wx = sx + f.camera[0] * parallax;
        let wy = sy + f.camera[1] * parallax;
        let across = sin(wx * F32::ratio(22, 100));
        let down = cos(wy * F32::ratio(17, 100));
        let waves = Waves { horizon, across, down };
        let (c, d, m) = self.draw_pixel(
            scale,
            scale_y,
            f,
            x,
            y,
            kind,
            &waves,
            Ghost(width),
            Ghost(height),
        );
        proof {
            reveal(Scene::drawn);
            assert(self.waves_of(width, height, *f, x, y, sin, cos, waves));
            assert((Pixel { color: c@, depth: d, motion: m@ }) == self.pixel(
                width,
                height,
                *f,
                x,
                y,
                waves,
            ));
        }
        (c, d, m)
    }

    /// Render at an arbitrary resolution, with a sine and a cosine.
    ///
    /// World coordinates stay in output-pixel units whatever the render
    /// resolution is. Motion vectors come back in render pixels.
    pub fn render<S: Fn(F32) -> F32, C: Fn(F32) -> F32>(
        &self,
        width: u32,
        height: u32,
        f: &Frame,
        sin: &S,
        cos: &C,
    ) -> (g: GBuffer)
        requires
            width > 0,
            height > 0,
            width * height <= usize::MAX,
            forall|a: F32| call_requires(sin, (a,)),
            forall|a: F32| call_requires(cos, (a,)),
        ensures
            g.wf(),
            g.spec_width() == width,
            g.spec_height() == height,
            forall|x: u32, y: u32|
                x < width && y < height ==> self.drawn(
                    width,
                    height,
                    *f,
                    x,
                    y,
                    sin,
                    cos,
                    #[trigger] seen_at(&g, x, y),
                ),
    {
        let n: usize = width as usize * height as usize;
        let mut color: Vec<[F32; 4]> = Vec::new();
        let mut depth: Vec<F32> = Vec::new();
        let mut motion: Vec<[F32; 2]> = Vec::new();
        let mut k: usize = 0;
        let mut x: u32 = 0;
        let mut y: u32 = 0;
        assert(0 * width == 0) by (nonlinear_arith);
        while k < n
            invariant
                width > 0,
                forall|a: F32| call_requires(sin, (a,)),
                forall|a: F32| call_requires(cos, (a,)),
                n == width * height,
                k <= n,
                x < width,
                y <= height,
                k == y * width + x,
                k < n ==> y < height,
                color.len() == k,
                depth.len() == k,
                motion.len() == k,
                forall|i: int|
                    0 <= i < k ==> self.drawn(
                        width,
                        height,
                        *f,
                        (i % (width as int)) as u32,
                        (i / (width as int)) as u32,
                        sin,
                        cos,
                        (Pixel { color: (#[trigger] color[i])@, depth: depth[i], motion: motion[i]@ }),
                    ),
            decreases n - k,
        {
            proof {
                lemma_place(x as int, y as int, width as int, height as int);
            }
            let (c, d, m) = self.draw_with(width, height, f, x, y, sin, cos);
            color.push(c);
            depth.push(d);
            motion.push(m);
            k = k + 1;
            if x < width - 1 {
                x = x + 1;
            } else {
                proof {
                    lemma_row_end(x as int, y as int, width as int);
                }
                x = 0;
                y = y + 1;
            }
            proof {
                lemma_row(k as int, x as int, y as int, width as int, height as int);
            }
        }
        let ghost colors = color@;
        let ghost depths = depth@;
        let ghost motions = motion@;
        let g = GBuffer::new(
            ImageBuffer::from_vec(width, height, color),
            DepthBuffer::from_vec(width, height, depth),
            MotionBuffer::from_vec(width, height, motion),
        );
        proof {
            assert forall|x: u32, y: u32| x < width && y < height implies self.drawn(
                width,
                height,
                *f,
                x,
                y,
                sin,
                cos,
                #[trigger] seen_at(&g, x, y),
            ) by {
                lemma_place(x as int, y as int, width as int, height as int);
                let i = y * width + x;
                assert(g.color.px(x as int, y as int) == colors[i]);
                assert(g.depth.px(x as int, y as int) == depths[i]);
                assert(g.motion.px(x as int, y as int) == motions[i]);
            }
        }
        g
    }
}

/// A pixel of a rendered frame.
pub open spec fn seen_at(g: &GBuffer, x: u32, y: u32) -> Pixel {
    Pixel {
        color: g.color.px(x as int, y as int)@,
        depth: g.depth.px(x as int, y as int),
        motion: g.motion.px(x as int, y as int)@,
    }
}

} // verus!
