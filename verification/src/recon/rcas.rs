//! Robust contrast-adaptive sharpening.
//!
//! For each pixel the pass computes, from the local extremes, the largest
//! sharpening lobe that will not push any channel past `0` or `1`, and uses
//! that. The weakest lobe of the three channels is applied to all of them, so
//! that sharpening does not pull the channels apart. Values are assumed to be in
//! `0..=1`.
//!
//! The extremes are those of the four neighbours. A pixel darker or brighter
//! than all of them has less room than they show, so where that lobe would carry
//! it out of range, the lobe is eased until it no longer does.

use crate::fp::facts::{
    lemma_add_key, lemma_order, lemma_ratio_key, lemma_ratio_le, lemma_rounded_sum_monotone,
    lemma_rounds_to_itself,
};
use crate::fp::model::Format;
use crate::fp::F32;
use crate::frame::{lemma_place, lemma_row, lemma_row_end, ImageBuffer};
use vstd::prelude::*;

verus! {

/// Most negative lobe permitted, `-3/16`: a margin from `-1/4`, where the kernel
/// is singular.
pub open spec fn spec_lobe_limit() -> F32 {
    F32 { bits: 0xbe40_0000 }
}

fn lobe_limit() -> (l: F32)
    ensures
        l == spec_lobe_limit(),
{
    F32 { bits: 0xbe40_0000 }
}

/// Whether a number is in `0..=1`.
pub open spec fn spec_displayable(v: F32) -> bool {
    F32::zero().le(v) && v.le(F32::one())
}

fn displayable(v: F32) -> (b: bool)
    ensures
        b == spec_displayable(v),
{
    F32::zero().le(v) && v.le(F32::one())
}

/// Whether a number is in `0..=1` but for a ten-thousandth of rounding.
pub open spec fn spec_all_but_displayable(v: F32) -> bool {
    F32::ratio(1, 10000).neg().le(v) && v.le(F32::one() + F32::ratio(1, 10000))
}

/// What is in range is so but for rounding.
proof fn lemma_displayable(v: F32)
    requires
        spec_displayable(v),
    ensures
        spec_all_but_displayable(v),
{
    let t = F32::ratio(1, 10000);
    let one = F32::one();
    lemma_ratio_le(0, 10000, 1, 10000);
    lemma_ratio_key(1, 10000);
    lemma_order(F32::zero(), t);
    lemma_order(F32::zero(), F32::zero());
    lemma_add_key(one, t);
    lemma_rounds_to_itself(one);
    lemma_rounded_sum_monotone(Format::Single, one.value(), one.value() + t.value());
    reveal(F32::spec_neg);
}

fn all_but_displayable(v: F32) -> (b: bool)
    ensures
        b == spec_all_but_displayable(v),
{
    if displayable(v) {
        proof {
            lemma_displayable(v);
        }
        return true;
    }
    F32::ratio(1, 10000).neg().le(v) && v.le(F32::one() + F32::ratio(1, 10000))
}

/// The lobe that one channel has room for, given the least and the greatest of
/// the four neighbours: before the dark side crushes, and before the bright side
/// blows out.
pub open spec fn spec_room(least: F32, greatest: F32) -> F32 {
    let hit_min = least / (F32::four() * greatest).max(F32::ratio(1, 1000000));
    let hit_max = (F32::one() - greatest) / (F32::four() * least - F32::four()).min(
        F32::ratio(1, 1000000).neg(),
    );
    hit_min.neg().max(hit_max)
}

fn room(least: F32, greatest: F32) -> (l: F32)
    ensures
        l == spec_room(least, greatest),
{
    let hit_min = least / (F32::four() * greatest).max(F32::ratio(1, 1000000));
    let hit_max = (F32::one() - greatest) / (F32::four() * least - F32::four()).min(
        F32::ratio(1, 1000000).neg(),
    );
    hit_min.neg().max(hit_max)
}

/// One channel of five pixels that form a cross: the middle, then above, left,
/// right and below.
#[derive(Clone, Copy, Debug)]
pub struct Lane {
    /// The pixel being sharpened.
    pub e: F32,
    /// Above.
    pub b: F32,
    /// Left.
    pub d: F32,
    /// Right.
    pub f: F32,
    /// Below.
    pub h: F32,
}

impl Lane {
    /// The lobe that the channel has room for.
    pub open spec fn spec_lobe(self) -> F32 {
        spec_room(
            self.b.min(self.d).min(self.f).min(self.h),
            self.b.max(self.d).max(self.f).max(self.h),
        )
    }

    fn lobe(self) -> (l: F32)
        ensures
            l == self.spec_lobe(),
    {
        let least = self.b.min(self.d).min(self.f).min(self.h);
        let greatest = self.b.max(self.d).max(self.f).max(self.h);
        room(least, greatest)
    }

    /// The channel sharpened by a lobe; as it was where that is not finite.
    pub open spec fn spec_sharpened(self, lobe: F32) -> F32 {
        let v = (lobe * (self.b + self.d + self.f + self.h) + self.e) / (F32::four() * lobe
            + F32::one());
        if v.is_finite() {
            v
        } else {
            self.e
        }
    }

    fn sharpened(self, lobe: F32) -> (v: F32)
        ensures
            v == self.spec_sharpened(lobe),
    {
        let v = (lobe * (self.b + self.d + self.f + self.h) + self.e) / (F32::four() * lobe
            + F32::one());
        if v.is_finite() {
            v
        } else {
            self.e
        }
    }

    /// Whether the channel is in `0..=1`.
    pub open spec fn spec_ranged(self) -> bool {
        spec_displayable(self.e) && spec_displayable(self.b) && spec_displayable(self.d)
            && spec_displayable(self.f) && spec_displayable(self.h)
    }

    fn ranged(self) -> (r: bool)
        ensures
            r == self.spec_ranged(),
    {
        displayable(self.e) && displayable(self.b) && displayable(self.d) && displayable(self.f)
            && displayable(self.h)
    }

    /// The strongest lobe that keeps the channel in range, where the one given
    /// does not: the one that takes it to `0`, or to `1`.
    pub open spec fn spec_eased(self, lobe: F32) -> F32 {
        let ring = self.b + self.d + self.f + self.h;
        let v = self.spec_sharpened(lobe);
        if v.lt(F32::zero()) {
            (self.e / ring).neg()
        } else if v.gt(F32::one()) {
            ((F32::one() - self.e) / (F32::four() - ring)).neg()
        } else {
            lobe
        }
    }

    fn eased(self, lobe: F32) -> (l: F32)
        ensures
            l == self.spec_eased(lobe),
    {
        let ring = self.b + self.d + self.f + self.h;
        let v = self.sharpened(lobe);
        if v.lt(F32::zero()) {
            (self.e / ring).neg()
        } else if v.gt(F32::one()) {
            ((F32::one() - self.e) / (F32::four() - ring)).neg()
        } else {
            lobe
        }
    }
}

/// The five pixels of a cross: the middle, then above, left, right and below.
pub struct Cross {
    /// The pixel being sharpened.
    pub e: Seq<F32>,
    /// Above.
    pub b: Seq<F32>,
    /// Left.
    pub d: Seq<F32>,
    /// Right.
    pub f: Seq<F32>,
    /// Below.
    pub h: Seq<F32>,
}

impl Cross {
    /// The cross around a pixel.
    pub open spec fn around(img: &ImageBuffer, x: int, y: int) -> Cross {
        Cross {
            e: img.px(x, y)@,
            b: img.px(x, y - 1)@,
            d: img.px(x - 1, y)@,
            f: img.px(x + 1, y)@,
            h: img.px(x, y + 1)@,
        }
    }

    /// Channel `c`.
    pub open spec fn lane(self, c: int) -> Lane {
        Lane { e: self.e[c], b: self.b[c], d: self.d[c], f: self.f[c], h: self.h[c] }
    }

    /// The lobe that the neighbours leave room for: the weakest of the three,
    /// within limits, scaled.
    pub open spec fn lobe(self, sharpness: F32) -> F32 {
        self.lane(0).spec_lobe().max(self.lane(1).spec_lobe()).max(self.lane(2).spec_lobe()).clamp(
            spec_lobe_limit(),
            F32::zero(),
        ) * sharpness
    }

    /// Whether a lobe carries a cross that is in range out of it.
    pub open spec fn overshoots(self, lobe: F32) -> bool {
        &&& self.lane(0).spec_ranged() && self.lane(1).spec_ranged() && self.lane(2).spec_ranged()
        &&& !(spec_all_but_displayable(self.lane(0).spec_sharpened(lobe))
            && spec_all_but_displayable(self.lane(1).spec_sharpened(lobe))
            && spec_all_but_displayable(self.lane(2).spec_sharpened(lobe)))
    }

    /// The lobe applied: what the neighbours leave room for, eased only where
    /// that would carry the pixel out of range.
    pub open spec fn applied(self, sharpness: F32) -> F32 {
        let lobe = self.lobe(sharpness);
        if self.overshoots(lobe) {
            lobe.max(self.lane(0).spec_eased(lobe)).max(self.lane(1).spec_eased(lobe)).max(
                self.lane(2).spec_eased(lobe),
            )
        } else {
            lobe
        }
    }

    /// The pixel sharpened. Alpha is passed through.
    pub open spec fn sharpened(self, sharpness: F32) -> Seq<F32> {
        let lobe = self.applied(sharpness);
        if sharpness.le(F32::zero()) || !(F32::four() * lobe + F32::one()).abs().gt(
            F32::ratio(1, 10000),
        ) {
            self.e
        } else {
            seq![
                self.lane(0).spec_sharpened(lobe),
                self.lane(1).spec_sharpened(lobe),
                self.lane(2).spec_sharpened(lobe),
                self.e[3],
            ]
        }
    }
}

/// Sharpen one pixel.
fn sharpen_pixel(img: &ImageBuffer, sharpness: F32, x: u32, y: u32) -> (c: [F32; 4])
    requires
        img.wf(),
        x < img.spec_width(),
        y < img.spec_height(),
    ensures
        c@ == Cross::around(img, x as int, y as int).sharpened(sharpness),
{
    let e = img.at(x, y);
    if sharpness.le(F32::zero()) {
        return e;
    }
    let b = img.at(x, if y > 0 { y - 1 } else { 0 });
    let d = img.at(if x > 0 { x - 1 } else { 0 }, y);
    let f = img.at(x + 1, y);
    let h = img.at(x, y + 1);
    let ghost cross = Cross::around(img, x as int, y as int);
    assert(b@ == cross.b && d@ == cross.d && f@ == cross.f && h@ == cross.h);

    let red = Lane { e: e[0], b: b[0], d: d[0], f: f[0], h: h[0] };
    let green = Lane { e: e[1], b: b[1], d: d[1], f: f[1], h: h[1] };
    let blue = Lane { e: e[2], b: b[2], d: d[2], f: f[2], h: h[2] };
    assert(red == cross.lane(0) && green == cross.lane(1) && blue == cross.lane(2));
    let weakest = red.lobe().max(green.lobe()).max(blue.lobe());
    let mut lobe = weakest.clamp(lobe_limit(), F32::zero()) * sharpness;
    let mut r = red.sharpened(lobe);
    let mut g = green.sharpened(lobe);
    let mut l = blue.sharpened(lobe);
    let fits = all_but_displayable(r) && all_but_displayable(g) && all_but_displayable(l);
    if !fits && red.ranged() && green.ranged() && blue.ranged() {
        lobe = lobe.max(red.eased(lobe)).max(green.eased(lobe)).max(blue.eased(lobe));
        r = red.sharpened(lobe);
        g = green.sharpened(lobe);
        l = blue.sharpened(lobe);
    }
    assert(lobe == cross.applied(sharpness));
    if !(F32::four() * lobe + F32::one()).abs().gt(F32::ratio(1, 10000)) {
        return e;
    }
    let c = [r, g, l, e[3]];
    assert(c@ =~= cross.sharpened(sharpness));
    c
}

/// Sharpen, returning a new buffer.
///
/// `sharpness` scales the computed lobe, from 0 (off) to 1 (as much as the local
/// contrast allows). Alpha is passed through.
pub fn rcas(img: &ImageBuffer, sharpness: F32) -> (out: ImageBuffer)
    requires
        img.wf(),
    ensures
        out.wf(),
        out.spec_width() == img.spec_width(),
        out.spec_height() == img.spec_height(),
        forall|x: u32, y: u32|
            x < img.spec_width() && y < img.spec_height() ==> #[trigger] out.px(
                x as int,
                y as int,
            )@ == Cross::around(img, x as int, y as int).sharpened(
                sharpness.clamp(F32::zero(), F32::one()),
            ),
{
    let s = sharpness.clamp(F32::zero(), F32::one());
    let w: u32 = img.width();
    let h: u32 = img.height();
    let n: usize = img.len();
    let mut data: Vec<[F32; 4]> = Vec::new();
    let mut k: usize = 0;
    let mut x: u32 = 0;
    let mut y: u32 = 0;
    proof {
        img.lemma_wf();
        assert(0 * w == 0) by (nonlinear_arith);
    }
    while k < n
        invariant
            img.wf(),
            w == img.spec_width(),
            h == img.spec_height(),
            w > 0,
            n == w * h,
            k <= n,
            x < w,
            y <= h,
            k == y * w + x,
            k < n ==> y < h,
            data.len() == k,
            forall|i: int|
                0 <= i < k ==> (#[trigger] data[i])@ == Cross::around(
                    img,
                    i % (w as int),
                    i / (w as int),
                ).sharpened(s),
        decreases n - k,
    {
        proof {
            lemma_place(x as int, y as int, w as int, h as int);
        }
        data.push(sharpen_pixel(img, s, x, y));
        k = k + 1;
        if x < w - 1 {
            x = x + 1;
        } else {
            proof {
                lemma_row_end(x as int, y as int, w as int);
            }
            x = 0;
            y = y + 1;
        }
        proof {
            lemma_row(k as int, x as int, y as int, w as int, h as int);
        }
    }
    let ghost pixels = data@;
    let out = ImageBuffer::from_vec(w, h, data);
    proof {
        assert forall|x: u32, y: u32| x < w && y < h implies #[trigger] out.px(
            x as int,
            y as int,
        )@ == Cross::around(img, x as int, y as int).sharpened(s) by {
            lemma_place(x as int, y as int, w as int, h as int);
            assert(out.px(x as int, y as int) == pixels[y * w + x]);
        }
    }
    out
}

} // verus!
