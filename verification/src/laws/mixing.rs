//! Mixing: samples between pixels, and what holes are filled with, are averages.

use crate::fp::errors::{
    lemma_add_close, lemma_add_wide, lemma_div_close, lemma_mul_close, lemma_slip, one_unit, size,
    slip,
};
use crate::fp::facts::{lemma_exact, lemma_order, lemma_sub_key};
use crate::fp::model::{lemma_pow2_le, Format};
use crate::fp::raw::lemma_units_zero;
use crate::fp::F32;
use crate::frame::{blended, lemma_place, ImageBuffer, Texel};
use crate::laws::filling::{believed, is_picture, lemma_coordinates};
use crate::laws::motion::{is_part, lemma_rest};
use crate::laws::sampling::{displayable, lemma_displayable_pixel, lemma_half_value};
use crate::laws::sharpening::lemma_unit_value;
use crate::laws::trust::in_unit;
use crate::laws::upsampling::lemma_floor;
use crate::recon::interpolate::{Gathered, Patch};
use vstd::arithmetic::power2::{lemma2_to64, lemma_pow2_adds, lemma_pow2_pos, pow2};
use vstd::prelude::*;

verus! {

/// Whether a coordinate lies between the centers of pixels `x` and `x + 1`: `i`
/// parts of `2^k` of the way.
pub open spec fn is_between(c: F32, x: int, i: int, k: nat) -> bool {
    &&& k <= 11
    &&& 0 <= x < 0x1000
    &&& 0 <= i < pow2(k)
    &&& c.is_finite()
    &&& c.value() == (2 * x + 1) * pow2(148) + i * pow2((149 - k) as nat)
}

/// Where a coordinate between centers is looked up.
proof fn lemma_between(c: F32, x: int, i: int, k: nat)
    requires
        is_between(c, x, i, k),
    ensures
        ({
            let f = c - F32::half();
            &&& f.floor().to_i32() == x
            &&& is_part(f - f.floor(), i, k)
        }),
{
    let g = Format::Single;
    let half = F32::half();
    let u = pow2(149);
    let d = (149 - k) as nat;
    let p = pow2(d);
    let q = pow2(k);
    lemma2_to64();
    lemma_pow2_pos(k);
    lemma_pow2_pos(d);
    lemma_pow2_le(k, 11);
    lemma_pow2_adds(k, d);
    lemma_half_value();
    // Less half a pixel.
    let f = c - half;
    let m = (x * q + i) as nat;
    assert(0 <= x * q && x * q + i < 0x100_0000) by (nonlinear_arith)
        requires
            0 <= x < 0x1000,
            0 <= i < q,
            q <= 0x800,
    ;
    assert((2 * x + 1) * pow2(148) + i * p - pow2(148) == m * p) by (nonlinear_arith)
        requires
            m == x * q + i,
            2 * pow2(148) == q * p,
    ;
    let h = pow2((g.p() - 1) as nat);
    assert((d + 2) * h <= g.top()) by (nonlinear_arith)
        requires
            d <= 149,
            h == 0x80_0000,
            g.top() == 0x7f80_0000,
    ;
    lemma_sub_key(c, half);
    assert(m * p >= 0) by (nonlinear_arith);
    let mag = lemma_exact(g, m, d);
    lemma_order(f, f);
    lemma_units_zero(g, mag);
    assert(f.is_finite() && f.value() == m * p);
    // The pixel at or before it.
    assert(m * p == x * u + i * p) by (nonlinear_arith)
        requires
            m == x * q + i,
            u == q * p,
    ;
    assert(0 <= i * p < u) by (nonlinear_arith)
        requires
            0 <= i < q,
            u == q * p,
            p > 0,
    ;
    assert(x * u < 0x1000 * u && x * u >= 0) by (nonlinear_arith)
        requires
            0 <= x < 0x1000,
            u > 0,
    ;
    lemma_floor(f);
    assert(u * x == x * u) by (nonlinear_arith);
    vstd::arithmetic::div_mod::lemma_fundamental_div_mod_converse(f.value(), u as int, x, i * p);
    // And the rest.
    let t = f - f.floor();
    lemma_sub_key(f, f.floor());
    let part = lemma_exact(g, i as nat, d);
    lemma_order(t, t);
    lemma_units_zero(g, part);
}

/// A mix of two numbers is as much of each as its share.
proof fn lemma_mixed(a: F32, b: F32, t: F32, i: int, k: nat, x: int, y: int, off: int)
    requires
        a.is_finite(),
        b.is_finite(),
        is_part(t, i, k),
        -one_unit() <= a.value() <= 2 * one_unit(),
        -one_unit() <= b.value() <= 2 * one_unit(),
        size(a.value() - x) <= off,
        size(b.value() - y) <= off,
    ensures
        ({
            let m = a * (F32::one() - t) + b * t;
            let q = pow2(k);
            &&& m.is_finite()
            &&& size(m.value() * q - ((q - i) * x + i * y)) <= (off + 3 * slip()) * q
        }),
{
    let e = slip();
    let u = one_unit();
    let q = pow2(k) as int;
    let p = pow2((149 - k) as nat) as int;
    let rest = F32::one() - t;
    lemma_slip();
    lemma_rest(t, i, k);
    lemma_pow2_pos(k);
    lemma_pow2_pos((149 - k) as nat);
    lemma_pow2_adds(k, (149 - k) as nat);
    lemma_unit_value(t);
    lemma_rest(rest, q - i, k);
    lemma_unit_value(rest);
    let (s, r) = (t.value(), rest.value());
    let (v, w) = (a.value(), b.value());
    assert(-(8 * u * u) <= v * r <= 8 * u * u && -(8 * u * u) <= w * s <= 8 * u * u)
        by (nonlinear_arith)
        requires
            -u <= v <= 2 * u,
            -u <= w <= 2 * u,
            0 <= r <= u,
            0 <= s <= u,
    ;
    lemma_mul_close(a, rest);
    lemma_mul_close(b, t);
    let left = (a * rest).value();
    let right = (b * t).value();
    lemma_part_left(v, left, q - i, q, p, u, e, r);
    lemma_part_left(w, right, i, q, p, u, e, s);
    assert(-3 * u <= left <= 3 * u && -3 * u <= right <= 3 * u) by (nonlinear_arith)
        requires
            size(left * q - (q - i) * v) <= e * q,
            size(right * q - i * w) <= e * q,
            -u <= v <= 2 * u,
            -u <= w <= 2 * u,
            0 <= i <= q,
            q > 0,
            0 < e <= u,
    {
        assert(-(u * q) <= (q - i) * v <= 2 * u * q);
        assert(-(u * q) <= i * w <= 2 * u * q);
        assert(e * q <= u * q);
        if left > 3 * u {
            assert(left * q > 3 * u * q);
        }
        if left < -3 * u {
            assert(left * q < -3 * u * q);
        }
        if right > 3 * u {
            assert(right * q > 3 * u * q);
        }
        if right < -3 * u {
            assert(right * q < -3 * u * q);
        }
    }
    lemma_add_close(a * rest, b * t);
    let m = (a * rest + b * t).value();
    assert(size((m - (left + right)) * q) <= e * q) by (nonlinear_arith)
        requires
            size(m - (left + right)) <= e,
            q > 0,
    ;
    assert((m - (left + right)) * q == m * q - left * q - right * q) by (nonlinear_arith);
    assert(size((q - i) * v - (q - i) * x) <= (q - i) * off && size(i * w - i * y) <= i * off)
        by (nonlinear_arith)
        requires
            size(v - x) <= off,
            size(w - y) <= off,
            0 <= i <= q,
    ;
    assert((q - i) * off + i * off == off * q) by (nonlinear_arith);
    assert((off + 3 * e) * q == off * q + 3 * (e * q)) by (nonlinear_arith);
}

/// A product with a share is that share.
proof fn lemma_part_left(v: int, left: int, i: int, q: int, p: int, u: int, e: int, r: int)
    requires
        r == i * p,
        u == q * p,
        p > 0,
        -e * u <= left * u - v * r <= e * u,
    ensures
        size(left * q - i * v) <= e * q,
{
    assert(v * r == (i * v) * p && left * u == (left * q) * p && e * u == (e * q) * p)
        by (nonlinear_arith)
        requires
            r == i * p,
            u == q * p,
    ;
    assert(-e * u == -(e * u)) by (nonlinear_arith);
    let d = left * q - i * v;
    assert(d * p == (left * q) * p - (i * v) * p) by (nonlinear_arith)
        requires
            d == left * q - i * v,
    ;
    let b = e * q;
    assert(-b <= d <= b) by (nonlinear_arith)
        requires
            -(b * p) <= d * p <= b * p,
            p > 0,
    ;
}

/// A sample between four pixels is each of them by how near it is, on both axes:
/// at `i / 2^k` of the way from column `x` to the next, and `j / 2^k` of the way
/// from row `y` to the next, but for a few millionths of rounding.
pub proof fn law_sampling_between_pixels_is_linear(
    img: &ImageBuffer,
    cx: F32,
    cy: F32,
    v: [F32; 4],
    x: int,
    y: int,
    i: int,
    j: int,
    k: nat,
    c: int,
)
    requires
        img.wf(),
        displayable(img),
        is_between(cx, x, i, k),
        is_between(cy, y, j, k),
        call_ensures(ImageBuffer::sample_bilinear, (img, cx, cy), v),
        0 <= c < 4,
    ensures
        ({
            let q = pow2(k);
            let a = img.px(x, y)@[c].value();
            let b = img.px(x + 1, y)@[c].value();
            let d = img.px(x, y + 1)@[c].value();
            let f = img.px(x + 1, y + 1)@[c].value();
            let exact = (q - j) * ((q - i) * a + i * b) + j * ((q - i) * d + i * f);
            &&& v@[c].is_finite()
            &&& size(v@[c].value() * (q * q) - exact) <= 8 * (slip() * (q * q))
        }),
{
    let q = pow2(k) as int;
    let u = one_unit();
    let e = slip();
    lemma_slip();
    lemma_pow2_pos(k);
    lemma_between(cx, x, i, k);
    lemma_between(cy, y, j, k);
    let fx = cx - F32::half();
    let fy = cy - F32::half();
    let tx = fx - fx.floor();
    let ty = fy - fy.floor();
    lemma_displayable_pixel(img, x, y, c);
    lemma_displayable_pixel(img, x + 1, y, c);
    lemma_displayable_pixel(img, x, y + 1, c);
    lemma_displayable_pixel(img, x + 1, y + 1, c);
    let c00 = img.px(x, y).lanes();
    let c10 = img.px(x + 1, y).lanes();
    let c01 = img.px(x, y + 1).lanes();
    let c11 = img.px(x + 1, y + 1).lanes();
    lemma_unit_value(c00[c]);
    lemma_unit_value(c10[c]);
    lemma_unit_value(c01[c]);
    lemma_unit_value(c11[c]);
    let (a, b, d, f) = (c00[c].value(), c10[c].value(), c01[c].value(), c11[c].value());
    lemma_mixed(c00[c], c10[c], tx, i, k, a, b, 0);
    lemma_mixed(c01[c], c11[c], tx, i, k, d, f, 0);
    let top = c00[c] * (F32::one() - tx) + c10[c] * tx;
    let bot = c01[c] * (F32::one() - tx) + c11[c] * tx;
    assert(blended(c00, c10, tx)[c] == top);
    assert(blended(c01, c11, tx)[c] == bot);
    let (s, t) = (top.value(), bot.value());
    lemma_mix_range(s, a, b, i, q, u, e);
    lemma_mix_range(t, d, f, i, q, u, e);
    lemma_mixed(top, bot, ty, j, k, s, t, 0);
    let m = top * (F32::one() - ty) + bot * ty;
    assert(v@[c] == m);
    let r = m.value();
    let g = (q - i) * a + i * b;
    let h = (q - i) * d + i * f;
    assert(size(r * (q * q) - ((q - j) * g + j * h)) <= 8 * (e * (q * q))) by (nonlinear_arith)
        requires
            size(r * q - ((q - j) * s + j * t)) <= (3 * e) * q,
            size(s * q - g) <= (3 * e) * q,
            size(t * q - h) <= (3 * e) * q,
            0 <= j <= q,
            q > 0,
            e > 0,
    {
        let k0 = (3 * e) * q;
        let a0 = r * q - ((q - j) * s + j * t);
        assert(a0 * q == r * (q * q) - ((q - j) * (s * q) + j * (t * q)));
        assert(-(k0 * q) <= a0 * q <= k0 * q);
        assert(-((q - j) * k0) <= (q - j) * (s * q - g) <= (q - j) * k0);
        assert(-(j * k0) <= j * (t * q - h) <= j * k0);
        assert((q - j) * k0 + j * k0 == k0 * q);
        assert((q - j) * (s * q - g) == (q - j) * (s * q) - (q - j) * g);
        assert(j * (t * q - h) == j * (t * q) - j * h);
        assert(k0 * q == 3 * (e * (q * q)));
    }
}

/// A mix of numbers in `0..=1` is in range but for rounding.
proof fn lemma_mix_range(s: int, a: int, b: int, i: int, q: int, u: int, e: int)
    requires
        size(s * q - ((q - i) * a + i * b)) <= (0 + 3 * e) * q,
        0 <= a <= u,
        0 <= b <= u,
        0 <= i <= q,
        q > 0,
        0 < 3 * e <= u,
    ensures
        -u <= s <= 2 * u,
{
    assert(-u <= s <= 2 * u) by (nonlinear_arith)
        requires
            size(s * q - ((q - i) * a + i * b)) <= (3 * e) * q,
            0 <= a <= u,
            0 <= b <= u,
            0 <= i <= q,
            q > 0,
            0 < 3 * e <= u,
    {
        assert(0 <= (q - i) * a <= (q - i) * u);
        assert(0 <= i * b <= i * u);
        assert((q - i) * u + i * u == u * q);
        assert((3 * e) * q <= u * q);
        if s > 2 * u {
            assert(s * q > 2 * u * q);
        }
        if s < -u {
            assert(s * q < -u * q);
        }
    }
}

/// How much say the pixel at a column and a row has in filling a hole: its
/// confidence, where it lies in the picture.
pub open spec fn say(p: Patch, x: int, y: int) -> int {
    if 0 <= x < p.width && 0 <= y < p.height && believed(p, y * p.width + x) {
        p.valid[y * p.width + x].value()
    } else {
        0
    }
}

/// What it says: its say times a channel of its color.
pub open spec fn said(p: Patch, x: int, y: int, c: int) -> int {
    if 0 <= x < p.width && 0 <= y < p.height {
        say(p, x, y) * p.color[y * p.width + x][c].value()
    } else {
        0
    }
}

/// The say of all eight pixels around a place.
pub open spec fn say_around(p: Patch, x: int, y: int) -> int {
    say(p, x - 1, y - 1) + say(p, x, y - 1) + say(p, x + 1, y - 1) + say(p, x - 1, y) + say(
        p,
        x + 1,
        y,
    ) + say(p, x - 1, y + 1) + say(p, x, y + 1) + say(p, x + 1, y + 1)
}

/// What all eight say.
pub open spec fn said_around(p: Patch, x: int, y: int, c: int) -> int {
    said(p, x - 1, y - 1, c) + said(p, x, y - 1, c) + said(p, x + 1, y - 1, c) + said(
        p,
        x - 1,
        y,
        c,
    ) + said(p, x + 1, y, c) + said(p, x - 1, y + 1, c) + said(p, x, y + 1, c) + said(
        p,
        x + 1,
        y + 1,
        c,
    )
}

/// Whether the confidences and colors of a picture are in `0..=1`.
pub open spec fn in_range(p: Patch) -> bool {
    &&& forall|k: int| 0 <= k < p.valid.len() ==> in_unit(#[trigger] p.valid[k])
    &&& forall|k: int, c: int|
        0 <= k < p.color.len() && 0 <= c < 4 ==> in_unit(#[trigger] p.color[k][c])
}

/// One more neighbour.
proof fn lemma_one_more(p: Patch, x: int, y: int, n: nat, g: Gathered, c: int, w: int, d: int, m: int)
    requires
        is_picture(p),
        in_range(p),
        n < 9,
        n != 4,
        0 <= c < 4,
        0 <= m < 8,
        g.color[c].is_finite(),
        g.weight.is_finite(),
        0 <= w <= m * one_unit(),
        0 <= d <= m * (one_unit() * one_unit()),
        size(g.weight.value() - w) <= 2 * m * slip(),
        size(g.color[c].value() * one_unit() - d) <= 3 * m * (slip() * one_unit()),
    ensures
        ({
            let (nx, ny) = (x + n % 3 - 1, y + n / 3 - 1);
            let h = p.with_neighbour(x, y, n, g);
            let u = one_unit();
            let a = say(p, nx, ny);
            let b = said(p, nx, ny, c);
            &&& h.color[c].is_finite()
            &&& h.weight.is_finite()
            &&& 0 <= a <= u
            &&& 0 <= b <= u * u
            &&& size(h.weight.value() - (w + a)) <= 2 * (m + 1) * slip()
            &&& size(h.color[c].value() * u - (d + b)) <= 3 * (m + 1) * (slip() * u)
        }),
{
    let e = slip();
    let u = one_unit();
    lemma_slip();
    let (nx, ny) = (x + n % 3 - 1, y + n / 3 - 1);
    let k = ny * p.width + nx;
    let h = p.with_neighbour(x, y, n, g);
    let t = e * u;
    let z = u * u;
    assert(z >= 0 && t >= 0 && 64 * t <= z) by (nonlinear_arith)
        requires
            z == u * u,
            t == e * u,
            u >= 64 * e,
            e > 0,
    ;
    assert(2 * (m + 1) * e == 2 * m * e + 2 * e) by (nonlinear_arith);
    assert(3 * (m + 1) * t == 3 * m * t + 3 * t) by (nonlinear_arith);
    if 0 <= nx < p.width && 0 <= ny < p.height {
        lemma_place(nx, ny, p.width, p.height);
        let v = p.valid[k];
        let col = p.color[k][c];
        assert(in_unit(v) && in_unit(col));
        lemma_unit_value(v);
        lemma_unit_value(col);
        lemma_order(v, F32::zero());
        lemma_order(F32::zero(), v);
        let (a, b) = (v.value(), col.value());
        assert(0 <= a * b <= z) by (nonlinear_arith)
            requires
                0 <= a <= u,
                0 <= b <= u,
                z == u * u,
        ;
        assert(b * a == a * b) by (nonlinear_arith);
        assert(0 * b == 0) by (nonlinear_arith);
        if !v.le(F32::zero()) {
            assert(believed(p, k));
            assert(m * u <= 7 * u && 2 * m * e <= 14 * e && 3 * m * t <= 21 * t && m * z <= 7 * z)
                by (nonlinear_arith)
                requires
                    0 <= m <= 7,
                    u > 0,
                    e > 0,
                    t >= 0,
                    z >= 0,
            ;
            lemma_add_wide(g.weight, v);
            assert(8 * u * u == 8 * z) by (nonlinear_arith)
                requires
                    z == u * u,
            ;
            lemma_mul_close(col, v);
            let s = g.color[c].value();
            let r = (col * v).value();
            assert(-e * u == -t) by (nonlinear_arith)
                requires
                    t == e * u,
            ;
            assert(-u <= s <= 8 * u) by (nonlinear_arith)
                requires
                    -z <= s * u <= 8 * z,
                    z == u * u,
                    u > 0,
            ;
            assert(-u <= r <= 2 * u) by (nonlinear_arith)
                requires
                    -z <= r * u <= 2 * z,
                    z == u * u,
                    u > 0,
            ;
            lemma_add_wide(g.color[c], col * v);
            let q = (g.color[c] + col * v).value();
            let f = q - (s + r);
            assert(size(f * u) <= 2 * t) by (nonlinear_arith)
                requires
                    size(f) <= 2 * e,
                    u > 0,
                    t == e * u,
            ;
            assert(f * u == q * u - s * u - r * u) by (nonlinear_arith)
                requires
                    f == q - (s + r),
            ;
            assert(h.color[c] == g.color[c] + col * v);
        }
    }
}

/// Filling is averaging: a hole takes the average of the eight pixels around it,
/// those in the picture that are believable, each by its confidence, in every
/// channel, but for some millionths of rounding. This is for pictures in `0..=1`
/// and confidences around a hole that add up to a sixteenth at least.
pub proof fn law_a_hole_takes_the_average_around_it(p: Patch, k: int, c: int)
    requires
        is_picture(p),
        in_range(p),
        0 <= k < p.valid.len(),
        !believed(p, k),
        16 * say_around(p, k % p.width, k / p.width) >= one_unit(),
        0 <= c < 4,
    ensures
        ({
            let (x, y) = (k % p.width, k / p.width);
            let filled = p.pass();
            let v = filled.color[k][c].value();
            &&& filled.valid[k] == F32::half()
            &&& filled.color[k][c].is_finite()
            &&& size(v * say_around(p, x, y) - said_around(p, x, y, c)) <= 72 * (slip()
                * one_unit())
        }),
{
    let e = slip();
    let u = one_unit();
    lemma_slip();
    let (x, y) = (k % p.width, k / p.width);
    lemma_coordinates(k, p.width, p.height);
    lemma_order(F32::zero(), F32::zero());
    let g0 = p.gathered(x, y, 0);
    let g1 = p.gathered(x, y, 1);
    let g2 = p.gathered(x, y, 2);
    let g3 = p.gathered(x, y, 3);
    let g4 = p.gathered(x, y, 4);
    let g5 = p.gathered(x, y, 5);
    let g6 = p.gathered(x, y, 6);
    let g7 = p.gathered(x, y, 7);
    let g8 = p.gathered(x, y, 8);
    let g9 = p.gathered(x, y, 9);
    assert(g1 == p.with_neighbour(x, y, 0, g0) && g2 == p.with_neighbour(x, y, 1, g1) && g3
        == p.with_neighbour(x, y, 2, g2) && g4 == p.with_neighbour(x, y, 3, g3) && g5
        == p.with_neighbour(x, y, 4, g4) && g6 == p.with_neighbour(x, y, 5, g5) && g7
        == p.with_neighbour(x, y, 6, g6) && g8 == p.with_neighbour(x, y, 7, g7) && g9
        == p.with_neighbour(x, y, 8, g8));
    assert(g5 == g4);
    assert(0 * u == 0 && 2 * 0 * e == 0 && 0 * (u * u) == 0 && 3 * 0 * (e * u) == 0) by (nonlinear_arith);
    let w1 = say(p, x - 1, y - 1);
    let w2 = w1 + say(p, x, y - 1);
    let w3 = w2 + say(p, x + 1, y - 1);
    let w4 = w3 + say(p, x - 1, y);
    let w5 = w4 + say(p, x + 1, y);
    let w6 = w5 + say(p, x - 1, y + 1);
    let w7 = w6 + say(p, x, y + 1);
    let w8 = w7 + say(p, x + 1, y + 1);
    let d1 = said(p, x - 1, y - 1, c);
    let d2 = d1 + said(p, x, y - 1, c);
    let d3 = d2 + said(p, x + 1, y - 1, c);
    let d4 = d3 + said(p, x - 1, y, c);
    let d5 = d4 + said(p, x + 1, y, c);
    let d6 = d5 + said(p, x - 1, y + 1, c);
    let d7 = d6 + said(p, x, y + 1, c);
    let d8 = d7 + said(p, x + 1, y + 1, c);
    lemma_one_more(p, x, y, 0, g0, c, 0, 0, 0);
    lemma_one_more(p, x, y, 1, g1, c, w1, d1, 1);
    lemma_one_more(p, x, y, 2, g2, c, w2, d2, 2);
    lemma_one_more(p, x, y, 3, g3, c, w3, d3, 3);
    lemma_one_more(p, x, y, 5, g5, c, w4, d4, 4);
    lemma_one_more(p, x, y, 6, g6, c, w5, d5, 5);
    lemma_one_more(p, x, y, 7, g7, c, w6, d6, 6);
    lemma_one_more(p, x, y, 8, g8, c, w7, d7, 7);
    let total = g9.weight;
    let sum = g9.color[c];
    let (v, a) = (total.value(), sum.value());
    assert(size(v - w8) <= 16 * e);
    assert(size(a * u - d8) <= 24 * (e * u));
    lemma_order(total, F32::zero());
    lemma_order(F32::zero(), total);
    assert(p.fills(k));
    assert(0 <= d8 <= w8 * u) by {
        lemma_said_at_most(p, x - 1, y - 1, c);
        lemma_said_at_most(p, x, y - 1, c);
        lemma_said_at_most(p, x + 1, y - 1, c);
        lemma_said_at_most(p, x - 1, y, c);
        lemma_said_at_most(p, x + 1, y, c);
        lemma_said_at_most(p, x - 1, y + 1, c);
        lemma_said_at_most(p, x, y + 1, c);
        lemma_said_at_most(p, x + 1, y + 1, c);
        lemma_two_terms(w1, say(p, x, y - 1), u);
        lemma_two_terms(w2, say(p, x + 1, y - 1), u);
        lemma_two_terms(w3, say(p, x - 1, y), u);
        lemma_two_terms(w4, say(p, x + 1, y), u);
        lemma_two_terms(w5, say(p, x - 1, y + 1), u);
        lemma_two_terms(w6, say(p, x, y + 1), u);
        lemma_two_terms(w7, say(p, x + 1, y + 1), u);
    }
    assert(-(24 * e) <= a <= w8 + 24 * e) by (nonlinear_arith)
        requires
            size(a * u - d8) <= 24 * (e * u),
            0 <= d8 <= w8 * u,
            u > 0,
    ;
    lemma_div_close(sum, total);
    let q = (sum / total).value();
    assert(-u <= q <= 2 * u) by (nonlinear_arith)
        requires
            size(q * v - a * u) <= e * v,
            -(24 * e) <= a <= w8 + 24 * e,
            size(v - w8) <= 16 * e,
            16 * w8 >= u,
            u == 0x20_0000 * e,
            e > 0,
            v > 0,
    {
        assert(w8 >= 0x2_0000 * e);
        assert(v >= 0x1_0000 * e);
        assert(a <= v + 40 * e);
        assert(a * u <= (v + 40 * e) * u);
        assert((v + 40 * e) * u == v * u + 40 * (e * u));
        assert(0x1_0000 * (e * u) <= v * u);
        assert(e * v <= u * v);
        if q > 2 * u {
            assert(q * v > 2 * u * v);
        }
        assert(a * u >= -(24 * e) * u);
        if q < -u {
            assert(q * v < -u * v);
        }
    }
    assert(size(q * w8 - d8) <= 72 * (e * u)) by (nonlinear_arith)
        requires
            size(q * v - a * u) <= e * v,
            size(v - w8) <= 16 * e,
            size(a * u - d8) <= 24 * (e * u),
            -u <= q <= 2 * u,
            0 < v <= 9 * u,
            e > 0,
    {
        assert(q * w8 == q * v - q * (v - w8));
        assert(size(q * (v - w8)) <= 2 * u * (16 * e));
        assert(e * v <= 9 * (e * u));
    }
    assert(p.pass().color[k][c] == sum / total);
}

proof fn lemma_two_terms(a: int, b: int, u: int)
    ensures
        (a + b) * u == a * u + b * u,
{
    assert((a + b) * u == a * u + b * u) by (nonlinear_arith);
}

/// A pixel says at most its say.
proof fn lemma_said_at_most(p: Patch, x: int, y: int, c: int)
    requires
        is_picture(p),
        in_range(p),
        0 <= c < 4,
    ensures
        0 <= said(p, x, y, c) <= say(p, x, y) * one_unit(),
{
    let u = one_unit();
    lemma_slip();
    if 0 <= x < p.width && 0 <= y < p.height {
        lemma_place(x, y, p.width, p.height);
        let k = y * p.width + x;
        assert(in_unit(p.valid[k]) && in_unit(p.color[k][c]));
        lemma_unit_value(p.valid[k]);
        lemma_unit_value(p.color[k][c]);
        let (a, b) = (say(p, x, y), p.color[k][c].value());
        assert(0 <= a * b <= a * u) by (nonlinear_arith)
            requires
                0 <= a,
                0 <= b <= u,
        ;
    } else {
        assert(0 * u == 0) by (nonlinear_arith);
    }
}

} // verus!
