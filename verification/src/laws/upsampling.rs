//! Upsampling: whatever the kernel does, nothing leaves the range of what was
//! rendered.

use crate::fp::errors::{lemma_ratio_close, lemma_slip, one_unit, size, slip};
use crate::fp::facts::{
    lemma_div_key, lemma_exact, lemma_from_small, lemma_from_whole, lemma_mul_key, lemma_order,
    lemma_round_lower, lemma_round_same, lemma_round_top, lemma_round_upper, lemma_sub_key,
    lemma_unity,
};
use crate::fp::model::{lemma_pow2_le, lemma_quotient, lemma_quotient_bounds, units, Format};
use crate::fp::raw::{has_fraction, lemma_units_monotone, lemma_units_zero, whole_part};
use crate::fp::F32;
use crate::frame::ImageBuffer;
use crate::laws::sampling::{
    center, displayable, lemma_center, lemma_displayable_pixel, lemma_half_value,
    lemma_sample_bounded,
};
use crate::laws::trust::in_unit;
use crate::recon::easu::{
    easu, spec_mapped, spec_tap_weight, upsampled, Edge, EasuConfig, Gather,
};
use vstd::arithmetic::power2::{
    lemma2_to64, lemma2_to64_rest, lemma_pow2_adds, lemma_pow2_pos, lemma_pow2_unfold, pow2,
};
use vstd::prelude::*;

verus! {

/// Whether a number is finite and at most some number in size.
spec fn within(x: F32, m: nat) -> bool {
    x.is_finite() && size(x.value()) <= m * one_unit()
}

/// Exponents this small are far from the largest.
pub proof fn lemma_room_above(e: nat)
    requires
        e <= 240,
    ensures
        (e + 2) * pow2((Format::Single.p() - 1) as nat) <= Format::Single.top(),
        pow2(Format::Single.p()) == 0x100_0000,
{
    lemma2_to64();
    assert((e + 2) * 0x80_0000 <= 0x7f80_0000) by (nonlinear_arith)
        requires
            e <= 240,
    ;
}

proof fn lemma_sum_within(a: F32, b: F32, m: nat, n: nat)
    requires
        within(a, m),
        within(b, n),
        m + n < 0x100_0000,
    ensures
        within(a + b, m + n),
{
    reveal(F32::spec_add);
    let f = Format::Single;
    let u = one_unit();
    let v = a.value() + b.value();
    lemma_room_above(149);
    lemma_units_zero(f, 0);
    assert((m + n) * u == m * u + n * u) by (nonlinear_arith);
    assert((m + n) as nat * pow2(149) == (m + n) * u);
    if v < 0 {
        lemma_round_upper(f, (-v) as nat, 1, m + n, 149);
    } else {
        lemma_round_upper(f, v as nat, 1, m + n, 149);
    }
}

proof fn lemma_difference_within(a: F32, b: F32, m: nat, n: nat)
    requires
        within(a, m),
        within(b, n),
        m + n < 0x100_0000,
    ensures
        within(a - b, m + n),
{
    reveal(F32::spec_sub);
    let f = Format::Single;
    let u = one_unit();
    let v = a.value() - b.value();
    assert(b.raw().negated().value(f) == -b.value());
    lemma_room_above(149);
    lemma_units_zero(f, 0);
    assert((m + n) * u == m * u + n * u) by (nonlinear_arith);
    assert((m + n) as nat * pow2(149) == (m + n) * u);
    if v < 0 {
        lemma_round_upper(f, (-v) as nat, 1, m + n, 149);
    } else {
        lemma_round_upper(f, v as nat, 1, m + n, 149);
    }
}

proof fn lemma_product_within(a: F32, b: F32, m: nat, n: nat)
    requires
        within(a, m),
        within(b, n),
        m * n < 0x100_0000,
    ensures
        within(a * b, m * n),
{
    reveal(F32::spec_mul);
    let f = Format::Single;
    let u = pow2(149);
    let x = units(f, a.raw().mag as nat);
    let y = units(f, b.raw().mag as nat);
    lemma_room_above(149);
    lemma_pow2_pos(149);
    assert(x * y <= ((m * n) * u) * u) by (nonlinear_arith)
        requires
            x <= m * u,
            y <= n * u,
            0 <= x,
            0 <= y,
    ;
    lemma_round_upper(f, x * y, u, m * n, 149);
}

/// Small constants.
proof fn lemma_small_constants()
    ensures
        within(F32::one(), 1),
        within(F32::half(), 1),
        within(F32::ratio(2, 5), 1),
        within(F32::ratio(25, 16), 2),
        within(F32::ratio(9, 16), 1),
{
    lemma_slip();
    lemma_unity(Format::Single);
    lemma_order(F32::half(), F32::one());
    lemma_order(F32::zero(), F32::half());
    lemma_ratio_close(2, 5);
    lemma_ratio_close(25, 16);
    lemma_ratio_close(9, 16);
}

/// A weight of the kernel is never large.
proof fn lemma_weight_within(d2: F32)
    requires
        within(d2, 2),
    ensures
        within(spec_tap_weight(d2), 171),
{
    lemma_small_constants();
    let slope = F32::ratio(2, 5);
    lemma_product_within(slope, d2, 1, 2);
    lemma_difference_within(slope * d2, F32::one(), 2, 1);
    let b = slope * d2 - F32::one();
    lemma_product_within(F32::half(), d2, 1, 2);
    lemma_difference_within(F32::half() * d2, F32::one(), 2, 1);
    let a = F32::half() * d2 - F32::one();
    lemma_product_within(b, b, 3, 3);
    lemma_product_within(b * b, F32::ratio(25, 16), 9, 2);
    lemma_difference_within(b * b * F32::ratio(25, 16), F32::ratio(9, 16), 18, 1);
    lemma_product_within(a, a, 3, 3);
    lemma_product_within(b * b * F32::ratio(25, 16) - F32::ratio(9, 16), a * a, 19, 9);
}

/// A square is not negative, if it is a number.
pub proof fn lemma_square(x: F32)
    ensures
        (x * x).is_nan() || (x * x).key() >= 0,
{
    reveal(F32::spec_mul);
    let f = Format::Single;
    let n = units(f, x.raw().mag as nat);
    lemma_round_top(f, n * n, pow2(149));
}

/// A sum of what is not negative is not negative, if it is a number.
proof fn lemma_sum_not_negative(a: F32, b: F32)
    requires
        a.is_nan() || a.key() >= 0,
        b.is_nan() || b.key() >= 0,
    ensures
        (a + b).is_nan() || (a + b).key() >= 0,
{
    reveal(F32::spec_add);
    let f = Format::Single;
    lemma_units_zero(f, 0);
    let v = a.value() + b.value();
    if a.is_finite() && b.is_finite() {
        lemma_order(F32::zero(), a);
        lemma_order(F32::zero(), b);
        lemma_round_top(f, v as nat, 1);
    }
}

/// The weight of a tap is never large, whichever way the edge runs.
proof fn lemma_tap_within(g: Gather, edge: Edge, stretch: F32, k: int)
    ensures
        within(g.weight(edge, stretch, k), 171),
{
    reveal(F32::spec_min);
    lemma_slip();
    let dx = F32::from_i64((g.bx - 1 + k % 4) as i64) + F32::half() - g.sx;
    let dy = F32::from_i64((g.by - 1 + k / 4) as i64) + F32::half() - g.sy;
    let along = (dx * edge.x + dy * edge.y) / stretch;
    let across = (dx * edge.y.neg() + dy * edge.x) * stretch;
    lemma_square(along);
    lemma_square(across);
    lemma_sum_not_negative(along * along, across * across);
    let d2 = (along * along + across * across).min(F32::two());
    assert(d2.is_finite() && 0 <= d2.key() <= F32::two().key());
    lemma_order(F32::zero(), d2);
    lemma_order(d2, F32::two());
    lemma_two_value();
    lemma_weight_within(d2);
}

/// Two, by its value.
pub proof fn lemma_two_value()
    ensures
        F32::two().is_finite(),
        F32::two().value() == 2 * one_unit(),
{
    lemma2_to64();
    assert(0x4000_0000nat / 0x80_0000nat == 128 && 0x4000_0000nat % 0x80_0000nat == 0);
    lemma_pow2_adds(23, 127);
    lemma_pow2_adds(1, 149);
    assert(units(Format::Single, 0x4000_0000) == 0x80_0000 * pow2(127));
}

/// Whether every tap of a channel is in `0..=1`.
spec fn taps_in_unit(g: Gather, c: int) -> bool {
    forall|k: int| 0 <= k < 16 ==> in_unit(#[trigger] g.taps[k][c])
}

/// The weighted sums are never large.
proof fn lemma_weighed_within(g: Gather, edge: Edge, stretch: F32, n: nat, c: int)
    requires
        taps_in_unit(g, c),
        0 <= c < 4,
        n <= 16,
    ensures
        within(g.weighed(edge, stretch, n).0[c], 171 * n),
        within(g.weighed(edge, stretch, n).1, 171 * n),
    decreases n,
{
    lemma_slip();
    lemma_order(F32::zero(), F32::zero());
    if n > 0 {
        lemma_weighed_within(g, edge, stretch, (n - 1) as nat, c);
        lemma_tap_within(g, edge, stretch, n - 1);
        let (acc, wsum) = g.weighed(edge, stretch, (n - 1) as nat);
        let w = g.weight(edge, stretch, n - 1);
        let tap = g.taps[n - 1][c];
        assert(in_unit(tap));
        lemma_order(F32::zero(), tap);
        lemma_order(tap, F32::one());
        lemma_unity(Format::Single);
        lemma_product_within(tap, w, 1, 171);
        lemma_sum_within(acc[c], tap * w, (171 * (n - 1)) as nat, 171);
        lemma_sum_within(wsum, w, (171 * (n - 1)) as nat, 171);
    } else {
        assert(0 * one_unit() == 0);
    }
}

/// Dividing a sum by its weights leaves a number.
proof fn lemma_normalized(acc: F32, wsum: F32)
    requires
        within(acc, 2736),
        within(wsum, 2736),
        wsum.abs().gt(F32::ratio(1, 100000)),
    ensures
        (acc * (F32::one() / wsum)).is_finite(),
{
    let f = Format::Single;
    let u = pow2(149);
    lemma_slip();
    lemma_pow2_pos(149);
    lemma_unity(f);
    let least = F32::ratio(1, 100000);
    lemma_ratio_close(1, 100000);
    let y = units(f, wsum.raw().mag as nat);
    assert(wsum.abs().is_finite() && wsum.abs().value() == y) by {
        lemma_order(wsum, F32::zero());
    }
    lemma_order(wsum.abs(), least);
    assert(y >= 19 * slip());
    // The reciprocal.
    let inv = F32::one() / wsum;
    lemma_room_above(149);
    assert(u * u <= (120000 * u) * y) by (nonlinear_arith)
        requires
            u <= 120000 * y,
            u > 0,
    ;
    assert(within(inv, 120000)) by {
        reveal(F32::spec_div);
        lemma_units_zero(f, wsum.raw().mag as nat);
        lemma_round_upper(f, u * u, y, 120000, 149);
    }
    // And the product with it.
    let x = units(f, acc.raw().mag as nat);
    let z = units(f, inv.raw().mag as nat);
    lemma_room_above(178);
    lemma2_to64();
    lemma_pow2_adds(29, 149);
    assert(x * z <= (1 * pow2(178)) * u) by (nonlinear_arith)
        requires
            x <= 2736 * u,
            z <= 120000 * u,
            pow2(178) == 0x2000_0000 * u,
            0 <= x,
            0 <= z,
            u > 0,
    ;
    reveal(F32::spec_mul);
    lemma_round_upper(f, x * z, u, 1, 178);
}

/// The place of an output pixel's center in the source is finite.
proof fn lemma_mapped(v: u32, from: u32, to: u32)
    requires
        to > 0,
    ensures
        spec_mapped(v, from, to).is_finite(),
        spec_mapped(v, from, to).key() >= 0,
{
    let f = Format::Single;
    let u = pow2(149);
    let a = F32::from_u32(v);
    let b = F32::from_u32(from);
    let d = F32::from_u32(to);
    lemma2_to64();
    lemma_word_powers();
    lemma_pow2_pos(149);
    lemma_whole_within(v);
    lemma_whole_within(from);
    lemma_whole_within(to);
    let half = F32::half();
    lemma_order(F32::zero(), half);
    lemma_order(half, F32::one());
    lemma_unity(f);
    lemma_order(F32::zero(), a);
    // The center.
    let c = a + half;
    let n = a.value() + half.value();
    lemma_room_above(182);
    assert(c.is_finite() && c.key() >= 0 && units(f, c.key() as nat) <= pow2(182)) by {
        reveal(F32::spec_add);
        assert(n <= (1 * pow2(182)) * 1);
        lemma_units_zero(f, 0);
        lemma_round_upper(f, n as nat, 1, 1, 182);
    }
    // The scale.
    let s = b / d;
    let x = units(f, b.raw().mag as nat);
    let y = units(f, d.raw().mag as nat);
    lemma_room_above(181);
    assert(x * u <= (1 * pow2(181)) * y) by (nonlinear_arith)
        requires
            x <= pow2(181),
            u <= y,
            0 <= x,
    ;
    assert(s.is_finite() && s.key() >= 0 && units(f, s.key() as nat) <= pow2(181)) by {
        reveal(F32::spec_div);
        lemma_units_zero(f, d.raw().mag as nat);
        lemma_round_upper(f, x * u, y, 1, 181);
        lemma_units_zero(f, 0);
    }
    // And where they lead.
    let p = units(f, c.raw().mag as nat);
    let q = units(f, s.raw().mag as nat);
    lemma_room_above(214);
    lemma_pow2_adds(182, 181);
    lemma_pow2_adds(214, 149);
    assert(p * q <= (1 * pow2(214)) * u) by (nonlinear_arith)
        requires
            p <= pow2(182),
            q <= pow2(181),
            pow2(182) * pow2(181) == pow2(214) * u,
            0 <= p,
            0 <= q,
    ;
    lemma_mul_key(c, s);
    lemma_order(c, c);
    lemma_order(s, s);
    lemma_round_upper(f, p * q, u, 1, 214);
}

/// Powers of two around a machine word.
proof fn lemma_word_powers()
    ensures
        pow2(181) == 0x1_0000_0000 * pow2(149),
        pow2(182) == 0x2_0000_0000 * pow2(149),
{
    lemma2_to64();
    lemma2_to64_rest();
    lemma_pow2_adds(32, 149);
    lemma_pow2_adds(33, 149);
}

/// A machine word, by its value.
pub proof fn lemma_whole_within(v: u32)
    ensures
        F32::from_u32(v).is_finite(),
        F32::from_u32(v).key() >= 0,
        F32::from_u32(v).bits < 0x8000_0000,
        0 <= F32::from_u32(v).value() <= pow2(181),
        v > 0 ==> F32::from_u32(v).value() >= pow2(149),
{
    let f = Format::Single;
    let u = pow2(149);
    let a = F32::from_u32(v);
    lemma_from_whole(v as u64);
    lemma_word_powers();
    lemma_pow2_pos(149);
    lemma_room_above(181);
    lemma_room_above(149);
    assert(a.bits < 0x8000_0000) by {
        reveal(F32::spec_from_u64);
    }
    assert(v as nat * u <= (1 * pow2(181)) * 1) by (nonlinear_arith)
        requires
            v <= 0xffff_ffff,
            pow2(181) == 0x1_0000_0000 * u,
            u > 0,
    ;
    lemma_round_upper(f, v as nat * u, 1, 1, 181);
    if v > 0 {
        assert(v as nat * u >= (1 * u) * 1) by (nonlinear_arith)
            requires
                v >= 1,
                u > 0,
        ;
        lemma_round_lower(f, v as nat * u, 1, 1, 149);
    }
    lemma_order(a, a);
}

/// The least and the greatest of four numbers in `0..=1` enclose each other.
proof fn lemma_range_in_unit(a: F32, b: F32, c: F32, d: F32)
    requires
        in_unit(a),
        in_unit(b),
        in_unit(c),
        in_unit(d),
    ensures
        in_unit(F32::infinity().min(a).min(b).min(c).min(d)),
        in_unit(F32::neg_infinity().max(a).max(b).max(c).max(d)),
        F32::infinity().min(a).min(b).min(c).min(d).key() <= F32::neg_infinity().max(a).max(b).max(
            c,
        ).max(d).key(),
        a.key() == b.key() == c.key() == d.key() ==> {
            &&& F32::infinity().min(a).min(b).min(c).min(d).key() == a.key()
            &&& F32::neg_infinity().max(a).max(b).max(c).max(d).key() == a.key()
        },
{
    reveal(F32::spec_min);
    reveal(F32::spec_max);
}

/// What the four source pixels nearest to an output pixel span in a channel,
/// the output pixel keeps to: with deringing on, a picture in `0..=1` is
/// upsampled to one in `0..=1`, and where the four are alike so is the result.
/// This holds for every size and every strength of the warp.
pub proof fn law_upsampling_stays_in_range(
    src: &ImageBuffer,
    out_w: u32,
    out_h: u32,
    cfg: EasuConfig,
    ox: u32,
    oy: u32,
    c: int,
)
    requires
        src.wf(),
        displayable(src),
        cfg.deringing,
        out_w > 0,
        out_h > 0,
        0 <= c < 4,
    ensures
        ({
            let g = Gather::at(src, out_w, out_h, ox, oy);
            let v = upsampled(src, out_w, out_h, cfg, ox, oy)[c];
            let near = g.taps[5][c].key();
            &&& in_unit(v)
            &&& g.low(c).le(v)
            &&& v.le(g.high(c))
            &&& g.taps[6][c].key() == near && g.taps[9][c].key() == near && g.taps[10][c].key()
                == near ==> v.key() == near
        }),
{
    let g = Gather::at(src, out_w, out_h, ox, oy);
    let edge = g.edge();
    let strength = cfg.anisotropy_strength.clamp(F32::zero(), F32::two());
    let stretch = F32::one() + edge.anisotropy * strength;
    assert(taps_in_unit(g, c)) by {
        assert forall|k: int| 0 <= k < 16 implies in_unit(#[trigger] g.taps[k][c]) by {
            lemma_displayable_pixel(src, g.bx - 1 + k % 4, g.by - 1 + k / 4, c);
        }
    }
    assert(in_unit(g.taps[5][c]) && in_unit(g.taps[6][c]));
    assert(in_unit(g.taps[9][c]) && in_unit(g.taps[10][c]));
    lemma_weighed_within(g, edge, stretch, 16, c);
    let (acc, wsum) = g.weighed(edge, stretch, 16);
    if wsum.abs().gt(F32::ratio(1, 100000)) {
        lemma_normalized(acc[c], wsum);
    } else {
        lemma_mapped(ox, src.spec_width(), out_w);
        lemma_mapped(oy, src.spec_height(), out_h);
        lemma_sample_bounded(src, g.sx, g.sy, c);
    }
    lemma_range_in_unit(g.taps[5][c], g.taps[6][c], g.taps[9][c], g.taps[10][c]);
    reveal(F32::spec_clamp);
}

/// The whole number below a number that is not too large.
pub proof fn lemma_floor(v: F32)
    requires
        v.is_finite(),
        size(v.value()) < 0x40_0000 * pow2(149),
    ensures
        v.floor().to_i32() == v.value() / (pow2(149) as int),
        v.floor().is_finite(),
        v.floor().value() == (v.value() / (pow2(149) as int)) * pow2(149),
{
    reveal(F32::spec_floor);
    reveal(F32::spec_to_i32);
    let f = Format::Single;
    let u = pow2(149);
    let mag = v.raw().mag as nat;
    let n = units(f, mag);
    let w = n / u;
    lemma_pow2_pos(149);
    lemma2_to64();
    // Below the numbers that have no fraction.
    assert(0x4b00_0000nat / 0x80_0000nat == 150 && 0x4b00_0000nat % 0x80_0000nat == 0);
    assert(units(f, 0x4b00_0000) == 0x80_0000 * u);
    if mag >= 0x4b00_0000 {
        lemma_units_monotone(f, 0x4b00_0000, mag);
    }
    lemma_quotient_bounds(n, u);
    assert((w + 1) * u == w * u + u) by (nonlinear_arith);
    assert(w < 0x40_0000) by (nonlinear_arith)
        requires
            w * u <= n,
            n < 0x40_0000 * u,
            u > 0,
    ;
    vstd::arithmetic::div_mod::lemma_fundamental_div_mod(n as int, u as int);
    assert(u * (n / u) == w * u) by (nonlinear_arith)
        requires
            w == n / u,
    ;
    let part = has_fraction(f, mag);
    let k: nat = if v.raw().neg && part {
        w + 1
    } else {
        w
    };
    lemma_room_above(149);
    let whole = lemma_exact(f, k, 149);
    assert(k * u < (k + 1) * u && (k + 1) * u == k * u + u) by (nonlinear_arith)
        requires
            u > 0,
    ;
    lemma_quotient(k * u, u, k);
    assert(whole_part(f, whole) == k);
    if v.raw().neg {
        let rest: int = if part {
            u - n % u
        } else {
            0
        };
        assert(-(k as int) * u == -(k * u)) by (nonlinear_arith);
        vstd::arithmetic::div_mod::lemma_fundamental_div_mod_converse(
            -(n as int),
            u as int,
            -(k as int),
            rest,
        );
    } else {
        assert(v.value() / (u as int) == w);
    }
}

/// The source pixel at or before an output pixel's center, where every source
/// pixel becomes `2^k` output pixels.
pub open spec fn before(o: u32, k: nat) -> int {
    (2 * o + 1 - pow2(k)) / (2 * pow2(k) as int)
}

/// Where a size grows by a power of two, output pixels are mapped exactly.
pub proof fn lemma_exact_map(o: u32, from: u32, to: u32, k: nat)
    requires
        0 < from,
        to == from * pow2(k),
        o < to < 0x40_0000,
    ensures
        spec_mapped(o, from, to).is_finite(),
        spec_mapped(o, from, to).value() == (2 * o + 1) * pow2((148 - k) as nat),
        (spec_mapped(o, from, to) - F32::half()).floor().to_i32() == before(o, k),
{
    let f = Format::Single;
    let u = pow2(149);
    let q = pow2(k);
    let c = center(o);
    let a = F32::from_u32(from);
    let b = F32::from_u32(to);
    lemma2_to64();
    lemma_pow2_pos(149);
    lemma_pow2_pos(k);
    assert(q <= to) by (nonlinear_arith)
        requires
            to == from * q,
            from >= 1,
            q >= 1,
    ;
    assert(from <= to) by (nonlinear_arith)
        requires
            to == from * q,
            q >= 1,
    ;
    if k >= 22 {
        lemma_pow2_le(22, k);
    }
    lemma_center(o);
    lemma_half_value();
    lemma_from_small(from);
    lemma_from_small(to);
    lemma_order(a, a);
    lemma_order(b, b);
    lemma_whole_within(from);
    lemma_whole_within(to);
    // The scale.
    let e = (149 - k) as nat;
    let s = a / b;
    lemma_pow2_adds(k, e);
    lemma_div_key(a, b);
    let x = units(f, a.key() as nat);
    let y = units(f, b.key() as nat);
    assert(x == from * u && y == to * u);
    assert((x * u) * 1 == (1 * pow2(e)) * y) by (nonlinear_arith)
        requires
            x == from * u,
            y == (from * q) * u,
            u == q * pow2(e),
    ;
    assert(y > 0) by (nonlinear_arith)
        requires
            y == to * u,
            to > 0,
            u > 0,
    ;
    lemma_round_same(f, x * u, y, 1 * pow2(e), 1);
    lemma_room_above(e);
    let one_part = lemma_exact(f, 1, e);
    lemma_order(s, s);
    assert(s.value() == pow2(e)) by {
        assert(1 * pow2(e) == pow2(e));
    }
    lemma_pow2_pos(e);
    lemma_units_zero(f, one_part);
    // The place.
    let d = (148 - k) as nat;
    let m = (2 * o + 1) as nat;
    let p = c * s;
    lemma_order(F32::zero(), c);
    lemma_order(c, c);
    assert(m * pow2(148) >= 0) by (nonlinear_arith);
    lemma_mul_key(c, s);
    lemma_pow2_adds(d, 149);
    lemma_pow2_adds(148, e);
    assert((m * pow2(148)) * pow2(e) == m * (pow2(148) * pow2(e))) by (nonlinear_arith);
    assert((m * pow2(d)) * u == m * (pow2(d) * u)) by (nonlinear_arith);
    assert(((m * pow2(148)) * pow2(e)) * 1 == (m * pow2(d)) * u);
    lemma_round_same(f, (m * pow2(148)) * pow2(e), u, m * pow2(d), 1);
    lemma_room_above(d);
    let at = lemma_exact(f, m, d);
    lemma_order(p, p);
    assert(p.is_finite() && p.value() == m * pow2(d));
    // Less half a pixel.
    let g = p - F32::half();
    lemma_pow2_adds(k, d);
    let n = 2 * o + 1 - q;
    assert(m * pow2(d) - q * pow2(d) == n * pow2(d)) by (nonlinear_arith)
        requires
            n == m - q,
    ;
    lemma_sub_key(p, F32::half());
    let z: nat = if n < 0 {
        (-n) as nat
    } else {
        n as nat
    };
    assert(n < 0 ==> n * pow2(d) == -(z * pow2(d))) by (nonlinear_arith)
        requires
            n < 0 ==> z == -n,
    ;
    assert(n >= 0 ==> n * pow2(d) >= 0) by (nonlinear_arith);
    assert(z * pow2(d) >= 0) by (nonlinear_arith);
    lemma_pow2_pos(d);
    assert(z > 0 ==> z * pow2(d) > 0) by (nonlinear_arith)
        requires
            pow2(d) > 0,
    ;
    let mag = lemma_exact(f, z, d);
    lemma_order(g, g);
    lemma_units_zero(f, mag);
    assert(g.is_finite() && g.value() == n * pow2(d));
    // The pixel at or before it.
    lemma_pow2_adds(k + 1, d);
    lemma_pow2_unfold(k + 1);
    let t = 2 * q;
    assert(u == t * pow2(d));
    assert(size(n * pow2(d)) < 0x40_0000 * u) by (nonlinear_arith)
        requires
            -(q as int) < n < 0x80_0000,
            q < 0x40_0000,
            u == (2 * q) * pow2(d),
            q >= 1,
            pow2(d) > 0,
    {
        assert(n * pow2(d) < 0x80_0000 * pow2(d));
        assert(n * pow2(d) > -(q as int) * pow2(d));
        assert(0x80_0000 * pow2(d) <= 0x40_0000 * ((2 * q) * pow2(d)));
        assert(q * pow2(d) <= 0x40_0000 * ((2 * q) * pow2(d)));
    }
    lemma_floor(g);
    vstd::arithmetic::div_mod::lemma_fundamental_div_mod(n, t as int);
    let (h, r) = (n / (t as int), n % (t as int));
    assert(n * pow2(d) == h * u + r * pow2(d)) by (nonlinear_arith)
        requires
            n == t * h + r,
            u == t * pow2(d),
    ;
    assert(0 <= r * pow2(d) < u) by (nonlinear_arith)
        requires
            0 <= r < t,
            u == t * pow2(d),
            pow2(d) > 0,
    ;
    assert(u * h == h * u) by (nonlinear_arith);
    vstd::arithmetic::div_mod::lemma_fundamental_div_mod_converse(
        n * pow2(d),
        u as int,
        h,
        r * pow2(d),
    );
}

/// Whether a number lies between the least and the greatest of four.
pub open spec fn among(v: F32, a: F32, b: F32, c: F32, d: F32) -> bool {
    &&& a.le(v) || b.le(v) || c.le(v) || d.le(v)
    &&& v.le(a) || v.le(b) || v.le(c) || v.le(d)
}

/// Every output pixel stays within the range of the four source pixels around its
/// own place, channel by channel: where a picture grows `2^j` times in width and
/// `2^k` times in height, with deringing on, the pixel at `(ox, oy)` lies between
/// the least and the greatest of the source's columns `before(ox, j)` and the next,
/// and rows `before(oy, k)` and the next, moved to the edge where they lie outside.
pub proof fn law_upsampling_keeps_to_the_pixels_around(
    src: &ImageBuffer,
    out_w: u32,
    out_h: u32,
    cfg: EasuConfig,
    out: ImageBuffer,
    j: nat,
    k: nat,
    ox: u32,
    oy: u32,
    c: int,
)
    requires
        src.wf(),
        displayable(src),
        cfg.deringing,
        out_w == src.spec_width() * pow2(j),
        out_h == src.spec_height() * pow2(k),
        out_w < 0x40_0000,
        out_h < 0x40_0000,
        call_ensures(easu, (src, out_w, out_h, cfg), out),
        ox < out_w,
        oy < out_h,
        0 <= c < 4,
    ensures
        ({
            let x = before(ox, j);
            let y = before(oy, k);
            among(
                out.px(ox as int, oy as int)@[c],
                src.px(x, y)@[c],
                src.px(x + 1, y)@[c],
                src.px(x, y + 1)@[c],
                src.px(x + 1, y + 1)@[c],
            )
        }),
{
    src.lemma_wf();
    let x = before(ox, j);
    let y = before(oy, k);
    let g = Gather::at(src, out_w, out_h, ox, oy);
    lemma_exact_map(ox, src.spec_width(), out_w, j);
    lemma_exact_map(oy, src.spec_height(), out_h, k);
    assert(g.bx == x && g.by == y);
    assert(5int % 4 == 1 && 5int / 4 == 1 && 6int % 4 == 2 && 6int / 4 == 1);
    assert(9int % 4 == 1 && 9int / 4 == 2 && 10int % 4 == 2 && 10int / 4 == 2);
    assert(g.taps[5] == src.px(x, y)@);
    assert(g.taps[6] == src.px(x + 1, y)@);
    assert(g.taps[9] == src.px(x, y + 1)@);
    assert(g.taps[10] == src.px(x + 1, y + 1)@);
    lemma_displayable_pixel(src, x, y, c);
    lemma_displayable_pixel(src, x + 1, y, c);
    lemma_displayable_pixel(src, x, y + 1, c);
    lemma_displayable_pixel(src, x + 1, y + 1, c);
    law_upsampling_stays_in_range(src, out_w, out_h, cfg, ox, oy, c);
    assert(out.px(ox as int, oy as int)@ == upsampled(src, out_w, out_h, cfg, ox, oy));
    reveal(F32::spec_min);
    reveal(F32::spec_max);
}

} // verus!
