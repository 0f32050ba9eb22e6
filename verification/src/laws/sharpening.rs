//! Sharpening never clips: the lobe is small enough that no channel leaves its
//! range.

use crate::fp::errors::{
    lemma_add_close, lemma_div_close, lemma_mul_close, lemma_ratio_close, lemma_slip,
    lemma_sub_close, one_unit, size, slip,
};
use crate::fp::facts::{
    lemma_add_key, lemma_div_sign, lemma_one_minus, lemma_order, lemma_product_small,
    lemma_rounded_sum_monotone, lemma_rounds_to_itself, lemma_sub_key, lemma_unity,
};
use crate::fp::model::{round_mag, units, Format};
use crate::fp::raw::{lemma_units_monotone, lemma_units_zero};
use crate::fp::round::lemma_round_zero;
use crate::fp::F32;
use crate::frame::ImageBuffer;
use crate::laws::trust::in_unit;
use crate::recon::rcas::{
    rcas, spec_all_but_displayable, spec_lobe_limit, spec_room, Cross, Lane,
};
use vstd::arithmetic::power2::{lemma2_to64, lemma_pow2_adds, lemma_pow2_pos, pow2};
use vstd::prelude::*;

verus! {

/// What the pieces of the kernel add up to, where the neighbours pull no further
/// down than there is to pull, and no further up.
proof fn lemma_kernel(
    mid: int,
    exact: int,
    total: int,
    l: int,
    pull: int,
    top: int,
    bottom: int,
    v: int,
)
    requires
        one_unit() == 0x20_0000 * slip(),
        slip() > 0,
        0 <= mid <= one_unit(),
        size(total - exact) <= 3 * slip(),
        0 <= l,
        16 * l <= 3 * one_unit(),
        l * exact <= mid * one_unit() + 10 * (slip() * one_unit()),
        l * (4 * one_unit() - exact) <= (one_unit() - mid) * one_unit() + 10 * (slip()
            * one_unit()),
        size(pull * one_unit() - l * total) <= slip() * one_unit(),
        size(top - (mid - pull)) <= slip(),
        size(bottom - (one_unit() - 4 * l)) <= 2 * slip(),
        size(v * bottom - top * one_unit()) <= slip() * bottom,
    ensures
        -100 * slip() <= v <= one_unit() + 100 * slip(),
{
    let e = slip();
    let u = one_unit();
    assert(l * total <= l * exact + 3 * (l * e) && l * total >= l * exact - 3 * (l * e))
        by (nonlinear_arith)
        requires
            -3 * e <= total - exact <= 3 * e,
            0 <= l,
    ;
    assert(l * e <= e * u) by (nonlinear_arith)
        requires
            l <= u,
            0 < e,
    ;
    // How far down the neighbours pull, and how far at least.
    assert(pull <= mid + 14 * e) by (nonlinear_arith)
        requires
            pull * u <= mid * u + 14 * (e * u),
            u > 0,
    ;
    assert(l * exact == 4 * (l * u) - l * (4 * u - exact)) by (nonlinear_arith);
    assert(pull >= 4 * l - (u - mid) - 14 * e) by (nonlinear_arith)
        requires
            pull * u >= 4 * (l * u) - (u - mid) * u - 14 * (e * u),
            u > 0,
    ;
    assert(u <= 5 * bottom);
    assert(v >= -100 * e) by (nonlinear_arith)
        requires
            v * bottom >= top * u - e * bottom,
            top >= -15 * e,
            0 < u <= 5 * bottom,
            e > 0,
    {
        assert(top * u >= -15 * e * u);
        assert(e * u <= 5 * (e * bottom));
        assert(v * bottom >= -76 * (e * bottom));
        if v < -100 * e {
            assert(v * bottom < (-100 * e) * bottom);
        }
    }
    assert(v <= u + 100 * e) by (nonlinear_arith)
        requires
            v * bottom <= top * u + e * bottom,
            top <= bottom + 17 * e,
            0 < u <= 5 * bottom,
            e > 0,
    {
        assert(top * u <= (bottom + 17 * e) * u);
        assert((bottom + 17 * e) * u == bottom * u + 17 * (e * u));
        assert(e * u <= 5 * (e * bottom));
        assert(v * bottom <= bottom * u + 86 * (e * bottom));
        if v > u + 100 * e {
            assert(v * bottom > (u + 100 * e) * bottom);
            assert((u + 100 * e) * bottom == bottom * u + 100 * (e * bottom));
        }
    }
}

/// A number in `0..=1`, by its value.
pub proof fn lemma_unit_value(a: F32)
    requires
        in_unit(a),
    ensures
        a.is_finite(),
        0 <= a.value() <= one_unit(),
{
    lemma_order(F32::zero(), a);
    lemma_order(a, F32::one());
    lemma_unity(Format::Single);
}

/// The other sign has the other value.
proof fn lemma_neg_value(a: F32)
    requires
        a.is_finite(),
    ensures
        a.neg().is_finite(),
        a.neg().value() == -a.value(),
{
    reveal(F32::spec_neg);
}

/// Small whole numbers, by their values.
pub proof fn lemma_four_value()
    ensures
        F32::four().is_finite(),
        F32::four().value() == 4 * one_unit(),
        F32::one().is_finite(),
        F32::one().value() == one_unit(),
{
    lemma_unity(Format::Single);
    let h = 0x80_0000nat;
    lemma2_to64();
    assert(F32::four().bits == 0x4080_0000);
    assert(0x4080_0000nat / h == 129 && 0x4080_0000nat % h == 0);
    lemma_pow2_adds(23, 128);
    lemma_pow2_adds(2, 149);
    assert(units(Format::Single, 0x4080_0000) == h * pow2(128));
}

/// A small number to divide by.
proof fn lemma_tiny()
    ensures
        F32::ratio(1, 1000000).is_finite(),
        F32::ratio(1, 1000000).neg().is_finite(),
        slip() < F32::ratio(1, 1000000).value() < 4 * slip(),
        F32::ratio(1, 1000000).neg().value() == -F32::ratio(1, 1000000).value(),
{
    lemma_slip();
    lemma_ratio_close(1, 1000000);
    lemma_neg_value(F32::ratio(1, 1000000));
}

/// Four times a number in `0..=1`.
proof fn lemma_quad(x: F32)
    requires
        in_unit(x),
    ensures
        (F32::four() * x).is_finite(),
        size((F32::four() * x).value() - 4 * x.value()) <= slip(),
{
    lemma_slip();
    lemma_unit_value(x);
    lemma_four_value();
    let e = slip();
    let u = one_unit();
    let m = x.value();
    assert(4 * u * m <= 8 * u * u && 4 * u * m >= 0) by (nonlinear_arith)
        requires
            0 <= m <= u,
    ;
    let quad = F32::four() * x;
    lemma_mul_close(F32::four(), x);
    assert(size(quad.value() - 4 * m) <= e) by (nonlinear_arith)
        requires
            -e * u <= quad.value() * u - 4 * u * m <= e * u,
            u > 0,
    ;
}

/// A channel's lobe is a number, and not positive.
proof fn lemma_room(least: F32, greatest: F32)
    requires
        in_unit(least),
        in_unit(greatest),
        least.value() <= greatest.value(),
    ensures
        spec_room(least, greatest).is_finite(),
        spec_room(least, greatest).value() <= 0,
{
    reveal(F32::spec_min);
    reveal(F32::spec_max);
    lemma_slip();
    lemma_unit_value(least);
    lemma_unit_value(greatest);
    lemma_four_value();
    lemma_tiny();
    // The dark side.
    let tiny = F32::ratio(1, 1000000);
    let quad = F32::four() * greatest;
    lemma_quad(greatest);
    let q = quad.max(tiny);
    lemma_order(quad, tiny);
    lemma_order(tiny, quad);
    let hit_min = least / q;
    lemma_div_close(least, q);
    lemma_neg_value(hit_min);
    // The bright side.
    let gap = F32::one() - greatest;
    lemma_sub_close(F32::one(), greatest);
    lemma_one_minus(greatest);
    lemma_order(F32::zero(), gap);
    lemma_quad(least);
    let span = F32::four() * least - F32::four();
    lemma_sub_close(F32::four() * least, F32::four());
    let q2 = span.min(tiny.neg());
    lemma_order(span, tiny.neg());
    lemma_order(tiny.neg(), span);
    let hit_max = gap / q2;
    lemma_div_close(gap, q2);
    lemma_order(hit_min.neg(), hit_max);
    lemma_order(hit_max, hit_min.neg());
}

/// The least and the greatest of four numbers in `0..=1`.
proof fn lemma_extremes(b: F32, d: F32, f: F32, h: F32)
    requires
        in_unit(b),
        in_unit(d),
        in_unit(f),
        in_unit(h),
    ensures
        ({
            let least = b.min(d).min(f).min(h);
            let greatest = b.max(d).max(f).max(h);
            let sum = b.value() + d.value() + f.value() + h.value();
            &&& in_unit(least)
            &&& in_unit(greatest)
            &&& least.value() <= greatest.value()
            &&& 4 * least.value() <= sum <= 4 * greatest.value()
        }),
{
    reveal(F32::spec_min);
    reveal(F32::spec_max);
    let least = b.min(d).min(f).min(h);
    let greatest = b.max(d).max(f).max(h);
    lemma_order(least, b);
    lemma_order(least, d);
    lemma_order(least, f);
    lemma_order(least, h);
    lemma_order(b, greatest);
    lemma_order(d, greatest);
    lemma_order(f, greatest);
    lemma_order(h, greatest);
}

/// The sum of four numbers in `0..=1`.
proof fn lemma_ring(b: F32, d: F32, f: F32, h: F32)
    requires
        in_unit(b),
        in_unit(d),
        in_unit(f),
        in_unit(h),
    ensures
        (b + d + f + h).is_finite(),
        size((b + d + f + h).value() - (b.value() + d.value() + f.value() + h.value())) <= 3
            * slip(),
{
    lemma_slip();
    lemma_unit_value(b);
    lemma_unit_value(d);
    lemma_unit_value(f);
    lemma_unit_value(h);
    lemma_add_close(b, d);
    lemma_add_close(b + d, f);
    lemma_add_close(b + d + f, h);
}

/// Whether a channel has no curvature: its neighbours average to its middle.
pub open spec fn straight(lane: Lane) -> bool {
    lane.b.value() + lane.d.value() + lane.f.value() + lane.h.value() == 4 * lane.e.value()
}

/// What lies within a few slips of `0..=1` is in it but for a ten-thousandth.
proof fn lemma_all_but(v: F32)
    requires
        v.is_finite(),
        -100 * slip() <= v.value() <= one_unit() + 100 * slip(),
    ensures
        spec_all_but_displayable(v),
{
    lemma_slip();
    let t = F32::ratio(1, 10000);
    lemma_ratio_close(1, 10000);
    lemma_four_value();
    lemma_neg_value(t);
    lemma_add_close(F32::one(), t);
    lemma_order(t.neg(), v);
    lemma_order(v, F32::one() + t);
}

/// Whether a lobe is not positive, and not beyond the limit.
spec fn within_limit(lobe: F32) -> bool {
    &&& lobe.is_finite()
    &&& lobe.value() <= 0
    &&& -16 * lobe.value() <= 3 * one_unit()
}

/// Whether every channel of a cross is in `0..=1`.
pub open spec fn all_ranged(cross: Cross) -> bool {
    cross.lane(0).spec_ranged() && cross.lane(1).spec_ranged() && cross.lane(2).spec_ranged()
}

/// The lobe that a channel has room for.
proof fn lemma_lane_lobe(lane: Lane)
    requires
        lane.spec_ranged(),
    ensures
        lane.spec_lobe().is_finite(),
        lane.spec_lobe().value() <= 0,
{
    lemma_extremes(lane.b, lane.d, lane.f, lane.h);
    lemma_room(
        lane.b.min(lane.d).min(lane.f).min(lane.h),
        lane.b.max(lane.d).max(lane.f).max(lane.h),
    );
}

/// The lobe that the neighbours leave room for is within the limit.
proof fn lemma_lobe(cross: Cross, sharpness: F32)
    requires
        all_ranged(cross),
        in_unit(sharpness),
    ensures
        within_limit(cross.lobe(sharpness)),
{
    reveal(F32::spec_max);
    reveal(F32::spec_clamp);
    let l0 = cross.lane(0).spec_lobe();
    let l1 = cross.lane(1).spec_lobe();
    let l2 = cross.lane(2).spec_lobe();
    lemma_lane_lobe(cross.lane(0));
    lemma_lane_lobe(cross.lane(1));
    lemma_lane_lobe(cross.lane(2));
    let limit = spec_lobe_limit();
    let zero = F32::zero();
    let weakest = l0.max(l1).max(l2);
    lemma_order(weakest, zero);
    lemma_order(weakest, limit);
    lemma_order(limit, weakest);
    lemma_order(zero, weakest);
    lemma_order(zero, zero);
    lemma_limit_value();
    lemma_shrinks(weakest.clamp(limit, zero), sharpness);
}

/// The limit, by its value.
proof fn lemma_limit_value()
    ensures
        spec_lobe_limit().is_finite(),
        -16 * spec_lobe_limit().value() == 3 * one_unit(),
{
    let h = 0x80_0000nat;
    let mag = 0x3e40_0000nat;
    lemma2_to64();
    assert(spec_lobe_limit().raw().mag == mag && spec_lobe_limit().raw().neg);
    assert(mag / h == 124 && mag % h == 0x40_0000);
    assert(units(Format::Single, mag) == (h + 0x40_0000) * pow2(123));
    lemma_pow2_adds(26, 123);
    assert(pow2(26) == 0x400_0000);
    assert(16 * ((0xc0_0000) * pow2(123)) == 3 * (0x400_0000 * pow2(123))) by (nonlinear_arith);
}

/// A number that is not positive, scaled by at most one, is no further from
/// zero.
proof fn lemma_shrinks(a: F32, s: F32)
    requires
        a.is_finite(),
        a.value() <= 0,
        in_unit(s),
    ensures
        (a * s).is_finite(),
        a.value() <= (a * s).value() <= 0,
{
    reveal(F32::spec_mul);
    let f = Format::Single;
    let x = a.raw().mag as nat;
    let y = s.raw().mag as nat;
    lemma_product_small(f, x, y);
    let r = round_mag(f, units(f, x) * units(f, y), pow2(149));
    lemma_units_monotone(f, r, x);
    lemma_units_zero(f, x);
    lemma_units_zero(f, y);
    lemma_units_zero(f, r);
    if y == 0 {
        assert(units(f, x) * 0 == 0);
        lemma_pow2_pos(149);
        lemma_round_zero(f, pow2(149));
    }
}

/// The parts of a sharpened channel, by their values: the neighbours' sum, how
/// far they pull, the dividend, the divisor and the quotient.
struct Parts {
    total: int,
    pull: int,
    top: int,
    bottom: int,
    v: int,
}

spec fn parts(lane: Lane, lobe: F32) -> Parts {
    let total = lane.b + lane.d + lane.f + lane.h;
    let top = lobe * total + lane.e;
    let bottom = F32::four() * lobe + F32::one();
    Parts {
        total: total.value(),
        pull: -(lobe * total).value(),
        top: top.value(),
        bottom: bottom.value(),
        v: (top / bottom).value(),
    }
}

/// Each part is within a few slips of what it stands for.
proof fn lemma_parts(lane: Lane, lobe: F32)
    requires
        lane.spec_ranged(),
        within_limit(lobe),
    ensures
        ({
            let p = parts(lane, lobe);
            let l = -lobe.value();
            let exact = lane.b.value() + lane.d.value() + lane.f.value() + lane.h.value();
            &&& size(p.total - exact) <= 3 * slip()
            &&& size(p.pull * one_unit() - l * p.total) <= slip() * one_unit()
            &&& size(p.top - (lane.e.value() - p.pull)) <= slip()
            &&& size(p.bottom - (one_unit() - 4 * l)) <= 2 * slip()
            &&& size(p.v * p.bottom - p.top * one_unit()) <= slip() * p.bottom
            &&& lane.spec_sharpened(lobe).is_finite()
            &&& lane.spec_sharpened(lobe).value() == p.v
            &&& p.bottom > 0
            &&& size(p.top) <= 8 * p.bottom
        }),
        (lobe * (lane.b + lane.d + lane.f + lane.h)).is_finite(),
        (lobe * (lane.b + lane.d + lane.f + lane.h) + lane.e).is_finite(),
        (F32::four() * lobe + F32::one()).is_finite(),
{
    lemma_slip();
    lemma_four_value();
    let u = one_unit();
    let e = slip();
    let (b, d, f, h) = (lane.b, lane.d, lane.f, lane.h);
    let mid = lane.e;
    lemma_unit_value(mid);
    lemma_unit_value(b);
    lemma_unit_value(d);
    lemma_unit_value(f);
    lemma_unit_value(h);
    lemma_ring(b, d, f, h);
    let l = -lobe.value();
    let total = b + d + f + h;

    assert(lobe.value() * total.value() == -(l * total.value())) by (nonlinear_arith)
        requires
            l == -lobe.value(),
    ;
    assert(-(8 * u * u) <= -(l * total.value()) <= 8 * u * u) by (nonlinear_arith)
        requires
            0 <= l <= u,
            -u <= total.value() <= 5 * u,
            u > 0,
    ;
    let pull = lobe * total;
    lemma_mul_close(lobe, total);
    assert((-pull.value()) * u == -(pull.value() * u) && (-e) * u == -(e * u)) by (nonlinear_arith);
    assert(-u <= pull.value() && 2 * pull.value() <= u) by (nonlinear_arith)
        requires
            -e * u <= pull.value() * u + l * total.value() <= e * u,
            0 <= 16 * l <= 3 * u,
            -u <= 4 * total.value() <= 17 * u,
            32 * e <= u,
            e > 0,
    ;
    let top = pull + mid;
    lemma_add_close(pull, mid);

    assert(4 * u * lobe.value() == -(4 * (l * u))) by (nonlinear_arith)
        requires
            l == -lobe.value(),
    ;
    assert(-(8 * u * u) <= -(4 * (l * u)) <= 8 * u * u) by (nonlinear_arith)
        requires
            0 <= l <= u,
    ;
    let quad = F32::four() * lobe;
    lemma_mul_close(F32::four(), lobe);
    assert(size(quad.value() + 4 * l) <= e) by (nonlinear_arith)
        requires
            -e * u <= quad.value() * u + 4 * (l * u) <= e * u,
            u > 0,
    ;
    let bottom = quad + F32::one();
    lemma_add_close(quad, F32::one());
    assert(bottom.value() > 0 && size(top.value()) <= 8 * bottom.value());
    lemma_div_close(top, bottom);
}

/// Whether a lobe leaves both ends of a channel what there is to take, but for a
/// few slips.
spec fn spares(lane: Lane, l: int) -> bool {
    let u = one_unit();
    let e = slip();
    let exact = lane.b.value() + lane.d.value() + lane.f.value() + lane.h.value();
    &&& l * exact <= lane.e.value() * u + 10 * (e * u)
    &&& l * (4 * u - exact) <= (u - lane.e.value()) * u + 10 * (e * u)
}

/// A channel that ends up at or above `0` was not pulled further down than there
/// was to pull, by any lobe up to this one.
proof fn lemma_spares_dark(lane: Lane, lobe: F32, l: int)
    requires
        lane.spec_ranged(),
        within_limit(lobe),
        lane.spec_sharpened(lobe).value() >= 0,
        0 <= l <= -lobe.value(),
    ensures
        l * (lane.b.value() + lane.d.value() + lane.f.value() + lane.h.value()) <= lane.e.value()
            * one_unit() + 10 * (slip() * one_unit()),
{
    lemma_slip();
    lemma_parts(lane, lobe);
    lemma_lane_values(lane);
    let e = slip();
    let u = one_unit();
    let p = parts(lane, lobe);
    let most = -lobe.value();
    let exact = lane.b.value() + lane.d.value() + lane.f.value() + lane.h.value();
    assert(p.top >= -2 * e) by (nonlinear_arith)
        requires
            p.v * p.bottom - p.top * u <= e * p.bottom,
            p.v >= 0,
            0 < p.bottom <= 2 * u,
            u > 0,
            e > 0,
    {
        assert(p.v * p.bottom >= 0);
        assert(e * p.bottom <= e * (2 * u));
        if p.top < -2 * e {
            assert(p.top * u < (-2 * e) * u);
        }
    }
    assert(p.pull * u <= lane.e.value() * u + 3 * (e * u)) by (nonlinear_arith)
        requires
            p.pull <= lane.e.value() + 3 * e,
            u > 0,
    ;
    assert(most * exact <= most * p.total + 3 * (most * e)) by (nonlinear_arith)
        requires
            exact <= p.total + 3 * e,
            most >= 0,
    ;
    assert(most * e <= e * u) by (nonlinear_arith)
        requires
            most <= u,
            e > 0,
    ;
    assert(l * exact <= most * exact) by (nonlinear_arith)
        requires
            l <= most,
            exact >= 0,
    ;
}

/// A channel that ends up at or below `1` was not pushed further up than there
/// was to push, by any lobe up to this one.
proof fn lemma_spares_bright(lane: Lane, lobe: F32, l: int)
    requires
        lane.spec_ranged(),
        within_limit(lobe),
        lane.spec_sharpened(lobe).value() <= one_unit(),
        0 <= l <= -lobe.value(),
    ensures
        l * (4 * one_unit() - (lane.b.value() + lane.d.value() + lane.f.value() + lane.h.value()))
            <= (one_unit() - lane.e.value()) * one_unit() + 10 * (slip() * one_unit()),
{
    lemma_slip();
    lemma_parts(lane, lobe);
    lemma_lane_values(lane);
    let e = slip();
    let u = one_unit();
    let p = parts(lane, lobe);
    let most = -lobe.value();
    let mid = lane.e.value();
    let exact = lane.b.value() + lane.d.value() + lane.f.value() + lane.h.value();
    assert(p.top <= p.bottom + 2 * e) by (nonlinear_arith)
        requires
            p.top * u - p.v * p.bottom <= e * p.bottom,
            p.v <= u,
            0 < p.bottom <= 2 * u,
            u > 0,
            e > 0,
    {
        assert(p.v * p.bottom <= u * p.bottom);
        assert(e * p.bottom <= e * (2 * u));
        if p.top > p.bottom + 2 * e {
            assert(p.top * u > (p.bottom + 2 * e) * u);
        }
    }
    assert(p.pull >= 4 * most - (u - mid) - 5 * e);
    assert(p.pull * u >= 4 * (most * u) - (u - mid) * u - 5 * (e * u)) by (nonlinear_arith)
        requires
            p.pull >= 4 * most - (u - mid) - 5 * e,
            u > 0,
    ;
    assert(most * exact >= most * p.total - 3 * (most * e)) by (nonlinear_arith)
        requires
            exact >= p.total - 3 * e,
            most >= 0,
    ;
    assert(most * e <= e * u) by (nonlinear_arith)
        requires
            most <= u,
            e > 0,
    ;
    assert(most * (4 * u - exact) == 4 * (most * u) - most * exact) by (nonlinear_arith);
    assert(l * (4 * u - exact) <= most * (4 * u - exact)) by (nonlinear_arith)
        requires
            l <= most,
            exact <= 4 * u,
    ;
}

/// The values of a channel in `0..=1`.
proof fn lemma_lane_values(lane: Lane)
    requires
        lane.spec_ranged(),
    ensures
        0 <= lane.e.value() <= one_unit(),
        0 <= lane.b.value() + lane.d.value() + lane.f.value() + lane.h.value() <= 4 * one_unit(),
        lane.e.is_finite(),
{
    lemma_unit_value(lane.e);
    lemma_unit_value(lane.b);
    lemma_unit_value(lane.d);
    lemma_unit_value(lane.f);
    lemma_unit_value(lane.h);
}

/// The lobe that takes a channel to `0`, where a stronger one takes it below.
proof fn lemma_eased_dark(lane: Lane, lobe: F32, l: int)
    requires
        lane.spec_ranged(),
        within_limit(lobe),
        lane.spec_sharpened(lobe).lt(F32::zero()),
    ensures
        lane.spec_eased(lobe).is_finite(),
        lane.spec_eased(lobe).value() <= 0,
        0 <= l <= -lane.spec_eased(lobe).value() && l <= -lobe.value() ==> l * (lane.b.value()
            + lane.d.value() + lane.f.value() + lane.h.value()) <= lane.e.value() * one_unit() + 10
            * (slip() * one_unit()),
{
    lemma_slip();
    lemma_parts(lane, lobe);
    lemma_lane_values(lane);
    lemma_order(lane.spec_sharpened(lobe), F32::zero());
    lemma_order(F32::zero(), lane.spec_sharpened(lobe));
    let e = slip();
    let u = one_unit();
    let p = parts(lane, lobe);
    let most = -lobe.value();
    let mid = lane.e.value();
    let exact = lane.b.value() + lane.d.value() + lane.f.value() + lane.h.value();
    let ring = lane.b + lane.d + lane.f + lane.h;
    lemma_ring(lane.b, lane.d, lane.f, lane.h);
    // Below nothing, so the neighbours pulled further than there was to pull.
    lemma_top_negative(lane, lobe);
    assert(mid < ring.value());
    lemma_div_close(lane.e, ring);
    let hit = lane.e / ring;
    lemma_neg_value(hit);
    if 0 <= l <= hit.value() && l <= most {
        let total = ring.value();
        assert(l * total <= hit.value() * total) by (nonlinear_arith)
            requires
                l <= hit.value(),
                total > 0,
        ;
        assert(e * total <= 5 * (e * u)) by (nonlinear_arith)
            requires
                total <= 5 * u,
                e > 0,
        ;
        assert(l * exact <= l * total + 3 * (l * e)) by (nonlinear_arith)
            requires
                exact <= total + 3 * e,
                l >= 0,
        ;
        assert(l * e <= e * u) by (nonlinear_arith)
            requires
                l <= u,
                e > 0,
        ;
    }
}

/// A channel below `0` has neighbours that add up to more than it.
proof fn lemma_top_negative(lane: Lane, lobe: F32)
    requires
        lane.spec_ranged(),
        within_limit(lobe),
        lane.spec_sharpened(lobe).value() < 0,
    ensures
        lane.e.value() < (lane.b + lane.d + lane.f + lane.h).value(),
{
    lemma_slip();
    lemma_parts(lane, lobe);
    lemma_lane_values(lane);
    lemma_ring(lane.b, lane.d, lane.f, lane.h);
    let p = parts(lane, lobe);
    let total = lane.b + lane.d + lane.f + lane.h;
    let pull = lobe * total;
    let top = pull + lane.e;
    let bottom = F32::four() * lobe + F32::one();
    // The quotient is negative, so the dividend is, and so is what it rounds.
    lemma_div_close(top, bottom);
    assert(top.value() < 0);
    lemma_add_key(pull, lane.e);
    lemma_order(top, F32::zero());
    lemma_order(F32::zero(), F32::zero());
    lemma_rounds_to_itself(F32::zero());
    if pull.value() + lane.e.value() >= 0 {
        lemma_rounded_sum_monotone(Format::Single, 0, pull.value() + lane.e.value());
    }
    assert(pull.value() + lane.e.value() < 0);
    // A part of a sum is no more than the sum.
    lemma_lobe_shrinks(lobe, total);
}

/// A lobe takes no more of a sum than the sum.
proof fn lemma_lobe_shrinks(lobe: F32, total: F32)
    requires
        within_limit(lobe),
        total.is_finite(),
    ensures
        total.value() >= 0 ==> (lobe * total).value() >= -total.value(),
        total.value() <= 0 ==> (lobe * total).value() >= 0,
{
    reveal(F32::spec_mul);
    let f = Format::Single;
    let whole = F32 { bits: 0xbf80_0000 };
    lemma_slip();
    lemma_unity(f);
    lemma_order(whole, lobe);
    let x = lobe.raw().mag as nat;
    let y = total.raw().mag as nat;
    lemma_units_zero(f, x);
    lemma_units_zero(f, y);
    lemma_order(lobe, F32::zero());
    assert(x <= f.unity());
    lemma_product_small(f, y, x);
    assert(units(f, x) * units(f, y) == units(f, y) * units(f, x)) by (nonlinear_arith);
    let r = round_mag(f, units(f, x) * units(f, y), pow2(149));
    lemma_units_monotone(f, r, y);
    lemma_units_zero(f, r);
    if x == 0 {
        assert(0 * units(f, y) == 0);
        lemma_pow2_pos(149);
        lemma_round_zero(f, pow2(149));
    }
}

/// One more number in `0..=1` adds at most one.
proof fn lemma_adds_at_most(a: F32, b: F32, before: F32, after: F32)
    requires
        a.is_finite(),
        in_unit(b),
        before.is_finite(),
        after.is_finite(),
        a.value() <= before.value(),
        before.value() + one_unit() == after.value(),
    ensures
        (a + b).key() <= after.key(),
{
    lemma_unit_value(b);
    lemma_add_key(a, b);
    lemma_rounds_to_itself(after);
    lemma_rounded_sum_monotone(Format::Single, a.value() + b.value(), after.value());
}

spec fn two() -> F32 {
    F32 { bits: 0x4000_0000 }
}

spec fn three() -> F32 {
    F32 { bits: 0x4040_0000 }
}

/// Two and three, by their values.
proof fn lemma_two_three()
    ensures
        two().is_finite(),
        two().value() == 2 * one_unit(),
        three().is_finite(),
        three().value() == 3 * one_unit(),
{
    let f = Format::Single;
    let h = 0x80_0000nat;
    lemma2_to64();
    lemma_pow2_adds(23, 127);
    lemma_pow2_adds(1, 149);
    lemma_pow2_adds(22, 127);
    assert(0x4000_0000nat / h == 128 && 0x4000_0000nat % h == 0);
    assert(0x4040_0000nat / h == 128 && 0x4040_0000nat % h == 0x40_0000);
    assert(units(f, 0x4000_0000) == h * pow2(127));
    assert(units(f, 0x4040_0000) == (h + 0x40_0000) * pow2(127));
    assert((h + 0x40_0000) * pow2(127) == 3 * (0x40_0000 * pow2(127))) by (nonlinear_arith)
        requires
            h == 0x80_0000,
    ;
}

/// Four numbers in `0..=1` add up to at most four, however they are rounded.
proof fn lemma_ring_top(b: F32, d: F32, f: F32, h: F32)
    requires
        in_unit(b),
        in_unit(d),
        in_unit(f),
        in_unit(h),
    ensures
        (b + d + f + h).value() <= 4 * one_unit(),
{
    let two = two();
    let three = three();
    lemma_slip();
    lemma_two_three();
    lemma_four_value();
    lemma_unit_value(b);
    lemma_unit_value(d);
    lemma_unit_value(f);
    lemma_unit_value(h);
    lemma_add_close(b, d);
    lemma_add_close(b + d, f);
    lemma_add_close(b + d + f, h);
    lemma_adds_at_most(b, d, F32::one(), two);
    lemma_order(b + d, two);
    lemma_adds_at_most(b + d, f, two, three);
    lemma_order(b + d + f, three);
    lemma_adds_at_most(b + d + f, h, three, F32::four());
    lemma_order(b + d + f + h, F32::four());
}

/// How much brighter a channel gets, where it ends up above `1`.
proof fn lemma_top_above(lane: Lane, lobe: F32)
    requires
        lane.spec_ranged(),
        within_limit(lobe),
        lane.spec_sharpened(lobe).value() > one_unit(),
    ensures
        one_unit() - lane.e.value() <= 4 * one_unit() - (lane.b + lane.d + lane.f + lane.h).value()
            + 6 * slip(),
{
    lemma_slip();
    lemma_parts(lane, lobe);
    lemma_lane_values(lane);
    lemma_ring(lane.b, lane.d, lane.f, lane.h);
    lemma_ring_top(lane.b, lane.d, lane.f, lane.h);
    let e = slip();
    let u = one_unit();
    let p = parts(lane, lobe);
    let most = -lobe.value();
    let mid = lane.e.value();
    assert(p.top >= p.bottom - 2 * e) by (nonlinear_arith)
        requires
            p.v * p.bottom - p.top * u <= e * p.bottom,
            p.v >= u,
            0 < p.bottom <= 2 * u,
            u > 0,
            e > 0,
    {
        assert(p.v * p.bottom >= u * p.bottom);
        assert(e * p.bottom <= e * (2 * u));
        if p.top < p.bottom - 2 * e {
            assert(p.top * u < (p.bottom - 2 * e) * u);
        }
    }
    assert(u - mid <= 4 * most - p.pull + 5 * e);
    assert(4 * most - p.pull <= 4 * u - p.total + e) by (nonlinear_arith)
        requires
            p.pull * u >= most * p.total - e * u,
            0 <= most <= u,
            p.total <= 4 * u,
            u > 0,
    {
        assert(most * (4 * u - p.total) <= u * (4 * u - p.total));
        assert((4 * most - p.pull) * u <= most * (4 * u - p.total) + e * u);
    }
}

/// The lobe that takes a channel to `1`, where a stronger one takes it above.
proof fn lemma_eased_bright(lane: Lane, lobe: F32, l: int)
    requires
        lane.spec_ranged(),
        within_limit(lobe),
        lane.spec_sharpened(lobe).gt(F32::one()),
    ensures
        lane.spec_eased(lobe).is_nan() || lane.spec_eased(lobe).key() <= 0,
        0 <= l <= -lobe.value() && (lane.spec_eased(lobe).is_finite() ==> l
            <= -lane.spec_eased(lobe).value()) ==> l * (4 * one_unit() - (lane.b.value()
            + lane.d.value() + lane.f.value() + lane.h.value())) <= (one_unit() - lane.e.value())
            * one_unit() + 10 * (slip() * one_unit()),
{
    lemma_slip();
    lemma_four_value();
    lemma_parts(lane, lobe);
    lemma_lane_values(lane);
    lemma_order(F32::one(), lane.spec_sharpened(lobe));
    lemma_order(lane.spec_sharpened(lobe), F32::one());
    lemma_top_above(lane, lobe);
    lemma_ring(lane.b, lane.d, lane.f, lane.h);
    lemma_ring_top(lane.b, lane.d, lane.f, lane.h);
    let e = slip();
    let u = one_unit();
    let most = -lobe.value();
    let mid = lane.e.value();
    let exact = lane.b.value() + lane.d.value() + lane.f.value() + lane.h.value();
    let ring = lane.b + lane.d + lane.f + lane.h;
    let total = ring.value();
    let gap = F32::one() - lane.e;
    let q = F32::four() - ring;
    lemma_sub_close(F32::one(), lane.e);
    lemma_one_minus(lane.e);
    lemma_order(gap, F32::zero());
    lemma_order(F32::zero(), gap);
    lemma_sub_close(F32::four(), ring);
    lemma_sub_key(F32::four(), ring);
    lemma_rounds_to_itself(F32::zero());
    lemma_order(F32::zero(), F32::zero());
    lemma_rounded_sum_monotone(Format::Single, 0, 4 * u - total);
    lemma_order(q, F32::zero());
    lemma_order(F32::zero(), q);
    let hit = gap / q;
    assert(hit.is_nan() || hit.key() >= 0) by {
        if q.key() > 0 {
            lemma_div_sign(gap, q);
        } else {
            lemma_over_nothing(lane.e, ring);
        }
    }
    assert(hit.neg().is_nan() || hit.neg().key() <= 0) by {
        reveal(F32::spec_neg);
    }
    assert(l >= 0 ==> l * (4 * u - exact) <= l * (4 * u - total) + 3 * (l * e)) by (nonlinear_arith)
        requires
            4 * u - exact <= 4 * u - total + 3 * e,
    ;
    assert(0 <= l <= u ==> l * e <= e * u) by (nonlinear_arith)
        requires
            e > 0,
    ;
    if 0 <= l <= most && (hit.neg().is_finite() ==> l <= -hit.neg().value()) {
        if q.value() >= 2 * e {
            lemma_div_close(gap, q);
            lemma_neg_value(hit);
            let w = q.value();
            assert(l * w <= hit.value() * w) by (nonlinear_arith)
                requires
                    l <= hit.value(),
                    w > 0,
            ;
            assert(e * w <= 5 * (e * u)) by (nonlinear_arith)
                requires
                    w <= 5 * u,
                    e > 0,
            ;
            assert(gap.value() * u <= (u - mid) * u + e * u) by (nonlinear_arith)
                requires
                    gap.value() <= u - mid + e,
                    u > 0,
            ;
            assert(l * (4 * u - total) <= l * w + l * e) by (nonlinear_arith)
                requires
                    4 * u - total <= w + e,
                    l >= 0,
            ;
        } else {
            assert(l * (4 * u - total) <= 3 * (l * e)) by (nonlinear_arith)
                requires
                    4 * u - total <= 3 * e,
                    l >= 0,
            ;
            assert((u - mid) * u >= 0) by (nonlinear_arith)
                requires
                    mid <= u,
                    u > 0,
            ;
        }
    }
}

/// Dividing by nothing what is not negative gives no negative number.
proof fn lemma_over_nothing(e: F32, ring: F32)
    requires
        in_unit(e),
        ring.is_finite(),
        (F32::four() - ring).key() == 0,
        ring.value() <= 4 * one_unit(),
    ensures
        ({
            let hit = (F32::one() - e) / (F32::four() - ring);
            hit.is_nan() || hit.key() >= 0
        }),
{
    reveal(F32::spec_sub);
    reveal(F32::spec_div);
    lemma_four_value();
    lemma_unit_value(e);
    assert(e.raw().negated().value(Format::Single) == -e.value());
    assert(ring.raw().negated().value(Format::Single) == -ring.value());
}

/// The greater of a lobe and another, which may not be a number.
proof fn lemma_eases(m: F32, x: F32)
    requires
        m.is_finite(),
        m.value() <= 0,
        x.is_nan() || x.key() <= 0,
    ensures
        m.max(x).is_finite(),
        m.value() <= m.max(x).value() <= 0,
        x.is_finite() ==> x.value() <= m.max(x).value(),
{
    reveal(F32::spec_max);
    lemma_order(m, F32::zero());
    if x.is_finite() {
        lemma_order(m, x);
        lemma_order(x, m);
        lemma_order(x, F32::zero());
        lemma_order(F32::zero(), F32::zero());
    }
}

/// What a lobe is eased to for a channel is not positive, where it is a number.
proof fn lemma_eased_sign(lane: Lane, lobe: F32)
    requires
        lane.spec_ranged(),
        within_limit(lobe),
    ensures
        lane.spec_eased(lobe).is_nan() || lane.spec_eased(lobe).key() <= 0,
{
    lemma_order(lobe, F32::zero());
    if lane.spec_sharpened(lobe).lt(F32::zero()) {
        lemma_eased_dark(lane, lobe, 0);
        lemma_order(lane.spec_eased(lobe), F32::zero());
    } else if lane.spec_sharpened(lobe).gt(F32::one()) {
        lemma_eased_bright(lane, lobe, 0);
    }
}

/// A lobe eased for a channel spares it.
proof fn lemma_eased_spares(lane: Lane, lobe: F32, l: int)
    requires
        lane.spec_ranged(),
        within_limit(lobe),
        0 <= l <= -lobe.value(),
        lane.spec_eased(lobe).is_finite() ==> l <= -lane.spec_eased(lobe).value(),
    ensures
        spares(lane, l),
{
    let v = lane.spec_sharpened(lobe);
    lemma_slip();
    lemma_four_value();
    lemma_parts(lane, lobe);
    lemma_order(v, F32::zero());
    lemma_order(F32::zero(), v);
    lemma_order(v, F32::one());
    lemma_order(F32::one(), v);
    if v.lt(F32::zero()) {
        lemma_eased_dark(lane, lobe, l);
        lemma_spares_bright(lane, lobe, l);
    } else if v.gt(F32::one()) {
        lemma_spares_dark(lane, lobe, l);
        lemma_eased_bright(lane, lobe, l);
    } else {
        lemma_spares_dark(lane, lobe, l);
        lemma_spares_bright(lane, lobe, l);
    }
}

/// The lobe applied is within the limit, and where it was eased it spares every
/// channel.
proof fn lemma_applied(cross: Cross, sharpness: F32, c: int)
    requires
        all_ranged(cross),
        in_unit(sharpness),
        0 <= c < 3,
    ensures
        within_limit(cross.applied(sharpness)),
        cross.overshoots(cross.lobe(sharpness)) ==> spares(
            cross.lane(c),
            -cross.applied(sharpness).value(),
        ),
{
    let lobe = cross.lobe(sharpness);
    lemma_lobe(cross, sharpness);
    if cross.overshoots(lobe) {
        let (x, y, z) = (
            cross.lane(0).spec_eased(lobe),
            cross.lane(1).spec_eased(lobe),
            cross.lane(2).spec_eased(lobe),
        );
        lemma_eased_sign(cross.lane(0), lobe);
        lemma_eased_sign(cross.lane(1), lobe);
        lemma_eased_sign(cross.lane(2), lobe);
        lemma_eases(lobe, x);
        lemma_eases(lobe.max(x), y);
        lemma_eases(lobe.max(x).max(y), z);
        let l = -cross.applied(sharpness).value();
        if c == 0 {
            lemma_eased_spares(cross.lane(0), lobe, l);
        } else if c == 1 {
            lemma_eased_spares(cross.lane(1), lobe, l);
        } else {
            lemma_eased_spares(cross.lane(2), lobe, l);
        }
    }
}

/// Nothing is pushed out of range: sharpening leaves every channel finite and in
/// `0..=1`, but for a ten-thousandth of rounding. No clamp is needed afterwards.
pub proof fn law_sharpening_stays_in_range(cross: Cross, sharpness: F32, c: int)
    requires
        all_ranged(cross),
        in_unit(sharpness),
        0 <= c < 3,
    ensures
        cross.sharpened(sharpness)[c].is_finite(),
        spec_all_but_displayable(cross.sharpened(sharpness)[c]),
{
    lemma_slip();
    let lane = cross.lane(c);
    let lobe = cross.applied(sharpness);
    assert(lane.spec_ranged());
    lemma_unit_value(lane.e);
    lemma_all_but(lane.e);
    lemma_applied(cross, sharpness, c);
    lemma_parts(lane, lobe);
    if cross.overshoots(cross.lobe(sharpness)) {
        let p = parts(lane, lobe);
        lemma_kernel(
            lane.e.value(),
            lane.b.value() + lane.d.value() + lane.f.value() + lane.h.value(),
            p.total,
            -lobe.value(),
            p.pull,
            p.top,
            p.bottom,
            p.v,
        );
        lemma_all_but(lane.spec_sharpened(lobe));
    }
}

/// The lobe that the neighbours leave room for is applied as it is wherever it
/// keeps the pixel in range, and wherever the pixel was not in range before.
pub proof fn law_a_lobe_is_eased_only_where_it_must_be(cross: Cross, sharpness: F32)
    ensures
        ({
            let lobe = cross.lobe(sharpness);
            (forall|c: int|
                0 <= c < 3 ==> spec_all_but_displayable(
                    #[trigger] cross.lane(c).spec_sharpened(lobe),
                )) || !all_ranged(cross) ==> cross.applied(sharpness) == lobe
        }),
{
    let lobe = cross.lobe(sharpness);
    if forall|c: int|
        0 <= c < 3 ==> spec_all_but_displayable(#[trigger] cross.lane(c).spec_sharpened(lobe)) {
        assert(spec_all_but_displayable(cross.lane(0).spec_sharpened(lobe)));
        assert(spec_all_but_displayable(cross.lane(1).spec_sharpened(lobe)));
        assert(spec_all_but_displayable(cross.lane(2).spec_sharpened(lobe)));
    }
}

/// Whether two numbers are equal but for a ten-thousandth.
pub open spec fn all_but_equal(v: F32, w: F32) -> bool {
    (v - w).abs().le(F32::ratio(1, 10000))
}

/// Values a few slips apart are equal but for a ten-thousandth.
pub proof fn lemma_near(v: F32, w: F32)
    requires
        v.is_finite(),
        w.is_finite(),
        size(v.value() - w.value()) <= 100 * slip(),
    ensures
        all_but_equal(v, w),
{
    lemma_slip();
    let t = F32::ratio(1, 10000);
    lemma_ratio_close(1, 10000);
    lemma_sub_close(v, w);
    let d = v - w;
    assert(d.abs().value() == size(d.value()) && d.abs().is_finite()) by {
        lemma_order(d, F32::zero());
    }
    lemma_order(d.abs(), t);
}

/// Sharpening acts on curvature: where a pixel is the average of its
/// neighbours, on a flat patch or along a ramp, nothing changes, but for a
/// ten-thousandth of rounding.
pub proof fn law_without_curvature_nothing_changes(cross: Cross, sharpness: F32, c: int)
    requires
        all_ranged(cross),
        straight(cross.lane(c)),
        in_unit(sharpness),
        0 <= c < 3,
    ensures
        all_but_equal(cross.sharpened(sharpness)[c], cross.e[c]),
{
    lemma_slip();
    let e = slip();
    let u = one_unit();
    let lane = cross.lane(c);
    let lobe = cross.applied(sharpness);
    let mid = lane.e.value();
    let l = -lobe.value();
    assert(lane.spec_ranged());
    lemma_unit_value(lane.e);
    lemma_near(lane.e, lane.e);
    lemma_applied(cross, sharpness, c);
    lemma_parts(lane, lobe);
    let p = parts(lane, lobe);
    assert(size(l * p.total - 4 * (l * mid)) <= 3 * (l * e)) by (nonlinear_arith)
        requires
            size(p.total - 4 * mid) <= 3 * e,
            0 <= l,
    ;
    assert(l * e <= e * u && mid * e <= e * u) by (nonlinear_arith)
        requires
            l <= u,
            mid <= u,
            0 < e,
    ;
    assert(size(p.top * u - (mid * u - p.pull * u)) <= e * u) by (nonlinear_arith)
        requires
            size(p.top - (mid - p.pull)) <= e,
            u > 0,
    ;
    assert(size(mid * p.bottom - (mid * u - 4 * (l * mid))) <= 2 * (mid * e)) by (nonlinear_arith)
        requires
            size(p.bottom - (u - 4 * l)) <= 2 * e,
            0 <= mid,
    ;
    let d = p.v - mid;
    assert(d * p.bottom == p.v * p.bottom - mid * p.bottom) by (nonlinear_arith)
        requires
            d == p.v - mid,
    ;
    assert(size(d * p.bottom) <= 7 * (e * u) + e * p.bottom);
    assert(size(d) <= 100 * e) by (nonlinear_arith)
        requires
            size(d * p.bottom) <= 7 * (e * u) + e * p.bottom,
            0 < u <= 5 * p.bottom,
            e > 0,
    {
        assert(e * u <= 5 * (e * p.bottom));
        if d > 100 * e {
            assert(d * p.bottom > 100 * e * p.bottom);
        }
        if d < -100 * e {
            assert(d * p.bottom < -100 * e * p.bottom);
        }
    }
    lemma_near(lane.spec_sharpened(lobe), lane.e);
}

/// The pixel that is sharpened, and its four neighbours: above, left, right and
/// below. At a border the pixel itself stands in for what is missing.
pub open spec fn nearby(img: &ImageBuffer, x: int, y: int) -> Seq<Seq<F32>> {
    seq![
        img.px(x, y)@,
        img.px(x, y - 1)@,
        img.px(x - 1, y)@,
        img.px(x + 1, y)@,
        img.px(x, y + 1)@,
    ]
}

/// The values that a channel has in the four neighbours, added up.
pub open spec fn around(img: &ImageBuffer, x: int, y: int, c: int) -> int {
    img.px(x, y - 1)@[c].value() + img.px(x - 1, y)@[c].value() + img.px(x + 1, y)@[c].value()
        + img.px(x, y + 1)@[c].value()
}

/// Whether the colors of a pixel and its neighbours are in `0..=1`.
pub open spec fn in_range_nearby(img: &ImageBuffer, x: int, y: int) -> bool {
    forall|k: int, c: int| 0 <= k < 5 && 0 <= c < 3 ==> in_unit(#[trigger] nearby(img, x, y)[k][c])
}

/// Whether they keep a distance from both ends of that range.
pub open spec fn clear_of_the_ends(img: &ImageBuffer, x: int, y: int, margin: int) -> bool {
    forall|k: int, c: int|
        0 <= k < 5 && 0 <= c < 3 ==> margin <= (#[trigger] nearby(img, x, y)[k][c]).value()
            <= one_unit() - margin
}

/// The channels of a pixel in range make a cross in range.
proof fn lemma_in_range(img: &ImageBuffer, x: int, y: int)
    requires
        in_range_nearby(img, x, y),
    ensures
        all_ranged(Cross::around(img, x, y)),
{
    let n = nearby(img, x, y);
    assert forall|c: int| 0 <= c < 3 implies #[trigger] Cross::around(
        img,
        x,
        y,
    ).lane(c).spec_ranged() by {
        assert(in_unit(n[0][c]) && in_unit(n[1][c]) && in_unit(n[2][c]) && in_unit(n[3][c])
            && in_unit(n[4][c]));
    }
}

/// Sharpening does not pull the channels apart: where two of the three color
/// channels hold the same numbers in a pixel and its four neighbours, they come
/// out equal.
pub proof fn law_sharpening_does_not_pull_channels_apart(
    img: &ImageBuffer,
    sharpness: F32,
    out: ImageBuffer,
    x: u32,
    y: u32,
    i: int,
    j: int,
)
    requires
        img.wf(),
        call_ensures(rcas, (img, sharpness), out),
        x < img.spec_width(),
        y < img.spec_height(),
        0 <= i < 3,
        0 <= j < 3,
        forall|k: int|
            0 <= k < 5 ==> (#[trigger] nearby(img, x as int, y as int)[k])[i] == nearby(
                img,
                x as int,
                y as int,
            )[k][j],
    ensures
        out.px(x as int, y as int)@[i] == out.px(x as int, y as int)@[j],
{
    let n = nearby(img, x as int, y as int);
    let cross = Cross::around(img, x as int, y as int);
    assert(n[0][i] == n[0][j] && n[1][i] == n[1][j] && n[2][i] == n[2][j] && n[3][i] == n[3][j]
        && n[4][i] == n[4][j]);
    assert(cross.lane(i) == cross.lane(j));
    assert(out.px(x as int, y as int)@ == cross.sharpened(
        sharpness.clamp(F32::zero(), F32::one()),
    ));
}

/// Sharpening touches color alone: the alpha of every pixel is what it was.
pub proof fn law_alpha_passes_through_sharpening(
    img: &ImageBuffer,
    sharpness: F32,
    out: ImageBuffer,
    x: u32,
    y: u32,
)
    requires
        img.wf(),
        call_ensures(rcas, (img, sharpness), out),
        x < img.spec_width(),
        y < img.spec_height(),
    ensures
        out.px(x as int, y as int)@[3] == img.px(x as int, y as int)@[3],
{
    assert(out.px(x as int, y as int)@ == Cross::around(img, x as int, y as int).sharpened(
        sharpness.clamp(F32::zero(), F32::one()),
    ));
}

/// What a lobe does to a channel: it moves the pixel away from its neighbours'
/// average, by as much as the lobe says.
proof fn lemma_moves(lane: Lane, lobe: F32)
    requires
        lane.spec_ranged(),
        within_limit(lobe),
    ensures
        ({
            let u = one_unit();
            let l = -lobe.value();
            let mid = lane.e.value();
            let exact = lane.b.value() + lane.d.value() + lane.f.value() + lane.h.value();
            let v = lane.spec_sharpened(lobe).value();
            size((v - mid) * (u - 4 * l) - l * (4 * mid - exact)) <= 40 * (slip() * u)
        }),
{
    lemma_slip();
    lemma_parts(lane, lobe);
    lemma_lane_values(lane);
    let e = slip();
    let u = one_unit();
    let p = parts(lane, lobe);
    let l = -lobe.value();
    let mid = lane.e.value();
    let exact = lane.b.value() + lane.d.value() + lane.f.value() + lane.h.value();
    let v = p.v;
    let k = e * u;
    assert(u <= 5 * p.bottom && p.bottom <= 2 * u);
    assert(e * p.bottom <= 2 * k && e * p.bottom >= 0) by (nonlinear_arith)
        requires
            k == e * u,
            0 < p.bottom <= 2 * u,
            e > 0,
    ;
    assert(l * e <= k) by (nonlinear_arith)
        requires
            l <= u,
            0 < e,
            k == e * u,
    ;
    assert(size(l * p.total - l * exact) <= 3 * (l * e)) by (nonlinear_arith)
        requires
            size(p.total - exact) <= 3 * e,
            0 <= l,
    ;
    // The pull is at most the middle of the range, so the dividend is small.
    assert(-u <= p.pull && p.pull <= u) by (nonlinear_arith)
        requires
            size(p.pull * u - l * p.total) <= e * u,
            0 <= 16 * l <= 3 * u,
            size(p.total - exact) <= 3 * e,
            0 <= exact <= 4 * u,
            32 * e <= u,
            e > 0,
    {
        assert(-u <= 4 * p.total && 4 * p.total <= 17 * u);
        assert(16 * l * (4 * p.total) == 64 * (l * p.total));
        assert(16 * l * (4 * p.total) <= 3 * u * (17 * u));
        assert(16 * l * (4 * p.total) >= 3 * u * (-u));
        assert(32 * (e * u) <= u * u);
    }
    assert(size(p.top * u - (mid * u - p.pull * u)) <= k) by (nonlinear_arith)
        requires
            size(p.top - (mid - p.pull)) <= e,
            u > 0,
            k == e * u,
    ;
    assert(-16 * u <= v && v <= 16 * u) by (nonlinear_arith)
        requires
            size(v * p.bottom - p.top * u) <= e * p.bottom,
            size(p.top) <= 3 * u,
            0 < u <= 5 * p.bottom,
            e <= u,
            e > 0,
    {
        if v > 16 * u {
            assert(v * p.bottom > 16 * u * p.bottom);
            assert(p.top * u <= 3 * u * u);
            assert(3 * u * u <= 3 * u * (5 * p.bottom));
            assert(e * p.bottom <= u * p.bottom);
        }
        if v < -16 * u {
            assert(v * p.bottom < -16 * u * p.bottom);
            assert(p.top * u >= -3 * u * u);
            assert(3 * u * u <= 3 * u * (5 * p.bottom));
            assert(e * p.bottom <= u * p.bottom);
        }
    }
    let w = u - 4 * l;
    assert(size(v * w - v * p.bottom) <= 32 * k) by (nonlinear_arith)
        requires
            size(p.bottom - w) <= 2 * e,
            -16 * u <= v <= 16 * u,
            e > 0,
            k == e * u,
    ;
    assert((v - mid) * w == v * w - mid * w) by (nonlinear_arith);
    assert(mid * w == mid * u - 4 * (l * mid)) by (nonlinear_arith)
        requires
            w == u - 4 * l,
    ;
    assert(l * (4 * mid - exact) == 4 * (l * mid) - l * exact) by (nonlinear_arith);
}

/// How much room two extremes of the neighbours leave: no more than takes the
/// darkest to `0` or the brightest to `1`, and something wherever neither is
/// there yet.
proof fn lemma_room_bounds(least: F32, greatest: F32, margin: int)
    requires
        in_unit(least),
        in_unit(greatest),
        least.value() <= greatest.value(),
    ensures
        ({
            let u = one_unit();
            let r = -spec_room(least, greatest).value();
            &&& 4 * (r * greatest.value()) <= least.value() * u + 24 * (slip() * u)
            &&& 4 * (r * (u - least.value())) <= (u - greatest.value()) * u + 24 * (slip() * u)
            &&& 0 <= margin <= least.value() && greatest.value() <= u - margin ==> 4 * r >= margin
                - 16 * slip()
        }),
{
    reveal(F32::spec_min);
    reveal(F32::spec_max);
    lemma_slip();
    lemma_unit_value(least);
    lemma_unit_value(greatest);
    lemma_four_value();
    lemma_tiny();
    lemma_room(least, greatest);
    let e = slip();
    let u = one_unit();
    let m = least.value();
    let g = greatest.value();
    let tiny = F32::ratio(1, 1000000);
    let quad = F32::four() * greatest;
    lemma_quad(greatest);
    let q = quad.max(tiny);
    lemma_order(quad, tiny);
    lemma_order(tiny, quad);
    let hit_min = least / q;
    lemma_div_close(least, q);
    lemma_neg_value(hit_min);
    let gap = F32::one() - greatest;
    lemma_sub_close(F32::one(), greatest);
    lemma_one_minus(greatest);
    lemma_order(F32::zero(), gap);
    lemma_quad(least);
    let span = F32::four() * least - F32::four();
    lemma_sub_close(F32::four() * least, F32::four());
    let q2 = span.min(tiny.neg());
    lemma_order(span, tiny.neg());
    lemma_order(tiny.neg(), span);
    let hit_max = gap / q2;
    lemma_div_close(gap, q2);
    lemma_order(hit_min.neg(), hit_max);
    lemma_order(hit_max, hit_min.neg());
    let r = -spec_room(least, greatest).value();
    let (x, d) = (hit_min.value(), q.value());
    let (y, f) = (-hit_max.value(), -q2.value());
    assert(r <= x && r <= y && (r == x || r == y));
    assert(hit_max.value() * q2.value() == y * f) by (nonlinear_arith)
        requires
            y == -hit_max.value(),
            f == -q2.value(),
    ;
    lemma_share_of(r, x, m, g, d, u, e, 4 * g);
    lemma_share_of(r, y, gap.value(), u - m, f, u, e, 4 * (u - m));
    assert(gap.value() * u <= (u - g) * u + e * u) by (nonlinear_arith)
        requires
            gap.value() <= u - g + e,
            u > 0,
    ;
    assert(r * (4 * g) == 4 * (r * g) && r * (4 * (u - m)) == 4 * (r * (u - m))) by (nonlinear_arith);
    if 0 <= margin <= m && g <= u - margin {
        lemma_at_least_a_quarter(x, m, d, margin, u, e);
        lemma_at_least_a_quarter(y, gap.value(), f, margin, u, e);
    }
}

/// A quotient, times what its divisor stands for, is at most its dividend.
proof fn lemma_share_of(r: int, x: int, m: int, g: int, d: int, u: int, e: int, full: int)
    requires
        0 <= r <= x,
        0 <= m,
        0 < d <= 5 * u,
        size(x * d - m * u) <= e * d,
        m <= 8 * d,
        full <= d + 2 * e,
        0 < e <= u,
    ensures
        r * full <= m * u + 15 * (e * u) + 8 * (e * u),
{
    assert(e * d <= 5 * (e * u)) by (nonlinear_arith)
        requires
            d <= 5 * u,
            e > 0,
    ;
    assert(x <= 9 * u) by (nonlinear_arith)
        requires
            x * d <= m * u + e * d,
            m <= 8 * d,
            0 < d,
            0 < e <= u,
    {
        assert(m * u <= 8 * d * u);
        assert(e * d <= u * d);
        if x > 9 * u {
            assert(x * d > 9 * u * d);
        }
    }
    assert(r * full <= r * d + 2 * (r * e)) by (nonlinear_arith)
        requires
            full <= d + 2 * e,
            r >= 0,
    ;
    assert(r * d <= x * d) by (nonlinear_arith)
        requires
            r <= x,
            d > 0,
    ;
    assert(r * e <= 9 * (e * u)) by (nonlinear_arith)
        requires
            r <= 9 * u,
            e > 0,
    ;
}

/// A quotient whose divisor is at most four is at least a quarter of its
/// dividend.
proof fn lemma_at_least_a_quarter(x: int, m: int, d: int, margin: int, u: int, e: int)
    requires
        0 <= margin <= u,
        m >= margin - e,
        0 < d <= 4 * u + 2 * e,
        size(x * d - m * u) <= e * d,
        0 <= x,
        0 < 32 * e <= u,
    ensures
        4 * x >= margin - 16 * e,
{
    if 4 * x < margin - 16 * e {
        let n = margin - 16 * e;
        assert(4 * (x * d) <= n * d) by (nonlinear_arith)
            requires
                4 * x < n,
                d > 0,
        ;
        assert(n * d <= n * (4 * u + 2 * e)) by (nonlinear_arith)
            requires
                n >= 0,
                d <= 4 * u + 2 * e,
        ;
        assert(n * (4 * u + 2 * e) == 4 * (margin * u) + 2 * (margin * e) - 64 * (e * u) - 32 * (e
            * e)) by (nonlinear_arith)
            requires
                n == margin - 16 * e,
        ;
        assert(m * u >= margin * u - e * u) by (nonlinear_arith)
            requires
                m >= margin - e,
                u > 0,
        ;
        assert(e * d <= 4 * (e * u) + 2 * (e * e)) by (nonlinear_arith)
            requires
                d <= 4 * u + 2 * e,
                e > 0,
        ;
        assert(margin * e <= e * u) by (nonlinear_arith)
            requires
                margin <= u,
                e > 0,
        ;
        assert(e * u > 0 && e * e > 0) by (nonlinear_arith)
            requires
                e > 0,
                u > 0,
        ;
    }
}

/// The lobe that the neighbours leave room for, by what it may and must be.
proof fn lemma_lobe_bounds(cross: Cross, sharpness: F32, c: int, margin: int)
    requires
        all_ranged(cross),
        in_unit(sharpness),
        0 <= c < 3,
    ensures
        ({
            let u = one_unit();
            let l = -cross.lobe(sharpness).value();
            let s = sharpness.value();
            let lane = cross.lane(c);
            let least = lane.b.min(lane.d).min(lane.f).min(lane.h).value();
            let greatest = lane.b.max(lane.d).max(lane.f).max(lane.h).value();
            &&& 16 * l <= 3 * s + 16 * slip()
            &&& 4 * (l * greatest) <= s * least + 32 * (slip() * u)
            &&& 4 * (l * (u - least)) <= s * (u - greatest) + 32 * (slip() * u)
            &&& keeps_clear(cross, margin) ==> 4 * (l * u) >= s * margin - 24 * (slip() * u)
        }),
{
    reveal(F32::spec_max);
    reveal(F32::spec_clamp);
    lemma_slip();
    let e = slip();
    let u = one_unit();
    let limit = spec_lobe_limit();
    let zero = F32::zero();
    let l0 = cross.lane(0).spec_lobe();
    let l1 = cross.lane(1).spec_lobe();
    let l2 = cross.lane(2).spec_lobe();
    lemma_lane_lobe(cross.lane(0));
    lemma_lane_lobe(cross.lane(1));
    lemma_lane_lobe(cross.lane(2));
    lemma_order(l0, l1);
    lemma_order(l1, l0);
    lemma_order(l0.max(l1), l2);
    lemma_order(l2, l0.max(l1));
    let weakest = l0.max(l1).max(l2);
    lemma_order(weakest, zero);
    lemma_order(weakest, limit);
    lemma_order(limit, weakest);
    lemma_order(zero, weakest);
    lemma_order(zero, zero);
    lemma_limit_value();
    let most = weakest.clamp(limit, zero);
    assert(most.is_finite());
    let r = -most.value();
    lemma_unit_value(sharpness);
    let s = sharpness.value();
    assert(most.value() * s == -(r * s)) by (nonlinear_arith)
        requires
            r == -most.value(),
    ;
    assert(0 <= r * s <= 8 * u * u) by (nonlinear_arith)
        requires
            0 <= r <= u,
            0 <= s <= u,
    ;
    lemma_mul_close(most, sharpness);
    let l = -(most * sharpness).value();
    assert((-l) * u == -(l * u) && (-e) * u == -(e * u)) by (nonlinear_arith);
    assert(size(l * u - r * s) <= e * u);
    assert(16 * l <= 3 * s + 16 * e) by (nonlinear_arith)
        requires
            l * u <= r * s + e * u,
            16 * r <= 3 * u,
            s >= 0,
            u > 0,
    {
        assert(16 * (r * s) <= 3 * u * s);
        assert((16 * l) * u <= (3 * s + 16 * e) * u);
    }
    let lane = cross.lane(c);
    let least = lane.b.min(lane.d).min(lane.f).min(lane.h);
    let greatest = lane.b.max(lane.d).max(lane.f).max(lane.h);
    lemma_extremes(lane.b, lane.d, lane.f, lane.h);
    lemma_room_bounds(least, greatest, margin);
    let room = -lane.spec_lobe().value();
    assert(r <= room);
    lemma_unit_value(least);
    lemma_unit_value(greatest);
    let (m, g) = (least.value(), greatest.value());
    lemma_scaled(l, r, room, s, g, m, u, e);
    lemma_scaled(l, r, room, s, u - m, u - g, u, e);
    if keeps_clear(cross, margin) {
        lemma_lane_margin(cross, 0, margin);
        lemma_lane_margin(cross, 1, margin);
        lemma_lane_margin(cross, 2, margin);
        assert(4 * r >= margin - 16 * e);
        assert(4 * (r * s) >= s * margin - 16 * (e * u)) by (nonlinear_arith)
            requires
                4 * r >= margin - 16 * e,
                0 <= s <= u,
                e > 0,
        {
            assert(4 * r * s >= (margin - 16 * e) * s);
            assert(e * s <= e * u);
        }
    }
}

/// A bound on the room is one on the lobe, scaled.
proof fn lemma_scaled(l: int, r: int, room: int, s: int, g: int, m: int, u: int, e: int)
    requires
        0 <= r <= room,
        0 <= s <= u,
        0 <= g <= u,
        4 * (room * g) <= m * u + 24 * (e * u),
        size(l * u - r * s) <= e * u,
        u > 0,
        e > 0,
    ensures
        4 * (l * g) <= s * m + 32 * (e * u),
{
    assert(r * g <= room * g) by (nonlinear_arith)
        requires
            r <= room,
            g >= 0,
    ;
    let a = 4 * (r * g);
    assert(a * s <= (m * u + 24 * (e * u)) * s) by (nonlinear_arith)
        requires
            a <= m * u + 24 * (e * u),
            s >= 0,
    ;
    assert((m * u + 24 * (e * u)) * s == (s * m) * u + 24 * ((e * s) * u)) by (nonlinear_arith);
    assert((e * s) * u <= (e * u) * u) by (nonlinear_arith)
        requires
            s <= u,
            e > 0,
            u > 0,
    ;
    assert(a * s == 4 * ((r * s) * g)) by (nonlinear_arith)
        requires
            a == 4 * (r * g),
    ;
    assert((l * u) * g <= (r * s) * g + (e * u) * g) by (nonlinear_arith)
        requires
            l * u <= r * s + e * u,
            g >= 0,
    ;
    assert((e * u) * g <= (e * u) * u) by (nonlinear_arith)
        requires
            g <= u,
            e > 0,
            u > 0,
    ;
    assert((l * u) * g == (l * g) * u) by (nonlinear_arith);
    let x = 4 * (l * g);
    let y = s * m + 32 * (e * u);
    assert(y * u == (s * m) * u + 32 * ((e * u) * u)) by (nonlinear_arith)
        requires
            y == s * m + 32 * (e * u),
    ;
    assert(x * u == 4 * ((l * g) * u)) by (nonlinear_arith)
        requires
            x == 4 * (l * g),
    ;
    assert((e * u) * u >= 0) by (nonlinear_arith)
        requires
            e > 0,
            u > 0,
    ;
    assert(x <= y) by (nonlinear_arith)
        requires
            x * u <= y * u,
            u > 0,
    ;
}

/// Whether every number of a cross keeps a distance from both ends.
spec fn keeps_clear(cross: Cross, margin: int) -> bool {
    &&& margin >= 0
    &&& forall|c: int| 0 <= c < 3 ==> lane_keeps_clear(#[trigger] cross.lane(c), margin)
}

spec fn lane_keeps_clear(lane: Lane, margin: int) -> bool {
    let top = one_unit() - margin;
    &&& margin <= lane.e.value() <= top
    &&& margin <= lane.b.value() <= top
    &&& margin <= lane.d.value() <= top
    &&& margin <= lane.f.value() <= top
    &&& margin <= lane.h.value() <= top
}

/// The room that a channel has which keeps a distance.
proof fn lemma_lane_margin(cross: Cross, c: int, margin: int)
    requires
        all_ranged(cross),
        keeps_clear(cross, margin),
        0 <= c < 3,
    ensures
        -4 * cross.lane(c).spec_lobe().value() >= margin - 16 * slip(),
{
    reveal(F32::spec_min);
    reveal(F32::spec_max);
    let lane = cross.lane(c);
    assert(lane.spec_ranged());
    let least = lane.b.min(lane.d).min(lane.f).min(lane.h);
    let greatest = lane.b.max(lane.d).max(lane.f).max(lane.h);
    lemma_extremes(lane.b, lane.d, lane.f, lane.h);
    lemma_room_bounds(least, greatest, margin);
}

/// The greater of a lobe and another is one of the two.
proof fn lemma_either(m: F32, x: F32)
    requires
        m.is_finite(),
        x.is_nan() || x.key() <= 0,
    ensures
        m.max(x) == m || x.is_finite() && m.max(x) == x,
{
    reveal(F32::spec_max);
}

/// What a lobe is eased to, for a channel that keeps a distance from both ends,
/// is not next to nothing.
proof fn lemma_eased_bounds(lane: Lane, lobe: F32, margin: int)
    requires
        lane.spec_ranged(),
        within_limit(lobe),
        lane_keeps_clear(lane, margin),
        margin >= 64 * slip(),
    ensures
        lane.spec_eased(lobe) == lobe || -4 * lane.spec_eased(lobe).value() >= margin - 16 * slip(),
{
    lemma_slip();
    lemma_four_value();
    lemma_parts(lane, lobe);
    lemma_lane_values(lane);
    let e = slip();
    let u = one_unit();
    let v = lane.spec_sharpened(lobe);
    let ring = lane.b + lane.d + lane.f + lane.h;
    lemma_ring(lane.b, lane.d, lane.f, lane.h);
    lemma_ring_top(lane.b, lane.d, lane.f, lane.h);
    lemma_order(v, F32::zero());
    lemma_order(F32::zero(), v);
    lemma_order(v, F32::one());
    lemma_order(F32::one(), v);
    if v.lt(F32::zero()) {
        lemma_top_negative(lane, lobe);
        lemma_div_close(lane.e, ring);
        lemma_neg_value(lane.e / ring);
        lemma_at_least_a_quarter(
            (lane.e / ring).value(),
            lane.e.value(),
            ring.value(),
            margin,
            u,
            e,
        );
    } else if v.gt(F32::one()) {
        lemma_top_above(lane, lobe);
        let gap = F32::one() - lane.e;
        let q = F32::four() - ring;
        lemma_sub_close(F32::one(), lane.e);
        lemma_one_minus(lane.e);
        lemma_order(gap, F32::zero());
        lemma_order(F32::zero(), gap);
        lemma_sub_close(F32::four(), ring);
        lemma_div_close(gap, q);
        lemma_neg_value(gap / q);
        lemma_at_least_a_quarter((gap / q).value(), gap.value(), q.value(), margin, u, e);
    }
}

/// The lobe applied is no stronger than the neighbours leave room for, and not
/// next to nothing where every number keeps a distance from both ends.
proof fn lemma_applied_bounds(cross: Cross, sharpness: F32, margin: int)
    requires
        all_ranged(cross),
        in_unit(sharpness),
    ensures
        ({
            let u = one_unit();
            let l = -cross.applied(sharpness).value();
            &&& 0 <= l <= -cross.lobe(sharpness).value()
            &&& keeps_clear(cross, margin) ==> 4 * (l * u) >= sharpness.value() * margin - 64 * (
            slip() * u)
        }),
{
    lemma_slip();
    let e = slip();
    let u = one_unit();
    let lobe = cross.lobe(sharpness);
    lemma_unit_value(sharpness);
    let s = sharpness.value();
    lemma_lobe(cross, sharpness);
    lemma_lobe_bounds(cross, sharpness, 0, margin);
    lemma_applied(cross, sharpness, 0);
    let l = -cross.applied(sharpness).value();
    assert(e * u > 0 && l * u >= 0) by (nonlinear_arith)
        requires
            e > 0,
            u > 0,
            l >= 0,
    ;
    if cross.overshoots(lobe) {
        let (x, y, z) = (
            cross.lane(0).spec_eased(lobe),
            cross.lane(1).spec_eased(lobe),
            cross.lane(2).spec_eased(lobe),
        );
        lemma_eased_sign(cross.lane(0), lobe);
        lemma_eased_sign(cross.lane(1), lobe);
        lemma_eased_sign(cross.lane(2), lobe);
        lemma_eases(lobe, x);
        lemma_eases(lobe.max(x), y);
        lemma_eases(lobe.max(x).max(y), z);
        lemma_either(lobe, x);
        lemma_either(lobe.max(x), y);
        lemma_either(lobe.max(x).max(y), z);
        if keeps_clear(cross, margin) {
            if margin < 64 * e {
                assert(s * margin <= 64 * (e * u)) by (nonlinear_arith)
                    requires
                        0 <= s <= u,
                        0 <= margin <= 64 * e,
                ;
            } else {
                assert(lane_keeps_clear(cross.lane(0), margin));
                assert(lane_keeps_clear(cross.lane(1), margin));
                assert(lane_keeps_clear(cross.lane(2), margin));
                lemma_eased_bounds(cross.lane(0), lobe, margin);
                lemma_eased_bounds(cross.lane(1), lobe, margin);
                lemma_eased_bounds(cross.lane(2), lobe, margin);
                if 4 * l >= margin - 16 * e {
                    assert(4 * (l * u) >= s * margin - 16 * (e * u)) by (nonlinear_arith)
                        requires
                            4 * l >= margin - 16 * e,
                            0 <= s <= u,
                            margin >= 0,
                            u > 0,
                    {
                        assert((4 * l) * u >= (margin - 16 * e) * u);
                        assert(s * margin <= u * margin);
                    }
                }
            }
        }
    }
}

/// Whether sharpening moved a channel of a pixel away from its neighbours'
/// average, by as much as a lobe says, but for some millionths of rounding: with
/// `4 e` four times the pixel, `s` the sum of its neighbours and `v` the result,
/// `(v - e) (1 - 4 l)` is `l (4 e - s)`.
pub open spec fn moved_by(
    img: &ImageBuffer,
    out: ImageBuffer,
    x: int,
    y: int,
    c: int,
    lobe: int,
) -> bool {
    let u = one_unit();
    let before = img.px(x, y)@[c].value();
    let after = out.px(x, y)@[c].value();
    size((after - before) * (u - 4 * lobe) - lobe * (4 * before - around(img, x, y, c))) <= 40 * (
    slip() * u)
}

/// Whether a lobe leaves the neighbours in range: it takes the darkest of them no
/// further than to `0` and the brightest no further than to `1`, whichever they
/// are, and all of that scaled by the sharpness.
pub open spec fn has_room(img: &ImageBuffer, x: int, y: int, s: int, lobe: int) -> bool {
    let n = nearby(img, x, y);
    let u = one_unit();
    forall|i: int, j: int, c: int|
        #![trigger n[i][c], n[j][c]]
        1 <= i < 5 && 1 <= j < 5 && 0 <= c < 3 ==> 4 * (lobe * n[i][c].value()) <= s
            * n[j][c].value() + 32 * (slip() * u) && 4 * (lobe * (u - n[j][c].value())) <= s * (u
            - n[i][c].value()) + 32 * (slip() * u)
}

/// One lobe sharpens all three channels of a pixel. It is within its limit of
/// three sixteenths and within the room that the neighbours leave, both scaled by
/// the sharpness, and it is no next to nothing where every number nearby keeps a
/// distance from `0` and `1`.
pub proof fn law_one_lobe_sharpens_all_channels(
    img: &ImageBuffer,
    sharpness: F32,
    out: ImageBuffer,
    x: u32,
    y: u32,
    margin: int,
) -> (lobe: int)
    requires
        img.wf(),
        call_ensures(rcas, (img, sharpness), out),
        x < img.spec_width(),
        y < img.spec_height(),
        in_range_nearby(img, x as int, y as int),
        in_unit(sharpness),
    ensures
        0 <= lobe,
        16 * lobe <= 3 * sharpness.value() + 16 * slip(),
        has_room(img, x as int, y as int, sharpness.value(), lobe),
        margin >= 0 && clear_of_the_ends(img, x as int, y as int, margin) ==> 4 * (lobe
            * one_unit()) >= sharpness.value() * margin - 64 * (slip() * one_unit()),
        forall|c: int|
            0 <= c < 3 ==> #[trigger] moved_by(img, out, x as int, y as int, c, lobe) && out.px(
                x as int,
                y as int,
            )@[c].is_finite(),
{
    reveal(F32::spec_clamp);
    lemma_slip();
    let e = slip();
    let u = one_unit();
    let n = nearby(img, x as int, y as int);
    let cross = Cross::around(img, x as int, y as int);
    lemma_in_range(img, x as int, y as int);
    lemma_unit_value(sharpness);
    lemma_order(sharpness, F32::zero());
    lemma_order(F32::zero(), sharpness);
    let s = sharpness.value();
    assert(sharpness.clamp(F32::zero(), F32::one()) == sharpness);
    assert(out.px(x as int, y as int)@ == cross.sharpened(sharpness));
    assert(e * u > 0) by (nonlinear_arith)
        requires
            e > 0,
            u > 0,
    ;
    if sharpness.le(F32::zero()) {
        assert(s == 0);
        assert forall|c: int| 0 <= c < 3 implies #[trigger] moved_by(
            img,
            out,
            x as int,
            y as int,
            c,
            0,
        ) && out.px(x as int, y as int)@[c].is_finite() by {
            assert(in_unit(n[0][c]));
            lemma_unit_value(n[0][c]);
            assert(0 * (u - 4 * 0) == 0) by (nonlinear_arith);
            let k = 4 * n[0][c].value() - around(img, x as int, y as int, c);
            assert(0 * k == 0) by (nonlinear_arith);
        }
        assert(0 * margin == 0) by (nonlinear_arith);
        assert forall|i: int, j: int, c: int|
            #![trigger n[i][c], n[j][c]]
            1 <= i < 5 && 1 <= j < 5 && 0 <= c < 3 implies 4 * (0 * n[i][c].value()) <= s
            * n[j][c].value() + 32 * (slip() * u) && 4 * (0 * (u - n[j][c].value())) <= s * (u
            - n[i][c].value()) + 32 * (slip() * u) by {
            assert(0 * n[i][c].value() == 0 && 0 * (u - n[j][c].value()) == 0 && 0
                * n[j][c].value() == 0 && 0 * (u - n[i][c].value()) == 0) by (nonlinear_arith);
        }
        0
    } else {
        let lobe = cross.applied(sharpness);
        let l = -lobe.value();
        lemma_applied(cross, sharpness, 0);
        lemma_applied_bounds(cross, sharpness, margin);
        lemma_lobe_bounds(cross, sharpness, 0, margin);
        // The kernel is not singular.
        lemma_parts(cross.lane(0), lobe);
        let bottom = F32::four() * lobe + F32::one();
        let least = F32::ratio(1, 10000);
        lemma_ratio_close(1, 10000);
        lemma_order(bottom, F32::zero());
        lemma_order(F32::zero(), bottom);
        assert(bottom.abs() == bottom || bottom.abs().key() == bottom.key());
        lemma_order(least, bottom);
        lemma_order(bottom, least);
        assert(bottom.abs().gt(least));
        assert forall|c: int| 0 <= c < 3 implies #[trigger] moved_by(
            img,
            out,
            x as int,
            y as int,
            c,
            l,
        ) && out.px(x as int, y as int)@[c].is_finite() by {
            assert(cross.lane(c).spec_ranged());
            lemma_moves(cross.lane(c), lobe);
            lemma_parts(cross.lane(c), lobe);
            assert(out.px(x as int, y as int)@[c] == cross.lane(c).spec_sharpened(lobe));
        }
        assert forall|i: int, j: int, c: int|
            #![trigger n[i][c], n[j][c]]
            1 <= i < 5 && 1 <= j < 5 && 0 <= c < 3 implies 4 * (l * n[i][c].value()) <= s
            * n[j][c].value() + 32 * (slip() * u) && 4 * (l * (u - n[j][c].value())) <= s * (u
            - n[i][c].value()) + 32 * (slip() * u) by {
            assert(cross.lane(c).spec_ranged());
            lemma_lobe_bounds(cross, sharpness, c, margin);
            lemma_room_for(cross.lane(c), n[i][c], n[j][c], l, -cross.lobe(sharpness).value(), s);
        }
        if margin >= 0 && clear_of_the_ends(img, x as int, y as int, margin) {
            assert forall|c: int| 0 <= c < 3 implies lane_keeps_clear(
                #[trigger] cross.lane(c),
                margin,
            ) by {
                assert(n[0][c] == cross.lane(c).e && n[1][c] == cross.lane(c).b && n[2][c]
                    == cross.lane(c).d && n[3][c] == cross.lane(c).f && n[4][c] == cross.lane(c).h);
            }
            assert(keeps_clear(cross, margin));
        }
        l
    }
}

/// A bound by the extremes of four neighbours is one by any two of them.
proof fn lemma_room_for(lane: Lane, p: F32, q: F32, l: int, most: int, s: int)
    requires
        lane.spec_ranged(),
        p == lane.b || p == lane.d || p == lane.f || p == lane.h,
        q == lane.b || q == lane.d || q == lane.f || q == lane.h,
        0 <= l <= most,
        s >= 0,
        ({
            let u = one_unit();
            let least = lane.b.min(lane.d).min(lane.f).min(lane.h).value();
            let greatest = lane.b.max(lane.d).max(lane.f).max(lane.h).value();
            &&& 4 * (most * greatest) <= s * least + 32 * (slip() * u)
            &&& 4 * (most * (u - least)) <= s * (u - greatest) + 32 * (slip() * u)
        }),
    ensures
        4 * (l * p.value()) <= s * q.value() + 32 * (slip() * one_unit()),
        4 * (l * (one_unit() - q.value())) <= s * (one_unit() - p.value()) + 32 * (slip()
            * one_unit()),
{
    reveal(F32::spec_min);
    reveal(F32::spec_max);
    let u = one_unit();
    let least = lane.b.min(lane.d).min(lane.f).min(lane.h);
    let greatest = lane.b.max(lane.d).max(lane.f).max(lane.h);
    lemma_extremes(lane.b, lane.d, lane.f, lane.h);
    lemma_unit_value(p);
    lemma_unit_value(q);
    lemma_order(least, q);
    lemma_order(p, greatest);
    let (a, b, x, y) = (least.value(), greatest.value(), p.value(), q.value());
    assert(l * x <= most * b) by (nonlinear_arith)
        requires
            0 <= l <= most,
            0 <= x <= b,
    ;
    assert(s * a <= s * y) by (nonlinear_arith)
        requires
            a <= y,
            s >= 0,
    ;
    assert(l * (u - y) <= most * (u - a)) by (nonlinear_arith)
        requires
            0 <= l <= most,
            0 <= u - y <= u - a,
    ;
    assert(s * (u - b) <= s * (u - x)) by (nonlinear_arith)
        requires
            x <= b,
            s >= 0,
    ;
}

/// Sharpening acts on curvature, in each channel: where every number nearby keeps
/// a distance from `0` and `1`, a channel that is above its neighbours' average by
/// more than rounding comes out higher than it was, and one that is below it comes
/// out lower.
pub proof fn law_sharpening_acts_on_curvature(
    img: &ImageBuffer,
    sharpness: F32,
    out: ImageBuffer,
    x: u32,
    y: u32,
    margin: int,
    c: int,
)
    requires
        img.wf(),
        call_ensures(rcas, (img, sharpness), out),
        x < img.spec_width(),
        y < img.spec_height(),
        in_range_nearby(img, x as int, y as int),
        in_unit(sharpness),
        margin > 0,
        clear_of_the_ends(img, x as int, y as int, margin),
        0 <= c < 3,
    ensures
        ({
            let u = one_unit();
            let before = img.px(x as int, y as int)@[c];
            let after = out.px(x as int, y as int)@[c];
            let curvature = 4 * before.value() - around(img, x as int, y as int, c);
            let enough = 512 * (slip() * u) * u;
            &&& sharpness.value() * margin * curvature >= enough ==> before.lt(after)
            &&& sharpness.value() * margin * (-curvature) >= enough ==> after.lt(before)
        }),
{
    lemma_slip();
    lemma_unit_value(sharpness);
    let e = slip();
    let u = one_unit();
    let s = sharpness.value();
    let lobe = law_one_lobe_sharpens_all_channels(img, sharpness, out, x, y, margin);
    let n = nearby(img, x as int, y as int);
    assert(in_unit(n[0][c]) && in_unit(n[1][c]) && in_unit(n[2][c]) && in_unit(n[3][c])
        && in_unit(n[4][c]));
    lemma_unit_value(n[0][c]);
    lemma_unit_value(n[1][c]);
    lemma_unit_value(n[2][c]);
    lemma_unit_value(n[3][c]);
    lemma_unit_value(n[4][c]);
    let before = img.px(x as int, y as int)@[c];
    let after = out.px(x as int, y as int)@[c];
    let d = 4 * before.value() - around(img, x as int, y as int, c);
    assert(moved_by(img, out, x as int, y as int, c, lobe));
    lemma_order(before, after);
    lemma_order(after, before);
    let w = u - 4 * lobe;
    let v = after.value() - before.value();
    assert(w > 0);
    if s * margin * d >= 512 * (e * u) * u {
        lemma_enough(s * margin, lobe, d, u, e);
        assert(v > 0) by (nonlinear_arith)
            requires
                v * w > 0,
                w > 0,
        ;
    }
    if s * margin * (-d) >= 512 * (e * u) * u {
        lemma_enough(s * margin, lobe, -d, u, e);
        assert(lobe * (-d) == -(lobe * d)) by (nonlinear_arith);
        assert(v < 0) by (nonlinear_arith)
            requires
                v * w < 0,
                w > 0,
        ;
    }
}

/// A lobe that is not next to nothing makes more of enough curvature than
/// rounding.
proof fn lemma_enough(a: int, lobe: int, d: int, u: int, e: int)
    requires
        0 < e,
        0 < u,
        0 <= lobe,
        d <= 4 * u,
        4 * (lobe * u) >= a - 64 * (e * u),
        a * d >= 512 * (e * u) * u,
        a >= 0,
    ensures
        lobe * d > 40 * (e * u),
{
    let k = e * u;
    assert(k > 0) by (nonlinear_arith)
        requires
            k == e * u,
            e > 0,
            u > 0,
    ;
    assert(512 * (e * u) * u == 512 * (k * u)) by (nonlinear_arith)
        requires
            k == e * u,
    ;
    assert(k * u > 0) by (nonlinear_arith)
        requires
            k > 0,
            u > 0,
    ;
    assert(d > 0) by (nonlinear_arith)
        requires
            a * d > 0,
            a >= 0,
    ;
    assert(a >= 128 * k) by (nonlinear_arith)
        requires
            a * d >= 512 * (k * u),
            0 < d <= 4 * u,
            k > 0,
            u > 0,
            a >= 0,
    {
        assert(a * d <= a * (4 * u));
        if a < 128 * k {
            assert(a * (4 * u) < (128 * k) * (4 * u));
            assert((128 * k) * (4 * u) == 512 * (k * u));
        }
    }
    assert(8 * (lobe * u) >= a);
    assert(8 * ((lobe * d) * u) >= a * d) by (nonlinear_arith)
        requires
            8 * (lobe * u) >= a,
            d > 0,
    {
        assert(8 * (lobe * u) * d >= a * d);
        assert((lobe * u) * d == (lobe * d) * u);
    }
    assert(lobe * d > 40 * k) by (nonlinear_arith)
        requires
            8 * ((lobe * d) * u) >= 512 * (k * u),
            u > 0,
            k > 0,
    {
        if lobe * d <= 40 * k {
            assert((lobe * d) * u <= (40 * k) * u);
        }
    }
}

} // verus!
