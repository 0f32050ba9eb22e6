//! Edges: upsampling reads which way an edge runs, and does not blur across it.

use crate::fp::errors::{
    lemma_add_close, lemma_div_close, lemma_mul_close, lemma_ratio_close, lemma_slip,
    lemma_sub_close, one_unit, size, slip,
};
use crate::fp::facts::{
    lemma_add_key, lemma_div_key, lemma_div_sign, lemma_exact, lemma_from_small, lemma_from_whole,
    lemma_mul_key, lemma_mul_one, lemma_mul_zero, lemma_order, lemma_product_one, lemma_round_lower,
    lemma_round_same, lemma_round_upper, lemma_rounded_sum_monotone, lemma_rounds_to_itself,
    lemma_sub_key, lemma_unity, rounded_sum,
};
use crate::fp::model::{
    halve_even, isqrt, lemma_isqrt, lemma_pow2_le, lemma_quotient, lemma_quotient_bounds,
    lemma_round_exact, root_mag, root_scale, units, Format,
};
use crate::fp::raw::lemma_units_zero;
use crate::fp::F32;
use crate::frame::ImageBuffer;
use crate::laws::evidence::lemma_root_of_a_square;
use crate::laws::motion::{law_luminance_is_rec_709, weighed};
use crate::laws::sampling::{
    center, displayable, lemma_center, lemma_displayable_pixel, lemma_half_value,
};
use crate::laws::sharpening::{lemma_four_value, lemma_unit_value};
use crate::laws::upsampling::{
    before, lemma_exact_map, lemma_room_above, lemma_square, lemma_two_value, lemma_whole_within,
};
use crate::recon::easu::{
    easu, gradient_x, gradient_y, spec_mapped, spec_tap_weight, tensor, upsampled, EasuConfig, Edge,
    Gather, Tensor,
};
use crate::signals::spec_luma;
use vstd::arithmetic::power2::{
    lemma2_to64, lemma_pow2_adds, lemma_pow2_pos, lemma_pow2_unfold, pow2,
};
use vstd::prelude::*;

verus! {

/// The scale of a root is the one that fits.
proof fn lemma_root_scale(p: nat, n: nat)
    ensures
        n < pow2(root_scale(p, n) + p) * pow2(root_scale(p, n) + p),
        root_scale(p, n) > 0 ==> n >= pow2((root_scale(p, n) + p - 1) as nat) * pow2(
            (root_scale(p, n) + p - 1) as nat,
        ),
    decreases n,
{
    lemma_pow2_pos(p);
    if n < pow2(p) * pow2(p) || n == 0 {
        assert(pow2(p) * pow2(p) > 0) by (nonlinear_arith)
            requires
                pow2(p) > 0,
        ;
    } else {
        let m = n / 4;
        lemma_root_scale(p, m);
        let r = root_scale(p, m);
        lemma_pow2_unfold(r + 1 + p);
        let a = pow2(r + p);
        assert(n < (2 * a) * (2 * a)) by (nonlinear_arith)
            requires
                n / 4 < a * a,
        ;
        if r > 0 {
            lemma_pow2_unfold(r + p);
            let b = pow2((r + p - 1) as nat);
            assert(n >= (2 * b) * (2 * b)) by (nonlinear_arith)
                requires
                    n / 4 >= b * b,
            ;
        }
    }
}

/// A magnitude put together from a scale and places.
proof fn lemma_put_together(s: nat, k: nat)
    requires
        s == 0 && k <= 0x100_0000 || 0x80_0000 <= k <= 0x100_0000,
    ensures
        units(Format::Single, s * 0x80_0000 + k) == k * pow2(s),
{
    let f = Format::Single;
    let h: nat = 0x80_0000;
    let m = s * h + k;
    lemma2_to64();
    lemma_pow2_unfold(s + 1);
    assert((s + 1) * h == s * h + h && (s + 2) * h == s * h + 2 * h && (s + 3) * h == s * h + 3 * h)
        by (nonlinear_arith);
    if k < h {
        assert(m == k);
        assert(k * pow2(0) == k) by (nonlinear_arith)
            requires
                pow2(0) == 1,
        ;
    } else if k < 2 * h {
        lemma_quotient(m, h, s + 1);
        vstd::arithmetic::div_mod::lemma_fundamental_div_mod(m as int, h as int);
        assert(m % h == k - h);
    } else {
        lemma_quotient(m, h, s + 2);
        vstd::arithmetic::div_mod::lemma_fundamental_div_mod(m as int, h as int);
        assert(m % h == 0);
        assert(h * pow2(s + 1) == (2 * h) * pow2(s)) by (nonlinear_arith)
            requires
                pow2(s + 1) == 2 * pow2(s),
        ;
    }
}

/// A root is within a place of what it is the root of.
proof fn lemma_root_close(n: nat) -> (w: nat)
    requires
        n <= 8 * (one_unit() * one_unit()),
    ensures
        root_mag(Format::Single, n) < Format::Single.top(),
        ({
            let r = units(Format::Single, root_mag(Format::Single, n));
            &&& w == 1 || w * 0x80_0000 <= r
            &&& n < (r + w) * (r + w)
            &&& (2 * r - w) * (2 * r - w) <= 4 * n || r == 0
        }),
{
    let f = Format::Single;
    let s = root_scale(f.p(), n);
    let w = pow2(s);
    let q = w * w;
    let t = isqrt((4 * n) / q);
    let k = halve_even(t, (t * t) * q == 4 * n);
    lemma2_to64();
    lemma_pow2_pos(s);
    lemma_root_scale(f.p(), n);
    assert(q > 0) by (nonlinear_arith)
        requires
            q == w * w,
            w > 0,
    ;
    lemma_isqrt((4 * n) / q);
    lemma_quotient_bounds(4 * n, q);
    let z = (4 * n) / q;
    // (t w)^2 <= 4 n < ((t + 1) w)^2
    assert((t * t) * q <= 4 * n) by (nonlinear_arith)
        requires
            t * t <= z,
            z * q <= 4 * n,
    ;
    assert(4 * n < ((t + 1) * (t + 1)) * q) by (nonlinear_arith)
        requires
            z < (t + 1) * (t + 1),
            4 * n < (z + 1) * q,
            q > 0,
    {
        assert((z + 1) * q <= ((t + 1) * (t + 1)) * q);
    }
    lemma_pow2_adds(s, 24);
    assert(t < 0x200_0000) by (nonlinear_arith)
        requires
            (t * t) * (w * w) <= 4 * n,
            n < (w * 0x100_0000) * (w * 0x100_0000),
            w > 0,
    {
        if t >= 0x200_0000 {
            assert(t * t >= 0x200_0000 * 0x200_0000);
            assert((t * t) * (w * w) >= (0x200_0000 * 0x200_0000) * (w * w));
            assert(4 * ((w * 0x100_0000) * (w * 0x100_0000)) == (0x200_0000 * 0x200_0000) * (w * w));
        }
    }
    if s > 0 {
        lemma_pow2_adds(s, 23);
        assert(t + 1 > 0x100_0000) by (nonlinear_arith)
            requires
                4 * n < ((t + 1) * (t + 1)) * (w * w),
                n >= (w * 0x80_0000) * (w * 0x80_0000),
                w > 0,
        {
            if t + 1 <= 0x100_0000 {
                assert((t + 1) * (t + 1) <= 0x100_0000 * 0x100_0000);
                assert(((t + 1) * (t + 1)) * (w * w) <= (0x100_0000 * 0x100_0000) * (w * w));
                assert(4 * ((w * 0x80_0000) * (w * 0x80_0000)) == (0x100_0000 * 0x100_0000) * (w
                    * w));
            }
        }
    }
    assert(2 * k <= t + 1 && t <= 2 * k + 1);
    assert(pow2((f.p() - 1) as nat) == 0x80_0000);
    if s >= 130 {
        lemma_pow2_le(153, (s + 23) as nat);
        lemma_pow2_adds(4, 149);
        let b = pow2((s + 23) as nat);
        let u = one_unit();
        lemma_pow2_pos(149);
        assert(b * b > 8 * (u * u)) by (nonlinear_arith)
            requires
                b >= 16 * u,
                u > 0,
        {
            assert(b * b >= (16 * u) * (16 * u));
            assert(u * u > 0);
        }
    }
    assert(s * 0x80_0000 <= 129 * 0x80_0000);
    lemma_put_together(s, k);
    let r = k * w;
    assert(units(f, root_mag(f, n)) == r);
    assert(s > 0 ==> w * 0x80_0000 <= r) by (nonlinear_arith)
        requires
            s > 0 ==> k >= 0x80_0000,
            r == k * w,
    ;
    assert(n < (r + w) * (r + w)) by (nonlinear_arith)
        requires
            4 * n < ((t + 1) * (t + 1)) * (w * w),
            t + 1 <= 2 * k + 2,
            r == k * w,
    {
        assert((t + 1) * (t + 1) <= (2 * k + 2) * (2 * k + 2));
        assert(((t + 1) * (t + 1)) * (w * w) <= ((2 * k + 2) * (2 * k + 2)) * (w * w));
        assert(((2 * k + 2) * (2 * k + 2)) * (w * w) == 4 * ((k * w + w) * (k * w + w)));
    }
    if r != 0 {
        assert((2 * r - w) * (2 * r - w) <= 4 * n) by (nonlinear_arith)
            requires
                (t * t) * (w * w) <= 4 * n,
                2 * k - 1 <= t,
                k >= 1,
                r == k * w,
        {
            assert((2 * k - 1) * (2 * k - 1) <= t * t);
            assert(((2 * k - 1) * (2 * k - 1)) * (w * w) <= (t * t) * (w * w));
            assert((2 * r - w) * (2 * r - w) == ((2 * k - 1) * (2 * k - 1)) * (w * w));
        }
        assert(k >= 1) by (nonlinear_arith)
            requires
                r == k * w,
                r != 0,
        ;
    }
    w
}

/// Numbers of at most so much have a kernel weight that is at worst a little below
/// nothing, and those near the middle one well above it.
proof fn lemma_weight(d: F32)
    requires
        d.is_finite(),
        0 <= d.value() <= 2 * one_unit(),
    ensures
        ({
            let w = spec_tap_weight(d);
            let u = one_unit();
            let b = F32::ratio(2, 5) * d - F32::one();
            &&& w.is_finite()
            &&& (b * b * F32::ratio(25, 16) - F32::ratio(9, 16)).is_finite()
            &&& -u <= 7 * w.value() && 10 * w.value() <= 19 * u
            &&& 5 * d.value() <= 2 * u ==> 10 * w.value() >= 3 * u
        }),
{
    let e = slip();
    let u = one_unit();
    let x = d.value();
    lemma_slip();
    lemma_half_value();
    lemma_unity(Format::Single);
    let slope = F32::ratio(2, 5);
    lemma_ratio_close(2, 5);
    let gain = F32::ratio(25, 16);
    lemma_ratio_close(25, 16);
    let dip = F32::ratio(9, 16);
    lemma_ratio_close(9, 16);
    let one = F32::one();
    let sl = slope.value();
    assert(0 <= sl * x <= 2 * u * u) by (nonlinear_arith)
        requires
            0 <= sl <= u,
            0 <= x <= 2 * u,
    ;
    assert(2 * u * u <= 8 * u * u) by (nonlinear_arith)
        requires
            u > 0,
    ;
    lemma_mul_close(slope, d);
    let p = slope * d;
    let pv = p.value();
    assert(size(5 * pv - 2 * x) <= 20 * e) by (nonlinear_arith)
        requires
            -e * u <= pv * u - sl * x <= e * u,
            size(sl * 5 - 2 * u) <= e * 5,
            0 <= x <= 2 * u,
            u > 0,
            e > 0,
    {
        assert(5 * (sl * x) == (sl * 5) * x);
        assert(size((sl * 5 - 2 * u) * x) <= (e * 5) * (2 * u));
        assert(size((5 * pv - 2 * x) * u) <= 15 * (e * u));
        assert(size((5 * pv - 2 * x) * u) == size(5 * pv - 2 * x) * u);
    }
    lemma_sub_close(p, one);
    let b = p - one;
    let bv = b.value();
    assert(size(5 * bv - (2 * x - 5 * u)) <= 25 * e);
    assert(0 <= bv * bv <= 2 * u * u) by (nonlinear_arith)
        requires
            -u - 5 * e <= bv <= 0,
            u == 0x20_0000 * e,
            e > 0,
    ;
    lemma_mul_close(b, b);
    let q = b * b;
    let qv = q.value();
    let gv = gain.value();
    assert(-u <= qv && 5 * qv <= 6 * u && qv >= -e) by (nonlinear_arith)
        requires
            -e * u <= qv * u - bv * bv <= e * u,
            -u - 5 * e <= bv <= 0,
            u == 0x20_0000 * e,
            e > 0,
    {
        assert(bv * bv <= (u + 5 * e) * (u + 5 * e));
        assert((u + 5 * e) * (u + 5 * e) == u * u + 10 * (e * u) + 25 * (e * e));
        assert(e * e <= e * u);
        assert(0x20_0000 * (e * u) == u * u);
        if 5 * qv > 6 * u {
            assert(5 * (qv * u) > 6 * (u * u));
        }
        if qv < -e {
            assert(qv * u < -e * u);
        }
    }
    assert(-(8 * u * u) <= qv * gv <= 8 * u * u) by (nonlinear_arith)
        requires
            -u <= qv <= 2 * u,
            0 <= gv <= 2 * u,
    ;
    lemma_mul_close(q, gain);
    let r = q * gain;
    let rv = r.value();
    assert(size(16 * rv - 25 * qv) <= 50 * e) by (nonlinear_arith)
        requires
            -e * u <= rv * u - qv * gv <= e * u,
            size(gv * 16 - 25 * u) <= e * 16,
            -u <= qv <= 2 * u,
            u > 0,
            e > 0,
    {
        assert(16 * (qv * gv) == qv * (gv * 16));
        assert(size(qv * (gv * 16 - 25 * u)) <= (2 * u) * (e * 16));
        assert(size((16 * rv - 25 * qv) * u) <= 48 * (e * u));
        assert(size((16 * rv - 25 * qv) * u) == size(16 * rv - 25 * qv) * u);
    }
    lemma_sub_close(r, dip);
    let m = r - dip;
    let mv = m.value();
    assert(size(16 * mv - (25 * qv - 9 * u)) <= 90 * e);
    // The other factor.
    let hv = F32::half().value();
    assert(0 <= hv * x <= 8 * u * u) by (nonlinear_arith)
        requires
            0 <= hv <= u,
            0 <= x <= 2 * u,
    ;
    lemma_mul_close(F32::half(), d);
    let g = F32::half() * d;
    assert(size(2 * g.value() - x) <= 2 * e) by (nonlinear_arith)
        requires
            -e * u <= g.value() * u - hv * x <= e * u,
            2 * hv == u,
            u > 0,
    {
        assert(2 * (hv * x) == u * x);
        assert(size((2 * g.value() - x) * u) <= 2 * (e * u));
        assert(size((2 * g.value() - x) * u) == size(2 * g.value() - x) * u);
    }
    lemma_sub_close(g, one);
    let a = g - one;
    let av = a.value();
    assert(size(2 * av - (x - 2 * u)) <= 4 * e);
    assert(0 <= av * av <= 8 * u * u) by (nonlinear_arith)
        requires
            -u - 2 * e <= av <= 2 * e,
            u == 0x20_0000 * e,
            e > 0,
    ;
    lemma_mul_close(a, a);
    let s = a * a;
    let sv = s.value();
    assert(-e <= sv && 5 * sv <= 6 * u) by (nonlinear_arith)
        requires
            -e * u <= sv * u - av * av <= e * u,
            -u - 2 * e <= av <= 2 * e,
            u == 0x20_0000 * e,
            e > 0,
    {
        assert(av * av <= (u + 2 * e) * (u + 2 * e));
        assert((u + 2 * e) * (u + 2 * e) == u * u + 4 * (e * u) + 4 * (e * e));
        assert(e * e <= e * u);
        assert(0x20_0000 * (e * u) == u * u);
        if 5 * sv > 6 * u {
            assert(5 * (sv * u) > 6 * (u * u));
        }
        if sv < -e {
            assert(sv * u < -e * u);
        }
    }
    assert(-(8 * u * u) <= mv * sv <= 8 * u * u) by (nonlinear_arith)
        requires
            -u <= mv <= 2 * u,
            -u <= sv <= 2 * u,
            u > 0,
    ;
    lemma_mul_close(m, s);
    let wv = (m * s).value();
    lemma_weight_bounds(x, bv, qv, mv, av, sv, wv, u, e);
}

/// What the pieces of a kernel weight come to.
proof fn lemma_weight_bounds(
    x: int,
    bv: int,
    qv: int,
    mv: int,
    av: int,
    sv: int,
    wv: int,
    u: int,
    e: int,
)
    requires
        0 <= x <= 2 * u,
        u == 0x20_0000 * e,
        e > 0,
        size(5 * bv - (2 * x - 5 * u)) <= 25 * e,
        -e * u <= qv * u - bv * bv <= e * u,
        -e <= qv && 5 * qv <= 6 * u,
        size(16 * mv - (25 * qv - 9 * u)) <= 90 * e,
        size(2 * av - (x - 2 * u)) <= 4 * e,
        -e * u <= sv * u - av * av <= e * u,
        -e <= sv && 5 * sv <= 6 * u,
        -e * u <= wv * u - mv * sv <= e * u,
    ensures
        -u <= 7 * wv && 10 * wv <= 19 * u,
        5 * x <= 2 * u ==> 10 * wv >= 3 * u,
{
    assert(-e * u == -(e * u)) by (nonlinear_arith);
    // At most.
    assert(-u <= mv && 4 * mv <= 6 * u);
    assert(10 * wv <= 19 * u) by (nonlinear_arith)
        requires
            wv * u <= mv * sv + e * u,
            -u <= mv,
            4 * mv <= 6 * u,
            -e <= sv,
            5 * sv <= 6 * u,
            0 < 32 * e <= u,
    {
        assert(20 * (mv * sv) <= 36 * (u * u)) by {
            if mv >= 0 {
                assert(mv * (5 * sv) <= mv * (6 * u));
                assert((4 * mv) * (6 * u) <= (6 * u) * (6 * u));
            } else {
                assert(mv * sv <= mv * (-e));
                assert(mv * (-e) <= u * e);
            }
        }
        if 10 * wv > 19 * u {
            assert(10 * (wv * u) > 19 * (u * u));
            assert(32 * (e * u) <= u * u);
        }
    }
    // At least.
    if mv >= 0 {
        assert(7 * wv >= -u) by (nonlinear_arith)
            requires
                wv * u >= mv * sv - e * u,
                mv >= 0,
                4 * mv <= 6 * u,
                sv >= -e,
                0 < 32 * e <= u,
        {
            assert(mv * sv >= mv * (-e));
            assert(4 * (mv * (-e)) >= -(6 * u) * e);
            if 7 * wv < -u {
                assert(7 * (wv * u) < -(u * u));
            }
        }
    } else {
        // A negative weight is one beyond one, where the other factor is small.
        assert(25 * qv <= 9 * u + 90 * e);
        assert(1000 * bv >= -601 * u) by (nonlinear_arith)
            requires
                qv * u >= bv * bv - e * u,
                25 * qv <= 9 * u + 90 * e,
                u == 0x20_0000 * e,
                e > 0,
        {
            if 1000 * bv < -601 * u {
                assert((1000 * bv) * (1000 * bv) > (601 * u) * (601 * u));
                assert(25 * (qv * u) <= 9 * (u * u) + 90 * (e * u));
                assert(0x20_0000 * (e * u) == u * u);
            }
        }
        assert(1000 * av >= -502 * u);
        assert(100 * sv <= 26 * u) by (nonlinear_arith)
            requires
                sv * u <= av * av + e * u,
                -502 * u <= 1000 * av,
                av <= 2 * e,
                u == 0x20_0000 * e,
                e > 0,
        {
            assert(1000000 * (av * av) <= 252004 * (u * u)) by {
                if av <= 0 {
                    assert((1000 * av) * (1000 * av) <= (502 * u) * (502 * u));
                } else {
                    assert(av * av <= (2 * e) * (2 * e));
                }
            }
            assert(0x20_0000 * (e * u) == u * u);
            if 100 * sv > 26 * u {
                assert(100 * (sv * u) > 26 * (u * u));
            }
        }
        assert(100 * bv <= -19 * u);
        assert(100 * qv >= 3 * u) by (nonlinear_arith)
            requires
                qv * u >= bv * bv - e * u,
                100 * bv <= -19 * u,
                u == 0x20_0000 * e,
                e > 0,
        {
            assert((100 * bv) * (100 * bv) >= (19 * u) * (19 * u));
            assert(0x20_0000 * (e * u) == u * u);
            if 100 * qv < 3 * u {
                assert(100 * (qv * u) < 3 * (u * u));
            }
        }
        assert(100 * mv >= -52 * u);
        assert(7 * wv >= -u) by (nonlinear_arith)
            requires
                wv * u >= mv * sv - e * u,
                mv < 0,
                100 * mv >= -52 * u,
                -e <= sv,
                100 * sv <= 26 * u,
                u == 0x20_0000 * e,
                e > 0,
        {
            assert(0x20_0000 * (e * u) == u * u);
            assert(10000 * (mv * sv) >= -1352 * (u * u)) by {
                if sv >= 0 {
                    assert((100 * mv) * (100 * sv) >= (-52 * u) * (100 * sv));
                    assert((52 * u) * (100 * sv) <= (52 * u) * (26 * u));
                } else {
                    assert(mv * sv >= 0);
                }
            }
            if 7 * wv < -u {
                assert(7 * (wv * u) < -(u * u));
            }
        }
    }
    if 5 * x <= 2 * u {
        assert(100 * bv <= -83 * u);
        assert(100 * qv >= 68 * u) by (nonlinear_arith)
            requires
                qv * u >= bv * bv - e * u,
                100 * bv <= -83 * u,
                u == 0x20_0000 * e,
                e > 0,
        {
            assert((100 * bv) * (100 * bv) >= (83 * u) * (83 * u));
            assert(0x20_0000 * (e * u) == u * u);
            if 100 * qv < 68 * u {
                assert(100 * (qv * u) < 68 * (u * u));
            }
        }
        assert(100 * mv >= 49 * u);
        assert(100 * av <= -79 * u);
        assert(100 * sv >= 62 * u) by (nonlinear_arith)
            requires
                sv * u >= av * av - e * u,
                100 * av <= -79 * u,
                u == 0x20_0000 * e,
                e > 0,
        {
            assert((100 * av) * (100 * av) >= (79 * u) * (79 * u));
            assert(0x20_0000 * (e * u) == u * u);
            if 100 * sv < 62 * u {
                assert(100 * (sv * u) < 62 * (u * u));
            }
        }
        assert(10000 * (mv * sv) >= 3038 * (u * u)) by (nonlinear_arith)
            requires
                100 * mv >= 49 * u,
                100 * sv >= 62 * u,
                u > 0,
        ;
        assert(10 * wv >= 3 * u) by (nonlinear_arith)
            requires
                wv * u >= mv * sv - e * u,
                10000 * (mv * sv) >= 3038 * (u * u),
                u == 0x20_0000 * e,
                e > 0,
        {
            assert(0x20_0000 * (e * u) == u * u);
            if 10 * wv < 3 * u {
                assert(10 * (wv * u) < 3 * (u * u));
            }
        }
    }
}

/// Adding nothing, or taking it away, leaves the same value.
proof fn lemma_nothing_added(a: F32, z: F32)
    requires
        a.is_finite(),
        z.is_finite(),
        z.value() == 0,
    ensures
        (a + z).is_finite() && (a + z).value() == a.value() && (a + z).key() == a.key(),
        (z + a).is_finite() && (z + a).value() == a.value() && (z + a).key() == a.key(),
        (a - z).is_finite() && (a - z).value() == a.value(),
        (z - a).is_finite() && (z - a).value() == -a.value(),
{
    lemma_add_key(a, z);
    lemma_add_key(z, a);
    lemma_sub_key(a, z);
    lemma_sub_key(z, a);
    lemma_rounds_to_itself(a);
    lemma_order(a, a);
    lemma_units_zero(Format::Single, 0);
    assert(rounded_sum(Format::Single, -a.value()) == -a.key()) by {
        lemma_order(a, F32::zero());
        lemma_order(F32::zero(), a);
        lemma_round_exact(Format::Single, 0);
    }
    lemma_order(a + z, a);
    lemma_order(z + a, a);
    lemma_order(a - z, a);
    lemma_order(z - a, a);
}

/// The root of the square of a number that is not small is hardly less than it.
proof fn lemma_root_of_square_close(y: F32, v: int)
    requires
        y.is_finite(),
        y.key() >= 0,
        one_unit() <= 40 * v,
        v <= 2 * one_unit(),
        -(slip() * one_unit()) <= y.value() * one_unit() - v * v <= slip() * one_unit(),
    ensures
        y.sqrt().is_finite(),
        v - 45 * slip() <= y.sqrt().value() <= 2 * v,
        y.sqrt().value() <= 3 * one_unit(),
{
    reveal(F32::spec_sqrt);
    let f = Format::Single;
    let e = slip();
    let u = one_unit();
    lemma_slip();
    lemma_order(y, y);
    lemma_units_zero(f, y.raw().mag as nat);
    let x = y.value();
    assert(x > 0 && x * u <= 5 * (u * u)) by (nonlinear_arith)
        requires
            x * u >= v * v - e * u,
            x * u <= v * v + e * u,
            u <= 40 * v,
            v <= 2 * u,
            u == 0x20_0000 * e,
            e > 0,
    {
        assert(0x20_0000 * (e * u) == u * u);
        assert((40 * v) * (40 * v) >= u * u);
        assert(v * v <= (2 * u) * (2 * u));
        assert(e * u > 0);
        if x <= 0 {
            assert(x * u <= 0);
        }
    }
    let n = (x * u) as nat;
    assert(y.raw().neg == false);
    assert(units(f, y.raw().mag as nat) * pow2(149) == n);
    assert(u * u > 0) by (nonlinear_arith)
        requires
            u > 0,
    ;
    let w = lemma_root_close(n);
    let r = units(f, root_mag(f, n)) as int;
    assert(y.sqrt().value() == r);
    assert(r <= 3 * u && w <= e) by (nonlinear_arith)
        requires
            w == 1 || w * 0x80_0000 <= r,
            (2 * r - w) * (2 * r - w) <= 4 * n || r == 0,
            n <= 5 * (u * u),
            u == 0x20_0000 * e,
            e > 0,
            r >= 0,
            w >= 0,
    {
        if r > 3 * u {
            assert(2 * r - w >= r + 1);
            assert((2 * r - w) >= 5 * u) by {
                assert(w <= u);
            }
            assert((2 * r - w) * (2 * r - w) >= (5 * u) * (5 * u));
            assert(u * u > 0);
        }
    }
    assert(r <= 2 * v) by (nonlinear_arith)
        requires
            (2 * r - w) * (2 * r - w) <= 4 * n || r == 0,
            n <= v * v + e * u,
            0 <= w <= e,
            r >= 0,
            u <= 40 * v,
            u == 0x20_0000 * e,
            e > 0,
    {
        if r > 2 * v {
            assert(2 * r - w >= 3 * v);
            assert((2 * r - w) * (2 * r - w) >= (3 * v) * (3 * v));
            assert((40 * v) * (40 * v) >= u * u);
            assert(u * u == 0x20_0000 * (e * u));
            assert(e * u > 0);
        }
    }
    assert(r >= v - 45 * e) by (nonlinear_arith)
        requires
            n < (r + w) * (r + w),
            n >= v * v - e * u,
            0 <= w <= e,
            r >= 0,
            u <= 40 * v,
            u == 0x20_0000 * e,
            e > 0,
    {
        if r < v - 45 * e {
            let c = v - 44 * e;
            assert(r + w <= c);
            assert((r + w) * (r + w) <= c * c);
            assert(c * c == v * v - 88 * (e * v) + 1936 * (e * e));
            assert(40 * (e * v) >= e * u);
            assert(e * u == 0x20_0000 * (e * e));
            assert(e * e > 0);
        }
    }
}

/// A number too small to matter.
proof fn lemma_tiny()
    ensures
        F32::ratio(1, 100000000).is_finite(),
        F32::ratio(1, 100000000).key() >= 0,
        0 <= F32::ratio(1, 100000000).value(),
        0x400_0000 * F32::ratio(1, 100000000).value() <= one_unit(),
{
    let f = Format::Single;
    let u = pow2(149);
    let d = 100000000u32;
    let a = F32::from_u32(1);
    let b = F32::from_u32(d);
    lemma2_to64();
    lemma_pow2_pos(149);
    lemma_from_small(1);
    lemma_whole_within(d);
    lemma_order(a, a);
    lemma_order(b, b);
    lemma_from_whole(d as u64);
    lemma_pow2_adds(26, 149);
    lemma_pow2_adds(123, 26);
    lemma_room_above(175);
    lemma_room_above(123);
    lemma_round_lower(f, d as nat * u, 1, 1, 175);
    let y = units(f, b.key() as nat);
    assert(y >= pow2(175));
    lemma_div_key(a, b);
    let x = units(f, a.key() as nat);
    assert(x == u);
    assert(x * u <= (1 * pow2(123)) * y) by (nonlinear_arith)
        requires
            x == u,
            y >= 0x400_0000 * u,
            u == pow2(123) * 0x400_0000,
    {
        assert(pow2(123) * y >= pow2(123) * (0x400_0000 * u));
    }
    lemma_round_upper(f, x * u, y, 1, 123);
    lemma_order(F32::ratio(1, 100000000), F32::zero());
    lemma_order(F32::zero(), F32::ratio(1, 100000000));
}

/// Half of a number.
proof fn lemma_halved(a: F32)
    requires
        a.is_finite(),
        size(a.value()) <= 8 * one_unit(),
    ensures
        (F32::half() * a).is_finite(),
        size(2 * (F32::half() * a).value() - a.value()) <= 2 * slip(),
{
    let e = slip();
    let u = one_unit();
    lemma_slip();
    lemma_half_value();
    let hv = F32::half().value();
    let x = a.value();
    assert(-(8 * u * u) <= hv * x <= 8 * u * u) by (nonlinear_arith)
        requires
            0 <= hv <= u,
            -(8 * u) <= x <= 8 * u,
    ;
    lemma_mul_close(F32::half(), a);
    let g = (F32::half() * a).value();
    assert(size(2 * g - x) <= 2 * e) by (nonlinear_arith)
        requires
            -e * u <= g * u - hv * x <= e * u,
            2 * hv == u,
            u > 0,
    {
        assert(2 * (hv * x) == u * x);
        assert(size((2 * g - x) * u) <= 2 * (e * u));
        assert(size((2 * g - x) * u) == size(2 * g - x) * u);
    }
}

/// The length of a unit vector along an axis, and the vector divided by it.
proof fn lemma_unit_length()
    ensures
        ({
            let o = F32::one();
            let z = F32::zero();
            &&& (o * o + z * z).sqrt() == o
            &&& (z * z + o * o).sqrt() == o
            &&& (o / o).is_finite() && (o / o).value() == one_unit()
            &&& (z / o).is_finite() && (z / o).value() == 0
            &&& (o / o).neg().is_finite() && (o / o).neg().value() == -one_unit()
            &&& (z / o).neg().is_finite() && (z / o).neg().value() == 0
        }),
{
    reveal(F32::spec_sqrt);
    reveal(F32::spec_neg);
    let f = Format::Single;
    let o = F32::one();
    let z = F32::zero();
    lemma_unity(f);
    lemma_slip();
    lemma_order(o, o);
    lemma_order(z, z);
    lemma_mul_one(o);
    lemma_mul_zero(z, z);
    lemma_order(z * z, z);
    lemma_nothing_added(o, z * z);
    lemma_root_of_a_square(f, o.raw().mag as nat);
    let u = one_unit();
    assert(o * o + z * z == o);
    assert(z * z + o * o == o);
    lemma_div_key(o, o);
    assert((u * u) as nat * 1 == u as nat * u as nat);
    lemma_round_same(f, (u * u) as nat, u as nat, u as nat, 1);
    lemma_rounds_to_itself(o);
    lemma_order(o / o, o);
    lemma_order(o, o / o);
    lemma_div_sign(z, o);
    lemma_order(z / o, z);
    lemma_order(o / o, z);
}

/// How clean an edge is, from the sum of the eigenvalues and their difference.
proof fn lemma_gap(trace: F32, disc: F32, v: int)
    requires
        trace.is_finite(),
        disc.is_finite(),
        trace.value() == v,
        one_unit() <= 40 * v,
        v <= 2 * one_unit(),
        v - 45 * slip() <= disc.value() <= 2 * v,
        disc.value() <= 3 * one_unit(),
    ensures
        ({
            let tiny = F32::ratio(1, 100000000);
            let l1 = F32::half() * (trace + disc);
            let l2 = F32::half() * (trace - disc);
            let a = ((l1 - l2) / (l1 + l2).max(tiny)).clamp(F32::zero(), F32::one());
            &&& a.is_finite()
            &&& 10000 * a.value() >= 9985 * one_unit()
            &&& a.value() <= one_unit()
            &&& !trace.le(tiny)
        }),
{
    reveal(F32::spec_max);
    reveal(F32::spec_clamp);
    let e = slip();
    let u = one_unit();
    lemma_slip();
    lemma_unity(Format::Single);
    let zero = F32::zero();
    let one = F32::one();
    let tiny = F32::ratio(1, 100000000);
    lemma_add_close(trace, disc);
    lemma_sub_close(trace, disc);
    let l1 = F32::half() * (trace + disc);
    let l2 = F32::half() * (trace - disc);
    lemma_halved(trace + disc);
    lemma_halved(trace - disc);
    lemma_sub_close(l1, l2);
    lemma_add_close(l1, l2);
    let gap = (l1 - l2).value();
    let whole = (l1 + l2).value();
    assert(gap >= v - 55 * e && gap <= 2 * v + 10 * e);
    assert(v - 10 * e <= whole <= v + 10 * e);
    lemma_tiny();
    lemma_order(l1 + l2, tiny);
    lemma_order(trace, tiny);
    lemma_div_close(l1 - l2, l1 + l2);
    let ratio = (l1 - l2) / (l1 + l2);
    let rv = ratio.value();
    assert(10000 * rv >= 9985 * u) by (nonlinear_arith)
        requires
            rv * whole - gap * u >= -(e * whole),
            gap >= v - 55 * e,
            v - 10 * e <= whole <= v + 10 * e,
            u <= 40 * v,
            u == 0x20_0000 * e,
            e > 0,
    {
        if 10000 * rv < 9985 * u {
            assert((10000 * rv) * whole <= (9985 * u) * whole);
            assert(gap * u >= (whole - 65 * e) * u);
            assert((whole - 65 * e) * u == whole * u - 65 * (e * u));
            assert(40 * whole >= u - 400 * e);
            assert(40 * (whole * u) >= u * u - 400 * (e * u));
            assert(0x20_0000 * (e * u) == u * u);
            assert(0x20_0000 * (e * whole) == u * whole);
            assert(e * u > 0);
        }
    }
    lemma_order(ratio, zero);
    lemma_order(zero, ratio);
    lemma_order(one, ratio);
    lemma_order(ratio, one);
}

/// Where the luminance changes in one direction only, and by enough, the edge is
/// as good as clean, and runs the other way.
proof fn lemma_clean_edge(t: Tensor, upright: bool)
    requires
        t.jxx.is_finite(),
        t.jyy.is_finite(),
        t.jxy.is_finite(),
        t.jxy.value() == 0,
        upright ==> t.jyy.value() == 0 && one_unit() <= 40 * t.jxx.value() && t.jxx.value() <= 2
            * one_unit(),
        !upright ==> t.jxx.value() == 0 && one_unit() <= 40 * t.jyy.value() && t.jyy.value() <= 2
            * one_unit(),
    ensures
        t.edge().anisotropy.is_finite(),
        10000 * t.edge().anisotropy.value() >= 9985 * one_unit(),
        t.edge().anisotropy.value() <= one_unit(),
        t.edge().x.is_finite() && t.edge().y.is_finite(),
        upright ==> t.edge().x.value() == 0 && t.edge().y.value() == one_unit(),
        !upright ==> t.edge().x.value() == -one_unit() && t.edge().y.value() == 0,
{
    reveal(F32::spec_max);
    let e = slip();
    let u = one_unit();
    lemma_slip();
    lemma_unity(Format::Single);
    lemma_half_value();
    let zero = F32::zero();
    let one = F32::one();
    lemma_order(zero, zero);
    let tiny = F32::ratio(1, 100000000);
    let trace = t.jxx + t.jyy;
    let diff = t.jxx - t.jyy;
    let v = if upright {
        t.jxx.value()
    } else {
        t.jyy.value()
    };
    if upright {
        lemma_nothing_added(t.jxx, t.jyy);
    } else {
        lemma_nothing_added(t.jyy, t.jxx);
    }
    assert(trace.value() == v && size(diff.value()) == v);
    // The gap between the eigenvalues.
    lemma_order(t.jxy, zero);
    lemma_four_value();
    lemma_mul_zero(F32::four(), t.jxy);
    lemma_mul_zero(F32::four() * t.jxy, t.jxy);
    assert(0 <= diff.value() * diff.value() == v * v <= 8 * u * u) by (nonlinear_arith)
        requires
            diff.value() == v || diff.value() == -v,
            0 <= v <= 2 * u,
    ;
    lemma_mul_close(diff, diff);
    lemma_square(diff);
    let square = diff * diff;
    let none = F32::four() * t.jxy * t.jxy;
    lemma_order(none, zero);
    lemma_nothing_added(square, none);
    let y = (square + none).max(zero);
    lemma_order(y, square);
    lemma_order(square, y);
    assert(y.is_finite() && y.value() == square.value() && y.key() >= 0);
    assert(-e * u == -(e * u)) by (nonlinear_arith);
    lemma_root_of_square_close(y, v);
    let disc = y.sqrt();
    lemma_gap(trace, disc, v);
    // The direction.
    lemma_tiny();
    lemma_order(one, tiny);
    lemma_order(one, one);
    assert(t.jxy.abs().key() == 0) by {
        lemma_order(t.jxy, zero);
    }
    lemma_order(t.jxx, t.jyy);
    lemma_order(t.jyy, t.jxx);
    lemma_unit_length();
}

/// Squares of numbers up to four.
proof fn lemma_large_square(a: F32)
    requires
        a.is_finite(),
        size(a.value()) <= 4 * one_unit(),
    ensures
        (a * a).is_finite(),
        (a * a).value() >= 0,
        1000 * size(a.value()) >= 1490 * one_unit() ==> (a * a).value() >= 2 * one_unit(),
{
    reveal(F32::spec_mul);
    let f = Format::Single;
    let u = pow2(149);
    let x = units(f, a.raw().mag as nat);
    lemma2_to64();
    lemma_pow2_pos(149);
    lemma_room_above(149);
    assert(x * x <= (16 * u) * u) by (nonlinear_arith)
        requires
            0 <= x <= 4 * u,
    {
        assert(x * x <= (4 * u) * (4 * u));
    }
    lemma_round_upper(f, x * x, u, 16, 149);
    if 1000 * x >= 1490 * u {
        assert(x * x >= (2 * u) * u) by (nonlinear_arith)
            requires
                1000 * x >= 1490 * u,
                u > 0,
        {
            assert((1000 * x) * (1000 * x) >= (1490 * u) * (1490 * u));
        }
        lemma_round_lower(f, x * x, u, 2, 149);
    }
}

/// The kernel ends at two.
proof fn lemma_end_weight()
    ensures
        spec_tap_weight(F32::two()).is_finite(),
        spec_tap_weight(F32::two()).key() == 0,
{
    let f = Format::Single;
    let u = pow2(149);
    let two = F32::two();
    let half = F32::half();
    let one = F32::one();
    lemma_slip();
    lemma_unity(f);
    lemma_two_value();
    lemma_half_value();
    lemma_order(two, two);
    lemma_order(half, half);
    lemma_order(one, one);
    let m = (pow2(148) * (2 * u)) as nat;
    assert(m * 1 == u * u) by (nonlinear_arith)
        requires
            m == pow2(148) * (2 * u),
            u == 2 * pow2(148),
    ;
    lemma_mul_key(half, two);
    lemma_round_same(f, m, u, u, 1);
    lemma_rounds_to_itself(one);
    let g = half * two;
    assert(g.key() == one.key());
    lemma_order(g, one);
    lemma_order(one, g);
    lemma_sub_key(g, one);
    let a = g - one;
    lemma_rounds_to_itself(F32::zero());
    lemma_order(F32::zero(), F32::zero());
    assert(a.key() == 0);
    lemma_mul_zero(a, a);
    lemma_weight(two);
    let b = F32::ratio(2, 5) * two - one;
    lemma_mul_zero(b * b * F32::ratio(25, 16) - F32::ratio(9, 16), a * a);
}

/// How far a tap is once warped: a tap three quarters of a pixel off across the
/// edge is beyond the kernel, and one a quarter off is near its middle, unless it
/// is far along the edge.
proof fn lemma_warped(n0: F32, t0: F32, s: F32)
    requires
        n0.is_finite(),
        t0.is_finite(),
        s.is_finite(),
        4 * size(n0.value()) <= 7 * one_unit(),
        4 * size(t0.value()) <= 7 * one_unit(),
        1998 * one_unit() <= 1000 * s.value(),
        s.value() <= 2 * one_unit(),
    ensures
        ({
            let along = t0 / s;
            let across = n0 * s;
            let d = (along * along + across * across).min(F32::two());
            &&& d.is_finite() && 0 <= d.value() <= 2 * one_unit()
            &&& 4 * size(n0.value()) >= 3 * one_unit() ==> d == F32::two()
            &&& 4 * size(n0.value()) == one_unit() && 4 * size(t0.value()) <= 3 * one_unit() ==> 5
                * d.value() <= 2 * one_unit()
        }),
{
    reveal(F32::spec_min);
    let f = Format::Single;
    let e = slip();
    let u = one_unit();
    let two = F32::two();
    lemma_slip();
    lemma_two_value();
    let along = t0 / s;
    let across = n0 * s;
    let sv = s.value();
    let tv = t0.value();
    let nv = n0.value();
    lemma_div_close(t0, s);
    let a = along.value();
    assert(size(a) <= u && (4 * size(tv) <= 3 * u ==> 1000 * size(a) <= 377 * u)) by (
        nonlinear_arith)
        requires
            size(a * sv - tv * u) <= e * sv,
            4 * size(tv) <= 7 * u,
            1998 * u <= 1000 * sv,
            u == 0x20_0000 * e,
            e > 0,
    {
        assert(size(a) * sv <= size(tv) * u + e * sv) by {
            assert(size(a * sv) == size(a) * sv);
            assert(size(tv * u) == size(tv) * u);
        }
        if size(a) > u {
            assert(size(a) * sv >= (u + 1) * sv);
            assert(1000 * (u * sv) >= 1998 * (u * u));
            assert(4 * (size(tv) * u) <= 7 * (u * u));
            assert(u * sv == 0x20_0000 * (e * sv));
        }
        if 4 * size(tv) <= 3 * u && 1000 * size(a) > 377 * u {
            assert((1000 * size(a)) * sv >= (377 * u) * sv);
            assert(1000 * (u * sv) >= 1998 * (u * u));
            assert(4 * (size(tv) * u) <= 3 * (u * u));
            assert(u * sv == 0x20_0000 * (e * sv));
        }
    }
    assert(-(8 * u * u) <= nv * sv <= 8 * u * u) by (nonlinear_arith)
        requires
            4 * size(nv) <= 7 * u,
            0 <= sv <= 2 * u,
    {
        assert(size(nv * sv) == size(nv) * sv);
        assert(size(nv) * sv <= (2 * u) * (2 * u));
    }
    lemma_mul_close(n0, s);
    let n = across.value();
    assert(-e * u == -(e * u)) by (nonlinear_arith);
    assert(size(n) <= 4 * u && (4 * size(nv) >= 3 * u ==> 1000 * size(n) >= 1490 * u) && (4 * size(
        nv,
    ) == u ==> 1000 * size(n) <= 501 * u)) by (nonlinear_arith)
        requires
            -(e * u) <= n * u - nv * sv <= e * u,
            4 * size(nv) <= 7 * u,
            1998 * u <= 1000 * sv,
            sv <= 2 * u,
            u == 0x20_0000 * e,
            e > 0,
    {
        let p = size(nv) * sv;
        assert(size(nv * sv) == p);
        assert(size(n * u) == size(n) * u);
        assert(size(n) * u <= p + e * u && p <= size(n) * u + e * u);
        assert(u * u == 0x20_0000 * (e * u));
        assert(u * u > 0);
        assert(4 * p <= (7 * u) * sv);
        assert((7 * u) * sv <= 14 * (u * u));
        if size(n) > 4 * u {
            assert(size(n) * u > 4 * (u * u));
        }
        if 4 * size(nv) >= 3 * u && 1000 * size(n) < 1490 * u {
            assert(4 * p >= (3 * u) * sv);
            assert(1000 * (u * sv) >= 1998 * (u * u));
            assert(1000 * (size(n) * u) <= 1490 * (u * u));
        }
        if 4 * size(nv) == u && 1000 * size(n) > 501 * u {
            assert(4 * p == u * sv);
            assert(u * sv <= 2 * (u * u));
            assert(1000 * (size(n) * u) >= 501 * (u * u));
        }
    }
    lemma_large_square(along);
    lemma_large_square(across);
    let x = along * along;
    let y = across * across;
    let v = x.value() + y.value();
    lemma_add_key(x, y);
    let sum = x + y;
    lemma_rounded_sum_monotone(f, 0, v);
    lemma_rounds_to_itself(F32::zero());
    lemma_order(F32::zero(), F32::zero());
    let d = sum.min(two);
    assert(0 <= d.key() <= two.key());
    lemma_order(F32::zero(), d);
    lemma_order(d, two);
    if 4 * size(nv) >= 3 * u {
        lemma_rounded_sum_monotone(f, 2 * u, v);
        lemma_rounds_to_itself(two);
        assert(sum.key() >= two.key());
    }
    if 4 * size(nv) == u && 4 * size(tv) <= 3 * u {
        assert(a * a <= u * u && n * n <= u * u && 1000000 * (a * a) <= 142129 * (u * u) && 1000000
            * (n * n) <= 251001 * (u * u)) by (nonlinear_arith)
            requires
                1000 * size(a) <= 377 * u,
                1000 * size(n) <= 501 * u,
                u > 0,
        {
            assert((1000 * size(a)) * (1000 * size(a)) <= (377 * u) * (377 * u));
            assert((1000 * size(n)) * (1000 * size(n)) <= (501 * u) * (501 * u));
            assert(size(a) * size(a) == a * a);
            assert(size(n) * size(n) == n * n);
        }
        assert(u * u <= 8 * u * u) by (nonlinear_arith);
        assert(a * a >= 0 && n * n >= 0) by (nonlinear_arith);
        lemma_mul_close(along, along);
        lemma_mul_close(across, across);
        assert(1000 * (x.value() + y.value()) <= 394 * u) by (nonlinear_arith)
            requires
                x.value() * u <= a * a + e * u,
                y.value() * u <= n * n + e * u,
                1000000 * (a * a) <= 142129 * (u * u),
                1000000 * (n * n) <= 251001 * (u * u),
                u == 0x20_0000 * e,
                e > 0,
        {
            assert(u * u == 0x20_0000 * (e * u));
            assert(u * u > 0);
            if 1000 * (x.value() + y.value()) > 394 * u {
                assert((1000 * (x.value() + y.value())) * u > (394 * u) * u);
            }
        }
        lemma_add_close(x, y);
        lemma_order(sum, two);
    }
}

/// A gradient: half of a difference, and nothing between equals.
proof fn lemma_gradient(a: F32, b: F32)
    requires
        a.is_finite(),
        b.is_finite(),
        -(8 * slip()) <= a.value() <= one_unit() + 8 * slip(),
        -(8 * slip()) <= b.value() <= one_unit() + 8 * slip(),
    ensures
        (F32::half() * (a - b)).is_finite(),
        size(2 * (F32::half() * (a - b)).value() - (a.value() - b.value())) <= 3 * slip(),
        a == b ==> (F32::half() * (a - b)).value() == 0,
{
    lemma_slip();
    lemma_sub_close(a, b);
    lemma_halved(a - b);
    if a == b {
        lemma_sub_key(a, b);
        lemma_rounds_to_itself(F32::zero());
        lemma_order(F32::zero(), F32::zero());
        lemma_half_value();
        lemma_mul_zero(F32::half(), a - b);
        lemma_order(F32::half() * (a - b), F32::zero());
    }
}

/// The sum of the squares of four gradients.
proof fn lemma_four_squares(a: F32, b: F32, c: F32, d: F32)
    requires
        a.is_finite() && b.is_finite() && c.is_finite() && d.is_finite(),
        1000 * size(a.value()) <= 510 * one_unit(),
        1000 * size(b.value()) <= 510 * one_unit(),
        1000 * size(c.value()) <= 510 * one_unit(),
        1000 * size(d.value()) <= 510 * one_unit(),
    ensures
        ({
            let j = F32::zero() + a * a + b * b + c * c + d * d;
            &&& j.is_finite()
            &&& j.value() <= 2 * one_unit()
            &&& 8 * size(a.value()) >= one_unit() - 100 * slip() && 8 * size(b.value())
                >= one_unit() - 100 * slip() ==> 40 * j.value() >= one_unit()
            &&& 8 * size(c.value()) >= one_unit() - 100 * slip() && 8 * size(d.value())
                >= one_unit() - 100 * slip() ==> 40 * j.value() >= one_unit()
            &&& 8 * size(a.value()) >= one_unit() - 100 * slip() && 8 * size(c.value())
                >= one_unit() - 100 * slip() ==> 40 * j.value() >= one_unit()
            &&& 8 * size(b.value()) >= one_unit() - 100 * slip() && 8 * size(d.value())
                >= one_unit() - 100 * slip() ==> 40 * j.value() >= one_unit()
        }),
{
    lemma_slip();
    lemma_small_square(a);
    lemma_small_square(b);
    lemma_small_square(c);
    lemma_small_square(d);
    let zero = F32::zero();
    lemma_order(zero, zero);
    lemma_nothing_added(a * a, zero);
    lemma_add_close(zero + a * a, b * b);
    lemma_add_close(zero + a * a + b * b, c * c);
    lemma_add_close(zero + a * a + b * b + c * c, d * d);
}

/// The square of a gradient.
proof fn lemma_small_square(a: F32)
    requires
        a.is_finite(),
        1000 * size(a.value()) <= 510 * one_unit(),
    ensures
        (a * a).is_finite(),
        0 <= (a * a).value(),
        100 * (a * a).value() <= 27 * one_unit(),
        8 * size(a.value()) >= one_unit() - 100 * slip() ==> 64 * (a * a).value() >= one_unit()
            - 300 * slip(),
{
    let e = slip();
    let u = one_unit();
    let x = a.value();
    lemma_slip();
    assert(x * x <= 8 * u * u && 1000000 * (x * x) <= 260100 * (u * u) && x * x >= 0) by (
        nonlinear_arith)
        requires
            1000 * size(x) <= 510 * u,
            u > 0,
    {
        assert((1000 * size(x)) * (1000 * size(x)) <= (510 * u) * (510 * u));
        assert(size(x) * size(x) == x * x);
        assert(u * u > 0);
    }
    lemma_mul_close(a, a);
    lemma_large_square(a);
    let y = (a * a).value();
    assert(-e * u == -(e * u)) by (nonlinear_arith);
    assert(100 * y <= 27 * u) by (nonlinear_arith)
        requires
            y * u <= x * x + e * u,
            1000000 * (x * x) <= 260100 * (u * u),
            u == 0x20_0000 * e,
            e > 0,
    {
        assert(u * u == 0x20_0000 * (e * u));
        assert(u * u > 0);
        if 100 * y > 27 * u {
            assert(100 * (y * u) > 27 * (u * u));
        }
    }
    if 8 * size(x) >= u - 100 * e {
        assert(64 * y >= u - 300 * e) by (nonlinear_arith)
            requires
                y * u >= x * x - e * u,
                8 * size(x) >= u - 100 * e,
                u == 0x20_0000 * e,
                e > 0,
        {
            let c = u - 100 * e;
            assert((8 * size(x)) * (8 * size(x)) >= c * c);
            assert(size(x) * size(x) == x * x);
            assert(c * c == u * u - 200 * (e * u) + 10000 * (e * e));
            assert(e * e > 0);
            if 64 * y < u - 300 * e {
                assert(64 * (y * u) < (u - 300 * e) * u);
                assert((u - 300 * e) * u == u * u - 300 * (e * u));
                assert(e * u > 0);
            }
        }
    }
}

/// Whether two luminances a pixel apart on either side differ by about a quarter.
spec fn stepped(a: F32, b: F32) -> bool {
    4 * size(a.value() - b.value()) >= one_unit() - 80 * slip()
}

/// Whether the rows of a patch are alike.
spec fn rows_alike(lum: Seq<F32>) -> bool {
    &&& lum[4] == lum[0] && lum[5] == lum[1] && lum[6] == lum[2] && lum[7] == lum[3]
    &&& lum[8] == lum[0] && lum[9] == lum[1] && lum[10] == lum[2] && lum[11] == lum[3]
    &&& lum[13] == lum[1] && lum[14] == lum[2]
}

/// Whether the columns of a patch are alike.
spec fn columns_alike(lum: Seq<F32>) -> bool {
    &&& lum[1] == lum[0] && lum[2] == lum[0] && lum[3] == lum[0]
    &&& lum[5] == lum[4] && lum[6] == lum[4] && lum[7] == lum[4]
    &&& lum[9] == lum[8] && lum[10] == lum[8] && lum[11] == lum[8]
    &&& lum[13] == lum[12] && lum[14] == lum[12]
}

/// Whether a number can be a luminance.
spec fn is_luminance(l: F32) -> bool {
    l.is_finite() && -(8 * slip()) <= l.value() <= one_unit() + 8 * slip()
}

/// The tensor, written out.
proof fn lemma_tensor(lum: Seq<F32>)
    ensures
        ({
            let z = F32::zero();
            let (x5, x6) = (gradient_x(lum, 5), gradient_x(lum, 6));
            let (x9, x10) = (gradient_x(lum, 9), gradient_x(lum, 10));
            let (y5, y6) = (gradient_y(lum, 5), gradient_y(lum, 6));
            let (y9, y10) = (gradient_y(lum, 9), gradient_y(lum, 10));
            let t = tensor(lum, 4);
            &&& t.jxx == z + x5 * x5 + x6 * x6 + x9 * x9 + x10 * x10
            &&& t.jyy == z + y5 * y5 + y6 * y6 + y9 * y9 + y10 * y10
            &&& t.jxy == z + x5 * y5 + x6 * y6 + x9 * y9 + x10 * y10
        }),
{
    reveal_with_fuel(tensor, 5);
}

/// Two steps of luminance, as gradients.
proof fn lemma_steps(a: F32, b: F32, c: F32, d: F32)
    requires
        is_luminance(a) && is_luminance(b) && is_luminance(c) && is_luminance(d),
        stepped(a, b) || stepped(c, d),
    ensures
        ({
            let p = F32::half() * (a - b);
            let q = F32::half() * (c - d);
            let j = F32::zero() + p * p + q * q + p * p + q * q;
            let k = F32::zero() + p * p + p * p + q * q + q * q;
            &&& p.is_finite() && q.is_finite()
            &&& j.is_finite() && one_unit() <= 40 * j.value() && j.value() <= 2 * one_unit()
            &&& k.is_finite() && one_unit() <= 40 * k.value() && k.value() <= 2 * one_unit()
        }),
{
    lemma_slip();
    lemma_gradient(a, b);
    lemma_gradient(c, d);
    let p = F32::half() * (a - b);
    let q = F32::half() * (c - d);
    lemma_four_squares(p, q, p, q);
    lemma_four_squares(p, p, q, q);
}

/// The tensor of a patch whose luminance changes from column to column only.
proof fn lemma_upright_patch(lum: Seq<F32>)
    requires
        is_luminance(lum[0]) && is_luminance(lum[1]) && is_luminance(lum[2]) && is_luminance(lum[3]),
        rows_alike(lum),
        stepped(lum[2], lum[0]) || stepped(lum[3], lum[1]),
    ensures
        ({
            let t = tensor(lum, 4);
            &&& t.jxx.is_finite() && t.jyy.is_finite() && t.jxy.is_finite()
            &&& t.jxy.value() == 0 && t.jyy.value() == 0
            &&& one_unit() <= 40 * t.jxx.value() && t.jxx.value() <= 2 * one_unit()
        }),
{
    lemma_tensor(lum);
    let p = F32::half() * (lum[2] - lum[0]);
    let q = F32::half() * (lum[3] - lum[1]);
    let y = F32::half() * (lum[1] - lum[1]);
    let z = F32::half() * (lum[2] - lum[2]);
    assert(gradient_x(lum, 5) == p && gradient_x(lum, 6) == q);
    assert(gradient_x(lum, 9) == p && gradient_x(lum, 10) == q);
    assert(gradient_y(lum, 5) == y && gradient_y(lum, 6) == z);
    assert(gradient_y(lum, 9) == y && gradient_y(lum, 10) == z);
    lemma_steps(lum[2], lum[0], lum[3], lum[1]);
    lemma_gradient(lum[1], lum[1]);
    lemma_gradient(lum[2], lum[2]);
    lemma_no_squares(p, y, q, z, p, y, q, z);
}

/// The tensor of a patch whose luminance changes from row to row only.
proof fn lemma_level_patch(lum: Seq<F32>)
    requires
        is_luminance(lum[0]) && is_luminance(lum[4]) && is_luminance(lum[8]) && is_luminance(
            lum[12],
        ),
        columns_alike(lum),
        stepped(lum[8], lum[0]) || stepped(lum[12], lum[4]),
    ensures
        ({
            let t = tensor(lum, 4);
            &&& t.jxx.is_finite() && t.jyy.is_finite() && t.jxy.is_finite()
            &&& t.jxy.value() == 0 && t.jxx.value() == 0
            &&& one_unit() <= 40 * t.jyy.value() && t.jyy.value() <= 2 * one_unit()
        }),
{
    lemma_tensor(lum);
    let p = F32::half() * (lum[8] - lum[0]);
    let q = F32::half() * (lum[12] - lum[4]);
    let y = F32::half() * (lum[4] - lum[4]);
    let z = F32::half() * (lum[8] - lum[8]);
    assert(gradient_y(lum, 5) == p && gradient_y(lum, 6) == p);
    assert(gradient_y(lum, 9) == q && gradient_y(lum, 10) == q);
    assert(gradient_x(lum, 5) == y && gradient_x(lum, 6) == y);
    assert(gradient_x(lum, 9) == z && gradient_x(lum, 10) == z);
    lemma_steps(lum[8], lum[0], lum[12], lum[4]);
    lemma_gradient(lum[4], lum[4]);
    lemma_gradient(lum[8], lum[8]);
    lemma_no_squares(p, y, p, y, q, z, q, z);
}

/// Where every second factor is nothing, so are the squares and the products.
proof fn lemma_no_squares(
    a1: F32,
    z1: F32,
    a2: F32,
    z2: F32,
    a3: F32,
    z3: F32,
    a4: F32,
    z4: F32,
)
    requires
        a1.is_finite() && a2.is_finite() && a3.is_finite() && a4.is_finite(),
        z1.is_finite() && z2.is_finite() && z3.is_finite() && z4.is_finite(),
        z1.value() == 0 && z2.value() == 0 && z3.value() == 0 && z4.value() == 0,
    ensures
        ({
            let j = F32::zero() + z1 * z1 + z2 * z2 + z3 * z3 + z4 * z4;
            j.is_finite() && j.value() == 0
        }),
        ({
            let j = F32::zero() + a1 * z1 + a2 * z2 + a3 * z3 + a4 * z4;
            j.is_finite() && j.value() == 0
        }),
        ({
            let j = F32::zero() + z1 * a1 + z2 * a2 + z3 * a3 + z4 * a4;
            j.is_finite() && j.value() == 0
        }),
{
    lemma_nothing_times(z1, z1);
    lemma_nothing_times(z2, z2);
    lemma_nothing_times(z3, z3);
    lemma_nothing_times(z4, z4);
    lemma_nothings(z1 * z1, z2 * z2, z3 * z3, z4 * z4);
    lemma_nothing_times(a1, z1);
    lemma_nothing_times(a2, z2);
    lemma_nothing_times(a3, z3);
    lemma_nothing_times(a4, z4);
    lemma_nothings(a1 * z1, a2 * z2, a3 * z3, a4 * z4);
    lemma_nothings(z1 * a1, z2 * a2, z3 * a3, z4 * a4);
}

proof fn lemma_nothing_times(a: F32, z: F32)
    requires
        a.is_finite(),
        z.is_finite(),
        z.value() == 0,
    ensures
        (a * z).is_finite() && (a * z).value() == 0 && (a * z).key() == 0,
        (z * a).is_finite() && (z * a).value() == 0 && (z * a).key() == 0,
{
    lemma_order(z, z);
    lemma_mul_zero(a, z);
    lemma_order(a * z, z);
    lemma_order(z * a, z);
}

proof fn lemma_nothings(a: F32, b: F32, c: F32, d: F32)
    requires
        a.is_finite() && b.is_finite() && c.is_finite() && d.is_finite(),
        a.value() == 0 && b.value() == 0 && c.value() == 0 && d.value() == 0,
    ensures
        (F32::zero() + a + b + c + d).is_finite(),
        (F32::zero() + a + b + c + d).value() == 0,
{
    let z = F32::zero();
    lemma_order(z, z);
    lemma_nothing_added(z, a);
    lemma_nothing_added(z + a, b);
    lemma_nothing_added(z + a + b, c);
    lemma_nothing_added(z + a + b + c, d);
}

/// Multiplying by minus one turns the sign.
proof fn lemma_mul_minus_one(a: F32)
    requires
        a.is_finite(),
    ensures
        (a * F32::one().neg()).is_finite(),
        (a * F32::one().neg()).value() == -a.value(),
{
    reveal(F32::spec_mul);
    reveal(F32::spec_neg);
    lemma_product_one(Format::Single, a.raw().mag as nat);
}

/// The offset of a tap from a sample, in quarters of a pixel.
proof fn lemma_offset(o: u32, from: u32, v: int)
    requires
        0 < from < 0x20_0000,
        o < 2 * from,
        0 <= v < 0x40_0000,
        -7 <= 4 * v + 2 - (2 * o + 1) <= 7,
    ensures
        ({
            let s = spec_mapped(o, from, (2 * from) as u32);
            let d = F32::from_i64(v as i64) + F32::half() - s;
            &&& d.is_finite()
            &&& 4 * d.value() == (4 * v + 2 - (2 * o + 1)) * one_unit()
        }),
{
    let f = Format::Single;
    let s = spec_mapped(o, from, (2 * from) as u32);
    lemma2_to64();
    lemma_exact_map(o, from, (2 * from) as u32, 1);
    lemma_center(v as u32);
    let c = center(v as u32);
    assert(F32::from_i64(v as i64) + F32::half() == c);
    let q = pow2(147);
    lemma_pow2_unfold(148);
    lemma_pow2_unfold(149);
    lemma_pow2_pos(147);
    let m = 4 * v + 2 - (2 * o + 1);
    assert(c.value() - s.value() == m * q) by (nonlinear_arith)
        requires
            c.value() == (2 * v + 1) * (2 * q),
            s.value() == (2 * o + 1) * q,
            m == 4 * v + 2 - (2 * o + 1),
    ;
    lemma_sub_key(c, s);
    let d = c - s;
    lemma_room_above(147);
    lemma_units_zero(f, 0);
    let z = size(m) as nat;
    assert(m < 0 ==> m * q == -(z * q)) by (nonlinear_arith)
        requires
            m < 0 ==> z == -m,
    ;
    assert(m >= 0 ==> m * q >= 0) by (nonlinear_arith);
    assert(m < 0 ==> m * q < 0) by (nonlinear_arith)
        requires
            q > 0,
    ;
    let mag = lemma_exact(f, z, 147);
    lemma_units_zero(f, mag);
    lemma_order(d, d);
    assert(d.value() == m * q);
    assert(4 * (m * q) == m * (4 * q)) by (nonlinear_arith);
}

/// The offset across the edge, of two.
spec fn normal(dx: F32, dy: F32, upright: bool) -> int {
    if upright {
        size(dx.value())
    } else {
        size(dy.value())
    }
}

/// Whether an edge is as good as clean, and runs along an axis.
spec fn along_axis(edge: Edge, upright: bool) -> bool {
    &&& edge.x.is_finite() && edge.y.is_finite()
    &&& upright ==> edge.x.value() == 0 && edge.y.value() == one_unit()
    &&& !upright ==> edge.x.value() == -one_unit() && edge.y.value() == 0
}

/// The weight of a tap, by how far it is across the edge and along it.
proof fn lemma_tap(g: Gather, edge: Edge, s: F32, k: int, upright: bool)
    requires
        along_axis(edge, upright),
        s.is_finite(),
        1998 * one_unit() <= 1000 * s.value(),
        s.value() <= 2 * one_unit(),
        ({
            let dx = F32::from_i64((g.bx - 1 + k % 4) as i64) + F32::half() - g.sx;
            let dy = F32::from_i64((g.by - 1 + k / 4) as i64) + F32::half() - g.sy;
            &&& dx.is_finite() && dy.is_finite()
            &&& 4 * size(dx.value()) <= 7 * one_unit()
            &&& 4 * size(dy.value()) <= 7 * one_unit()
        }),
    ensures
        ({
            let dx = F32::from_i64((g.bx - 1 + k % 4) as i64) + F32::half() - g.sx;
            let dy = F32::from_i64((g.by - 1 + k / 4) as i64) + F32::half() - g.sy;
            let n = normal(dx, dy, upright);
            let t = normal(dx, dy, !upright);
            let w = g.weight(edge, s, k);
            let u = one_unit();
            &&& w.is_finite()
            &&& -u <= 7 * w.value() && 10 * w.value() <= 19 * u
            &&& 4 * n >= 3 * u ==> w.key() == 0 && w.value() == 0
            &&& 4 * n == u && 4 * t <= 3 * u ==> 10 * w.value() >= 3 * u
        }),
{
    reveal(F32::spec_neg);
    let dx = F32::from_i64((g.bx - 1 + k % 4) as i64) + F32::half() - g.sx;
    let dy = F32::from_i64((g.by - 1 + k / 4) as i64) + F32::half() - g.sy;
    let t0 = dx * edge.x + dy * edge.y;
    let n0 = dx * edge.y.neg() + dy * edge.x;
    let one = F32::one();
    lemma_slip();
    lemma_unity(Format::Single);
    lemma_order(edge.x, edge.x);
    lemma_order(edge.y, edge.y);
    if upright {
        lemma_order(edge.y, one);
        lemma_order(one, edge.y);
        assert(edge.y == one);
        lemma_mul_one(dy);
        lemma_mul_minus_one(dx);
        lemma_nothing_times(dx, edge.x);
        lemma_nothing_times(dy, edge.x);
        lemma_nothing_added(dy * edge.y, dx * edge.x);
        lemma_nothing_added(dx * edge.y.neg(), dy * edge.x);
    } else {
        let minus = one.neg();
        lemma_order(edge.x, minus);
        lemma_order(minus, edge.x);
        assert(edge.x == minus);
        lemma_mul_minus_one(dx);
        lemma_mul_minus_one(dy);
        lemma_nothing_times(dy, edge.y);
        lemma_nothing_times(dx, edge.y.neg());
        lemma_nothing_added(dx * edge.x, dy * edge.y);
        lemma_nothing_added(dy * edge.x, dx * edge.y.neg());
    }
    lemma_warped(n0, t0, s);
    let along = t0 / s;
    let across = n0 * s;
    let d = (along * along + across * across).min(F32::two());
    lemma_weight(d);
    lemma_end_weight();
    lemma_order(spec_tap_weight(F32::two()), F32::zero());
}

/// Where a tap is across the edge.
spec fn across_of(k: int, upright: bool) -> int {
    if upright {
        k % 4
    } else {
        k / 4
    }
}

/// An amount, once the sum has passed a tap: the one at a place along the edge, in
/// the line of taps nearest to the sample.
spec fn passed(n: nat, near: int, at: int, upright: bool, amount: int) -> int {
    let k = if upright {
        4 * at + near
    } else {
        4 * near + at
    };
    if k < n {
        amount
    } else {
        0
    }
}

/// What a weight is, of a tap in the line nearest to the sample or of another.
spec fn right_weight(w: F32, k: int, near: int, upright: bool) -> bool {
    let u = one_unit();
    let at = across_of(k, !upright);
    &&& w.is_finite()
    &&& -u <= 7 * w.value() && 10 * w.value() <= 19 * u
    &&& across_of(k, upright) != near ==> w.key() == 0 && w.value() == 0
    &&& across_of(k, upright) == near && (at == 1 || at == 2) ==> 10 * w.value() >= 3 * u
}

/// The sums over the first taps, where only the taps of one line have weight and
/// those all have one value: the one is that value times the other.
proof fn lemma_line_sums(
    g: Gather,
    edge: Edge,
    s: F32,
    n: nat,
    c: int,
    near: int,
    upright: bool,
    v: int,
)
    requires
        n <= 16,
        0 <= c < 4,
        near == 1 || near == 2,
        0 <= v <= one_unit(),
        forall|k: int|
            0 <= k < 16 ==> right_weight(#[trigger] g.weight(edge, s, k), k, near, upright),
        forall|k: int| 0 <= k < 16 ==> (#[trigger] g.taps[k])[c].is_finite(),
        forall|k: int|
            0 <= k < 16 && across_of(k, upright) == near ==> (#[trigger] g.taps[k])[c].value() == v,
    ensures
        ({
            let acc = g.weighed(edge, s, n).0[c];
            let wsum = g.weighed(edge, s, n).1;
            let u = one_unit();
            let e = slip();
            let p0 = passed(n, near, 0, upright, u);
            let p1 = passed(n, near, 1, upright, u);
            let p2 = passed(n, near, 2, upright, u);
            let p3 = passed(n, near, 3, upright, u);
            &&& acc.is_finite() && wsum.is_finite()
            &&& 10 * wsum.value() <= 19 * (p0 + p1 + p2 + p3) + 10 * (n * e)
            &&& 70 * wsum.value() >= 21 * (p1 + p2) - 10 * (p0 + p3) - 70 * (n * e)
            &&& size(acc.value() * u - v * wsum.value()) <= 3 * ((n * e) * u)
        }),
    decreases n,
{
    let u = one_unit();
    let e = slip();
    lemma_slip();
    lemma_order(F32::zero(), F32::zero());
    if n == 0 {
        assert(0 * u == 0 && v * 0 == 0 && 0 * e == 0) by (nonlinear_arith);
        assert((0 * e) * u == 0);
    } else {
        let m = (n - 1) as nat;
        lemma_line_sums(g, edge, s, m, c, near, upright, v);
        let k = n - 1;
        let (acc, wsum) = g.weighed(edge, s, m);
        let w = g.weight(edge, s, k);
        let tap = g.taps[k][c];
        assert(right_weight(w, k, near, upright));
        assert(g.taps[k][c].is_finite());
        assert(n * e == m * e + e) by (nonlinear_arith)
            requires
                n == m + 1,
        ;
        assert((n * e) * u == (m * e) * u + e * u) by (nonlinear_arith)
            requires
                n * e == m * e + e,
        ;
        assert(0 <= m * e <= 15 * e) by (nonlinear_arith)
            requires
                0 <= m <= 15,
                e > 0,
        ;
        assert(e * u > 0) by (nonlinear_arith)
            requires
                e > 0,
                u > 0,
        ;
        if across_of(k, upright) != near {
            lemma_nothing_times(tap, w);
            lemma_nothing_added(acc[c], tap * w);
            lemma_nothing_added(wsum, w);
        } else {
            assert(tap.value() == v);
            lemma_line_step(acc[c], wsum, tap, w, v, m * e);
        }
    }
}

/// One step of the sums, for a tap that has weight.
proof fn lemma_line_step(acc: F32, wsum: F32, tap: F32, w: F32, v: int, b: int)
    requires
        acc.is_finite() && wsum.is_finite() && tap.is_finite() && w.is_finite(),
        tap.value() == v,
        0 <= v <= one_unit(),
        0 <= b <= 15 * slip(),
        -one_unit() <= 7 * w.value() && 10 * w.value() <= 19 * one_unit(),
        -one_unit() <= wsum.value(),
        10 * wsum.value() <= 58 * one_unit(),
        size(acc.value() * one_unit() - v * wsum.value()) <= 3 * (b * one_unit()),
    ensures
        (acc + tap * w).is_finite(),
        (wsum + w).is_finite(),
        size((wsum + w).value() - (wsum.value() + w.value())) <= slip(),
        size((acc + tap * w).value() * one_unit() - v * (wsum + w).value()) <= 3 * (b * one_unit())
            + 3 * (slip() * one_unit()),
{
    let u = one_unit();
    let e = slip();
    lemma_slip();
    let wv = w.value();
    let sv = wsum.value();
    let av = acc.value();
    assert(-e * u == -(e * u)) by (nonlinear_arith);
    assert(-(8 * u * u) <= v * wv <= 8 * u * u) by (nonlinear_arith)
        requires
            0 <= v <= u,
            -u <= 7 * wv,
            10 * wv <= 19 * u,
    {
        if wv >= 0 {
            assert(v * wv <= u * (2 * u));
        } else {
            assert(v * wv >= u * wv);
            assert(u * wv >= u * (-u));
        }
    }
    lemma_mul_close(tap, w);
    let p = tap * w;
    let pv = p.value();
    lemma_add_close(wsum, w);
    let tv = (wsum + w).value();
    assert(-(8 * u) <= av + pv <= 8 * u) by (nonlinear_arith)
        requires
            size(av * u - v * sv) <= 3 * (b * u),
            -(e * u) <= pv * u - v * wv <= e * u,
            0 <= v <= u,
            -u <= sv,
            10 * sv <= 58 * u,
            -u <= 7 * wv,
            10 * wv <= 19 * u,
            0 <= b <= 15 * e,
            u == 0x20_0000 * e,
            e > 0,
    {
        let t = sv + wv;
        assert(v * t == v * sv + v * wv);
        assert(b * u <= 15 * (e * u));
        assert(size((av + pv) * u - v * t) <= 46 * (e * u)) by {
            assert((av + pv) * u == av * u + pv * u);
        }
        assert(u * u == 0x20_0000 * (e * u));
        assert(e * u > 0);
        if t >= 0 {
            assert(0 <= v * t <= u * t);
            assert(10 * (u * t) <= 77 * (u * u));
        } else {
            assert(u * t <= v * t <= 0);
            assert(u * t >= u * (-2 * u));
        }
        if av + pv > 8 * u {
            assert((av + pv) * u > 8 * (u * u));
        }
        if av + pv < -(8 * u) {
            assert((av + pv) * u < -(8 * (u * u)));
        }
    }
    lemma_add_close(acc, p);
    let nv = (acc + p).value();
    assert(size(nv * u - v * tv) <= 3 * (b * u) + 3 * (e * u)) by (nonlinear_arith)
        requires
            size(av * u - v * sv) <= 3 * (b * u),
            -(e * u) <= pv * u - v * wv <= e * u,
            size(nv - (av + pv)) <= e,
            size(tv - (sv + wv)) <= e,
            0 <= v <= u,
            e > 0,
    {
        let x = nv - (av + pv);
        let y = tv - (sv + wv);
        assert(nv * u == av * u + pv * u + x * u);
        assert(v * tv == v * sv + v * wv + v * y);
        assert(-(e * u) <= x * u <= e * u);
        assert(-(e * u) <= v * y <= e * u) by {
            if y >= 0 {
                assert(0 <= v * y <= u * y);
                assert(u * y <= u * e);
            } else {
                assert(0 >= v * y >= u * y);
                assert(u * y >= u * (-e));
            }
        }
    }
}

/// A sum that is a value times the weights, times one over the weights.
proof fn lemma_scaled_back(av: int, iv: int, sv: int, v: int, u: int, e: int)
    requires
        size(iv * sv - u * u) <= e * sv,
        size(av * u - v * sv) <= 48 * (e * u),
        0 <= iv,
        10 * iv <= 33 * u,
        0 <= v <= u,
        0 < sv <= 8 * u,
        u > 0,
        e > 0,
    ensures
        size(av * iv - v * u) <= 190 * (e * u),
{
    let q = av * iv;
    let x = av * u - v * sv;
    let y = iv * sv - u * u;
    let f = e * u;
    assert(f > 0) by (nonlinear_arith)
        requires
            f == e * u,
            e > 0,
            u > 0,
    ;
    assert(q * u == v * (iv * sv) + x * iv) by (nonlinear_arith)
        requires
            q == av * iv,
            av * u == v * sv + x,
    {
        assert((av * iv) * u == (av * u) * iv);
        assert((v * sv + x) * iv == v * (iv * sv) + x * iv);
    }
    assert(v * (iv * sv) == (v * u) * u + v * y) by (nonlinear_arith)
        requires
            iv * sv == u * u + y,
    ;
    assert(size(y) <= 8 * f) by {
        assert(e * sv <= 8 * f) by (nonlinear_arith)
            requires
                sv <= 8 * u,
                e > 0,
                f == e * u,
        ;
    }
    assert(-((8 * f) * u) <= v * y <= (8 * f) * u) by (nonlinear_arith)
        requires
            0 <= v <= u,
            -(8 * f) <= y <= 8 * f,
            f > 0,
    ;
    assert(-((160 * f) * u) <= x * iv <= (160 * f) * u) by (nonlinear_arith)
        requires
            -(48 * f) <= x <= 48 * f,
            0 <= iv,
            10 * iv <= 33 * u,
            f > 0,
    {
        assert(x * iv <= (48 * f) * iv);
        assert(x * iv >= -(48 * f) * iv);
        assert((48 * f) * (10 * iv) <= (48 * f) * (33 * u));
        assert(f * u >= 0);
    }
    let d = q - v * u;
    assert(d * u == q * u - (v * u) * u) by (nonlinear_arith)
        requires
            d == q - v * u,
    ;
    assert(-(190 * f) <= d <= 190 * f) by (nonlinear_arith)
        requires
            -((8 * f) * u) - (160 * f) * u <= d * u <= (8 * f) * u + (160 * f) * u,
            u > 0,
            f > 0,
    {
        assert((8 * f) * u + (160 * f) * u == (168 * f) * u);
        if d > 190 * f {
            assert(d * u > (190 * f) * u);
            assert(f * u > 0);
        }
        if d < -(190 * f) {
            assert(d * u < -(190 * f) * u);
            assert(f * u > 0);
        }
    }
}

/// What the sums come to once divided: the value of the line.
proof fn lemma_line_value(acc: F32, wsum: F32, v: int)
    requires
        acc.is_finite() && wsum.is_finite(),
        0 <= v <= one_unit(),
        100 * wsum.value() >= 31 * one_unit(),
        wsum.value() <= 8 * one_unit(),
        size(acc.value() * one_unit() - v * wsum.value()) <= 48 * (slip() * one_unit()),
    ensures
        wsum.abs().gt(F32::ratio(1, 100000)),
        (acc * (F32::one() / wsum)).is_finite(),
        size((acc * (F32::one() / wsum)).value() - v) <= 200 * slip(),
{
    let u = one_unit();
    let e = slip();
    lemma_slip();
    lemma_unity(Format::Single);
    let sv = wsum.value();
    let av = acc.value();
    let least = F32::ratio(1, 100000);
    lemma_ratio_close(1, 100000);
    lemma_order(wsum, F32::zero());
    assert(wsum.abs() == wsum) by {
        lemma_order(F32::zero(), wsum);
        lemma_order(wsum, wsum);
    }
    lemma_order(wsum, least);
    let inv = F32::one() / wsum;
    lemma_div_close(F32::one(), wsum);
    let iv = inv.value();
    assert(0 <= iv && 10 * iv <= 33 * u) by (nonlinear_arith)
        requires
            size(iv * sv - u * u) <= e * sv,
            iv >= 0,
            100 * sv >= 31 * u,
            sv <= 8 * u,
            u == 0x20_0000 * e,
            e > 0,
    {
        if 10 * iv > 33 * u {
            assert((10 * iv) * sv >= (33 * u) * sv);
            assert(100 * (u * sv) >= 31 * (u * u));
            assert(u * sv == 0x20_0000 * (e * sv));
            assert(u * u > 0);
        }
    }
    // The product, before it is rounded.
    let q = av * iv;
    lemma_scaled_back(av, iv, sv, v, u, e);
    assert(-(8 * u * u) <= q <= 8 * u * u) by (nonlinear_arith)
        requires
            size(q - v * u) <= 190 * (e * u),
            0 <= v <= u,
            u == 0x20_0000 * e,
            e > 0,
    {
        assert(u * u == 0x20_0000 * (e * u));
        assert(0 <= v * u <= u * u);
        assert(e * u > 0);
    }
    lemma_mul_close(acc, inv);
    let o = (acc * inv).value();
    assert(-e * u == -(e * u)) by (nonlinear_arith);
    assert(size(o - v) <= 200 * e) by (nonlinear_arith)
        requires
            size(q - v * u) <= 190 * (e * u),
            -(e * u) <= o * u - q <= e * u,
            u > 0,
            e > 0,
    {
        assert(size((o - v) * u) <= 191 * (e * u));
        assert(size((o - v) * u) == size(o - v) * u);
        if size(o - v) > 200 * e {
            assert(size(o - v) * u >= (200 * e) * u);
            assert(e * u > 0);
        }
    }
}

/// The stretch of a kernel on an edge that is as good as clean.
proof fn lemma_stretch(a: F32, strength: F32)
    requires
        a.is_finite(),
        10000 * a.value() >= 9985 * one_unit(),
        a.value() <= one_unit(),
        strength == F32::one(),
    ensures
        ({
            let s = F32::one() + a * strength.clamp(F32::zero(), F32::two());
            &&& s.is_finite()
            &&& 1998 * one_unit() <= 1000 * s.value()
            &&& s.value() <= 2 * one_unit()
        }),
{
    reveal(F32::spec_clamp);
    let f = Format::Single;
    let one = F32::one();
    let two = F32::two();
    lemma_slip();
    lemma_unity(f);
    lemma_two_value();
    lemma_order(one, two);
    lemma_order(F32::zero(), one);
    assert(strength.clamp(F32::zero(), two) == one);
    lemma_mul_one(a);
    lemma_add_close(one, a);
    lemma_add_key(one, a);
    lemma_rounded_sum_monotone(f, one.value() + a.value(), two.value());
    lemma_rounds_to_itself(two);
    lemma_order(one + a, two);
}

/// The taps around an output pixel where a picture doubles in size: one of the two
/// in the middle is the pixel that it lies in, a quarter of a pixel off, and the
/// others are at least three quarters off.
proof fn lemma_tap_place(o: u32, from: u32, i: int)
    requires
        0 < from < 0x20_0000,
        3 <= o < 2 * from,
        0 <= i < 4,
    ensures
        ({
            let b = before(o, 1);
            let near = o as int / 2 - b + 1;
            let s = spec_mapped(o, from, (2 * from) as u32);
            let d = F32::from_i64((b - 1 + i) as i64) + F32::half() - s;
            &&& s.is_finite()
            &&& (s - F32::half()).floor().to_i32() == b
            &&& 1 <= b <= from
            &&& near == 1 || near == 2
            &&& d.is_finite()
            &&& 4 * size(d.value()) <= 7 * one_unit()
            &&& i == near ==> 4 * size(d.value()) == one_unit()
            &&& i != near ==> 4 * size(d.value()) >= 3 * one_unit()
            &&& i == 1 || i == 2 ==> 4 * size(d.value()) <= 3 * one_unit()
        }),
{
    lemma2_to64();
    lemma_slip();
    let b = before(o, 1);
    assert(b == (2 * o - 1) / 4);
    lemma_exact_map(o, from, (2 * from) as u32, 1);
    lemma_offset(o, from, b - 1 + i);
    let m = 4 * (b - 1 + i) + 2 - (2 * o + 1);
    let u = one_unit();
    assert(m == 7 || m == 5 || m == 3 || m == 1 || m == -1 || m == -3 || m == -5 || m == -7);
    assert(size(m * u) == size(m) * u) by (nonlinear_arith)
        requires
            u > 0,
    ;
}

/// Where only one line of taps has weight, the output pixel has its color.
#[verifier::rlimit(40)]
proof fn lemma_line_kept(
    src: &ImageBuffer,
    cfg: EasuConfig,
    ox: u32,
    oy: u32,
    c: int,
    upright: bool,
)
    requires
        src.wf(),
        displayable(src),
        0 < src.spec_width() < 0x20_0000,
        0 < src.spec_height() < 0x20_0000,
        3 <= ox < 2 * src.spec_width(),
        3 <= oy < 2 * src.spec_height(),
        0 <= c < 4,
        cfg.anisotropy_strength == F32::one(),
        ({
            let g = Gather::at(
                src,
                (2 * src.spec_width()) as u32,
                (2 * src.spec_height()) as u32,
                ox,
                oy,
            );
            let v = src.px(ox as int / 2, oy as int / 2)@[c].value();
            let near = if upright {
                ox as int / 2 - before(ox, 1) + 1
            } else {
                oy as int / 2 - before(oy, 1) + 1
            };
            &&& along_axis(g.edge(), upright)
            &&& g.edge().anisotropy.is_finite()
            &&& 10000 * g.edge().anisotropy.value() >= 9985 * one_unit()
            &&& g.edge().anisotropy.value() <= one_unit()
            &&& forall|k: int|
                0 <= k < 16 && across_of(k, upright) == near ==> (#[trigger] g.taps[k])[c].value()
                    == v
        }),
    ensures
        ({
            let r = upsampled(
                src,
                (2 * src.spec_width()) as u32,
                (2 * src.spec_height()) as u32,
                cfg,
                ox,
                oy,
            )[c];
            &&& r.is_finite()
            &&& size(r.value() - src.px(ox as int / 2, oy as int / 2)@[c].value()) <= 200 * slip()
        }),
{
    let (w, h) = (src.spec_width(), src.spec_height());
    let g = Gather::at(src, (2 * w) as u32, (2 * h) as u32, ox, oy);
    let edge = g.edge();
    let s = F32::one() + edge.anisotropy * cfg.anisotropy_strength.clamp(F32::zero(), F32::two());
    let u = one_unit();
    let e = slip();
    let v = src.px(ox as int / 2, oy as int / 2)@[c].value();
    let near = if upright {
        ox as int / 2 - before(ox, 1) + 1
    } else {
        oy as int / 2 - before(oy, 1) + 1
    };
    lemma_slip();
    lemma_stretch(edge.anisotropy, cfg.anisotropy_strength);
    lemma_tap_place(ox, w, 0);
    lemma_tap_place(oy, h, 0);
    lemma_displayable_pixel(src, ox as int / 2, oy as int / 2, c);
    lemma_unit_value(src.px(ox as int / 2, oy as int / 2)@[c]);
    assert forall|k: int| 0 <= k < 16 implies right_weight(
        #[trigger] g.weight(edge, s, k),
        k,
        near,
        upright,
    ) by {
        lemma_tap_place(ox, w, k % 4);
        lemma_tap_place(oy, h, k / 4);
        lemma_tap(g, edge, s, k, upright);
    }
    assert forall|k: int| 0 <= k < 16 implies (#[trigger] g.taps[k])[c].is_finite() by {
        lemma_displayable_pixel(src, g.bx - 1 + k % 4, g.by - 1 + k / 4, c);
    }
    lemma_line_sums(g, edge, s, 16, c, near, upright, v);
    let acc = g.weighed(edge, s, 16).0[c];
    let wsum = g.weighed(edge, s, 16).1;
    assert((16nat * e) * u == 16 * (e * u)) by (nonlinear_arith);
    lemma_line_value(acc, wsum, v);
    let raw = acc * (F32::one() / wsum);
    if cfg.deringing {
        let k: int = if upright {
            4 + near
        } else {
            4 * near + 1
        };
        assert(k == 5 || k == 6 || k == 9);
        assert(across_of(k, upright) == near);
        lemma_held(raw, g.low(c), g.high(c), g.taps[k][c], g, c, k);
    }
}

/// Holding a number within the range of the nearest taps brings it no further from
/// any of them.
proof fn lemma_held(raw: F32, low: F32, high: F32, tap: F32, g: Gather, c: int, k: int)
    requires
        raw.is_finite(),
        low == g.low(c),
        high == g.high(c),
        k == 5 || k == 6 || k == 9,
        tap == g.taps[k][c],
        g.taps[5][c].is_finite() && g.taps[6][c].is_finite(),
        g.taps[9][c].is_finite() && g.taps[10][c].is_finite(),
    ensures
        raw.clamp(low, high).is_finite(),
        size(raw.clamp(low, high).value() - tap.value()) <= size(raw.value() - tap.value()),
{
    reveal(F32::spec_min);
    reveal(F32::spec_max);
    reveal(F32::spec_clamp);
    assert(low.is_finite() && high.is_finite() && low.key() <= tap.key() <= high.key());
    lemma_order(low, tap);
    lemma_order(tap, high);
    lemma_order(raw, low);
    lemma_order(low, raw);
    lemma_order(raw, high);
    lemma_order(high, raw);
}

/// Whether the luminance of two colors differs by at least a quarter.
pub open spec fn steps(a: Seq<F32>, b: Seq<F32>) -> bool {
    size(weighed(a) - weighed(b)) >= 2500 * one_unit()
}

/// What a step is, once measured.
proof fn lemma_measured(src: &ImageBuffer, x: int, y: int)
    requires
        src.wf(),
        displayable(src),
    ensures
        is_luminance(spec_luma(src.px(x, y)@)),
        size(10000 * spec_luma(src.px(x, y)@).value() - weighed(src.px(x, y)@)) <= 80000 * slip(),
{
    let c = src.px(x, y)@;
    lemma_slip();
    lemma_displayable_pixel(src, x, y, 0);
    lemma_displayable_pixel(src, x, y, 1);
    lemma_displayable_pixel(src, x, y, 2);
    lemma_unit_value(c[0]);
    lemma_unit_value(c[1]);
    lemma_unit_value(c[2]);
    law_luminance_is_rec_709(c);
}

/// Upsampling does not blur across an upright edge: where a picture doubles in
/// size, and around an output pixel it changes from column to column only, with a
/// step in luminance of a quarter or more over two of the columns, that pixel has
/// the color of the source pixel that it lies in, but for a little rounding.
pub proof fn law_upright_edges_stay_sharp(
    src: &ImageBuffer,
    out_w: u32,
    out_h: u32,
    cfg: EasuConfig,
    out: ImageBuffer,
    ox: u32,
    oy: u32,
    c: int,
)
    requires
        src.wf(),
        displayable(src),
        cfg.anisotropy_strength == F32::one(),
        out_w == 2 * src.spec_width(),
        out_h == 2 * src.spec_height(),
        out_w < 0x40_0000,
        out_h < 0x40_0000,
        call_ensures(easu, (src, out_w, out_h, cfg), out),
        3 <= ox < out_w,
        3 <= oy < out_h,
        0 <= c < 4,
        ({
            let x = before(ox, 1);
            let y = before(oy, 1);
            &&& forall|i: int, j: int|
                x - 1 <= i <= x + 2 && y - 1 <= j <= y + 2 ==> (#[trigger] src.px(i, j))@ == src.px(
                    i,
                    y,
                )@
            &&& steps(src.px(x + 1, y)@, src.px(x - 1, y)@) || steps(
                src.px(x + 2, y)@,
                src.px(x, y)@,
            )
        }),
    ensures
        ({
            let r = out.px(ox as int, oy as int)@[c];
            &&& r.is_finite()
            &&& size(r.value() - src.px(ox as int / 2, oy as int / 2)@[c].value()) <= 200 * slip()
        }),
{
    src.lemma_wf();
    let (w, h) = (src.spec_width(), src.spec_height());
    let g = Gather::at(src, out_w, out_h, ox, oy);
    let x = before(ox, 1);
    let y = before(oy, 1);
    lemma_slip();
    lemma_tap_place(ox, w, 0);
    lemma_tap_place(oy, h, 0);
    assert(g.bx == x && g.by == y);
    let near = ox as int / 2 - x + 1;
    assert forall|k: int| 0 <= k < 16 implies #[trigger] g.taps[k] == src.px(x - 1 + k % 4, y)@ by {
        assert(g.taps[k] == src.px(x - 1 + k % 4, y - 1 + k / 4)@);
    }
    let lum = g.luma();
    assert(rows_alike(lum));
    lemma_measured(src, x - 1, y);
    lemma_measured(src, x, y);
    lemma_measured(src, x + 1, y);
    lemma_measured(src, x + 2, y);
    lemma_upright_patch(lum);
    lemma_clean_edge(tensor(lum, 4), true);
    assert(src.px(ox as int / 2, oy as int / 2)@ == src.px(ox as int / 2, y)@);
    assert forall|k: int| 0 <= k < 16 && across_of(k, true) == near implies (
    #[trigger] g.taps[k])[c].value() == src.px(ox as int / 2, oy as int / 2)@[c].value() by {
        assert(x - 1 + k % 4 == ox as int / 2);
    }
    lemma_line_kept(src, cfg, ox, oy, c, true);
    assert(out.px(ox as int, oy as int)@ == upsampled(src, out_w, out_h, cfg, ox, oy));
}

/// Upsampling does not blur across a level edge either: where around an output
/// pixel the picture changes from row to row only.
pub proof fn law_level_edges_stay_sharp(
    src: &ImageBuffer,
    out_w: u32,
    out_h: u32,
    cfg: EasuConfig,
    out: ImageBuffer,
    ox: u32,
    oy: u32,
    c: int,
)
    requires
        src.wf(),
        displayable(src),
        cfg.anisotropy_strength == F32::one(),
        out_w == 2 * src.spec_width(),
        out_h == 2 * src.spec_height(),
        out_w < 0x40_0000,
        out_h < 0x40_0000,
        call_ensures(easu, (src, out_w, out_h, cfg), out),
        3 <= ox < out_w,
        3 <= oy < out_h,
        0 <= c < 4,
        ({
            let x = before(ox, 1);
            let y = before(oy, 1);
            &&& forall|i: int, j: int|
                x - 1 <= i <= x + 2 && y - 1 <= j <= y + 2 ==> (#[trigger] src.px(i, j))@ == src.px(
                    x,
                    j,
                )@
            &&& steps(src.px(x, y + 1)@, src.px(x, y - 1)@) || steps(
                src.px(x, y + 2)@,
                src.px(x, y)@,
            )
        }),
    ensures
        ({
            let r = out.px(ox as int, oy as int)@[c];
            &&& r.is_finite()
            &&& size(r.value() - src.px(ox as int / 2, oy as int / 2)@[c].value()) <= 200 * slip()
        }),
{
    src.lemma_wf();
    let (w, h) = (src.spec_width(), src.spec_height());
    let g = Gather::at(src, out_w, out_h, ox, oy);
    let x = before(ox, 1);
    let y = before(oy, 1);
    lemma_slip();
    lemma_tap_place(ox, w, 0);
    lemma_tap_place(oy, h, 0);
    assert(g.bx == x && g.by == y);
    let near = oy as int / 2 - y + 1;
    assert forall|k: int| 0 <= k < 16 implies #[trigger] g.taps[k] == src.px(x, y - 1 + k / 4)@ by {
        assert(g.taps[k] == src.px(x - 1 + k % 4, y - 1 + k / 4)@);
    }
    let lum = g.luma();
    assert(columns_alike(lum));
    lemma_measured(src, x, y - 1);
    lemma_measured(src, x, y);
    lemma_measured(src, x, y + 1);
    lemma_measured(src, x, y + 2);
    lemma_level_patch(lum);
    lemma_clean_edge(tensor(lum, 4), false);
    assert(src.px(ox as int / 2, oy as int / 2)@ == src.px(x, oy as int / 2)@);
    assert forall|k: int| 0 <= k < 16 && across_of(k, false) == near implies (
    #[trigger] g.taps[k])[c].value() == src.px(ox as int / 2, oy as int / 2)@[c].value() by {
        assert(y - 1 + k / 4 == oy as int / 2);
    }
    lemma_line_kept(src, cfg, ox, oy, c, false);
    assert(out.px(ox as int, oy as int)@ == upsampled(src, out_w, out_h, cfg, ox, oy));
}

} // verus!
