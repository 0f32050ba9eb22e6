//! How far rounding goes: never past half a place, and never past a whole
//! number that the exact result has all but reached.

use super::facts::{lemma_order, lemma_ratio_key, lemma_round_upper};
use super::model::{
    halve_even, lemma_mul_le, lemma_pow2_le, lemma_quotient, lemma_round_monotone,
    lemma_round_parts, lemma_scale, round_mag, scale, units, Format,
};
use super::raw::lemma_units_zero;
use super::F32;
use vstd::arithmetic::power2::{
    lemma2_to64, lemma_pow2_adds, lemma_pow2_pos, lemma_pow2_unfold, pow2,
};
use vstd::prelude::*;

verus! {

/// The place that `n / d` is rounded to, times `d`.
pub open spec fn place(f: Format, n: nat, d: nat) -> nat {
    d * pow2(scale(f.p(), n, d))
}

/// How many places `n / d` rounds to.
pub open spec fn places(f: Format, n: nat, d: nat) -> nat {
    let q = place(f, n, d);
    halve_even((2 * n) / q, (2 * n) % q == 0)
}

/// A result that does not overflow is its places.
pub proof fn lemma_rounded_units(f: Format, n: nat, d: nat)
    requires
        d > 0,
        round_mag(f, n, d) < f.top(),
    ensures
        units(f, round_mag(f, n, d)) == places(f, n, d) * pow2(scale(f.p(), n, d)),
{
    let p = f.p();
    let h = pow2((p - 1) as nat);
    let s = scale(p, n, d);
    let k = places(f, n, d);
    let m = s * h + k;
    lemma_round_parts(f, n, d);
    lemma_pow2_pos((p - 1) as nat);
    lemma_pow2_unfold(p);
    lemma2_to64();
    assert(round_mag(f, n, d) == m);
    if s == 0 {
        assert(s * h == 0) by (nonlinear_arith)
            requires
                s == 0,
        ;
        assert(k * pow2(0) == k) by (nonlinear_arith)
            requires
                pow2(0) == 1,
        ;
        assert(1 * h == h && (1 + 1) * h == 2 * h && (2 + 1) * h == 3 * h) by (nonlinear_arith);
        if k >= h {
            if k < 2 * h {
                lemma_quotient(m, h, 1);
                vstd::arithmetic::div_mod::lemma_fundamental_div_mod(m as int, h as int);
                assert(h + m % h == k);
            } else {
                lemma_quotient(m, h, 2);
                vstd::arithmetic::div_mod::lemma_fundamental_div_mod(m as int, h as int);
                assert(h * pow2(1) == 2 * h) by (nonlinear_arith)
                    requires
                        pow2(1) == 2,
                ;
            }
        }
    } else {
        lemma_pow2_unfold(s + 1);
        assert((s + 1) * h == s * h + h && (s + 2) * h == s * h + 2 * h && (s + 3) * h == s * h + 3
            * h) by (nonlinear_arith);
        assert(s * h >= h) by (nonlinear_arith)
            requires
                s >= 1,
        ;
        if k < 2 * h {
            lemma_quotient(m, h, s + 1);
            vstd::arithmetic::div_mod::lemma_fundamental_div_mod(m as int, h as int);
            assert(h * (s + 1) == (s + 1) * h) by (nonlinear_arith);
            assert(m % h == k - h);
        } else {
            lemma_quotient(m, h, s + 2);
            vstd::arithmetic::div_mod::lemma_fundamental_div_mod(m as int, h as int);
            assert(h * (s + 2) == (s + 2) * h) by (nonlinear_arith);
            assert(h * pow2(s + 1) == (2 * h) * pow2(s)) by (nonlinear_arith)
                requires
                    pow2(s + 1) == 2 * pow2(s),
            ;
        }
    }
}

/// Rounding is off by at most half a place.
pub proof fn lemma_round_error(f: Format, n: nat, d: nat)
    requires
        d > 0,
        round_mag(f, n, d) < f.top(),
    ensures
        ({
            let u = units(f, round_mag(f, n, d));
            let q = place(f, n, d);
            &&& 2 * (u * d) <= 2 * n + q
            &&& 2 * n <= 2 * (u * d) + q
            &&& n >= d * pow2((f.p() - 1) as nat) ==> q * pow2((f.p() - 1) as nat) <= n
        }),
{
    let p = f.p();
    let h = pow2((p - 1) as nat);
    let s = scale(p, n, d);
    let w = pow2(s);
    let q = place(f, n, d);
    let t = (2 * n) / q;
    let k = places(f, n, d);
    let u = units(f, round_mag(f, n, d));
    lemma_rounded_units(f, n, d);
    lemma_round_parts(f, n, d);
    lemma_scale(p, n, d);
    lemma_pow2_adds(s, (p - 1) as nat);
    lemma2_to64();
    assert(u * d == k * q) by (nonlinear_arith)
        requires
            u == k * w,
            q == d * w,
    ;
    assert((t + 1) * q == t * q + q) by (nonlinear_arith);
    assert((2 * k) * q == 2 * (k * q)) by (nonlinear_arith);
    if 2 * k == t {
    } else if 2 * k == t + 1 {
    } else {
        assert(2 * k == t - 1);
        assert((t - 1) * q == t * q - q) by (nonlinear_arith);
    }
    if n >= d * h {
        if s == 0 {
            assert(q * h == d * h) by (nonlinear_arith)
                requires
                    q == d * w,
                    w == 1,
            ;
        } else {
            assert(q * h <= n) by (nonlinear_arith)
                requires
                    n >= d * (w * h),
                    q == d * w,
            ;
        }
    }
}

/// Larger values are rounded to larger places.
proof fn lemma_scale_monotone(p: nat, a: nat, b: nat)
    requires
        a <= b,
    ensures
        scale(p, a, 1) <= scale(p, b, 1),
{
    lemma_scale(p, a, 1);
    lemma_scale(p, b, 1);
    let r = scale(p, a, 1);
    let s = scale(p, b, 1);
    if s < r {
        lemma_pow2_le(s + p, (r + p - 1) as nat);
    }
}

/// An even number of places is reached from half a place below.
proof fn lemma_reached(f: Format, x: nat, goal: nat, c: nat)
    requires
        goal == (2 * c) * place(f, x, 1),
        round_mag(f, x, 1) < f.top(),
    ensures
        units(f, round_mag(f, x, 1)) >= goal <==> 2 * x + place(f, x, 1) >= 2 * goal,
{
    let q = place(f, x, 1);
    let t = (2 * x) / q;
    let a = 2 * c;
    let k = places(f, x, 1);
    let u = units(f, round_mag(f, x, 1));
    lemma_rounded_units(f, x, 1);
    lemma_round_parts(f, x, 1);
    assert(q == pow2(scale(f.p(), x, 1)));
    assert(u == k * q);
    assert((t + 1) * q == t * q + q) by (nonlinear_arith);
    assert((2 * a) * q == 2 * goal) by (nonlinear_arith)
        requires
            goal == a * q,
    ;
    // Reached means at least `2 * a - 1` doubled places.
    if t + 1 >= 2 * a {
        lemma_mul_le(2 * a as int, t as int + 1, q as int);
        assert(k >= a) by {
            if t == 2 * a - 1 {
                assert(t % 2 == 1 && t / 2 == a - 1 && (a - 1) % 2 == 1);
            }
        }
        lemma_mul_le(a as int, k as int, q as int);
    } else {
        lemma_mul_le(t as int + 2, 2 * a as int, q as int);
        assert((t + 2) * q == t * q + 2 * q) by (nonlinear_arith);
        assert(k < a);
        assert(k * q < a * q) by (nonlinear_arith)
            requires
                k < a,
                q > 0,
        ;
    }
}

/// Adding at least one to what rounds to at least `n` rounds to at least
/// `n + 1`, as long as places stay well below one.
pub proof fn lemma_next_whole(f: Format, x: nat, y: nat, n: nat)
    requires
        x + pow2(f.unit()) <= y,
        y < pow2((f.unit() + f.p() - 1) as nat),
        round_mag(f, y, 1) < f.top(),
        units(f, round_mag(f, x, 1)) >= n * pow2(f.unit()),
    ensures
        units(f, round_mag(f, y, 1)) >= (n + 1) * pow2(f.unit()),
{
    let p = f.p();
    let one = pow2(f.unit());
    let sx = scale(p, x, 1);
    let sy = scale(p, y, 1);
    lemma_pow2_pos(f.unit());
    lemma_round_monotone(f, x, 1, y, 1);
    lemma_scale(p, x, 1);
    lemma_scale(p, y, 1);
    lemma_scale_monotone(p, x, y);
    // Places are below one, by at least a half.
    if sy >= f.unit() {
        lemma_pow2_le((f.unit() + p - 1) as nat, (sy + p - 1) as nat);
    }
    assert(sy < f.unit());
    let qx = pow2(sx);
    let qy = pow2(sy);
    lemma_pow2_le(sx, sy);
    let cx = pow2((f.unit() - sx - 1) as nat);
    let cy = pow2((f.unit() - sy - 1) as nat);
    lemma_pow2_adds((f.unit() - sx - 1) as nat, sx + 1);
    lemma_pow2_adds((f.unit() - sy - 1) as nat, sy + 1);
    lemma_pow2_unfold(sx + 1);
    lemma_pow2_unfold(sy + 1);
    assert(place(f, x, 1) == qx && place(f, y, 1) == qy);
    assert(n * one == (2 * (n * cx)) * qx) by (nonlinear_arith)
        requires
            one == cx * (2 * qx),
    ;
    assert((n + 1) * one == (2 * ((n + 1) * cy)) * qy) by (nonlinear_arith)
        requires
            one == cy * (2 * qy),
    ;
    lemma_reached(f, x, n * one, n * cx);
    assert((n + 1) * one == n * one + one) by (nonlinear_arith);
    lemma_reached(f, y, (n + 1) * one, (n + 1) * cy);
}

/// The error of a result of at most eight, in units: `2^-21`.
pub open spec fn slip() -> int {
    pow2(128) as int
}

/// One, in units.
pub open spec fn one_unit() -> int {
    pow2(149) as int
}

/// One is worth many slips.
pub proof fn lemma_slip()
    ensures
        one_unit() == 0x20_0000 * slip(),
        slip() > 0,
{
    lemma_pow2_adds(21, 128);
    lemma_pow2_pos(128);
    lemma2_to64();
}

/// A result of at most eight is finite, and off by at most a slip.
pub proof fn lemma_round_close(n: nat, d: nat)
    requires
        d > 0,
        n <= 8 * one_unit() * d,
    ensures
        round_mag(Format::Single, n, d) < Format::Single.top(),
        units(Format::Single, round_mag(Format::Single, n, d)) * d <= n + slip() * d,
        n <= units(Format::Single, round_mag(Format::Single, n, d)) * d + slip() * d,
{
    let f = Format::Single;
    lemma2_to64();
    lemma_pow2_adds(3, 149);
    let top = pow2(152);
    assert(8 * one_unit() == top);
    assert(n <= (1 * top) * d);
    assert((152 + 2) * 0x80_0000 <= f.top());
    assert(pow2((f.p() - 1) as nat) == 0x80_0000);
    lemma_round_upper(f, n, d, 1, 152);
    lemma_round_error(f, n, d);
    let s = scale(f.p(), n, d);
    lemma_scale(f.p(), n, d);
    if s > 129 {
        lemma_pow2_le(153, (s + f.p() - 1) as nat);
        lemma_pow2_unfold(153);
        lemma_pow2_pos(152);
        assert(n > top * d) by (nonlinear_arith)
            requires
                n >= d * pow2((s + f.p() - 1) as nat),
                pow2((s + f.p() - 1) as nat) >= 2 * top,
                top > 0,
                d > 0,
        ;
    }
    lemma_pow2_le(s, 129);
    lemma_pow2_unfold(129);
    assert(place(f, n, d) <= 2 * (slip() * d)) by (nonlinear_arith)
        requires
            place(f, n, d) == d * pow2(s),
            pow2(s) <= 2 * slip(),
            d > 0,
    ;
}

/// A sum of at most eight is off by at most a slip.
pub proof fn lemma_add_close(a: F32, b: F32)
    requires
        a.is_finite(),
        b.is_finite(),
        -8 * one_unit() <= a.value() + b.value() <= 8 * one_unit(),
    ensures
        (a + b).is_finite(),
        -slip() <= (a + b).value() - (a.value() + b.value()) <= slip(),
{
    reveal(F32::spec_add);
    let v = a.value() + b.value();
    lemma_units_zero(Format::Single, 0);
    lemma_slip();
    if v < 0 {
        lemma_round_close((-v) as nat, 1);
    } else {
        lemma_round_close(v as nat, 1);
    }
}

/// A sum of at most sixteen is off by at most two slips.
pub proof fn lemma_add_wide(a: F32, b: F32)
    requires
        a.is_finite(),
        b.is_finite(),
        -16 * one_unit() <= a.value() + b.value() <= 16 * one_unit(),
    ensures
        (a + b).is_finite(),
        -2 * slip() <= (a + b).value() - (a.value() + b.value()) <= 2 * slip(),
{
    reveal(F32::spec_add);
    let f = Format::Single;
    let v = a.value() + b.value();
    let n = size(v) as nat;
    lemma_units_zero(f, 0);
    lemma_slip();
    lemma2_to64();
    lemma_pow2_adds(4, 149);
    assert(pow2((f.p() - 1) as nat) == 0x80_0000);
    assert((153 + 2) * 0x80_0000 <= f.top());
    assert(n <= (1 * pow2(153)) * 1);
    lemma_round_upper(f, n, 1, 1, 153);
    lemma_round_error(f, n, 1);
    let s = scale(f.p(), n, 1);
    lemma_scale(f.p(), n, 1);
    if s > 130 {
        lemma_pow2_le(154, (s + f.p() - 1) as nat);
        lemma_pow2_unfold(154);
        lemma_pow2_pos(153);
    }
    lemma_pow2_le(s, 130);
    lemma_pow2_unfold(130);
    lemma_pow2_unfold(129);
    assert(place(f, n, 1) == 1 * pow2(s));
}

/// A difference of at most eight is off by at most a slip.
pub proof fn lemma_sub_close(a: F32, b: F32)
    requires
        a.is_finite(),
        b.is_finite(),
        -8 * one_unit() <= a.value() - b.value() <= 8 * one_unit(),
    ensures
        (a - b).is_finite(),
        -slip() <= (a - b).value() - (a.value() - b.value()) <= slip(),
{
    reveal(F32::spec_sub);
    let v = a.value() - b.value();
    assert(b.raw().negated().value(Format::Single) == -b.value());
    lemma_units_zero(Format::Single, 0);
    lemma_slip();
    if v < 0 {
        lemma_round_close((-v) as nat, 1);
    } else {
        lemma_round_close(v as nat, 1);
    }
}

/// A product of at most eight is off by at most a slip.
pub proof fn lemma_mul_close(a: F32, b: F32)
    requires
        a.is_finite(),
        b.is_finite(),
        -(8 * one_unit() * one_unit()) <= a.value() * b.value() <= 8 * one_unit() * one_unit(),
    ensures
        (a * b).is_finite(),
        -slip() * one_unit() <= (a * b).value() * one_unit() - a.value() * b.value() <= slip()
            * one_unit(),
{
    reveal(F32::spec_mul);
    let f = Format::Single;
    let x = units(f, a.raw().mag as nat);
    let y = units(f, b.raw().mag as nat);
    let u = one_unit();
    lemma_pow2_pos(149);
    assert((-x) * y == -(x * y) && x * (-y) == -(x * y) && (-x) * (-y) == x * y)
        by (nonlinear_arith);
    assert(x * y >= 0) by (nonlinear_arith);
    lemma_round_close((x * y) as nat, u as nat);
    let r = units(f, round_mag(f, (x * y) as nat, u as nat));
    assert(-r * u == -(r * u) && -slip() * u == -(slip() * u)) by (nonlinear_arith);
}

/// The size of a whole number.
pub open spec fn size(v: int) -> int {
    if v < 0 {
        -v
    } else {
        v
    }
}

/// A quotient of at most eight is off by at most a slip.
pub proof fn lemma_div_close(a: F32, b: F32)
    requires
        a.is_finite(),
        b.is_finite(),
        b.value() != 0,
        size(a.value()) <= 8 * size(b.value()),
    ensures
        (a / b).is_finite(),
        size((a / b).value() * b.value() - a.value() * one_unit()) <= slip() * size(b.value()),
        (a.value() >= 0 <==> b.value() > 0) ==> (a / b).value() >= 0,
        a.value() >= 0 && b.value() < 0 ==> (a / b).value() <= 0,
{
    reveal(F32::spec_div);
    let f = Format::Single;
    let x = units(f, a.raw().mag as nat);
    let y = units(f, b.raw().mag as nat);
    let u = one_unit();
    lemma_pow2_pos(149);
    lemma_units_zero(f, a.raw().mag as nat);
    lemma_units_zero(f, b.raw().mag as nat);
    lemma_units_zero(f, 0);
    assert(x * u <= 8 * u * y) by (nonlinear_arith)
        requires
            x <= 8 * y,
            u > 0,
    ;
    assert(x * u >= 0 && (x == 0 ==> x * u == 0)) by (nonlinear_arith)
        requires
            u > 0,
    ;
    if x == 0 {
        super::round::lemma_round_zero(f, y);
    }
    lemma_round_close((x * u) as nat, y);
    let r = units(f, round_mag(f, (x * u) as nat, y));
    assert((-r) * y == -(r * y) && r * (-y) == -(r * y) && (-r) * (-y) == r * y && (-x) * u == -(x
        * u)) by (nonlinear_arith);
}

/// A ratio of at most eight is off by at most a slip.
pub proof fn lemma_ratio_close(n: u32, d: u32)
    requires
        n < 0x100_0000,
        0 < d < 0x100_0000,
        n <= 8 * d,
    ensures
        F32::ratio(n, d).is_finite(),
        F32::ratio(n, d).value() >= 0,
        size(F32::ratio(n, d).value() * d - n * one_unit()) <= slip() * d,
{
    let u = one_unit();
    lemma_ratio_key(n, d);
    lemma_order(F32::ratio(n, d), F32::ratio(n, d));
    lemma_pow2_pos(149);
    assert(n * u <= 8 * u * d) by (nonlinear_arith)
        requires
            n <= 8 * d,
            u > 0,
    ;
    assert(n as nat * pow2(149) == n * u);
    lemma_round_close(n as nat * pow2(149), d as nat);
}

} // verus!
