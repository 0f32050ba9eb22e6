//! Arithmetic on a sign and a magnitude, for either format.

use super::model::{
    lemma_mul_le, lemma_pow2_le, lemma_quotient, lemma_quotient_bounds, lemma_quotient_small,
    lemma_units_increase, round_mag, units, Format,
};
use super::round::{
    assemble, bit_length, down, encloses, field, lemma_assemble_ratio, lemma_bit_len, power,
    round_parts, up,
};
use vstd::arithmetic::power2::{
    lemma2_to64, lemma2_to64_rest, lemma_pow2_adds, lemma_pow2_pos, lemma_pow2_unfold, pow2,
};
use vstd::prelude::*;

verus! {

/// A number taken apart: its sign, and the rest of its bit pattern.
#[derive(Clone, Copy, PartialEq, Eq, Structural, Debug)]
pub struct Raw {
    /// Whether the sign bit is set.
    pub neg: bool,
    /// The bit pattern below the sign.
    pub mag: u64,
}

impl Raw {
    /// Not a number.
    pub open spec fn is_nan(self, f: Format) -> bool {
        self.mag > f.top()
    }

    /// Infinite, of either sign.
    pub open spec fn is_infinite(self, f: Format) -> bool {
        self.mag == f.top()
    }

    /// Neither infinite nor not a number.
    pub open spec fn is_finite(self, f: Format) -> bool {
        self.mag < f.top()
    }

    /// The value of a finite number, in units.
    pub open spec fn value(self, f: Format) -> int {
        if self.neg {
            -(units(f, self.mag as nat) as int)
        } else {
            units(f, self.mag as nat) as int
        }
    }

    /// The other sign.
    pub open spec fn negated(self) -> Raw {
        Raw { neg: !self.neg, mag: self.mag }
    }
}

/// A sign and a magnitude, put together.
pub open spec fn signed(neg: bool, mag: nat) -> Raw {
    Raw { neg, mag: mag as u64 }
}

/// The result of an operation that has none.
pub open spec fn not_a_number(f: Format) -> Raw {
    signed(false, f.quiet())
}

/// The product, rounded once.
pub open spec fn product(f: Format, a: Raw, b: Raw) -> Raw {
    let neg = a.neg != b.neg;
    if a.is_nan(f) || b.is_nan(f) {
        not_a_number(f)
    } else if a.is_infinite(f) || b.is_infinite(f) {
        if a.mag == 0 || b.mag == 0 {
            not_a_number(f)
        } else {
            signed(neg, f.top())
        }
    } else {
        signed(
            neg,
            round_mag(
                f,
                units(f, a.mag as nat) * units(f, b.mag as nat),
                pow2(f.unit()),
            ),
        )
    }
}

/// The sum, rounded once. A sum that cancels is a positive zero, unless both
/// terms are negative zeros.
pub open spec fn sum(f: Format, a: Raw, b: Raw) -> Raw {
    if a.is_nan(f) || b.is_nan(f) {
        not_a_number(f)
    } else if a.is_infinite(f) {
        if b.is_infinite(f) && a.neg != b.neg {
            not_a_number(f)
        } else {
            a
        }
    } else if b.is_infinite(f) {
        b
    } else {
        let v = a.value(f) + b.value(f);
        if v == 0 {
            signed(a.neg && b.neg, 0)
        } else if v < 0 {
            signed(true, round_mag(f, (-v) as nat, 1))
        } else {
            signed(false, round_mag(f, v as nat, 1))
        }
    }
}

/// The quotient, rounded once.
pub open spec fn quotient(f: Format, a: Raw, b: Raw) -> Raw {
    let neg = a.neg != b.neg;
    if a.is_nan(f) || b.is_nan(f) {
        not_a_number(f)
    } else if a.is_infinite(f) {
        if b.is_infinite(f) {
            not_a_number(f)
        } else {
            signed(neg, f.top())
        }
    } else if b.is_infinite(f) {
        signed(neg, 0)
    } else if b.mag == 0 {
        if a.mag == 0 {
            not_a_number(f)
        } else {
            signed(neg, f.top())
        }
    } else {
        signed(
            neg,
            round_mag(f, units(f, a.mag as nat) * pow2(f.unit()), units(f, b.mag as nat)),
        )
    }
}

/// A whole number, rounded once.
pub open spec fn whole_number(f: Format, v: nat) -> Raw {
    signed(false, round_mag(f, v * pow2(f.unit()), 1))
}

/// A number carried from one format to another, rounded once.
pub open spec fn converted(from: Format, to: Format, a: Raw) -> Raw {
    if a.is_nan(from) {
        not_a_number(to)
    } else if a.is_infinite(from) {
        signed(a.neg, to.top())
    } else {
        signed(
            a.neg,
            round_mag(to, units(from, a.mag as nat) * pow2(to.unit()), pow2(from.unit())),
        )
    }
}

/// The magnitude without its fraction, as a whole number.
pub open spec fn whole_part(f: Format, mag: nat) -> nat {
    units(f, mag) / pow2(f.unit())
}

/// Whether a magnitude has a fraction.
pub open spec fn has_fraction(f: Format, mag: nat) -> bool {
    units(f, mag) % pow2(f.unit()) != 0
}

pub proof fn lemma_units_monotone(f: Format, a: nat, b: nat)
    requires
        a <= b < f.top(),
    ensures
        units(f, a) <= units(f, b),
{
    if a < b {
        lemma_units_increase(f, a, b);
    }
}

/// A zero magnitude, and no other, stands for zero.
pub proof fn lemma_units_zero(f: Format, a: nat)
    requires
        a < f.top(),
    ensures
        units(f, a) == 0 <==> a == 0,
{
    lemma_pow2_pos((f.p() - 1) as nat);
    if a > 0 {
        lemma_units_increase(f, 0, a);
    }
}

/// Take a finite magnitude apart into significand and exponent.
#[inline(always)]
pub(crate) fn unpack(f: Format, mag: u64) -> (r: (u64, u32))
    requires
        mag < f.top(),
    ensures
        r.0 * pow2(r.1 as nat) == units(f, mag as nat),
        r.0 < pow2(f.p()),
        r.1 > 0 ==> r.0 >= pow2((f.p() - 1) as nat),
        r.1 <= 2045,
        r.0 == 0 <==> mag == 0,
        r.1 == (if mag < pow2((f.p() - 1) as nat) {
            0
        } else {
            mag as nat / pow2((f.p() - 1) as nat) - 1
        }),
{
    let h = field(f);
    proof {
        lemma2_to64();
        lemma2_to64_rest();
        lemma_pow2_unfold(f.p());
    }
    if mag < h {
        assert(mag * pow2(0) == mag) by (nonlinear_arith)
            requires
                pow2(0) == 1,
        ;
        (mag, 0)
    } else {
        let (q, m): (u64, u64) = match f {
            Format::Single => (mag / 0x80_0000, mag % 0x80_0000),
            Format::Double => (mag / 0x10_0000_0000_0000, mag % 0x10_0000_0000_0000),
        };
        proof {
            assert(q == mag / h && m == mag % h);
            lemma_quotient_bounds(mag as nat, h as nat);
            assert(q >= 1) by (nonlinear_arith)
                requires
                    mag >= h,
                    mag < (q + 1) * h,
                    h > 0,
            ;
            assert(q <= 2046) by {
                match f {
                    Format::Single => {
                        assert(q <= 254);
                    },
                    Format::Double => {
                        assert(q <= 2046);
                    },
                }
            }
        }
        assert((h + m) as nat * pow2((q - 1) as nat) == units(f, mag as nat));
        (h + m, (q - 1) as u32)
    }
}

/// Multiply.
#[inline(always)]
pub(crate) fn multiply(f: Format, a: Raw, b: Raw) -> (r: Raw)
    ensures
        r == product(f, a, b),
        r.mag <= f.quiet(),
{
    let top = f.infinity();
    let neg = a.neg != b.neg;
    if a.mag > top || b.mag > top {
        return Raw { neg: false, mag: f.quiet_nan() };
    }
    if a.mag == top || b.mag == top {
        return if a.mag == 0 || b.mag == 0 {
            Raw { neg: false, mag: f.quiet_nan() }
        } else {
            Raw { neg, mag: top }
        };
    }
    let (ma, ea) = unpack(f, a.mag);
    let (mb, eb) = unpack(f, b.mag);
    let u = f.unit_bits();
    proof {
        lemma2_to64_rest();
        lemma2_to64();
        lemma_pow2_le(f.p(), 53);
        assert(ma * mb < 0x10000_0000_0000_0000_0000_0000_0000) by (nonlinear_arith)
            requires
                ma < 0x20_0000_0000_0000,
                mb < 0x20_0000_0000_0000,
        ;
    }
    let m: u128 = (ma as u128) * (mb as u128);
    let e: i32 = ea as i32 + eb as i32 - u as i32;
    proof {
        let ua = units(f, a.mag as nat);
        let ub = units(f, b.mag as nat);
        let d = pow2(f.unit());
        let x = pow2(ea as nat);
        let y = pow2(eb as nat);
        lemma_pow2_pos(f.unit());
        lemma_pow2_pos(ea as nat);
        lemma_pow2_pos(eb as nat);
        lemma_pow2_adds(ea as nat, eb as nat);
        assert((e + u) as nat == ea as nat + eb as nat);
        assert(d * (m as nat) * (x * y) == (ua * ub) * d) by (nonlinear_arith)
            requires
                m as nat == ma as nat * mb as nat,
                ua == ma as nat * x,
                ub == mb as nat * y,
        ;
        assert((ua * ub) * d < d * (m as nat + 1) * (x * y)) by (nonlinear_arith)
            requires
                d * (m as nat) * (x * y) == (ua * ub) * d,
                d > 0,
                x > 0,
                y > 0,
        {
            assert(x * y > 0);
            assert(d * (m as nat + 1) * (x * y) == d * (m as nat) * (x * y) + d * (x * y));
            assert(d * (x * y) > 0);
        }
        lemma_assemble_ratio(f, ua * ub, d, f.unit(), m as nat, e as int, false);
    }
    Raw { neg, mag: round_parts(f, m, e, false) }
}

/// Where the smaller term of a sum falls among the places of the larger one:
/// `x` whole places of `2^(e1 - g)` units, and a remainder below one place that
/// is there just when `sticky`.
proof fn lemma_aligned(u2: nat, m2: nat, e1: nat, e2: nat, g: nat, x: nat, sticky: bool)
    requires
        e2 <= e1,
        u2 == m2 * pow2(e2),
        e1 - e2 <= g ==> x == m2 * pow2((g - (e1 - e2)) as nat) && !sticky,
        e1 - e2 > g ==> x == m2 / pow2((e1 - e2 - g) as nat) && (sticky <==> m2 % pow2(
            (e1 - e2 - g) as nat,
        ) != 0),
    ensures
        x * pow2(e1) <= u2 * pow2(g) < (x + 1) * pow2(e1),
        sticky <==> x * pow2(e1) != u2 * pow2(g),
{
    let a = pow2(e1);
    lemma_pow2_pos(e1);
    assert((x + 1) * a == x * a + a) by (nonlinear_arith);
    if e1 - e2 <= g {
        let j = (g - (e1 - e2)) as nat;
        lemma_pow2_adds(j, e1);
        lemma_pow2_adds(e2, g);
        assert(j + e1 == e2 + g);
        assert(x * a == u2 * pow2(g)) by (nonlinear_arith)
            requires
                x == m2 * pow2(j),
                u2 == m2 * pow2(e2),
                pow2(j) * a == pow2(e2) * pow2(g),
        ;
    } else {
        let r = (e1 - e2 - g) as nat;
        let w = pow2(r);
        let z = pow2(e2 + g);
        lemma_pow2_pos(r);
        lemma_pow2_pos(e2 + g);
        lemma_quotient_bounds(m2, w);
        lemma_pow2_adds(r, e2 + g);
        lemma_pow2_adds(e2, g);
        assert(u2 * pow2(g) == m2 * z) by (nonlinear_arith)
            requires
                u2 == m2 * pow2(e2),
                z == pow2(e2) * pow2(g),
        ;
        assert(x * a == (x * w) * z) by (nonlinear_arith)
            requires
                a == w * z,
        ;
        assert((x + 1) * a == ((x + 1) * w) * z) by (nonlinear_arith)
            requires
                a == w * z,
        ;
        lemma_mul_le((x * w) as int, m2 as int, z as int);
        assert(m2 * z < ((x + 1) * w) * z) by (nonlinear_arith)
            requires
                m2 < (x + 1) * w,
                z > 0,
        ;
        if sticky {
            assert((x * w) * z < m2 * z) by (nonlinear_arith)
                requires
                    x * w < m2,
                    z > 0,
            ;
        }
    }
}

/// A significand moved up by a few places.
#[inline(always)]
fn widen(m: u64, g: u32) -> (r: u128)
    requires
        m < pow2(53),
        g <= 56,
    ensures
        r == m * pow2(g as nat),
        r < 0x2000_0000_0000_0000_0000_0000_0000,
{
    proof {
        lemma2_to64_rest();
        lemma_pow2_le(g as nat, 56);
        assert(m * pow2(g as nat) < 0x2000_0000_0000_0000_0000_0000_0000) by (nonlinear_arith)
            requires
                m < 0x20_0000_0000_0000,
                0 < pow2(g as nat) <= 0x100_0000_0000_0000,
        ;
        if m <= 0xff_ffff && g <= 32 {
            lemma2_to64();
            lemma_pow2_pos(g as nat);
            lemma_pow2_le(g as nat, 32);
            assert(m * pow2(g as nat) <= u64::MAX) by (nonlinear_arith)
                requires
                    m <= 0xff_ffff,
                    0 < pow2(g as nat) <= 0x1_0000_0000,
            ;
        }
    }
    if m <= 0xff_ffff && g <= 32 {
        return up(m, g) as u128;
    }
    (m as u128) * power(g)
}

/// Line the smaller term up with the places of the larger one.
#[inline(always)]
fn align(m2: u64, g: u32, diff: u32) -> (r: (u128, bool))
    requires
        m2 < pow2(53),
        g <= 56,
    ensures
        diff <= g ==> r.0 == m2 * pow2((g - diff) as nat) && !r.1,
        diff > g ==> r.0 == m2 as nat / pow2((diff - g) as nat) && (r.1 <==> m2 as nat % pow2(
            (diff - g) as nat,
        ) != 0),
        r.1 ==> r.0 <= m2,
        r.0 < 0x2000_0000_0000_0000_0000_0000_0000,
{
    if diff <= g {
        (widen(m2, g - diff), false)
    } else {
        let r: u32 = diff - g;
        proof {
            lemma2_to64_rest();
            lemma_pow2_pos(r as nat);
            lemma_quotient_bounds(m2 as nat, pow2(r as nat));
        }
        if r >= 64 {
            proof {
                lemma_pow2_le(64, r as nat);
                lemma_quotient_small(m2 as nat, pow2(r as nat));
            }
            (0, m2 != 0)
        } else {
            let (q, whole) = down(m2, r);
            assert(q <= m2) by (nonlinear_arith)
                requires
                    q * pow2(r as nat) <= m2,
                    pow2(r as nat) >= 1,
            ;
            (q as u128, !whole)
        }
    }
}

/// A longer magnitude has no smaller exponent.
proof fn lemma_exponents_ordered(f: Format, a: nat, b: nat)
    requires
        b <= a,
    ensures
        ({
            let h = pow2((f.p() - 1) as nat);
            let ea = if a < h { 0 } else { a / h - 1 };
            let eb = if b < h { 0 } else { b / h - 1 };
            eb <= ea
        }),
{
    let h = pow2((f.p() - 1) as nat);
    lemma_pow2_pos((f.p() - 1) as nat);
    if b >= h {
        vstd::arithmetic::div_mod::lemma_div_is_ordered(b as int, a as int, h as int);
    } else if a >= h {
        lemma_quotient_bounds(a, h);
        assert(a / h >= 1) by (nonlinear_arith)
            requires
                a >= h,
                a < (a / h + 1) * h,
                h > 0,
        ;
    }
}

/// The larger term, less what the smaller can take from it, keeps enough bits
/// for the sticky place to lie below the rounding place.
proof fn lemma_stays_long(f: Format, m1: nat, m2: nat, big: nat, x: nat)
    requires
        m1 >= pow2((f.p() - 1) as nat),
        m2 < pow2(f.p()),
        x <= m2,
        big == m1 * pow2(f.p() + 3),
    ensures
        big - x - 1 >= pow2(f.p() + 1),
{
    let p = f.p();
    let h = pow2((p - 1) as nat);
    let c = pow2(p + 3);
    lemma_pow2_pos((p - 1) as nat);
    lemma_pow2_pos(p + 3);
    lemma_mul_le(h as int, m1 as int, c as int);
    lemma_mul_le(1, h as int, c as int);
    lemma_pow2_unfold(p + 3);
    lemma_pow2_unfold(p + 2);
    lemma_pow2_unfold(p + 1);
    lemma_pow2_pos(p);
}

/// The larger term plus what the smaller adds to it.
proof fn lemma_combine_sum(
    f: Format,
    ua: nat,
    ub: nat,
    big: nat,
    x: nat,
    e1: nat,
    g: nat,
    sticky: bool,
)
    requires
        ua * pow2(g) == big * pow2(e1),
        x * pow2(e1) <= ub * pow2(g) < (x + 1) * pow2(e1),
        sticky <==> x * pow2(e1) != ub * pow2(g),
        sticky ==> big >= pow2(f.p() + 1),
    ensures
        assemble(f, big + x, e1 - g, sticky) == round_mag(f, ua + ub, 1),
{
    let w = pow2(e1);
    let c = pow2(g);
    let m = big + x;
    assert(m * w == big * w + x * w) by (nonlinear_arith)
        requires
            m == big + x,
    ;
    assert((m + 1) * w == m * w + w) by (nonlinear_arith);
    assert((x + 1) * w == x * w + w) by (nonlinear_arith);
    assert((ua + ub) * c == ua * c + ub * c) by (nonlinear_arith);
    lemma_enclosed_whole(ua + ub, g, m, e1 - g, e1, sticky);
    lemma_assemble_ratio(f, ua + ub, 1, g, m, e1 - g, sticky);
}

/// The larger term less what the smaller takes from it.
proof fn lemma_combine_difference(
    f: Format,
    ua: nat,
    ub: nat,
    big: nat,
    x: nat,
    e1: nat,
    g: nat,
    sticky: bool,
)
    requires
        ub <= ua,
        ua * pow2(g) == big * pow2(e1),
        x * pow2(e1) <= ub * pow2(g) < (x + 1) * pow2(e1),
        sticky <==> x * pow2(e1) != ub * pow2(g),
        sticky ==> big - x - 1 >= pow2(f.p() + 1),
    ensures
        x <= big,
        sticky ==> x < big,
        assemble(
            f,
            (big - x - if sticky { 1int } else { 0int }) as nat,
            e1 - g,
            sticky,
        ) == round_mag(f, (ua - ub) as nat, 1),
{
    let w = pow2(e1);
    let c = pow2(g);
    lemma_pow2_pos(e1);
    lemma_pow2_pos(g);
    lemma_mul_le(ub as int, ua as int, c as int);
    assert(x <= big) by (nonlinear_arith)
        requires
            x * w <= ub * c,
            ub * c <= ua * c,
            ua * c == big * w,
            w > 0,
    ;
    if sticky {
        assert(x < big) by (nonlinear_arith)
            requires
                x * w < ub * c,
                ub * c <= ua * c,
                ua * c == big * w,
                w > 0,
        ;
    }
    let n = (ua - ub) as nat;
    assert(n * c == ua * c - ub * c) by (nonlinear_arith)
        requires
            n == ua - ub,
    ;
    assert((x + 1) * w == x * w + w) by (nonlinear_arith);
    if sticky {
        let m = (big - x - 1) as nat;
        assert(m * w == big * w - x * w - w) by (nonlinear_arith)
            requires
                m == big - x - 1,
        ;
        assert((m + 1) * w == m * w + w) by (nonlinear_arith);
        lemma_enclosed_whole(n, g, m, e1 - g, e1, sticky);
        lemma_assemble_ratio(f, n, 1, g, m, e1 - g, sticky);
    } else {
        let m = (big - x) as nat;
        assert(m * w == big * w - x * w) by (nonlinear_arith)
            requires
                m == big - x,
        ;
        assert((m + 1) * w == m * w + w) by (nonlinear_arith);
        lemma_enclosed_whole(n, g, m, e1 - g, e1, sticky);
        lemma_assemble_ratio(f, n, 1, g, m, e1 - g, sticky);
    }
}

/// Add or subtract two finite magnitudes, the first not the smaller.
#[inline(always)]
fn combine(f: Format, a: u64, b: u64, subtract: bool) -> (mag: u64)
    requires
        b <= a < f.top(),
    ensures
        subtract ==> mag == round_mag(
            f,
            (units(f, a as nat) - units(f, b as nat)) as nat,
            1,
        ),
        !subtract ==> mag == round_mag(f, units(f, a as nat) + units(f, b as nat), 1),
        mag <= f.top(),
{
    let (m1, e1) = unpack(f, a);
    let (m2, e2) = unpack(f, b);
    let g: u32 = f.precision() + 3;
    let ghost ua = units(f, a as nat);
    let ghost ub = units(f, b as nat);
    proof {
        lemma_units_monotone(f, b as nat, a as nat);
        lemma_exponents_ordered(f, a as nat, b as nat);
        lemma_pow2_le(f.p(), 53);
    }
    let big = widen(m1, g);
    let (x, sticky) = align(m2, g, e1 - e2);
    let e: i32 = e1 as i32 - g as i32;
    proof {
        lemma_aligned(ub, m2 as nat, e1 as nat, e2 as nat, g as nat, x as nat, sticky);
        let w = pow2(e1 as nat);
        let c = pow2(g as nat);
        assert(ua * c == big as nat * w) by (nonlinear_arith)
            requires
                ua == m1 as nat * w,
                big as nat == m1 as nat * c,
        ;
        if sticky {
            // Places were lost, so the larger term lies far above the least exponent.
            lemma_stays_long(f, m1 as nat, m2 as nat, big as nat, x as nat);
        }
    }
    proof {
        if subtract {
            lemma_combine_difference(f, ua, ub, big as nat, x as nat, e1 as nat, g as nat, sticky);
        } else {
            lemma_combine_sum(f, ua, ub, big as nat, x as nat, e1 as nat, g as nat, sticky);
        }
    }
    let lost: u128 = if sticky {
        1
    } else {
        0
    };
    let m: u128 = if subtract {
        big - x - lost
    } else {
        big + x
    };
    round_parts(f, m, e, sticky)
}

/// The enclosure of a whole number of units.
proof fn lemma_enclosed_whole(n: nat, g: nat, m: nat, e: int, e1: nat, sticky: bool)
    requires
        e + g == e1,
        m * pow2(e1) <= n * pow2(g) < (m + 1) * pow2(e1),
        sticky <==> m * pow2(e1) != n * pow2(g),
    ensures
        encloses(n, 1, g, m, e, sticky),
{
    assert(1 * m == m && 1 * (m + 1) == m + 1);
}

/// Add.
#[inline(always)]
pub(crate) fn plus(f: Format, a: Raw, b: Raw) -> (r: Raw)
    ensures
        r == sum(f, a, b),
        r.mag <= f.quiet(),
{
    let top = f.infinity();
    if a.mag > top || b.mag > top {
        return Raw { neg: false, mag: f.quiet_nan() };
    }
    if a.mag == top {
        return if b.mag == top && a.neg != b.neg {
            Raw { neg: false, mag: f.quiet_nan() }
        } else {
            a
        };
    }
    if b.mag == top {
        return b;
    }
    proof {
        lemma_units_zero(f, a.mag as nat);
        lemma_units_zero(f, b.mag as nat);
    }
    if a.mag == 0 && b.mag == 0 {
        return Raw { neg: a.neg && b.neg, mag: 0 };
    }
    let subtract: bool = a.neg != b.neg;
    if subtract && a.mag == b.mag {
        return Raw { neg: false, mag: 0 };
    }
    let (hi, lo) = if a.mag >= b.mag {
        (a, b)
    } else {
        (b, a)
    };
    proof {
        if lo.mag < hi.mag {
            lemma_units_increase(f, lo.mag as nat, hi.mag as nat);
        }
    }
    Raw { neg: hi.neg, mag: combine(f, hi.mag, lo.mag, subtract) }
}

/// A significand moved up until it fills the precision, and by how far.
#[inline(always)]
pub(crate) fn normalize(f: Format, m: u64) -> (r: (u64, u32))
    requires
        0 < m < pow2(f.p()),
    ensures
        r.0 == m * pow2(r.1 as nat),
        pow2((f.p() - 1) as nat) <= r.0 < pow2(f.p()),
        r.1 <= 52,
{
    let p = f.precision();
    let l = bit_length(m as u128);
    proof {
        lemma_bit_len(m as nat);
        if l > p {
            lemma_pow2_le(f.p(), (l - 1) as nat);
        }
        let j = (p - l) as nat;
        lemma_pow2_pos(j);
        lemma_pow2_adds(l as nat, j);
        lemma_pow2_adds((l - 1) as nat, j);
        lemma_mul_le(pow2((l - 1) as nat) as int, m as int, pow2(j) as int);
        assert(m * pow2(j) < pow2(l as nat) * pow2(j)) by (nonlinear_arith)
            requires
                m < pow2(l as nat),
                pow2(j) > 0,
        ;
        lemma_pow2_le(f.p(), 53);
        lemma2_to64_rest();
    }
    let j: u32 = p - l;
    (up(m, j), j)
}

/// The quotient of two significands, enclosed.
proof fn lemma_quotient_enclosed(
    f: Format,
    ma: nat,
    mb: nat,
    ea: nat,
    eb: nat,
    ja: nat,
    jb: nat,
    q: nat,
    sticky: bool,
)
    requires
        mb > 0,
        q * (mb * pow2(jb)) <= (ma * pow2(ja)) * pow2(f.p() + 2) < (q + 1) * (mb * pow2(jb)),
        sticky <==> q * (mb * pow2(jb)) != (ma * pow2(ja)) * pow2(f.p() + 2),
    ensures
        encloses(
            (ma * pow2(ea)) * pow2(f.unit()),
            mb * pow2(eb),
            f.p() + 2 + eb + ja,
            q,
            ea - ja - eb + jb + f.unit() - (f.p() + 2),
            sticky,
        ),
{
    let k = f.p() + 2;
    let u = f.unit();
    let b = k + eb + ja;
    let e = ea - ja - eb + jb + u - k;
    let n = (ma * pow2(ea)) * pow2(u);
    let d = mb * pow2(eb);
    let x = pow2(ea);
    let y = pow2(eb);
    let z = pow2(u);
    let v = x * y * z;
    lemma_pow2_pos(ea);
    lemma_pow2_pos(eb);
    lemma_pow2_pos(u);
    lemma_pow2_pos(jb);
    assert(v > 0) by (nonlinear_arith)
        requires
            x > 0,
            y > 0,
            z > 0,
            v == x * y * z,
    ;
    assert(d > 0) by (nonlinear_arith)
        requires
            mb > 0,
            y > 0,
            d == mb * y,
    ;
    assert((e + b) as nat == ea + jb + u);
    lemma_pow2_adds(ea, jb);
    lemma_pow2_adds(ea + jb, u);
    lemma_pow2_adds(k, eb);
    lemma_pow2_adds(k + eb, ja);
    let l = mb * pow2(jb);
    let r = (ma * pow2(ja)) * pow2(k);
    assert(d * q * (x * pow2(jb) * z) == (q * l) * v) by (nonlinear_arith)
        requires
            d == mb * y,
            l == mb * pow2(jb),
            v == x * y * z,
    ;
    assert(d * (q + 1) * (x * pow2(jb) * z) == ((q + 1) * l) * v) by (nonlinear_arith)
        requires
            d == mb * y,
            l == mb * pow2(jb),
            v == x * y * z,
    ;
    assert(n * (pow2(k) * y * pow2(ja)) == r * v) by (nonlinear_arith)
        requires
            n == (ma * x) * z,
            r == (ma * pow2(ja)) * pow2(k),
            v == x * y * z,
    ;
    lemma_mul_le((q * l) as int, r as int, v as int);
    assert(r * v < ((q + 1) * l) * v) by (nonlinear_arith)
        requires
            r < (q + 1) * l,
            v > 0,
    ;
    if sticky {
        assert((q * l) * v < r * v) by (nonlinear_arith)
            requires
                q * l < r,
                v > 0,
        ;
    }
}

/// Divide two finite magnitudes, the second not zero.
#[inline(always)]
fn divide_finite(f: Format, a: u64, b: u64) -> (mag: u64)
    requires
        a < f.top(),
        0 < b < f.top(),
    ensures
        mag == round_mag(f, units(f, a as nat) * pow2(f.unit()), units(f, b as nat)),
        mag <= f.top(),
{
    proof {
        lemma_units_zero(f, b as nat);
    }
    if a == 0 {
        proof {
            lemma_units_zero(f, 0);
            assert(0 * pow2(f.unit()) == 0);
            super::round::lemma_round_zero(f, units(f, b as nat));
        }
        return 0;
    }
    let (ma, ea) = unpack(f, a);
    let (mb, eb) = unpack(f, b);
    let (na, ja) = normalize(f, ma);
    let (nb, jb) = normalize(f, mb);
    let k: u32 = f.precision() + 2;
    proof {
        lemma_pow2_le(f.p(), 53);
        lemma_pow2_pos((f.p() - 1) as nat);
    }
    let top: u128 = widen(na, k);
    let low: u128 = nb as u128;
    let (q, left): (u128, u128) = if top <= 0xffff_ffff_ffff_ffff {
        ((top as u64 / nb) as u128, (top as u64 % nb) as u128)
    } else {
        (top / low, top % low)
    };
    let sticky: bool = left != 0;
    let e: i32 = ea as i32 - ja as i32 - eb as i32 + jb as i32 + f.unit_bits() as i32 - k as i32;
    proof {
        let p = f.p();
        let h = pow2((p - 1) as nat);
        lemma_quotient_bounds(top as nat, low as nat);
        // One bit of the dividend outweighs the divisor.
        lemma_pow2_pos(p + 1);
        lemma_pow2_unfold(p + 2);
        lemma_pow2_unfold(p);
        assert(q >= pow2(p + 1)) by (nonlinear_arith)
            requires
                top == na * (2 * pow2(p + 1)),
                na >= h,
                low < 2 * h,
                top < (q + 1) * low,
                pow2(p + 1) > 0,
        {
            assert(top >= h * (2 * pow2(p + 1)));
            assert(h * (2 * pow2(p + 1)) == (2 * h) * pow2(p + 1));
            if q + 1 <= pow2(p + 1) {
                assert((q + 1) * low <= pow2(p + 1) * low);
                assert(pow2(p + 1) * low <= pow2(p + 1) * (2 * h));
            }
        }
        lemma_quotient_enclosed(
            f,
            ma as nat,
            mb as nat,
            ea as nat,
            eb as nat,
            ja as nat,
            jb as nat,
            q as nat,
            sticky,
        );
        lemma_assemble_ratio(
            f,
            units(f, a as nat) * pow2(f.unit()),
            units(f, b as nat),
            p + 2 + eb as nat + ja as nat,
            q as nat,
            e as int,
            sticky,
        );
    }
    round_parts(f, q, e, sticky)
}

/// Divide.
#[inline(always)]
pub(crate) fn divide(f: Format, a: Raw, b: Raw) -> (r: Raw)
    ensures
        r == quotient(f, a, b),
        r.mag <= f.quiet(),
{
    let top = f.infinity();
    let neg = a.neg != b.neg;
    if a.mag > top || b.mag > top {
        return Raw { neg: false, mag: f.quiet_nan() };
    }
    if a.mag == top {
        return if b.mag == top {
            Raw { neg: false, mag: f.quiet_nan() }
        } else {
            Raw { neg, mag: top }
        };
    }
    if b.mag == top {
        return Raw { neg, mag: 0 };
    }
    if b.mag == 0 {
        return if a.mag == 0 {
            Raw { neg: false, mag: f.quiet_nan() }
        } else {
            Raw { neg, mag: top }
        };
    }
    Raw { neg, mag: divide_finite(f, a.mag, b.mag) }
}

/// A whole number as a floating-point one.
#[inline(always)]
pub(crate) fn from_whole(f: Format, v: u64) -> (r: Raw)
    ensures
        r == whole_number(f, v as nat),
        r.mag <= f.top(),
{
    let u = f.unit_bits();
    proof {
        let w = pow2(f.unit());
        let n = v as nat * w;
        lemma_pow2_pos(f.unit());
        lemma2_to64();
        assert(n * pow2(0) == n) by (nonlinear_arith)
            requires
                pow2(0) == 1,
        ;
        assert((v as nat + 1) * w == v as nat * w + w) by (nonlinear_arith);
        lemma_enclosed_whole(n, 0, v as nat, f.unit() as int, f.unit(), false);
        lemma_assemble_ratio(f, n, 1, 0, v as nat, f.unit() as int, false);
    }
    Raw { neg: false, mag: round_parts(f, v as u128, u as i32, false) }
}

/// Carry a number from one format to another.
#[inline(always)]
pub(crate) fn convert(from: Format, to: Format, a: Raw) -> (r: Raw)
    ensures
        r == converted(from, to, a),
        r.mag <= to.quiet(),
{
    let top = from.infinity();
    if a.mag > top {
        return Raw { neg: false, mag: to.quiet_nan() };
    }
    if a.mag == top {
        return Raw { neg: a.neg, mag: to.infinity() };
    }
    let (m, e0) = unpack(from, a.mag);
    let e: i32 = e0 as i32 + to.unit_bits() as i32 - from.unit_bits() as i32;
    proof {
        let d = pow2(from.unit());
        let t = pow2(to.unit());
        let x = pow2(e0 as nat);
        let n = units(from, a.mag as nat) * t;
        lemma_pow2_pos(from.unit());
        lemma_pow2_pos(to.unit());
        lemma_pow2_pos(e0 as nat);
        lemma_pow2_adds(e0 as nat, to.unit());
        assert((e + from.unit()) as nat == e0 as nat + to.unit());
        assert(d * (m as nat) * (x * t) == n * d) by (nonlinear_arith)
            requires
                n == (m as nat * x) * t,
        ;
        assert(n * d < d * (m as nat + 1) * (x * t)) by (nonlinear_arith)
            requires
                d * (m as nat) * (x * t) == n * d,
                d > 0,
                x > 0,
                t > 0,
        {
            assert(x * t > 0);
            assert(d * (m as nat + 1) * (x * t) == d * (m as nat) * (x * t) + d * (x * t));
            assert(d * (x * t) > 0);
        }
        lemma_assemble_ratio(to, n, d, from.unit(), m as nat, e as int, false);
    }
    Raw { neg: a.neg, mag: round_parts(to, m as u128, e, false) }
}

/// The whole part of a finite magnitude, at most `u64::MAX`, and whether there
/// is a fraction beyond it.
#[inline(always)]
pub(crate) fn truncate(f: Format, mag: u64) -> (r: (u64, bool))
    requires
        mag < f.top(),
    ensures
        r.0 == (if whole_part(f, mag as nat) <= u64::MAX {
            whole_part(f, mag as nat)
        } else {
            u64::MAX as nat
        }),
        r.1 == has_fraction(f, mag as nat),
{
    let (m, e) = unpack(f, mag);
    let u = f.unit_bits();
    let ghost n = units(f, mag as nat);
    let ghost w = pow2(f.unit());
    proof {
        lemma_pow2_pos(f.unit());
        lemma_pow2_le(f.p(), 53);
        lemma2_to64_rest();
    }
    if e >= u {
        let j: u32 = e - u;
        let ghost y = m as nat * pow2(j as nat);
        proof {
            lemma_pow2_adds(j as nat, f.unit());
            assert(n == y * w) by (nonlinear_arith)
                requires
                    n == m as nat * pow2(e as nat),
                    pow2(e as nat) == pow2(j as nat) * w,
                    y == m as nat * pow2(j as nat),
            ;
            assert((y + 1) * w == y * w + w) by (nonlinear_arith);
            lemma_quotient(n, w, y);
        }
        if j >= 64 {
            proof {
                lemma_pow2_le(64, j as nat);
                if m > 0 {
                    assert(y >= pow2(64)) by (nonlinear_arith)
                        requires
                            y == m as nat * pow2(j as nat),
                            m >= 1,
                            pow2(j as nat) >= pow2(64),
                    ;
                }
            }
            if m == 0 {
                assert(y == 0) by (nonlinear_arith)
                    requires
                        y == m as nat * pow2(j as nat),
                        m == 0,
                ;
                (0, false)
            } else {
                (u64::MAX, false)
            }
        } else {
            proof {
                lemma_pow2_le(j as nat, 63);
                assert(y < 0x20_0000_0000_0000 * 0x1_0000_0000_0000_0000) by (nonlinear_arith)
                    requires
                        y == m as nat * pow2(j as nat),
                        m < 0x20_0000_0000_0000,
                        0 < pow2(j as nat) < 0x1_0000_0000_0000_0000,
                ;
            }
            let v: u128 = (m as u128) * power(j);
            if v > u64::MAX as u128 {
                (u64::MAX, false)
            } else {
                (v as u64, false)
            }
        }
    } else {
        let r: u32 = u - e;
        let ghost z = pow2(r as nat);
        let ghost x = pow2(e as nat);
        let ghost t = m as nat / z;
        proof {
            lemma_pow2_pos(r as nat);
            lemma_pow2_pos(e as nat);
            lemma_quotient_bounds(m as nat, z);
            lemma_pow2_adds(r as nat, e as nat);
            assert(t * w == (t * z) * x) by (nonlinear_arith)
                requires
                    w == z * x,
            ;
            assert((t + 1) * w == ((t + 1) * z) * x) by (nonlinear_arith)
                requires
                    w == z * x,
            ;
            lemma_mul_le((t * z) as int, m as int, x as int);
            assert(m as nat * x < ((t + 1) * z) * x) by (nonlinear_arith)
                requires
                    m < (t + 1) * z,
                    x > 0,
            ;
            lemma_quotient(n, w, t);
            if t * z < m {
                assert((t * z) * x < m as nat * x) by (nonlinear_arith)
                    requires
                        t * z < m,
                        x > 0,
                ;
            }
        }
        if r >= 64 {
            proof {
                lemma_pow2_le(64, r as nat);
                lemma_quotient_small(m as nat, z);
            }
            (0, m != 0)
        } else {
            let (q, exact) = down(m, r);
            (q, !exact)
        }
    }
}

} // verus!
