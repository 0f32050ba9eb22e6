//! What holds of the arithmetic: order is kept, exact results are exact, and
//! what starts within bounds stays within them.

use super::double::F64;
use super::model::{
    halve_even, lemma_mul_le, lemma_pow2_le, lemma_quotient, lemma_quotient_bounds,
    lemma_round_exact, lemma_round_monotone, lemma_scale_unique, lemma_units_increase, round_mag,
    units, Format,
};
use super::raw::{lemma_units_monotone, lemma_units_zero};
use super::single::F32;
use vstd::arithmetic::power2::{
    lemma2_to64, lemma2_to64_rest, lemma_pow2_adds, lemma_pow2_pos, lemma_pow2_unfold, pow2,
};
use vstd::prelude::*;

verus! {

impl Format {
    /// The magnitude of one.
    pub open spec fn unity(self) -> nat {
        match self {
            Format::Single => 0x3f80_0000,
            Format::Double => 0x3ff0_0000_0000_0000,
        }
    }
}

/// One is as many units as it should be.
pub proof fn lemma_unity(f: Format)
    ensures
        units(f, f.unity()) == pow2(f.unit()),
        f.unity() < f.top(),
{
    lemma2_to64();
    lemma2_to64_rest();
    let h = pow2((f.p() - 1) as nat);
    let e = (f.unit() - (f.p() - 1)) as nat;
    match f {
        Format::Single => {
            assert(h == 0x80_0000 && e == 126);
            assert(127 * h == 0x3f80_0000);
        },
        Format::Double => {
            assert(h == 0x10_0000_0000_0000 && e == 1022);
            assert(1023 * h == 0x3ff0_0000_0000_0000);
        },
    }
    vstd::arithmetic::div_mod::lemma_fundamental_div_mod_converse(
        f.unity() as int,
        h as int,
        (e + 1) as int,
        0,
    );
    lemma_pow2_adds((f.p() - 1) as nat, e);
}

/// Rounding looks only at the ratio.
pub proof fn lemma_round_same(f: Format, n1: nat, d1: nat, n2: nat, d2: nat)
    requires
        d1 > 0,
        d2 > 0,
        n1 * d2 == n2 * d1,
    ensures
        round_mag(f, n1, d1) == round_mag(f, n2, d2),
{
    lemma_round_monotone(f, n1, d1, n2, d2);
    lemma_round_monotone(f, n2, d2, n1, d1);
}

/// Rounding `n / d`, where that is `a / b` in units of `2^s` and fills the
/// precision.
pub proof fn lemma_round_at(f: Format, n: nat, d: nat, s: nat, a: nat, b: nat)
    requires
        d > 0,
        b > 0,
        n * b == (a * pow2(s)) * d,
        a < b * pow2(f.p()),
        s > 0 ==> a >= b * pow2((f.p() - 1) as nat),
    ensures
        ({
            let m = s * pow2((f.p() - 1) as nat) + halve_even((2 * a) / b, (2 * a) % b == 0);
            round_mag(f, n, d) == if m < f.top() {
                m
            } else {
                f.top()
            }
        }),
{
    let p = f.p();
    let w = pow2(s);
    let q = d * w;
    let t = (2 * a) / b;
    lemma_pow2_pos(s);
    lemma_pow2_adds(s, p);
    assert(n < d * pow2(s + p)) by (nonlinear_arith)
        requires
            n * b == (a * w) * d,
            a < b * pow2(p),
            pow2(s + p) == w * pow2(p),
            w > 0,
            d > 0,
            b > 0,
    {
        assert((a * w) * d == a * (w * d));
        assert(w * d > 0);
        assert(a * (w * d) < (b * pow2(p)) * (w * d));
        assert((b * pow2(p)) * (w * d) == (d * (w * pow2(p))) * b);
    }
    if s > 0 {
        lemma_pow2_adds(s, (p - 1) as nat);
        let h = pow2((p - 1) as nat);
        assert(n >= d * pow2((s + p - 1) as nat)) by (nonlinear_arith)
            requires
                n * b == (a * w) * d,
                a >= b * h,
                pow2((s + p - 1) as nat) == w * h,
                b > 0,
        {
            assert((a * w) * d == a * (w * d));
            assert(a * (w * d) >= (b * h) * (w * d));
            assert((b * h) * (w * d) == (d * (w * h)) * b);
        }
    }
    lemma_scale_unique(p, n, d, s);
    lemma_quotient_bounds(2 * a, b);
    assert(q > 0) by (nonlinear_arith)
        requires
            q == d * w,
            d > 0,
            w > 0,
    ;
    assert(t * q <= 2 * n) by (nonlinear_arith)
        requires
            n * b == (a * w) * d,
            t * b <= 2 * a,
            q == d * w,
            b > 0,
    {
        assert((t * q) * b == (t * b) * (d * w));
        assert((t * b) * (d * w) <= (2 * a) * (d * w));
        assert((2 * a) * (d * w) == (2 * n) * b);
    }
    assert(2 * n < (t + 1) * q) by (nonlinear_arith)
        requires
            n * b == (a * w) * d,
            2 * a < (t + 1) * b,
            q == d * w,
            q > 0,
            b > 0,
    {
        assert(((t + 1) * q) * b == ((t + 1) * b) * q);
        assert((2 * a) * q < ((t + 1) * b) * q);
        assert((2 * a) * q == (2 * n) * b);
    }
    lemma_quotient(2 * n, q, t);
    lemma_quotient(2 * a, b, t);
    assert(2 * n == t * q <==> 2 * a == t * b) by (nonlinear_arith)
        requires
            n * b == (a * w) * d,
            q == d * w,
            q > 0,
            b > 0,
    {
        assert((2 * n) * b == (2 * a) * q);
        assert((t * q) * b == (t * b) * q);
        if 2 * n == t * q {
            assert((2 * a) * q == (t * b) * q);
        }
        if 2 * a == t * b {
            assert((2 * n) * b == (t * q) * b);
        }
    }
}

/// Rounding never leaves the representable magnitudes.
pub proof fn lemma_round_top(f: Format, n: nat, d: nat)
    ensures
        round_mag(f, n, d) <= f.top(),
{
}

/// A product with at most one is no larger.
pub proof fn lemma_product_small(f: Format, a: nat, b: nat)
    requires
        a < f.top(),
        b <= f.unity(),
    ensures
        round_mag(f, units(f, a) * units(f, b), pow2(f.unit())) <= a,
{
    lemma_unity(f);
    lemma_units_monotone(f, b, f.unity());
    lemma_pow2_pos(f.unit());
    let x = units(f, a);
    let y = units(f, b);
    let u = pow2(f.unit());
    assert((x * y) * 1 <= x * u) by (nonlinear_arith)
        requires
            y <= u,
    ;
    lemma_round_monotone(f, x * y, u, x, 1);
    lemma_round_exact(f, a);
}

/// A product with one changes nothing.
pub proof fn lemma_product_one(f: Format, a: nat)
    requires
        a < f.top(),
    ensures
        round_mag(f, units(f, a) * units(f, f.unity()), pow2(f.unit())) == a,
{
    lemma_unity(f);
    lemma_pow2_pos(f.unit());
    let x = units(f, a);
    let u = pow2(f.unit());
    assert((x * u) * 1 == x * u);
    lemma_round_same(f, x * u, u, x, 1);
    lemma_round_exact(f, a);
}

/// Larger factors make larger products.
pub proof fn lemma_product_monotone(f: Format, a1: nat, b1: nat, a2: nat, b2: nat)
    requires
        a1 <= a2 < f.top(),
        b1 <= b2 < f.top(),
    ensures
        round_mag(f, units(f, a1) * units(f, b1), pow2(f.unit())) <= round_mag(
            f,
            units(f, a2) * units(f, b2),
            pow2(f.unit()),
        ),
{
    lemma_units_monotone(f, a1, a2);
    lemma_units_monotone(f, b1, b2);
    lemma_pow2_pos(f.unit());
    let u = pow2(f.unit());
    let n1 = units(f, a1) * units(f, b1);
    let n2 = units(f, a2) * units(f, b2);
    assert(n1 <= n2) by (nonlinear_arith)
        requires
            units(f, a1) <= units(f, a2),
            units(f, b1) <= units(f, b2),
            n1 == units(f, a1) * units(f, b1),
            n2 == units(f, a2) * units(f, b2),
    ;
    lemma_mul_le(n1 as int, n2 as int, u as int);
    lemma_round_monotone(f, n1, u, n2, u);
}

/// A quotient of what is no larger than its divisor is at most one; of equals,
/// one.
pub proof fn lemma_quotient_small_one(f: Format, a: nat, b: nat)
    requires
        a <= b < f.top(),
        b > 0,
    ensures
        round_mag(f, units(f, a) * pow2(f.unit()), units(f, b)) <= f.unity(),
        a == b ==> round_mag(f, units(f, a) * pow2(f.unit()), units(f, b)) == f.unity(),
{
    lemma_unity(f);
    lemma_units_monotone(f, a, b);
    lemma_units_zero(f, b);
    let x = units(f, a);
    let y = units(f, b);
    let u = pow2(f.unit());
    assert((x * u) * 1 <= u * y) by (nonlinear_arith)
        requires
            x <= y,
    ;
    lemma_round_monotone(f, x * u, y, u, 1);
    lemma_round_exact(f, f.unity());
    if a == b {
        assert((x * u) * 1 == u * y) by (nonlinear_arith)
            requires
                x == y,
        ;
        lemma_round_same(f, x * u, y, u, 1);
    }
}

/// Rounding a sum of values in order keeps the order.
pub open spec fn rounded_sum(f: Format, v: int) -> int {
    if v < 0 {
        -(round_mag(f, (-v) as nat, 1) as int)
    } else {
        round_mag(f, v as nat, 1) as int
    }
}

pub proof fn lemma_rounded_sum_monotone(f: Format, v: int, w: int)
    requires
        v <= w,
    ensures
        rounded_sum(f, v) <= rounded_sum(f, w),
{
    if v >= 0 {
        lemma_round_monotone(f, v as nat, 1, w as nat, 1);
    } else if w < 0 {
        lemma_round_monotone(f, (-w) as nat, 1, (-v) as nat, 1);
    }
}

/// A whole number of few bits, moved up, is held exactly.
pub proof fn lemma_exact(f: Format, m: nat, e: nat) -> (mag: nat)
    requires
        m < pow2(f.p()),
        (e + 2) * pow2((f.p() - 1) as nat) <= f.top(),
    ensures
        mag < f.top(),
        units(f, mag) == m * pow2(e),
        round_mag(f, m * pow2(e), 1) == mag,
    decreases e,
{
    let h = pow2((f.p() - 1) as nat);
    lemma_pow2_pos((f.p() - 1) as nat);
    lemma_pow2_unfold(f.p());
    lemma2_to64();
    if e == 0 {
        assert(m * pow2(0) == m) by (nonlinear_arith)
            requires
                pow2(0) == 1,
        ;
        assert(2 * h <= f.top());
        if m >= h {
            assert(h * 1 == h && 1 * h == h) by (nonlinear_arith);
            vstd::arithmetic::div_mod::lemma_fundamental_div_mod_converse(
                m as int,
                h as int,
                1,
                m - h,
            );
        }
        assert(units(f, m) == m) by {
            if m >= h {
                assert((h + m % h) * pow2((m / h - 1) as nat) == m) by (nonlinear_arith)
                    requires
                        h + m % h == m,
                        pow2((m / h - 1) as nat) == 1,
                ;
            }
        }
        lemma_round_exact(f, m);
        m
    } else if m >= h {
        let mag = e * h + m;
        assert((e + 2) * h == e * h + h + h && (e + 1) * h == e * h + h) by (nonlinear_arith);
        vstd::arithmetic::div_mod::lemma_fundamental_div_mod_converse(
            mag as int,
            h as int,
            (e + 1) as int,
            m - h,
        );
        assert(mag >= h);
        lemma_round_exact(f, mag);
        mag
    } else {
        lemma_pow2_unfold(e);
        let w = pow2((e - 1) as nat);
        assert((2 * m) * w == m * (2 * w)) by (nonlinear_arith);
        assert((e + 1) * h <= (e + 2) * h) by (nonlinear_arith)
            requires
                h >= 0,
        ;
        lemma_exact(f, 2 * m, (e - 1) as nat)
    }
}

// Single precision.

/// Larger positions are larger values.
pub proof fn lemma_order(a: F32, b: F32)
    requires
        a.is_finite(),
        b.is_finite(),
    ensures
        a.key() <= b.key() <==> a.value() <= b.value(),
        a.key() == 0 <==> a.value() == 0,
        a.key() >= 0 ==> a.value() == units(Format::Single, a.key() as nat),
        a.key() < 0 ==> a.value() == -(units(Format::Single, (-a.key()) as nat) as int),
{
    let f = Format::Single;
    let x = a.raw().mag as nat;
    let y = b.raw().mag as nat;
    lemma_units_zero(f, x);
    lemma_units_zero(f, y);
    if x < y {
        lemma_units_increase(f, x, y);
    } else if y < x {
        lemma_units_increase(f, y, x);
    }
}

/// A finite value rounds to its own position.
pub proof fn lemma_rounds_to_itself(a: F32)
    requires
        a.is_finite(),
    ensures
        rounded_sum(Format::Single, a.value()) == a.key(),
{
    lemma_order(a, a);
    lemma_round_exact(Format::Single, a.raw().mag as nat);
    lemma_units_zero(Format::Single, a.raw().mag as nat);
}

/// The position of a sum of finite numbers.
pub proof fn lemma_add_key(a: F32, b: F32)
    requires
        a.is_finite(),
        b.is_finite(),
    ensures
        !(a + b).is_nan(),
        (a + b).key() == rounded_sum(Format::Single, a.value() + b.value()),
{
    reveal(F32::spec_add);
    let v = a.value() + b.value();
    if v < 0 {
        lemma_round_top(Format::Single, (-v) as nat, 1);
    } else {
        lemma_round_top(Format::Single, v as nat, 1);
        lemma_round_exact(Format::Single, 0);
        lemma_units_zero(Format::Single, 0);
    }
}

/// The position of a difference of finite numbers.
pub proof fn lemma_sub_key(a: F32, b: F32)
    requires
        a.is_finite(),
        b.is_finite(),
    ensures
        !(a - b).is_nan(),
        (a - b).key() == rounded_sum(Format::Single, a.value() - b.value()),
{
    reveal(F32::spec_sub);
    let v = a.value() - b.value();
    assert(b.raw().negated().value(Format::Single) == -b.value());
    if v < 0 {
        lemma_round_top(Format::Single, (-v) as nat, 1);
    } else {
        lemma_round_top(Format::Single, v as nat, 1);
        lemma_round_exact(Format::Single, 0);
        lemma_units_zero(Format::Single, 0);
    }
}

/// The position of a product of finite numbers that are not negative.
pub proof fn lemma_mul_key(a: F32, b: F32)
    requires
        a.is_finite(),
        b.is_finite(),
        a.key() >= 0,
        b.key() >= 0,
    ensures
        !(a * b).is_nan(),
        (a * b).key() == round_mag(
            Format::Single,
            units(Format::Single, a.key() as nat) * units(Format::Single, b.key() as nat),
            pow2(149),
        ),
{
    reveal(F32::spec_mul);
    let f = Format::Single;
    let n = units(f, a.key() as nat) * units(f, b.key() as nat);
    lemma_round_top(f, n, pow2(149));
    lemma_pow2_pos(149);
    if a.key() == 0 || b.key() == 0 {
        lemma_units_zero(f, 0);
        assert(n == 0) by (nonlinear_arith)
            requires
                n == units(f, a.key() as nat) * units(f, b.key() as nat),
                units(f, a.key() as nat) == 0 || units(f, b.key() as nat) == 0,
        ;
        super::round::lemma_round_zero(f, pow2(149));
    }
}

/// The position of a quotient of finite numbers that are not negative.
pub proof fn lemma_div_key(a: F32, b: F32)
    requires
        a.is_finite(),
        b.is_finite(),
        a.key() >= 0,
        b.key() > 0,
    ensures
        !(a / b).is_nan(),
        (a / b).key() == round_mag(
            Format::Single,
            units(Format::Single, a.key() as nat) * pow2(149),
            units(Format::Single, b.key() as nat),
        ),
{
    reveal(F32::spec_div);
    let f = Format::Single;
    let n = units(f, a.key() as nat) * pow2(149);
    let d = units(f, b.key() as nat);
    lemma_round_top(f, n, d);
    lemma_units_zero(f, b.key() as nat);
    if a.key() == 0 {
        lemma_units_zero(f, 0);
        assert(n == 0) by (nonlinear_arith)
            requires
                n == units(f, a.key() as nat) * pow2(149),
                units(f, a.key() as nat) == 0,
        ;
        super::round::lemma_round_zero(f, d);
    }
}

/// A product of a number that is not negative and one in `0..=1` lies between
/// zero and the first.
pub proof fn lemma_mul_unit(a: F32, b: F32)
    requires
        a.is_finite(),
        0 <= a.key(),
        0 <= b.key() <= F32::one().key(),
    ensures
        (a * b).is_finite(),
        0 <= (a * b).key() <= a.key(),
{
    lemma_mul_key(a, b);
    lemma_product_small(Format::Single, a.key() as nat, b.key() as nat);
}

/// Multiplying by one changes nothing.
pub proof fn lemma_mul_one(a: F32)
    requires
        a.is_finite(),
    ensures
        a * F32::one() == a,
{
    reveal(F32::spec_mul);
    lemma_product_one(Format::Single, a.raw().mag as nat);
}

/// Multiplying by zero leaves zero.
pub proof fn lemma_mul_zero(a: F32, z: F32)
    requires
        a.is_finite(),
        z.key() == 0,
    ensures
        (a * z).key() == 0,
        (a * z).is_finite(),
        (z * a).key() == 0,
        (z * a).is_finite(),
{
    reveal(F32::spec_mul);
    let f = Format::Single;
    lemma_units_zero(f, 0);
    lemma_pow2_pos(149);
    let x = units(f, a.raw().mag as nat);
    assert(x * 0 == 0 && 0 * x == 0);
    super::round::lemma_round_zero(f, pow2(149));
}

/// What a sum that starts from a positive zero can be: no negative zero, and no
/// other "not a number" than the one that operations give.
pub open spec fn settled(a: F32) -> bool {
    a.bits != 0x8000_0000 && (a.is_nan() ==> a.bits == 0x7fc0_0000)
}

/// Adding to a settled number leaves a settled one, and adding nothing leaves
/// the same.
pub proof fn lemma_add_settled(a: F32, b: F32)
    requires
        settled(a),
    ensures
        settled(a + b),
        b.key() == 0 ==> a + b == a,
{
    reveal(F32::spec_add);
    let f = Format::Single;
    if a.is_finite() && b.is_finite() {
        let v = a.value() + b.value();
        lemma_units_zero(f, 0);
        lemma_units_zero(f, a.raw().mag as nat);
        lemma_units_zero(f, b.raw().mag as nat);
        lemma_round_exact(f, 1);
        assert(units(f, 1) == 1) by {
            lemma2_to64();
        }
        if v > 0 {
            lemma_round_monotone(f, 1, 1, v as nat, 1);
            lemma_round_top(f, v as nat, 1);
        } else if v < 0 {
            lemma_round_monotone(f, 1, 1, (-v) as nat, 1);
            lemma_round_top(f, (-v) as nat, 1);
        }
        if b.key() == 0 {
            lemma_round_exact(f, a.raw().mag as nat);
        }
    }
}

/// Taking something in `0..=1` from one leaves something in `0..=1`.
pub proof fn lemma_one_minus(p: F32)
    requires
        0 <= p.key() <= F32::one().key(),
    ensures
        0 <= (F32::one() - p).key() <= F32::one().key(),
        p.key() == 0 ==> (F32::one() - p).key() == F32::one().key(),
        p.key() == F32::one().key() ==> (F32::one() - p).key() == 0,
{
    let one = F32::one();
    let zero = F32::zero();
    lemma_sub_key(one, p);
    lemma_order(zero, p);
    lemma_order(p, one);
    lemma_order(zero, one);
    let v = one.value() - p.value();
    lemma_rounded_sum_monotone(Format::Single, 0, v);
    lemma_rounded_sum_monotone(Format::Single, v, one.value());
    lemma_rounds_to_itself(one);
    lemma_rounds_to_itself(zero);
}

/// A small whole number is held exactly.
pub proof fn lemma_from_small(v: u32)
    requires
        v < 0x100_0000,
    ensures
        F32::from_u32(v).is_finite(),
        F32::from_u32(v).key() >= 0,
        units(Format::Single, F32::from_u32(v).key() as nat) == v * pow2(149),
{
    reveal(F32::spec_from_u64);
    let f = Format::Single;
    lemma2_to64();
    assert(pow2(24) == 0x100_0000);
    let h = pow2((f.p() - 1) as nat);
    assert((149 + 2) * h <= f.top()) by (nonlinear_arith)
        requires
            h == 0x80_0000,
            f.top() == 0x7f80_0000,
    ;
    let mag = lemma_exact(f, v as nat, 149);
}

/// The position of a ratio of small whole numbers.
pub proof fn lemma_ratio_key(n: u32, d: u32)
    requires
        n < 0x100_0000,
        0 < d < 0x100_0000,
    ensures
        F32::ratio(n, d).is_finite(),
        F32::ratio(n, d).key() == round_mag(Format::Single, n as nat * pow2(149), d as nat),
{
    let f = Format::Single;
    let a = F32::from_u32(n);
    let b = F32::from_u32(d);
    lemma_from_small(n);
    lemma_from_small(d);
    lemma_units_zero(f, b.key() as nat);
    let u = pow2(149);
    lemma_pow2_pos(149);
    assert(d * u > 0) by (nonlinear_arith)
        requires
            d > 0,
            u > 0,
    ;
    lemma_div_key(a, b);
    let x = n as nat * u;
    assert((x * u) * d as nat == x * (d as nat * u)) by (nonlinear_arith);
    lemma_round_same(f, x * u, d as nat * u, x, d as nat);
    // Not above the dividend itself, which is finite.
    assert(x * 1 <= x * d as nat) by (nonlinear_arith)
        requires
            d >= 1,
    ;
    lemma_round_monotone(f, x, d as nat, x, 1);
    lemma_round_exact(f, a.key() as nat);
}

/// Ratios in order are held in order.
pub proof fn lemma_ratio_le(a: u32, b: u32, c: u32, d: u32)
    requires
        a < 0x100_0000,
        c < 0x100_0000,
        0 < b < 0x100_0000,
        0 < d < 0x100_0000,
        a * d <= c * b,
    ensures
        0 <= F32::ratio(a, b).key() <= F32::ratio(c, d).key(),
        F32::ratio(a, b).le(F32::ratio(c, d)),
{
    let u = pow2(149);
    lemma_ratio_key(a, b);
    lemma_ratio_key(c, d);
    assert((a as nat * u) * d as nat <= (c as nat * u) * b as nat) by (nonlinear_arith)
        requires
            a * d <= c * b,
    ;
    lemma_round_monotone(Format::Single, a as nat * u, b as nat, c as nat * u, d as nat);
}

/// A ratio of equals is one, and of nothing is zero.
pub proof fn lemma_ratio_ends(d: u32)
    requires
        0 < d < 0x100_0000,
    ensures
        F32::ratio(d, d) == F32::one(),
        F32::ratio(0, d) == F32::zero(),
{
    let f = Format::Single;
    let u = pow2(149);
    lemma_ratio_key(d, d);
    lemma_ratio_key(0, d);
    lemma_unity(f);
    assert((d as nat * u) * 1 == u * d as nat) by (nonlinear_arith);
    lemma_round_same(f, d as nat * u, d as nat, u, 1);
    lemma_round_exact(f, f.unity());
    assert(0 * u == 0) by (nonlinear_arith);
    super::round::lemma_round_zero(f, d as nat);
    assert(F32::ratio(d, d).key() == F32::one().key());
    assert(F32::ratio(0, d).key() == 0);
    lemma_ratio_sign(d, d);
    lemma_ratio_sign(0, d);
}

/// A ratio of whole numbers has no sign.
pub proof fn lemma_ratio_sign(n: u32, d: u32)
    requires
        n < 0x100_0000,
        0 < d < 0x100_0000,
    ensures
        F32::ratio(n, d).bits < 0x8000_0000,
{
    reveal(F32::spec_div);
    reveal(F32::spec_from_u64);
    lemma_from_small(n);
    lemma_from_small(d);
    lemma_round_top(Format::Single, n as nat * pow2(149), 1);
    lemma_round_top(Format::Single, d as nat * pow2(149), 1);
    let a = F32::from_u32(n);
    let b = F32::from_u32(d);
    lemma_units_zero(Format::Single, b.key() as nat);
    lemma_pow2_pos(149);
    assert(d * pow2(149) > 0) by (nonlinear_arith)
        requires
            d > 0,
            pow2(149) > 0,
    ;
    lemma_round_top(
        Format::Single,
        units(Format::Single, a.raw().mag as nat) * pow2(149),
        units(Format::Single, b.raw().mag as nat),
    );
}

/// A quotient by a positive number keeps the sign.
pub proof fn lemma_div_sign(a: F32, b: F32)
    requires
        a.is_finite(),
        b.is_finite(),
        b.key() > 0,
    ensures
        !(a / b).is_nan(),
        a.key() <= 0 ==> (a / b).key() <= 0,
        a.key() >= 0 ==> (a / b).key() >= 0,
{
    reveal(F32::spec_div);
    let f = Format::Single;
    let x = a.raw().mag as nat;
    let y = b.raw().mag as nat;
    lemma_round_top(f, units(f, x) * pow2(149), units(f, y));
    if x == 0 {
        lemma_units_zero(f, 0);
        lemma_units_zero(f, y);
        assert(0 * pow2(149) == 0) by (nonlinear_arith);
        super::round::lemma_round_zero(f, units(f, y));
    }
}

/// What is at least one unit does not round away.
pub proof fn lemma_round_positive(f: Format, n: nat, d: nat)
    requires
        0 < d <= n,
    ensures
        round_mag(f, n, d) >= 1,
{
    lemma2_to64();
    lemma2_to64_rest();
    assert(units(f, 1) == 1);
    lemma_round_exact(f, 1);
    lemma_round_monotone(f, 1, 1, n, d);
}

/// The largest finite number leaves room for one more.
proof fn lemma_room_at_the_top(v: nat)
    requires
        v <= units(Format::Single, 0x7f7f_ffff) + pow2(149),
    ensures
        round_mag(Format::Single, v, 1) < 0x7f80_0000,
{
    let f = Format::Single;
    lemma2_to64();
    let u = pow2(253);
    let most = units(f, 0x7f7f_ffff);
    assert(0x7f7f_ffffnat / 0x80_0000nat == 254 && 0x7f7f_ffffnat % 0x80_0000nat == 0x7f_ffff);
    assert(most == 0xff_ffff * u);
    lemma_pow2_unfold(253);
    lemma_pow2_unfold(252);
    let q = pow2(251);
    assert(u == 4 * q);
    lemma_pow2_le(149, 251);
    let a: nat = 4 * 0xff_ffff + 1;
    let n = a * q;
    assert(n * 4 == (a * u) * 1) by (nonlinear_arith)
        requires
            u == 4 * q,
            n == a * q,
    ;
    assert(v <= n) by (nonlinear_arith)
        requires
            v <= 0xff_ffff * u + q,
            u == 4 * q,
            n == (4 * 0xff_ffff + 1) * q,
    ;
    lemma_round_monotone(f, v, 1, n, 1);
    lemma_round_at(f, n, 1, 253, a, 4);
}

/// A number of at most one, less a finite one, is finite.
pub proof fn lemma_finite_difference(a: F32, b: F32)
    requires
        0 <= a.key() <= F32::one().key(),
        b.is_finite(),
    ensures
        (a - b).is_finite(),
{
    let f = Format::Single;
    lemma_sub_key(a, b);
    lemma_order(a, F32::one());
    lemma_unity(f);
    lemma_units_monotone(f, b.raw().mag as nat, 0x7f7f_ffff);
    let v = a.value() - b.value();
    if v < 0 {
        lemma_room_at_the_top((-v) as nat);
    } else {
        lemma_room_at_the_top(v as nat);
    }
}

/// What lies at or below a number of few bits rounds to no more than it.
pub proof fn lemma_round_upper(f: Format, n: nat, d: nat, m: nat, e: nat)
    requires
        d > 0,
        n <= (m * pow2(e)) * d,
        m < pow2(f.p()),
        (e + 2) * pow2((f.p() - 1) as nat) <= f.top(),
    ensures
        round_mag(f, n, d) < f.top(),
        units(f, round_mag(f, n, d)) <= m * pow2(e),
{
    let mag = lemma_exact(f, m, e);
    assert(n * 1 <= (m * pow2(e)) * d);
    lemma_round_monotone(f, n, d, m * pow2(e), 1);
    lemma_units_monotone(f, round_mag(f, n, d), mag);
}

/// What lies at or above a number of few bits rounds to no less than it.
pub proof fn lemma_round_lower(f: Format, n: nat, d: nat, m: nat, e: nat)
    requires
        d > 0,
        n >= (m * pow2(e)) * d,
        m < pow2(f.p()),
        (e + 2) * pow2((f.p() - 1) as nat) <= f.top(),
        round_mag(f, n, d) < f.top(),
    ensures
        units(f, round_mag(f, n, d)) >= m * pow2(e),
{
    let mag = lemma_exact(f, m, e);
    assert((m * pow2(e)) * d <= n * 1);
    lemma_round_monotone(f, m * pow2(e), 1, n, d);
    lemma_units_monotone(f, mag, round_mag(f, n, d));
}

/// A whole number is finite and not negative.
pub proof fn lemma_from_whole(v: u64)
    ensures
        F32::from_u64(v).is_finite(),
        F32::from_u64(v).key() >= 0,
        F32::from_u64(v).key() == round_mag(Format::Single, v as nat * pow2(149), 1),
{
    reveal(F32::spec_from_u64);
    let f = Format::Single;
    lemma2_to64();
    lemma2_to64_rest();
    let h = pow2((f.p() - 1) as nat);
    assert((213 + 2) * h <= f.top()) by (nonlinear_arith)
        requires
            h == 0x80_0000,
            f.top() == 0x7f80_0000,
    ;
    lemma_pow2_adds(64, 149);
    lemma_pow2_pos(149);
    assert(v as nat * pow2(149) <= (1 * pow2(213)) * 1) by (nonlinear_arith)
        requires
            v < 0x1_0000_0000_0000_0000,
            pow2(213) == 0x1_0000_0000_0000_0000 * pow2(149),
            pow2(149) > 0,
    ;
    lemma_round_upper(f, v as nat * pow2(149), 1, 1, 213);
}

/// Products of numbers that are not negative keep their order.
pub proof fn lemma_mul_monotone(a1: F32, b1: F32, a2: F32, b2: F32)
    requires
        0 <= a1.key() <= a2.key(),
        0 <= b1.key() <= b2.key(),
        a2.is_finite(),
        b2.is_finite(),
    ensures
        0 <= (a1 * b1).key() <= (a2 * b2).key() <= 0x7f80_0000,
{
    lemma_mul_key(a1, b1);
    lemma_mul_key(a2, b2);
    lemma_product_monotone(
        Format::Single,
        a1.key() as nat,
        b1.key() as nat,
        a2.key() as nat,
        b2.key() as nat,
    );
    lemma_round_top(
        Format::Single,
        units(Format::Single, a2.key() as nat) * units(Format::Single, b2.key() as nat),
        pow2(149),
    );
}

/// Dropping fractions keeps the order.
pub proof fn lemma_to_u32_monotone(a: F32, b: F32)
    requires
        0 <= a.key() <= b.key() <= 0x7f80_0000,
    ensures
        a.to_u32() <= b.to_u32(),
{
    reveal(F32::spec_to_u32);
    let f = Format::Single;
    lemma_pow2_pos(149);
    if b.is_finite() {
        lemma_units_monotone(f, a.key() as nat, b.key() as nat);
        vstd::arithmetic::div_mod::lemma_div_is_ordered(
            units(f, a.key() as nat) as int,
            units(f, b.key() as nat) as int,
            pow2(149) as int,
        );
        lemma_units_zero(f, 0);
        vstd::arithmetic::div_mod::lemma_div_pos_is_pos(
            units(f, a.key() as nat) as int,
            pow2(149) as int,
        );
    }
}

/// A whole number in the longer format.
pub proof fn lemma_double_from(v: u64)
    ensures
        F64::from_u64(v).is_finite(),
        F64::from_u64(v).key() >= 0,
        F64::from_u64(v).key() == round_mag(Format::Double, v as nat * pow2(1074), 1),
        units(Format::Double, F64::from_u64(v).key() as nat) <= pow2(64) * pow2(1074),
        v < 0x20_0000_0000_0000 ==> units(Format::Double, F64::from_u64(v).key() as nat) == v
            * pow2(1074),
{
    reveal(F64::spec_from_u64);
    let f = Format::Double;
    lemma2_to64();
    lemma2_to64_rest();
    let h = pow2((f.p() - 1) as nat);
    assert((1138 + 2) * h <= f.top()) by (nonlinear_arith)
        requires
            h == 0x10_0000_0000_0000,
            f.top() == 0x7ff0_0000_0000_0000,
    ;
    lemma_pow2_adds(64, 1074);
    lemma_pow2_pos(1074);
    assert(v as nat * pow2(1074) <= (1 * pow2(1138)) * 1) by (nonlinear_arith)
        requires
            v < 0x1_0000_0000_0000_0000,
            pow2(1138) == 0x1_0000_0000_0000_0000 * pow2(1074),
            pow2(1074) > 0,
    ;
    lemma_round_upper(f, v as nat * pow2(1074), 1, 1, 1138);
    if v < 0x20_0000_0000_0000 {
        assert((1074 + 2) * h <= f.top()) by (nonlinear_arith)
            requires
                h == 0x10_0000_0000_0000,
                f.top() == 0x7ff0_0000_0000_0000,
        ;
        let mag = lemma_exact(f, v as nat, 1074);
    }
}

/// The position of a product in the longer format, of numbers that are not
/// negative.
pub proof fn lemma_double_mul(a: F64, b: F64)
    requires
        a.is_finite(),
        b.is_finite(),
        a.key() >= 0,
        b.key() >= 0,
    ensures
        !(a * b).is_nan(),
        (a * b).key() == round_mag(
            Format::Double,
            units(Format::Double, a.key() as nat) * units(Format::Double, b.key() as nat),
            pow2(1074),
        ),
{
    reveal(F64::spec_mul);
    let f = Format::Double;
    let n = units(f, a.key() as nat) * units(f, b.key() as nat);
    lemma_round_top(f, n, pow2(1074));
    if a.key() == 0 || b.key() == 0 {
        lemma_units_zero(f, 0);
        assert(n == 0) by (nonlinear_arith)
            requires
                n == units(f, a.key() as nat) * units(f, b.key() as nat),
                units(f, a.key() as nat) == 0 || units(f, b.key() as nat) == 0,
        ;
        lemma_pow2_pos(1074);
        super::round::lemma_round_zero(f, pow2(1074));
    }
}

/// The position of a quotient in the longer format, of numbers that are not
/// negative.
pub proof fn lemma_double_div(a: F64, b: F64)
    requires
        a.is_finite(),
        b.is_finite(),
        a.key() >= 0,
        b.key() > 0,
    ensures
        !(a / b).is_nan(),
        (a / b).key() == round_mag(
            Format::Double,
            units(Format::Double, a.key() as nat) * pow2(1074),
            units(Format::Double, b.key() as nat),
        ),
{
    reveal(F64::spec_div);
    let f = Format::Double;
    let n = units(f, a.key() as nat) * pow2(1074);
    let d = units(f, b.key() as nat);
    lemma_round_top(f, n, d);
    lemma_units_zero(f, b.key() as nat);
    if a.key() == 0 {
        lemma_units_zero(f, 0);
        assert(n == 0) by (nonlinear_arith)
            requires
                n == units(f, a.key() as nat) * pow2(1074),
                units(f, a.key() as nat) == 0,
        ;
        super::round::lemma_round_zero(f, d);
    }
}

/// The longer format holds what the shorter one does: a number that is not
/// negative keeps its place among the others.
pub proof fn lemma_widened(a: F32)
    requires
        a.is_finite(),
        a.key() >= 0,
    ensures
        a.to_f64().is_finite(),
        a.to_f64().key() == round_mag(
            Format::Double,
            units(Format::Single, a.key() as nat) * pow2(1074),
            pow2(149),
        ),
        a.key() > 0 ==> a.to_f64().key() > 0,
        units(Format::Double, a.to_f64().key() as nat) <= pow2(1202),
{
    reveal(F32::spec_to_f64);
    let f = Format::Double;
    let n = units(Format::Single, a.key() as nat);
    lemma2_to64();
    lemma2_to64_rest();
    lemma_pow2_pos(149);
    lemma_units_monotone(Format::Single, a.key() as nat, 0x7f7f_ffff);
    assert(0x7f7f_ffffnat / 0x80_0000nat == 254 && 0x7f7f_ffffnat % 0x80_0000nat == 0x7f_ffff);
    assert(units(Format::Single, 0x7f7f_ffff) == 0xff_ffff * pow2(253));
    lemma_pow2_adds(24, 253);
    assert(n <= pow2(277)) by (nonlinear_arith)
        requires
            n <= 0xff_ffff * pow2(253),
            pow2(277) == 0x100_0000 * pow2(253),
    ;
    lemma_pow2_adds(277, 1074);
    lemma_pow2_adds(1202, 149);
    lemma_mul_le(n as int, pow2(277) as int, pow2(1074) as int);
    let h = pow2((f.p() - 1) as nat);
    assert((1202 + 2) * h <= f.top()) by (nonlinear_arith)
        requires
            h == 0x10_0000_0000_0000,
            f.top() == 0x7ff0_0000_0000_0000,
    ;
    assert(1 * pow2(1202) == pow2(1202));
    lemma_round_upper(f, n * pow2(1074), pow2(149), 1, 1202);
    lemma_units_zero(Format::Single, a.key() as nat);
    if a.key() > 0 {
        lemma_pow2_le(149, 1074);
        assert(n * pow2(1074) >= pow2(149)) by (nonlinear_arith)
            requires
                n >= 1,
                pow2(1074) >= pow2(149),
        ;
        lemma_round_positive(f, n * pow2(1074), pow2(149));
    } else {
        assert(n == 0);
        assert(0 * pow2(1074) == 0) by (nonlinear_arith);
        super::round::lemma_round_zero(f, pow2(149));
    }
}

/// Widening keeps numbers in order.
pub proof fn lemma_widened_order(a: F32, b: F32)
    requires
        a.is_finite(),
        b.is_finite(),
        0 <= a.key() <= b.key(),
    ensures
        a.to_f64().key() <= b.to_f64().key(),
{
    let m = units(Format::Single, a.key() as nat);
    let n = units(Format::Single, b.key() as nat);
    let d = pow2(149);
    lemma_widened(a);
    lemma_widened(b);
    lemma_pow2_pos(149);
    lemma_units_monotone(Format::Single, a.key() as nat, b.key() as nat);
    assert((m * pow2(1074)) * d <= (n * pow2(1074)) * d) by (nonlinear_arith)
        requires
            m <= n,
    ;
    lemma_round_monotone(Format::Double, m * pow2(1074), d, n * pow2(1074), d);
}

} // verus!
