//! What a binary floating-point number is, and what rounding means.
//!
//! Both formats are described the same way. A *magnitude* is the bit pattern
//! without its sign: the biased exponent above the fraction. Every finite value
//! is a whole number of *units*, the least positive value of its format, so
//! exact results are ratios of integers and rounding is a function on those.

use vstd::arithmetic::power2::{
    lemma_pow2_adds, lemma_pow2_pos, lemma_pow2_strictly_increases, lemma_pow2_unfold, pow2,
};
use vstd::prelude::*;

verus! {

/// The two binary interchange formats in use.
#[derive(Clone, Copy, PartialEq, Eq, Structural, Debug)]
pub enum Format {
    /// 32 bits, 24 of them precision.
    Single,
    /// 64 bits, 53 of them precision.
    Double,
}

impl Format {
    /// Significant bits.
    pub open spec fn p(self) -> nat {
        match self {
            Format::Single => 24,
            Format::Double => 53,
        }
    }

    /// Magnitude of infinity; what lies above it is not a number.
    pub open spec fn top(self) -> nat {
        match self {
            Format::Single => 0x7f80_0000,
            Format::Double => 0x7ff0_0000_0000_0000,
        }
    }

    /// The magnitude given to results that are not a number.
    pub open spec fn quiet(self) -> nat {
        match self {
            Format::Single => 0x7fc0_0000,
            Format::Double => 0x7ff8_0000_0000_0000,
        }
    }

    /// Units per one, as a power of two.
    pub open spec fn unit(self) -> nat {
        match self {
            Format::Single => 149,
            Format::Double => 1074,
        }
    }

    /// Least magnitude from which every value is a whole number.
    pub open spec fn whole(self) -> nat {
        match self {
            Format::Single => 0x4b00_0000,
            Format::Double => 0x4330_0000_0000_0000,
        }
    }
}

/// The nearest integer to `x`, ties to even, where `t` is `floor(2 * x)` and
/// `exact` says whether `t` is all of `2 * x`.
pub open spec fn halve_even(t: nat, exact: bool) -> nat {
    if t % 2 == 0 || (exact && (t / 2) % 2 == 0) {
        t / 2
    } else {
        t / 2 + 1
    }
}

/// The least `s` with `n / d < 2^(s + p)`.
pub open spec fn scale(p: nat, n: nat, d: nat) -> nat
    decreases (if n >= d * pow2(p) { n - d * pow2(p) + 1 } else { 0 }),
{
    if d == 0 || n < d * pow2(p) {
        0
    } else {
        proof {
            lemma_pow2_pos(p);
            assert((2 * d) * pow2(p) == 2 * (d * pow2(p))) by (nonlinear_arith);
            assert(d * pow2(p) >= 1) by (nonlinear_arith)
                requires
                    d >= 1,
                    pow2(p) >= 1,
            ;
        }
        1 + scale(p, n, 2 * d)
    }
}

/// The magnitude nearest to `n / d` units, ties to even.
pub open spec fn round_mag(f: Format, n: nat, d: nat) -> nat {
    let s = scale(f.p(), n, d);
    let q = d * pow2(s);
    let m = s * pow2((f.p() - 1) as nat) + halve_even((2 * n) / q, (2 * n) % q == 0);
    if m < f.top() {
        m
    } else {
        f.top()
    }
}

/// How many units a finite magnitude stands for.
pub open spec fn units(f: Format, mag: nat) -> nat {
    let h = pow2((f.p() - 1) as nat);
    if mag < h {
        mag
    } else {
        (h + mag % h) * pow2((mag / h - 1) as nat)
    }
}

/// `scale` is the one number that fits.
pub proof fn lemma_scale(p: nat, n: nat, d: nat)
    requires
        d > 0,
    ensures
        n < d * pow2(scale(p, n, d) + p),
        scale(p, n, d) > 0 ==> n >= d * pow2((scale(p, n, d) + p - 1) as nat),
    decreases (if n >= d * pow2(p) { n - d * pow2(p) + 1 } else { 0 }),
{
    lemma_pow2_pos(p);
    if n < d * pow2(p) {
    } else {
        assert((2 * d) * pow2(p) == 2 * (d * pow2(p))) by (nonlinear_arith);
        assert(d * pow2(p) >= 1) by (nonlinear_arith)
            requires
                d >= 1,
                pow2(p) >= 1,
        ;
        lemma_scale(p, n, 2 * d);
        let r = scale(p, n, 2 * d);
        lemma_pow2_unfold(r + 1 + p);
        assert((2 * d) * pow2(r + p) == d * (2 * pow2(r + p))) by (nonlinear_arith);
        if r > 0 {
            lemma_pow2_unfold(r + p);
            assert((2 * d) * pow2((r + p - 1) as nat) == d * (2 * pow2((r + p - 1) as nat)))
                by (nonlinear_arith);
        }
    }
}

pub proof fn lemma_pow2_le(a: nat, b: nat)
    requires
        a <= b,
    ensures
        0 < pow2(a) <= pow2(b),
{
    lemma_pow2_pos(a);
    if a < b {
        lemma_pow2_strictly_increases(a, b);
    }
}

pub proof fn lemma_scale_unique(p: nat, n: nat, d: nat, s: nat)
    requires
        d > 0,
        n < d * pow2(s + p),
        s > 0 ==> n >= d * pow2((s + p - 1) as nat),
    ensures
        scale(p, n, d) == s,
{
    lemma_scale(p, n, d);
    let r = scale(p, n, d);
    if r < s {
        lemma_pow2_le(r + p, (s + p - 1) as nat);
        assert(d * pow2(r + p) <= d * pow2((s + p - 1) as nat)) by (nonlinear_arith)
            requires
                pow2(r + p) <= pow2((s + p - 1) as nat),
        ;
    } else if s < r {
        lemma_pow2_le(s + p, (r + p - 1) as nat);
        assert(d * pow2(s + p) <= d * pow2((r + p - 1) as nat)) by (nonlinear_arith)
            requires
                pow2(s + p) <= pow2((r + p - 1) as nat),
        ;
    }
}

/// Floor division, by its bounds.
pub proof fn lemma_quotient(x: nat, q: nat, t: nat)
    requires
        q > 0,
        t * q <= x < (t + 1) * q,
    ensures
        x / q == t,
        x % q == 0 <==> x == t * q,
{
    let r = x - t * q;
    assert((t + 1) * q == t * q + q) by (nonlinear_arith);
    vstd::arithmetic::div_mod::lemma_fundamental_div_mod_converse(x as int, q as int, t as int, r);
}

/// A short quotient is nothing.
pub proof fn lemma_quotient_small(x: nat, q: nat)
    requires
        x < q,
    ensures
        x / q == 0,
        x % q == x,
{
    assert(0 * q == 0 && (0 + 1) * q == q) by (nonlinear_arith);
    vstd::arithmetic::div_mod::lemma_small_mod(x, q);
    lemma_quotient(x, q, 0);
}

/// The bounds of a floor division.
pub proof fn lemma_quotient_bounds(x: nat, q: nat)
    requires
        q > 0,
    ensures
        (x / q) * q <= x < (x / q + 1) * q,
        x % q == 0 <==> x == (x / q) * q,
{
    vstd::arithmetic::div_mod::lemma_fundamental_div_mod(x as int, q as int);
    let t = x / q;
    assert((t + 1) * q == t * q + q) by (nonlinear_arith);
    assert(q * t == t * q) by (nonlinear_arith);
}

/// What rounding multiplies: the doubled quotient, between its bounds.
pub proof fn lemma_round_parts(f: Format, n: nat, d: nat)
    requires
        d > 0,
    ensures
        ({
            let s = scale(f.p(), n, d);
            let q = d * pow2(s);
            let t = (2 * n) / q;
            &&& q > 0
            &&& t * q <= 2 * n < (t + 1) * q
            &&& (2 * n) % q == 0 <==> 2 * n == t * q
            &&& t < pow2(f.p() + 1)
            &&& s > 0 ==> t >= pow2(f.p())
            &&& halve_even(t, (2 * n) % q == 0) <= pow2(f.p())
            &&& s > 0 ==> halve_even(t, (2 * n) % q == 0) >= pow2((f.p() - 1) as nat)
        }),
{
    let p = f.p();
    let s = scale(p, n, d);
    let q = d * pow2(s);
    let t = (2 * n) / q;
    lemma_pow2_pos(s);
    assert(q > 0) by (nonlinear_arith)
        requires
            d > 0,
            pow2(s) > 0,
            q == d * pow2(s),
    ;
    lemma_quotient_bounds(2 * n, q);
    lemma_scale(p, n, d);
    lemma_pow2_adds(s, p);
    lemma_pow2_unfold(p + 1);
    lemma_pow2_unfold(p);
    assert(2 * n < pow2(p + 1) * q) by (nonlinear_arith)
        requires
            n < d * (pow2(s) * pow2(p)),
            pow2(p + 1) == 2 * pow2(p),
            q == d * pow2(s),
    ;
    assert(t < pow2(p + 1)) by (nonlinear_arith)
        requires
            t * q <= 2 * n,
            2 * n < pow2(p + 1) * q,
            q > 0,
    ;
    if s > 0 {
        lemma_pow2_adds(s, (p - 1) as nat);
        assert(2 * n >= pow2(p) * q) by (nonlinear_arith)
            requires
                n >= d * (pow2(s) * pow2((p - 1) as nat)),
                pow2(p) == 2 * pow2((p - 1) as nat),
                q == d * pow2(s),
        ;
        assert(t >= pow2(p)) by (nonlinear_arith)
            requires
                2 * n < (t + 1) * q,
                2 * n >= pow2(p) * q,
                q > 0,
        ;
    }
}

pub proof fn lemma_mul_le(a: int, b: int, c: int)
    requires
        a <= b,
        c >= 0,
    ensures
        a * c <= b * c,
        c * a <= c * b,
{
    assert(a * c <= b * c) by (nonlinear_arith)
        requires
            a <= b,
            c >= 0,
    ;
    assert(c * a <= c * b) by (nonlinear_arith)
        requires
            a <= b,
            c >= 0,
    ;
}

/// Rounding keeps the order of exact values.
pub proof fn lemma_round_monotone(f: Format, n1: nat, d1: nat, n2: nat, d2: nat)
    requires
        d1 > 0,
        d2 > 0,
        n1 * d2 <= n2 * d1,
    ensures
        round_mag(f, n1, d1) <= round_mag(f, n2, d2),
{
    let p = f.p();
    let h = pow2((p - 1) as nat);
    let s1 = scale(p, n1, d1);
    let s2 = scale(p, n2, d2);
    let q1 = d1 * pow2(s1);
    let q2 = d2 * pow2(s2);
    let t1 = (2 * n1) / q1;
    let t2 = (2 * n2) / q2;
    let k1 = halve_even(t1, (2 * n1) % q1 == 0);
    let k2 = halve_even(t2, (2 * n2) % q2 == 0);
    lemma_round_parts(f, n1, d1);
    lemma_round_parts(f, n2, d2);
    lemma_scale(p, n1, d1);
    lemma_scale(p, n2, d2);
    lemma_pow2_unfold(p);
    lemma_pow2_pos((p - 1) as nat);
    if s2 < s1 {
        let a = pow2(s2 + p);
        let b = pow2((s1 + p - 1) as nat);
        lemma_pow2_le(s2 + p, (s1 + p - 1) as nat);
        assert(false) by (nonlinear_arith)
            requires
                n1 * d2 <= n2 * d1,
                n2 < d2 * a,
                n1 >= d1 * b,
                a <= b,
                d1 > 0,
                d2 > 0,
        ;
    } else if s1 == s2 {
        let w = pow2(s1);
        lemma_pow2_pos(s1);
        // Both doubled quotients are taken at one scale.
        assert(t1 <= t2) by (nonlinear_arith)
            requires
                n1 * d2 <= n2 * d1,
                t1 * (d1 * w) <= 2 * n1,
                2 * n2 < (t2 + 1) * (d2 * w),
                d1 > 0,
                d2 > 0,
                w > 0,
        ;
        if t1 == t2 && (2 * n2) % q2 == 0 && (2 * n1) % q1 != 0 {
            assert(false) by (nonlinear_arith)
                requires
                    n1 * d2 <= n2 * d1,
                    t1 * (d1 * w) < 2 * n1,
                    2 * n2 == t1 * (d2 * w),
                    d1 > 0,
                    d2 > 0,
                    w > 0,
            ;
        }
        assert(k1 <= k2);
    } else {
        lemma_mul_le(s1 as int + 1, s2 as int, h as int);
        assert((s1 + 1) * h == s1 * h + h) by (nonlinear_arith);
        assert(k1 <= 2 * h && k2 >= h);
    }
}

/// A representable value rounds to itself.
pub proof fn lemma_round_exact(f: Format, mag: nat)
    requires
        mag < f.top(),
    ensures
        round_mag(f, units(f, mag), 1) == mag,
{
    let p = f.p();
    let h = pow2((p - 1) as nat);
    let n = units(f, mag);
    lemma_pow2_pos((p - 1) as nat);
    lemma_pow2_unfold(p);
    vstd::arithmetic::power2::lemma2_to64();
    if mag < h {
        lemma_scale_unique(p, n, 1, 0);
        assert((2 * n) / 1 == 2 * n);
        assert(0 * h == 0);
    } else {
        let e = (mag / h - 1) as nat;
        let m = h + mag % h;
        lemma_quotient_bounds(mag, h);
        vstd::arithmetic::div_mod::lemma_fundamental_div_mod(mag as int, h as int);
        assert(mag / h >= 1) by (nonlinear_arith)
            requires
                mag >= h,
                mag < (mag / h + 1) * h,
                h > 0,
        ;
        let w = pow2(e);
        lemma_pow2_pos(e);
        lemma_pow2_adds(e, p);
        assert(n < 1 * pow2(e + p)) by (nonlinear_arith)
            requires
                n == m * w,
                m < pow2(p),
                pow2(e + p) == w * pow2(p),
                w > 0,
        ;
        if e > 0 {
            lemma_pow2_adds(e, (p - 1) as nat);
            assert(n >= 1 * pow2((e + p - 1) as nat)) by (nonlinear_arith)
                requires
                    n == m * w,
                    m >= h,
                    pow2((e + p - 1) as nat) == w * h,
            ;
        }
        lemma_scale_unique(p, n, 1, e);
        assert(1 * w == w);
        assert((2 * m) * w == 2 * n && 2 * n < (2 * m + 1) * w) by (nonlinear_arith)
            requires
                n == m * w,
                w > 0,
        ;
        lemma_quotient(2 * n, w, 2 * m);
        assert(e * h + h == (mag / h) * h) by (nonlinear_arith)
            requires
                e + 1 == mag / h,
        ;
        assert(h * (mag / h) == (mag / h) * h) by (nonlinear_arith);
        assert((2 * m) / 2 == m && (2 * m) % 2 == 0);
    }
}

/// Larger magnitudes stand for larger values.
pub proof fn lemma_units_increase(f: Format, a: nat, b: nat)
    requires
        a < b < f.top(),
    ensures
        units(f, a) < units(f, b),
{
    lemma_round_exact(f, a);
    lemma_round_exact(f, b);
    if units(f, b) <= units(f, a) {
        lemma_round_monotone(f, units(f, b), 1, units(f, a), 1);
    }
}

/// The largest whole number whose square is at most `n`.
pub open spec fn isqrt(n: nat) -> nat
    decreases n,
{
    if n == 0 {
        0
    } else {
        let r = 2 * isqrt(n / 4);
        if (r + 1) * (r + 1) <= n {
            r + 1
        } else {
            r
        }
    }
}

pub proof fn lemma_isqrt(n: nat)
    ensures
        isqrt(n) * isqrt(n) <= n < (isqrt(n) + 1) * (isqrt(n) + 1),
    decreases n,
{
    if n > 0 {
        lemma_isqrt(n / 4);
        let q = isqrt(n / 4);
        let r = 2 * q;
        assert(r * r <= n) by (nonlinear_arith)
            requires
                q * q <= n / 4,
                r == 2 * q,
        ;
        assert(n < (r + 2) * (r + 2)) by (nonlinear_arith)
            requires
                n / 4 < (q + 1) * (q + 1),
                r == 2 * q,
        ;
        let v = isqrt(n);
        if (r + 1) * (r + 1) <= n {
            assert(v == r + 1);
            assert(v * v <= n && n < (v + 1) * (v + 1));
        } else {
            assert(v == r);
            assert(v * v <= n && n < (v + 1) * (v + 1));
        }
    } else {
        let v = isqrt(n);
        assert(v * v == 0 && (v + 1) * (v + 1) == 1) by (nonlinear_arith)
            requires
                v == 0,
        ;
    }
}

pub proof fn lemma_isqrt_unique(n: nat, r: nat)
    requires
        r * r <= n < (r + 1) * (r + 1),
    ensures
        isqrt(n) == r,
{
    lemma_isqrt(n);
    let q = isqrt(n);
    if q < r {
        assert((q + 1) * (q + 1) <= r * r) by (nonlinear_arith)
            requires
                q + 1 <= r,
        ;
    } else if r < q {
        assert((r + 1) * (r + 1) <= q * q) by (nonlinear_arith)
            requires
                r + 1 <= q,
        ;
    }
}

/// The least `s` with `sqrt(n) < 2^(s + p)`.
pub open spec fn root_scale(p: nat, n: nat) -> nat
    decreases n,
{
    if n < pow2(p) * pow2(p) || n == 0 {
        0
    } else {
        1 + root_scale(p, n / 4)
    }
}

/// The magnitude nearest to the square root of `n`, in units, ties to even.
pub open spec fn root_mag(f: Format, n: nat) -> nat {
    let s = root_scale(f.p(), n);
    let q = pow2(s) * pow2(s);
    let t = isqrt((4 * n) / q);
    let m = s * pow2((f.p() - 1) as nat) + halve_even(t, (t * t) * q == 4 * n);
    if m < f.top() {
        m
    } else {
        f.top()
    }
}

pub proof fn lemma_root_scale_unique(p: nat, n: nat, s: nat)
    requires
        n < pow2(s + p) * pow2(s + p),
        s > 0 ==> n >= pow2((s + p - 1) as nat) * pow2((s + p - 1) as nat),
    ensures
        root_scale(p, n) == s,
    decreases s,
{
    lemma_pow2_pos(p);
    if s > 0 {
        lemma_pow2_le(p, (s + p - 1) as nat);
        let a = pow2((s + p - 1) as nat);
        assert(a * a >= pow2(p) * pow2(p)) by (nonlinear_arith)
            requires
                a >= pow2(p) >= 1,
        ;
        assert(pow2(p) * pow2(p) >= 1) by (nonlinear_arith)
            requires
                pow2(p) >= 1,
        ;
        lemma_pow2_unfold(s + p);
        assert(n / 4 < a * a) by (nonlinear_arith)
            requires
                n < pow2(s + p) * pow2(s + p),
                pow2(s + p) == 2 * a,
        ;
        if s > 1 {
            lemma_pow2_unfold((s + p - 1) as nat);
            let b = pow2((s + p - 2) as nat);
            assert(n / 4 >= b * b) by (nonlinear_arith)
                requires
                    n >= a * a,
                    a == 2 * b,
            ;
        }
        lemma_root_scale_unique(p, n / 4, (s - 1) as nat);
    }
}

} // verus!
