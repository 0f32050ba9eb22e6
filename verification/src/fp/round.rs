//! Rounding on machine words.
//!
//! An operation reduces to a significand `m`, an exponent `e` and a *sticky*
//! bit: the exact result lies in `[m, m + 1)` times `2^e` units, and the sticky
//! bit says that it is not `m * 2^e` itself. Rounding those three gives the
//! rounding of the exact result.

use super::model::{
    halve_even, lemma_mul_le, lemma_pow2_le, lemma_quotient, lemma_quotient_bounds,
    lemma_quotient_small, lemma_scale_unique, round_mag, Format,
};
use vstd::arithmetic::power2::{
    lemma2_to64, lemma2_to64_rest, lemma_pow2_adds, lemma_pow2_pos, lemma_pow2_unfold, pow2,
};
use vstd::bits::{lemma_u128_shr_is_div, lemma_u64_shl_is_mul, lemma_u64_shr_is_div};
use vstd::prelude::*;
use vstd::std_specs::bits::axiom_u64_leading_zeros;

verus! {

/// Bits needed to write `m`.
pub open spec fn bit_len(m: nat) -> nat
    decreases m,
{
    if m == 0 {
        0
    } else {
        1 + bit_len(m / 2)
    }
}

pub proof fn lemma_bit_len(m: nat)
    ensures
        m < pow2(bit_len(m)),
        m > 0 ==> bit_len(m) > 0 && m >= pow2((bit_len(m) - 1) as nat),
    decreases m,
{
    lemma2_to64();
    if m > 0 {
        lemma_bit_len(m / 2);
        let l = bit_len(m / 2);
        lemma_pow2_unfold(l + 1);
        if m / 2 > 0 {
            lemma_pow2_unfold(l);
        }
    }
}

pub proof fn lemma_bit_len_unique(m: nat, l: nat)
    requires
        m < pow2(l),
        l > 0,
        m >= pow2((l - 1) as nat),
    ensures
        bit_len(m) == l,
{
    lemma_pow2_pos((l - 1) as nat);
    lemma_bit_len(m);
    let b = bit_len(m);
    if b < l {
        lemma_pow2_le(b, (l - 1) as nat);
    } else if l < b {
        lemma_pow2_le(l, (b - 1) as nat);
    }
}

/// How far the last kept place of a result lies above the unit.
pub open spec fn lift(f: Format, m: nat, e: int) -> nat {
    if bit_len(m) + e <= f.p() {
        0
    } else {
        (bit_len(m) + e - f.p()) as nat
    }
}

/// The magnitude that a significand, an exponent and a sticky bit round to.
pub open spec fn assemble(f: Format, m: nat, e: int, sticky: bool) -> nat {
    let s = lift(f, m, e);
    let r = s - 1 - e;
    let t = if r <= 0 {
        m * pow2((-r) as nat)
    } else {
        m / pow2(r as nat)
    };
    let exact = !sticky && (r <= 0 || m % pow2(r as nat) == 0);
    let k = s * pow2((f.p() - 1) as nat) + halve_even(t, exact);
    if m == 0 {
        0
    } else if k < f.top() {
        k
    } else {
        f.top()
    }
}

/// Whether `n / d` lies in `[m, m + 1) * 2^e`, strictly above the lower end just
/// when `sticky`; `b` is any shift that makes the exponent a natural number.
pub open spec fn encloses(n: nat, d: nat, b: nat, m: nat, e: int, sticky: bool) -> bool {
    &&& d > 0
    &&& e + b >= 0
    &&& d * m * pow2((e + b) as nat) <= n * pow2(b)
    &&& n * pow2(b) < d * (m + 1) * pow2((e + b) as nat)
    &&& sticky <==> d * m * pow2((e + b) as nat) != n * pow2(b)
}

/// Zero rounds to zero.
pub proof fn lemma_round_zero(f: Format, d: nat)
    requires
        d > 0,
    ensures
        round_mag(f, 0, d) == 0,
{
    let p = f.p();
    lemma_pow2_pos(p);
    assert(0 < d * pow2(0 + p)) by (nonlinear_arith)
        requires
            d > 0,
            pow2(p) > 0,
    ;
    lemma_scale_unique(p, 0, d, 0);
    lemma2_to64();
    assert(0nat / (d * 1) == 0 && 0nat % (d * 1) == 0);
}

/// Rounding the enclosure rounds the ratio.
pub proof fn lemma_assemble_ratio(
    f: Format,
    n: nat,
    d: nat,
    b: nat,
    m: nat,
    e: int,
    sticky: bool,
)
    requires
        encloses(n, d, b, m, e, sticky),
        sticky ==> m >= pow2(f.p() + 1),
    ensures
        assemble(f, m, e, sticky) == round_mag(f, n, d),
{
    let p = f.p();
    let l = bit_len(m);
    let s = lift(f, m, e);
    let r = s - 1 - e;
    let a = pow2((e + b) as nat);
    let c = pow2(b);
    lemma_bit_len(m);
    lemma_pow2_pos(b);
    lemma_pow2_pos((e + b) as nat);
    lemma_pow2_pos(s);
    // The scale is the lift.
    assert(n < d * pow2(s + p)) by {
        let g = pow2(l);
        lemma_pow2_pos(l);
        lemma_pow2_adds(l, (e + b) as nat);
        lemma_pow2_adds(s + p, b);
        lemma_pow2_le((l + e + b) as nat, s + p + b);
        assert(l + (e + b) as nat == (l + e + b) as nat);
        assert(n < d * pow2(s + p)) by (nonlinear_arith)
            requires
                n * c < d * (m + 1) * a,
                m + 1 <= g,
                g * a <= pow2(s + p) * c,
                c > 0,
                d > 0,
                a > 0,
        {
            assert(d * (m + 1) * a <= d * (g * a));
            assert(d * (g * a) <= d * (pow2(s + p) * c));
            assert(d * (pow2(s + p) * c) == (d * pow2(s + p)) * c);
        }
    }
    if m == 0 {
        assert(!sticky) by {
            lemma_pow2_pos(p + 1);
        }
        assert(n == 0) by (nonlinear_arith)
            requires
                d * m * a == n * c,
                m == 0,
                c > 0,
        ;
        lemma_round_zero(f, d);
    } else {
        if s > 0 {
            let g = pow2((l - 1) as nat);
            lemma_pow2_adds((l - 1) as nat, (e + b) as nat);
            lemma_pow2_adds((s + p - 1) as nat, b);
            assert((l - 1) as nat + (e + b) as nat == (s + p - 1) as nat + b);
            assert(n >= d * pow2((s + p - 1) as nat)) by (nonlinear_arith)
                requires
                    d * m * a <= n * c,
                    m >= g,
                    g * a == pow2((s + p - 1) as nat) * c,
                    c > 0,
                    d > 0,
                    a > 0,
            {
                assert(d * m * a >= d * (g * a));
                assert(d * (pow2((s + p - 1) as nat) * c) == (d * pow2((s + p - 1) as nat)) * c);
            }
        }
        lemma_scale_unique(p, n, d, s);
        let q = d * pow2(s);
        assert(q > 0) by (nonlinear_arith)
            requires
                d > 0,
                pow2(s) > 0,
                q == d * pow2(s),
        ;
        lemma_pow2_adds(s, b);
        lemma_pow2_unfold((e + b + 1) as nat);
        if r <= 0 {
            let j = (-r) as nat;
            let t = m * pow2(j);
            if sticky {
                // A sticky significand is long enough to be cut.
                lemma_pow2_le(l, p + 1);
            }
            lemma_pow2_adds(j, s + b);
            assert(j + (s + b) == (e + b + 1) as nat);
            assert(2 * n == t * q) by (nonlinear_arith)
                requires
                    d * m * a == n * c,
                    t == m * pow2(j),
                    pow2(j) * (pow2(s) * c) == 2 * a,
                    q == d * pow2(s),
                    c > 0,
            {
                assert((t * q) * c == d * m * (pow2(j) * (pow2(s) * c)));
                assert((2 * n) * c == d * m * (2 * a));
            }
            assert((t + 1) * q == t * q + q) by (nonlinear_arith);
            lemma_quotient(2 * n, q, t);
        } else {
            let w = pow2(r as nat);
            lemma_pow2_pos(r as nat);
            let t = m / w;
            lemma_quotient_bounds(m, w);
            lemma_pow2_adds(r as nat, (e + b + 1) as nat);
            assert(r as nat + (e + b + 1) as nat == s + b);
            // pow2(s) * c == w * (2 * a)
            assert(t * q <= 2 * n) by (nonlinear_arith)
                requires
                    d * m * a <= n * c,
                    t * w <= m,
                    pow2(s) * c == w * (2 * a),
                    q == d * pow2(s),
                    c > 0,
                    d > 0,
                    a > 0,
            {
                assert((t * q) * c == (2 * d * a) * (t * w)) by {
                    assert((t * q) * c == t * d * (pow2(s) * c));
                    assert(t * d * (w * (2 * a)) == (2 * d * a) * (t * w));
                }
                assert((2 * d * a) * (t * w) <= (2 * d * a) * m);
                assert((2 * d * a) * m == 2 * (d * m * a));
            }
            assert(2 * n < (t + 1) * q) by (nonlinear_arith)
                requires
                    n * c < d * (m + 1) * a,
                    m + 1 <= (t + 1) * w,
                    pow2(s) * c == w * (2 * a),
                    q == d * pow2(s),
                    c > 0,
                    d > 0,
                    a > 0,
            {
                assert(((t + 1) * q) * c == (2 * d * a) * ((t + 1) * w)) by {
                    assert(((t + 1) * q) * c == (t + 1) * d * (pow2(s) * c));
                    assert((t + 1) * d * (w * (2 * a)) == (2 * d * a) * ((t + 1) * w));
                }
                assert((2 * d * a) * (m + 1) <= (2 * d * a) * ((t + 1) * w));
                assert((2 * d * a) * (m + 1) == 2 * (d * (m + 1) * a));
            }
            lemma_quotient(2 * n, q, t);
            let exact = !sticky && m % w == 0;
            assert(2 * n == t * q <==> exact) by {
                if exact {
                    assert(2 * n == t * q) by (nonlinear_arith)
                        requires
                            d * m * a == n * c,
                            t * w == m,
                            pow2(s) * c == w * (2 * a),
                            q == d * pow2(s),
                            c > 0,
                    {
                        assert((t * q) * c == t * d * (pow2(s) * c));
                        assert(t * d * (w * (2 * a)) == (2 * d * a) * (t * w));
                        assert((2 * d * a) * m == 2 * (d * m * a));
                        assert((t * q) * c == (2 * n) * c);
                    }
                } else {
                    assert(2 * n > t * q) by (nonlinear_arith)
                        requires
                            d * m * a <= n * c,
                            t * w <= m,
                            d * m * a < n * c || t * w < m,
                            pow2(s) * c == w * (2 * a),
                            q == d * pow2(s),
                            c > 0,
                            d > 0,
                            a > 0,
                    {
                        assert((t * q) * c == (2 * d * a) * (t * w)) by {
                            assert((t * q) * c == t * d * (pow2(s) * c));
                            assert(t * d * (w * (2 * a)) == (2 * d * a) * (t * w));
                        }
                        assert((2 * d * a) * m == 2 * (d * m * a));
                        assert((2 * d * a) * (t * w) <= (2 * d * a) * m);
                        if t * w < m {
                            assert((2 * d * a) * (t * w) < (2 * d * a) * m);
                        }
                        assert((t * q) * c < (2 * n) * c);
                    }
                }
            }
        }
    }
}

/// A power of two as a machine word.
#[inline(always)]
pub(crate) fn power(k: u32) -> (r: u128)
    requires
        k < 128,
    ensures
        r == pow2(k as nat),
{
    let top: u128 = 0x8000_0000_0000_0000_0000_0000_0000_0000;
    proof {
        let j = (127 - k) as u128;
        lemma2_to64_rest();
        lemma_pow2_adds(63, 64);
        lemma_u128_shr_is_div(top, j);
        lemma_pow2_adds(k as nat, j as nat);
        lemma_pow2_pos(j as nat);
        assert(k as nat + j as nat == 127);
        vstd::arithmetic::div_mod::lemma_div_multiples_vanish(pow2(k as nat) as int, pow2(j as nat) as int);
        assert(pow2(k as nat) * pow2(j as nat) == pow2(j as nat) * pow2(k as nat)) by (nonlinear_arith);
    }
    top >> ((127 - k) as u128)
}

/// Bits needed to write `m`.
#[inline(always)]
fn short_length(m: u64) -> (l: u32)
    ensures
        l == bit_len(m as nat),
        l <= 64,
{
    if m == 0 {
        return 0;
    }
    let z: u32 = m.leading_zeros();
    proof {
        axiom_u64_leading_zeros(m);
        let k = (63 - z) as u64;
        assert(0u64 & 1u64 == 0) by (bit_vector);
        lemma_u64_shr_is_div(m, k);
        lemma_pow2_pos(k as nat);
        lemma_quotient_bounds(m as nat, pow2(k as nat));
        assert(m >= pow2(k as nat)) by {
            if m < pow2(k as nat) {
                lemma_quotient_small(m as nat, pow2(k as nat));
            }
        }
        lemma2_to64_rest();
        if z > 0 {
            lemma_u64_shr_is_div(m, (64 - z) as u64);
            lemma_pow2_pos((64 - z) as nat);
            let w = pow2((64 - z) as nat);
            lemma_quotient_bounds(m as nat, w);
            let t = m as nat / w;
            assert((t + 1) * w == w) by (nonlinear_arith)
                requires
                    t == 0,
            ;
        }
        lemma_bit_len_unique(m as nat, (64 - z) as nat);
    }
    64 - z
}

/// Bits needed to write `m`.
#[inline(always)]
pub(crate) fn bit_length(m: u128) -> (l: u32)
    ensures
        l == bit_len(m as nat),
        l <= 128,
{
    if m <= 0xffff_ffff_ffff_ffff {
        return short_length(m as u64);
    }
    let h: u64 = (m >> 64u128) as u64;
    proof {
        lemma2_to64_rest();
        lemma_u128_shr_is_div(m, 64);
        lemma_quotient_bounds(m as nat, pow2(64));
        let q = m as nat / pow2(64);
        assert(q < 0x1_0000_0000_0000_0000) by (nonlinear_arith)
            requires
                q * pow2(64) <= m,
                pow2(64) == 0x1_0000_0000_0000_0000,
                m < 0x1_0000_0000_0000_0000 * 0x1_0000_0000_0000_0000,
        ;
        assert(q >= 1);
        lemma_bit_len(h as nat);
        let l = bit_len(h as nat);
        lemma_pow2_adds(l, 64);
        lemma_pow2_adds((l - 1) as nat, 64);
        lemma_mul_le(pow2((l - 1) as nat) as int, h as int, pow2(64) as int);
        lemma_mul_le((h + 1) as int, pow2(l) as int, pow2(64) as int);
        lemma_bit_len_unique(m as nat, l + 64);
    }
    64 + short_length(h)
}

/// A word moved down by some places, and whether nothing was lost.
#[inline(always)]
pub(crate) fn down(m: u64, r: u32) -> (q: (u64, bool))
    requires
        r < 64,
    ensures
        q.0 == m as nat / pow2(r as nat),
        q.1 == (m as nat % pow2(r as nat) == 0),
{
    let q: u64 = m >> (r as u64);
    proof {
        lemma_u64_shr_is_div(m, r as u64);
        lemma_pow2_pos(r as nat);
        lemma_quotient_bounds(m as nat, pow2(r as nat));
        lemma_u64_shl_is_mul(q, r as u64);
    }
    (q, q << (r as u64) == m)
}

/// A word moved up by some places that it has to spare.
#[inline(always)]
pub(crate) fn up(m: u64, g: u32) -> (q: u64)
    requires
        g < 64,
        m * pow2(g as nat) <= u64::MAX,
    ensures
        q == m * pow2(g as nat),
{
    proof {
        lemma_u64_shl_is_mul(m, g as u64);
    }
    m << (g as u64)
}

impl Format {
    /// Significant bits.
    #[inline(always)]
    pub(crate) fn precision(self) -> (p: u32)
        ensures
            p == self.p(),
    {
        match self {
            Format::Single => 24,
            Format::Double => 53,
        }
    }

    /// Magnitude of infinity.
    #[inline(always)]
    pub(crate) fn infinity(self) -> (m: u64)
        ensures
            m == self.top(),
    {
        match self {
            Format::Single => 0x7f80_0000,
            Format::Double => 0x7ff0_0000_0000_0000,
        }
    }

    /// The magnitude given to results that are not a number.
    #[inline(always)]
    pub(crate) fn quiet_nan(self) -> (m: u64)
        ensures
            m == self.quiet(),
    {
        match self {
            Format::Single => 0x7fc0_0000,
            Format::Double => 0x7ff8_0000_0000_0000,
        }
    }

    /// Units per one, as a power of two.
    #[inline(always)]
    pub(crate) fn unit_bits(self) -> (u: u32)
        ensures
            u == self.unit(),
    {
        match self {
            Format::Single => 149,
            Format::Double => 1074,
        }
    }

    /// Least magnitude from which every value is a whole number.
    #[inline(always)]
    pub(crate) fn whole_from(self) -> (m: u64)
        ensures
            m == self.whole(),
    {
        match self {
            Format::Single => 0x4b00_0000,
            Format::Double => 0x4330_0000_0000_0000,
        }
    }
}

/// Half of the first normal magnitude: the weight of the exponent field.
#[inline(always)]
pub(crate) fn field(f: Format) -> (h: u64)
    ensures
        h == pow2((f.p() - 1) as nat),
        h > 0,
{
    proof {
        lemma2_to64();
        lemma2_to64_rest();
    }
    match f {
        Format::Single => 0x80_0000,
        Format::Double => 0x10_0000_0000_0000,
    }
}

/// Round a significand, an exponent and a sticky bit to a magnitude.
#[inline(always)]
pub(crate) fn round_parts(f: Format, m: u128, e: i32, sticky: bool) -> (mag: u64)
    requires
        -8000 <= e <= 8000,
    ensures
        mag == assemble(f, m as nat, e as int, sticky),
        mag <= f.top(),
{
    if m == 0 {
        return 0;
    }
    let p = f.precision() as i32;
    let h = field(f);
    let top = f.infinity();
    let l = bit_length(m) as i32;
    let s: i32 = if l + e <= p {
        0
    } else {
        l + e - p
    };
    if s >= 2048 {
        proof {
            lemma2_to64();
            lemma2_to64_rest();
            lemma_mul_le(2048, s as int, h as int);
            assert(2048 * h >= f.top()) by {
                match f {
                    Format::Single => {},
                    Format::Double => {},
                }
            }
            let g = pow2((f.p() - 1) as nat);
            assert(lift(f, m as nat, e as int) * g >= 2048 * g) by (nonlinear_arith)
                requires
                    lift(f, m as nat, e as int) >= 2048,
                    g > 0,
            ;
            assert(2048 * g >= f.top());
            let r = (s - 1 - e) as int;
            if r <= 0 {
                lemma_pow2_pos((-r) as nat);
                lemma_mul_le(0, m as int, pow2((-r) as nat) as int);
            } else {
                lemma_pow2_pos(r as nat);
                lemma_quotient_bounds(m as nat, pow2(r as nat));
                vstd::arithmetic::div_mod::lemma_div_pos_is_pos(m as int, pow2(r as nat) as int);
            }
        }
        return top;
    }
    let r: i32 = s - 1 - e;
    let ghost rr = r as int;
    let ghost (gt, gx) = (
        if rr <= 0 {
            m as nat * pow2((-rr) as nat)
        } else {
            m as nat / pow2(rr as nat)
        },
        !sticky && (rr <= 0 || m as nat % pow2(rr as nat) == 0),
    );
    let (t, exact): (u64, bool) = if r <= 0 {
        proof {
            lemma_bit_len(m as nat);
            lemma_pow2_adds(l as nat, (-rr) as nat);
            lemma_pow2_le((l - rr) as nat, (p + 1) as nat);
            lemma_pow2_pos((-rr) as nat);
            lemma_mul_le(m as int, pow2(l as nat) as int, pow2((-rr) as nat) as int);
            lemma_pow2_le((p + 1) as nat, 54);
            lemma_pow2_unfold(54);
            lemma2_to64_rest();
            lemma2_to64();
            lemma_mul_le(1, m as int, pow2((-rr) as nat) as int);
            if -rr >= 54 {
                lemma_pow2_le(54, (-rr) as nat);
                assert((l - rr) as nat >= 55);
                lemma_pow2_le(55, (l - rr) as nat);
            }
        }
        (up(m as u64, (-r) as u32), !sticky)
    } else if r < 64 && m <= 0xffff_ffff_ffff_ffff {
        proof {
            lemma_pow2_pos(rr as nat);
            lemma_quotient_bounds(m as nat, pow2(rr as nat));
            assert(gt <= m) by (nonlinear_arith)
                requires
                    gt * pow2(rr as nat) <= m,
                    pow2(rr as nat) >= 1,
            ;
        }
        let (q, whole) = down(m as u64, r as u32);
        (q, !sticky && whole)
    } else if r >= 128 {
        proof {
            lemma_pow2_le(128, rr as nat);
            lemma2_to64_rest();
            lemma_pow2_adds(64, 64);
            lemma_quotient_small(m as nat, pow2(rr as nat));
        }
        (0, false)
    } else {
        proof {
            lemma_u128_shr_is_div(m, r as u128);
            lemma_pow2_pos(rr as nat);
            lemma_quotient_bounds(m as nat, pow2(rr as nat));
            lemma_bit_len(m as nat);
            // The quotient keeps at most one bit more than the precision.
            let w = pow2(rr as nat);
            if l - rr >= 0 {
                lemma_pow2_adds((l - rr) as nat, rr as nat);
                assert(gt < pow2((l - rr) as nat)) by (nonlinear_arith)
                    requires
                        gt * w <= m,
                        m < pow2(l as nat),
                        pow2(l as nat) == pow2((l - rr) as nat) * w,
                        w > 0,
                ;
                if l - rr <= 54 {
                    lemma_pow2_le((l - rr) as nat, 54);
                }
                lemma_pow2_unfold(54);
                lemma2_to64_rest();
                lemma2_to64();
            } else {
                lemma_pow2_le(l as nat, rr as nat);
                lemma_quotient_small(m as nat, w);
            }
        }
        let q: u128 = m >> (r as u128);
        (q as u64, !sticky && q * power(r as u32) == m)
    };
    assert(t == gt && exact == gx);
    let k: u64 = if t % 2 == 0 || (exact && (t / 2) % 2 == 0) {
        t / 2
    } else {
        t / 2 + 1
    };
    proof {
        lemma2_to64();
        lemma2_to64_rest();
        lemma_mul_le(s as int, 2047, h as int);
    }
    let mag: u64 = (s as u64) * h + k;
    if mag < top {
        mag
    } else {
        top
    }
}

} // verus!
