//! Square roots.

use super::model::{
    lemma_isqrt_unique, lemma_pow2_le, lemma_quotient_bounds, lemma_root_scale_unique, root_mag,
    units, Format,
};
use super::raw::{normalize, not_a_number, signed, unpack, Raw};
use super::round::{assemble, bit_len, lemma_bit_len, lift, power, round_parts};
use vstd::arithmetic::power2::{
    lemma2_to64, lemma2_to64_rest, lemma_pow2_adds, lemma_pow2_pos, lemma_pow2_unfold, pow2,
};
use vstd::prelude::*;

verus! {

/// The square root, rounded once. Only a negative zero has a negative root.
pub open spec fn square_root(f: Format, a: Raw) -> Raw {
    if a.is_nan(f) {
        not_a_number(f)
    } else if a.mag == 0 {
        a
    } else if a.neg {
        not_a_number(f)
    } else if a.is_infinite(f) {
        a
    } else {
        signed(false, root_mag(f, units(f, a.mag as nat) * pow2(f.unit())))
    }
}

/// Rounding an enclosed root rounds the root: `m` and `m + 1`, times `2^e`,
/// enclose the square root of `n`.
proof fn lemma_assemble_root(f: Format, n: nat, b: nat, m: nat, e: int, sticky: bool)
    requires
        e + b >= 0,
        m >= pow2(f.p() + 1),
        ({
            let a = pow2((e + b) as nat);
            let c = pow2(b);
            &&& (m * m) * (a * a) <= n * (c * c)
            &&& n * (c * c) < ((m + 1) * (m + 1)) * (a * a)
            &&& sticky <==> (m * m) * (a * a) != n * (c * c)
        }),
    ensures
        assemble(f, m, e, sticky) == root_mag(f, n),
{
    let p = f.p();
    let l = bit_len(m);
    let s = lift(f, m, e);
    let r = s - 1 - e;
    let a = pow2((e + b) as nat);
    let c = pow2(b);
    lemma_bit_len(m);
    lemma_pow2_pos(p + 1);
    lemma_pow2_pos(b);
    lemma_pow2_pos((e + b) as nat);
    lemma_pow2_pos(s);
    if l <= p + 1 {
        lemma_pow2_le(l, p + 1);
    }
    assert(r >= 1);
    let k = pow2(s + p);
    let g = pow2(l);
    lemma_pow2_pos(l);
    lemma_pow2_adds(l, (e + b) as nat);
    lemma_pow2_adds(s + p, b);
    assert(l + (e + b) as nat == (l + e + b) as nat);
    lemma_pow2_le((l + e + b) as nat, s + p + b);
    assert(n < k * k) by (nonlinear_arith)
        requires
            n * (c * c) < ((m + 1) * (m + 1)) * (a * a),
            m + 1 <= g,
            g * a <= k * c,
            c > 0,
            a > 0,
    {
        assert((m + 1) * (m + 1) <= g * g);
        assert(((m + 1) * (m + 1)) * (a * a) <= (g * g) * (a * a));
        assert((g * g) * (a * a) == (g * a) * (g * a));
        assert((g * a) * (g * a) <= (k * c) * (k * c));
        assert((k * c) * (k * c) == (k * k) * (c * c));
        assert(n * (c * c) < (k * k) * (c * c));
        assert(c * c > 0);
    }
    if s > 0 {
        let g1 = pow2((l - 1) as nat);
        let k1 = pow2((s + p - 1) as nat);
        lemma_pow2_pos((l - 1) as nat);
        lemma_pow2_adds((l - 1) as nat, (e + b) as nat);
        lemma_pow2_adds((s + p - 1) as nat, b);
        assert((l - 1) as nat + (e + b) as nat == (s + p - 1) as nat + b);
        assert(n >= k1 * k1) by (nonlinear_arith)
            requires
                (m * m) * (a * a) <= n * (c * c),
                m >= g1,
                g1 * a == k1 * c,
                c > 0,
                a > 0,
                g1 > 0,
        {
            assert(m * m >= g1 * g1);
            assert((m * m) * (a * a) >= (g1 * g1) * (a * a));
            assert((g1 * g1) * (a * a) == (g1 * a) * (g1 * a));
            assert((k1 * c) * (k1 * c) == (k1 * k1) * (c * c));
            assert(c * c > 0);
        }
    }
    lemma_root_scale_unique(p, n, s);
    let w = pow2(r as nat);
    let t = m / w;
    let q = pow2(s) * pow2(s);
    lemma_pow2_pos(r as nat);
    lemma_quotient_bounds(m, w);
    lemma_pow2_adds(r as nat, (e + b) as nat);
    lemma_pow2_adds(s, b);
    lemma_pow2_unfold(s + b);
    assert(r as nat + (e + b) as nat == (s + b - 1) as nat);
    // pow2(s) * c == 2 * (w * a)
    assert(q > 0) by (nonlinear_arith)
        requires
            q == pow2(s) * pow2(s),
            pow2(s) > 0,
    ;
    assert((t * t) * q <= 4 * n) by (nonlinear_arith)
        requires
            (m * m) * (a * a) <= n * (c * c),
            t * w <= m,
            pow2(s) * c == 2 * (w * a),
            q == pow2(s) * pow2(s),
            c > 0,
    {
        assert(((t * t) * q) * (c * c) == (t * t) * ((pow2(s) * c) * (pow2(s) * c)));
        assert((t * t) * ((2 * (w * a)) * (2 * (w * a))) == 4 * ((t * w) * (t * w)) * (a * a));
        assert((t * w) * (t * w) <= m * m);
        assert(((t * w) * (t * w)) * (a * a) <= (m * m) * (a * a));
        assert(((t * t) * q) * (c * c) <= (4 * n) * (c * c));
        assert(c * c > 0);
    }
    assert(4 * n < ((t + 1) * (t + 1)) * q) by (nonlinear_arith)
        requires
            n * (c * c) < ((m + 1) * (m + 1)) * (a * a),
            m + 1 <= (t + 1) * w,
            pow2(s) * c == 2 * (w * a),
            q == pow2(s) * pow2(s),
            c > 0,
    {
        let y = t + 1;
        assert(((y * y) * q) * (c * c) == (y * y) * ((pow2(s) * c) * (pow2(s) * c)));
        assert((y * y) * ((2 * (w * a)) * (2 * (w * a))) == 4 * ((y * w) * (y * w)) * (a * a));
        assert((m + 1) * (m + 1) <= (y * w) * (y * w));
        assert(((m + 1) * (m + 1)) * (a * a) <= ((y * w) * (y * w)) * (a * a));
        assert((4 * n) * (c * c) < ((y * y) * q) * (c * c));
        assert(c * c > 0);
    }
    // The doubled root, taken at the scale.
    let v = (4 * n) / q;
    lemma_quotient_bounds(4 * n, q);
    assert(t * t <= v) by (nonlinear_arith)
        requires
            (t * t) * q <= 4 * n,
            4 * n < (v + 1) * q,
            q > 0,
    ;
    assert(v < (t + 1) * (t + 1)) by (nonlinear_arith)
        requires
            4 * n < ((t + 1) * (t + 1)) * q,
            v * q <= 4 * n,
            q > 0,
    ;
    lemma_isqrt_unique(v, t);
    let exact = !sticky && m % w == 0;
    if exact {
        assert((t * t) * q == 4 * n) by (nonlinear_arith)
            requires
                (m * m) * (a * a) == n * (c * c),
                t * w == m,
                pow2(s) * c == 2 * (w * a),
                q == pow2(s) * pow2(s),
                c > 0,
        {
            assert(((t * t) * q) * (c * c) == (t * t) * ((pow2(s) * c) * (pow2(s) * c)));
            assert((t * t) * ((2 * (w * a)) * (2 * (w * a))) == 4 * ((t * w) * (t * w)) * (a * a));
            assert(((t * t) * q) * (c * c) == (4 * n) * (c * c));
            assert(c * c > 0);
        }
    } else {
        assert((t * t) * q != 4 * n) by (nonlinear_arith)
            requires
                (m * m) * (a * a) <= n * (c * c),
                t * w <= m,
                (m * m) * (a * a) < n * (c * c) || t * w < m,
                pow2(s) * c == 2 * (w * a),
                q == pow2(s) * pow2(s),
                c > 0,
                a > 0,
        {
            assert(((t * t) * q) * (c * c) == (t * t) * ((pow2(s) * c) * (pow2(s) * c)));
            assert((t * t) * ((2 * (w * a)) * (2 * (w * a))) == 4 * ((t * w) * (t * w)) * (a * a));
            assert((t * w) * (t * w) <= m * m);
            assert(((t * w) * (t * w)) * (a * a) <= (m * m) * (a * a));
            if t * w < m {
                assert((t * w) * (t * w) < m * m);
                assert(a * a > 0);
                assert(((t * w) * (t * w)) * (a * a) < (m * m) * (a * a));
            }
            assert(((t * t) * q) * (c * c) < (4 * n) * (c * c));
        }
    }
}

/// The whole square root of a word below `2^56`.
fn short_root(x: u64) -> (r: u64)
    requires
        x < 0x100_0000_0000_0000,
    ensures
        r * r <= x < (r + 1) * (r + 1),
        r < 0x1000_0000,
{
    let mut r: u64 = 0;
    let mut bit: u64 = 0x800_0000;
    assert(0x1000_0000 * 0x1000_0000 == 0x100_0000_0000_0000int) by (nonlinear_arith);
    let mut left: u32 = 28;
    let ghost mut step: nat = 0x1000_0000;
    proof {
        lemma2_to64();
    }
    while left > 0
        invariant
            left <= 28,
            step == pow2(left as nat),
            left > 0 ==> 2 * bit == step,
            r + step <= 0x1000_0000,
            r * r <= x < (r + step) * (r + step),
        decreases left,
    {
        proof {
            lemma_pow2_unfold(left as nat);
            if left > 1 {
                lemma_pow2_unfold((left - 1) as nat);
            }
            assert((r + bit) * (r + bit) < 0x100_0000_0000_0000) by (nonlinear_arith)
                requires
                    r + bit < 0x1000_0000,
                    r + bit >= 0,
            ;
        }
        let c: u64 = r + bit;
        if c * c <= x {
            r = c;
        }
        proof {
            step = bit as nat;
        }
        bit = bit / 2;
        left = left - 1;
    }
    proof {
        lemma2_to64();
    }
    r
}

/// The whole square root of a word below `2^112`.
fn whole_root(x: u128) -> (r: u128)
    requires
        x < 0x1_0000_0000_0000_0000_0000_0000_0000,
    ensures
        r * r <= x < (r + 1) * (r + 1),
        r < 0x100_0000_0000_0000,
{
    if x < 0x100_0000_0000_0000 {
        return short_root(x as u64) as u128;
    }
    let mut r: u128 = 0;
    let mut bit: u128 = 0x80_0000_0000_0000;
    assert(0x100_0000_0000_0000 * 0x100_0000_0000_0000
        == 0x1_0000_0000_0000_0000_0000_0000_0000int) by (nonlinear_arith);
    let mut left: u32 = 56;
    let ghost mut step: nat = 0x100_0000_0000_0000;
    proof {
        lemma2_to64_rest();
    }
    while left > 0
        invariant
            left <= 56,
            step == pow2(left as nat),
            left > 0 ==> 2 * bit == step,
            r + step <= 0x100_0000_0000_0000,
            r * r <= x < (r + step) * (r + step),
        decreases left,
    {
        proof {
            lemma_pow2_unfold(left as nat);
            if left > 1 {
                lemma_pow2_unfold((left - 1) as nat);
            }
            assert((r + bit) * (r + bit) < 0x1_0000_0000_0000_0000_0000_0000_0000)
                by (nonlinear_arith)
                requires
                    r + bit < 0x100_0000_0000_0000,
                    r + bit >= 0,
            ;
        }
        let c: u128 = r + bit;
        if c * c <= x {
            r = c;
        }
        proof {
            step = bit as nat;
        }
        bit = bit / 2;
        left = left - 1;
    }
    proof {
        lemma2_to64();
    }
    r
}

/// A significand moved up until its root fills the precision twice over.
fn spread(f: Format, m: u64, e: u32) -> (r: (u128, u32))
    requires
        0 < m < pow2(f.p()),
        e <= 2045,
    ensures
        r.0 == m * pow2(r.1 as nat),
        pow2(f.p() + 1) * pow2(f.p() + 1) <= r.0 < 0x1_0000_0000_0000_0000_0000_0000_0000,
        r.1 <= 120,
        (e + f.unit() - r.1) % 2 == 0,
{
    let (n, j) = normalize(f, m);
    let p = f.precision();
    // Reach 2^(2p + 2) with the remaining exponent even.
    let odd: bool = (e as i64 + f.unit_bits() as i64 - j as i64 - (p as i64 + 3)) % 2 != 0;
    let k: u32 = if odd {
        p + 4
    } else {
        p + 3
    };
    proof {
        lemma_pow2_le(f.p(), 53);
        lemma_pow2_le(k as nat, 57);
        lemma2_to64_rest();
    }
    let w: u128 = power(k);
    proof {
        let h = pow2((f.p() - 1) as nat);
        lemma_pow2_pos(k as nat);
        lemma_pow2_adds(f.p() + 1, f.p() + 1);
        lemma_pow2_adds((f.p() - 1) as nat, f.p() + 3);
        lemma_pow2_le(f.p() + 3, k as nat);
        lemma_mul_bounds(n as nat, h, w as nat, pow2(f.p() + 3));
        assert(n * w < 0x1_0000_0000_0000_0000_0000_0000_0000) by (nonlinear_arith)
            requires
                n < 0x20_0000_0000_0000,
                w <= 0x200_0000_0000_0000,
        ;
        lemma_pow2_adds(j as nat, k as nat);
        assert(n * w == m * (pow2(j as nat) * pow2(k as nat))) by (nonlinear_arith)
            requires
                n == m * pow2(j as nat),
                w == pow2(k as nat),
        ;
    }
    (n as u128 * w, j + k)
}

proof fn lemma_mul_bounds(a: nat, b: nat, c: nat, d: nat)
    by (nonlinear_arith)
    requires
        a >= b,
        c >= d,
    ensures
        a * c >= b * d,
{
}

/// The root of a positive finite magnitude.
fn root_finite(f: Format, a: u64) -> (mag: u64)
    requires
        0 < a < f.top(),
    ensures
        mag == root_mag(f, units(f, a as nat) * pow2(f.unit())),
        mag <= f.top(),
{
    let (m, e) = unpack(f, a);
    let (x, j) = spread(f, m, e);
    let r = whole_root(x);
    let sticky: bool = r * r != x;
    let half: i32 = (e as i32 + f.unit_bits() as i32 - j as i32) / 2;
    proof {
        let p = f.p();
        let n = units(f, a as nat) * pow2(f.unit());
        let b: nat = 60;
        assert(2 * half == e + f.unit() - j);
        let u = pow2((half + b) as nat);
        let c = pow2(b);
        lemma_pow2_pos(p + 1);
        if r < pow2(p + 1) {
            let k = pow2(p + 1);
            assert((r + 1) * (r + 1) <= k * k) by (nonlinear_arith)
                requires
                    r + 1 <= k,
                    r >= 0,
            ;
        }
        // x * u * u is n * c * c.
        lemma_pow2_adds(j as nat, (half + b) as nat);
        lemma_pow2_adds((j + half + b) as nat, (half + b) as nat);
        lemma_pow2_adds(e as nat, f.unit());
        lemma_pow2_adds((e + f.unit()) as nat, b);
        lemma_pow2_adds((e + f.unit() + b) as nat, b);
        assert((j + half + b) as nat + (half + b) as nat == (e + f.unit() + b) as nat + b);
        assert(x * (u * u) == m * ((pow2(j as nat) * u) * u)) by (nonlinear_arith)
            requires
                x == m * pow2(j as nat),
        ;
        assert(n * (c * c) == m * (((pow2(e as nat) * pow2(f.unit())) * c) * c)) by (nonlinear_arith)
            requires
                n == (m * pow2(e as nat)) * pow2(f.unit()),
        ;
        lemma_pow2_pos((half + b) as nat);
        assert((r * r) * (u * u) <= x * (u * u)) by (nonlinear_arith)
            requires
                r * r <= x,
        ;
        assert(x * (u * u) < ((r + 1) * (r + 1)) * (u * u)) by (nonlinear_arith)
            requires
                x < (r + 1) * (r + 1),
                u > 0,
        {
            assert(u * u > 0);
        }
        if sticky {
            assert((r * r) * (u * u) < x * (u * u)) by (nonlinear_arith)
                requires
                    r * r < x,
                    u > 0,
            {
                assert(u * u > 0);
            }
        }
        lemma_assemble_root(f, n, b, r as nat, half as int, sticky);
    }
    round_parts(f, r, half, sticky)
}

/// Take the square root.
pub(crate) fn root(f: Format, a: Raw) -> (r: Raw)
    ensures
        r == square_root(f, a),
        r.mag <= f.quiet(),
{
    let top = f.infinity();
    if a.mag > top {
        Raw { neg: false, mag: f.quiet_nan() }
    } else if a.mag == 0 {
        a
    } else if a.neg {
        Raw { neg: false, mag: f.quiet_nan() }
    } else if a.mag == top {
        a
    } else {
        Raw { neg: false, mag: root_finite(f, a.mag) }
    }
}

} // verus!
