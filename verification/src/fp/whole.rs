//! Whole numbers out of fractional ones: rounding to an integer, and casts.

use super::model::{lemma_pow2_le, lemma_quotient, lemma_quotient_bounds, units, Format};
use super::raw::{
    from_whole, has_fraction, lemma_units_monotone, signed, truncate, unpack, whole_number,
    whole_part, Raw,
};
use super::round::power;
use vstd::arithmetic::power2::{
    lemma2_to64, lemma2_to64_rest, lemma_pow2_adds, lemma_pow2_pos, pow2,
};
use vstd::bits::lemma_u128_shr_is_div;
use vstd::prelude::*;

verus! {

/// The whole number nearest to a magnitude, halves up.
pub open spec fn nearest_part(f: Format, mag: nat) -> nat {
    (2 * units(f, mag) + pow2(f.unit())) / (2 * pow2(f.unit()))
}

/// The largest whole number not above `a`.
pub open spec fn floored(f: Format, a: Raw) -> Raw {
    if a.mag >= f.whole() {
        a
    } else {
        let w = whole_part(f, a.mag as nat);
        let down = a.neg && has_fraction(f, a.mag as nat);
        signed(a.neg, whole_number(f, if down { w + 1 } else { w }).mag as nat)
    }
}

/// The nearest whole number, halves away from zero.
pub open spec fn rounded(f: Format, a: Raw) -> Raw {
    if a.mag >= f.whole() {
        a
    } else {
        signed(a.neg, whole_number(f, nearest_part(f, a.mag as nat)).mag as nat)
    }
}

/// The integer reached by dropping the fraction, held within `lo..=hi`. What is
/// not a number counts as zero.
pub open spec fn saturated(f: Format, a: Raw, lo: int, hi: int) -> int {
    if a.is_nan(f) {
        0
    } else {
        let w: int = if a.is_infinite(f) {
            if a.neg {
                lo - 1
            } else {
                hi + 1
            }
        } else if a.neg {
            -(whole_part(f, a.mag as nat) as int)
        } else {
            whole_part(f, a.mag as nat) as int
        };
        if w < lo {
            lo
        } else if w > hi {
            hi
        } else {
            w
        }
    }
}

/// A magnitude below the whole ones has an exponent below the unit's.
proof fn lemma_below_whole(f: Format, mag: nat)
    requires
        mag < f.whole(),
    ensures
        mag < pow2((f.p() - 1) as nat) || mag / pow2((f.p() - 1) as nat) - 1 < f.unit(),
        f.whole() < f.top(),
{
    lemma2_to64();
    lemma2_to64_rest();
    let h = pow2((f.p() - 1) as nat);
    let u = f.unit() + 1;
    lemma_quotient_bounds(mag, h);
    assert(f.whole() == u * h);
    assert(mag / h < u) by (nonlinear_arith)
        requires
            (mag / h) * h <= mag,
            mag < u * h,
            h > 0,
    ;
}

/// The whole part of a magnitude below the whole ones is small.
proof fn lemma_small_part(f: Format, mag: nat)
    requires
        mag < f.whole(),
    ensures
        whole_part(f, mag) < 0x20_0000_0000_0000,
        nearest_part(f, mag) <= 0x20_0000_0000_0000,
{
    lemma2_to64();
    lemma2_to64_rest();
    let w = pow2(f.unit());
    let h = pow2((f.p() - 1) as nat);
    let n = units(f, mag);
    lemma_pow2_pos(f.unit());
    lemma_units_monotone(f, mag, f.whole());
    assert(units(f, f.whole()) == h * w) by {
        assert(f.whole() / h == f.unit() + 1);
        assert(f.whole() % h == 0);
    }
    lemma_pow2_le((f.p() - 1) as nat, 52);
    lemma_quotient_bounds(n, w);
    assert(n / w <= h) by (nonlinear_arith)
        requires
            (n / w) * w <= n,
            n <= h * w,
            w > 0,
    ;
    let d = 2 * w;
    lemma_quotient_bounds(2 * n + w, d);
    let t = (2 * n + w) / d;
    assert(t <= h + 1) by (nonlinear_arith)
        requires
            t * (2 * w) <= 2 * n + w,
            n <= h * w,
            w > 0,
    ;
}

/// The whole number not above.
pub(crate) fn floor(f: Format, a: Raw) -> (r: Raw)
    requires
        a.mag < 0x8000_0000_0000_0000,
    ensures
        r == floored(f, a),
        r.mag <= a.mag || r.mag <= f.top(),
{
    if a.mag >= f.whole_from() {
        return a;
    }
    proof {
        lemma_below_whole(f, a.mag as nat);
        lemma_small_part(f, a.mag as nat);
    }
    let (w, frac) = truncate(f, a.mag);
    let v: u64 = if a.neg && frac {
        w + 1
    } else {
        w
    };
    Raw { neg: a.neg, mag: from_whole(f, v).mag }
}

/// The nearest whole number to a magnitude below the whole ones.
fn nearest(f: Format, mag: u64) -> (v: u64)
    requires
        mag < f.whole(),
    ensures
        v == nearest_part(f, mag as nat),
{
    proof {
        lemma_below_whole(f, mag as nat);
        lemma_pow2_le(f.p(), 53);
        lemma2_to64_rest();
    }
    let (m, e) = unpack(f, mag);
    let r: u32 = f.unit_bits() - e;
    let ghost n = units(f, mag as nat);
    let ghost w = pow2(f.unit());
    let ghost z = pow2(r as nat);
    let ghost x = pow2(e as nat);
    proof {
        lemma_pow2_pos(r as nat);
        lemma_pow2_pos(e as nat);
        lemma_pow2_adds(r as nat, e as nat);
    }
    if r >= 64 {
        proof {
            lemma_pow2_le(64, r as nat);
            lemma_nearest(n, w, m as nat, z, x, 0);
        }
        return 0;
    }
    let q: u128 = (m as u128) >> (r as u128);
    let zz: u128 = power(r);
    proof {
        lemma_u128_shr_is_div(m as u128, r as u128);
        lemma_quotient_bounds(m as nat, z);
        lemma_pow2_le(r as nat, 63);
        assert(q <= m) by (nonlinear_arith)
            requires
                q * z <= m,
                z >= 1,
        ;
    }
    let rem: u128 = m as u128 - q * zz;
    let v: u64 = if 2 * rem >= zz {
        q as u64 + 1
    } else {
        q as u64
    };
    proof {
        assert((q + 1) * z == q * z + z) by (nonlinear_arith);
        assert(v * (2 * z) == 2 * (v * z)) by (nonlinear_arith);
        lemma_nearest(n, w, m as nat, z, x, v as nat);
    }
    v
}

/// What rounds `m / z` rounds the same ratio in units.
proof fn lemma_nearest(n: nat, w: nat, m: nat, z: nat, x: nat, v: nat)
    requires
        n == m * x,
        w == z * x,
        z > 0,
        x > 0,
        2 * (v * z) <= 2 * m + z < 2 * (v * z) + 2 * z,
    ensures
        (2 * n + w) / (2 * w) == v,
{
    assert(v * (2 * w) <= 2 * n + w) by (nonlinear_arith)
        requires
            n == m * x,
            w == z * x,
            2 * (v * z) <= 2 * m + z,
    {
        assert(v * (2 * (z * x)) == (2 * (v * z)) * x);
        assert((2 * (v * z)) * x <= (2 * m + z) * x);
    }
    assert(2 * n + w < (v + 1) * (2 * w)) by (nonlinear_arith)
        requires
            n == m * x,
            w == z * x,
            x > 0,
            2 * m + z < 2 * (v * z) + 2 * z,
    {
        assert((v + 1) * (2 * (z * x)) == (2 * (v * z) + 2 * z) * x);
        assert((2 * m + z) * x < (2 * (v * z) + 2 * z) * x);
    }
    assert(w > 0) by (nonlinear_arith)
        requires
            w == z * x,
            z > 0,
            x > 0,
    ;
    lemma_quotient(2 * n + w, 2 * w, v);
}

/// The nearest whole number.
pub(crate) fn round(f: Format, a: Raw) -> (r: Raw)
    requires
        a.mag < 0x8000_0000_0000_0000,
    ensures
        r == rounded(f, a),
        r.mag <= a.mag || r.mag <= f.top(),
{
    if a.mag >= f.whole_from() {
        return a;
    }
    Raw { neg: a.neg, mag: from_whole(f, nearest(f, a.mag)).mag }
}

/// Drop the fraction, within the unsigned 64-bit integers.
pub(crate) fn to_unsigned(f: Format, a: Raw) -> (v: u64)
    ensures
        v == saturated(f, a, 0, u64::MAX as int),
{
    let top = f.infinity();
    if a.mag > top {
        0
    } else if a.neg {
        0
    } else if a.mag == top {
        u64::MAX
    } else {
        truncate(f, a.mag).0
    }
}

/// Drop the fraction, within the signed 32-bit integers.
pub(crate) fn to_signed(f: Format, a: Raw) -> (v: i32)
    ensures
        v == saturated(f, a, i32::MIN as int, i32::MAX as int),
{
    let top = f.infinity();
    if a.mag > top {
        return 0;
    }
    if a.mag == top {
        return if a.neg {
            i32::MIN
        } else {
            i32::MAX
        };
    }
    let w: u64 = truncate(f, a.mag).0;
    if a.neg {
        if w >= 0x8000_0000 {
            i32::MIN
        } else {
            -(w as i32)
        }
    } else if w > 0x7fff_ffff {
        i32::MAX
    } else {
        w as i32
    }
}

} // verus!
