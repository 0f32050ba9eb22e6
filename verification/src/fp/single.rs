//! Single precision.

use super::double::F64;
use super::model::Format;
use super::raw::{
    convert, converted, divide, from_whole, multiply, plus, product, quotient, sum, whole_number,
    Raw,
};
use super::root::{root, square_root};
use super::whole::{floor, floored, round, rounded, saturated, to_signed, to_unsigned};
use core::ops::{Add, Div, Mul, Sub};
use vstd::prelude::*;
use vstd::std_specs::cmp::PartialEqSpecImpl;
use vstd::std_specs::ops::{AddSpecImpl, DivSpecImpl, MulSpecImpl, SubSpecImpl};

verus! {

/// A single-precision number, held as its bit pattern.
#[derive(Clone, Copy, Debug)]
pub struct F32 {
    /// Sign, exponent and fraction, from the top.
    pub bits: u32,
}

impl F32 {
    /// The number taken apart.
    pub open spec fn raw(self) -> Raw {
        if self.bits >= 0x8000_0000 {
            Raw { neg: true, mag: (self.bits - 0x8000_0000) as u64 }
        } else {
            Raw { neg: false, mag: self.bits as u64 }
        }
    }

    /// The number with these parts.
    pub open spec fn of(r: Raw) -> F32 {
        F32 {
            bits: if r.neg {
                (r.mag + 0x8000_0000) as u32
            } else {
                r.mag as u32
            },
        }
    }

    /// Position on the number line. Both zeros have position zero.
    pub open spec fn key(self) -> int {
        if self.bits >= 0x8000_0000 {
            0x8000_0000 - self.bits
        } else {
            self.bits as int
        }
    }

    /// Not a number: a position beyond the infinities.
    pub open spec fn spec_is_nan(self) -> bool {
        self.key() > 0x7f80_0000 || self.key() < -0x7f80_0000
    }

    /// Neither infinite nor not a number.
    pub open spec fn spec_is_finite(self) -> bool {
        -0x7f80_0000 < self.key() < 0x7f80_0000
    }

    /// The value of a finite number, in units of `2^-149`.
    pub open spec fn value(self) -> int {
        self.raw().value(Format::Single)
    }

    #[inline(always)]
    pub(crate) fn unpacked(self) -> (r: Raw)
        ensures
            r == self.raw(),
            r.mag < 0x8000_0000,
    {
        if self.bits >= 0x8000_0000 {
            Raw { neg: true, mag: (self.bits - 0x8000_0000) as u64 }
        } else {
            Raw { neg: false, mag: self.bits as u64 }
        }
    }

    #[inline(always)]
    pub(crate) fn packed(r: Raw) -> (x: F32)
        requires
            r.mag < 0x8000_0000,
        ensures
            x == F32::of(r),
    {
        if r.neg {
            F32 { bits: (r.mag + 0x8000_0000) as u32 }
        } else {
            F32 { bits: r.mag as u32 }
        }
    }

    /// The number with this bit pattern.
    pub fn from_bits(bits: u32) -> (x: F32)
        ensures
            x.bits == bits,
    {
        F32 { bits }
    }

    /// The bit pattern of the number.
    pub fn to_bits(self) -> (bits: u32)
        ensures
            bits == self.bits,
    {
        self.bits
    }

    // Constants.

    /// `0`.
    pub open spec fn spec_zero() -> F32 {
        F32 { bits: 0 }
    }

    /// `0`.
    #[verifier::when_used_as_spec(spec_zero)]
    pub fn zero() -> (x: F32)
        ensures
            x == F32::spec_zero(),
    {
        F32 { bits: 0 }
    }

    /// `1`.
    pub open spec fn spec_one() -> F32 {
        F32 { bits: 0x3f80_0000 }
    }

    /// `1`.
    #[verifier::when_used_as_spec(spec_one)]
    pub fn one() -> (x: F32)
        ensures
            x == F32::spec_one(),
    {
        F32 { bits: 0x3f80_0000 }
    }

    /// `1/2`.
    pub open spec fn spec_half() -> F32 {
        F32 { bits: 0x3f00_0000 }
    }

    /// `1/2`.
    #[verifier::when_used_as_spec(spec_half)]
    pub fn half() -> (x: F32)
        ensures
            x == F32::spec_half(),
    {
        F32 { bits: 0x3f00_0000 }
    }

    /// `2`.
    pub open spec fn spec_two() -> F32 {
        F32 { bits: 0x4000_0000 }
    }

    /// `2`.
    #[verifier::when_used_as_spec(spec_two)]
    pub fn two() -> (x: F32)
        ensures
            x == F32::spec_two(),
    {
        F32 { bits: 0x4000_0000 }
    }

    /// `4`.
    pub open spec fn spec_four() -> F32 {
        F32 { bits: 0x4080_0000 }
    }

    /// `4`.
    #[verifier::when_used_as_spec(spec_four)]
    pub fn four() -> (x: F32)
        ensures
            x == F32::spec_four(),
    {
        F32 { bits: 0x4080_0000 }
    }

    /// The largest finite number.
    pub open spec fn spec_max_value() -> F32 {
        F32 { bits: 0x7f7f_ffff }
    }

    /// The largest finite number.
    #[verifier::when_used_as_spec(spec_max_value)]
    pub fn max_value() -> (x: F32)
        ensures
            x == F32::spec_max_value(),
    {
        F32 { bits: 0x7f7f_ffff }
    }

    /// Infinity.
    pub open spec fn spec_infinity() -> F32 {
        F32 { bits: 0x7f80_0000 }
    }

    /// Infinity.
    #[verifier::when_used_as_spec(spec_infinity)]
    pub fn infinity() -> (x: F32)
        ensures
            x == F32::spec_infinity(),
    {
        F32 { bits: 0x7f80_0000 }
    }

    /// Minus infinity.
    pub open spec fn spec_neg_infinity() -> F32 {
        F32 { bits: 0xff80_0000 }
    }

    /// Minus infinity.
    #[verifier::when_used_as_spec(spec_neg_infinity)]
    pub fn neg_infinity() -> (x: F32)
        ensures
            x == F32::spec_neg_infinity(),
    {
        F32 { bits: 0xff80_0000 }
    }

    // Arithmetic. Each operation rounds the exact result once.

    /// Sum.
    #[verifier::opaque]
    pub open spec fn spec_add(self, rhs: F32) -> F32 {
        F32::of(sum(Format::Single, self.raw(), rhs.raw()))
    }

    /// Difference.
    #[verifier::opaque]
    pub open spec fn spec_sub(self, rhs: F32) -> F32 {
        F32::of(sum(Format::Single, self.raw(), rhs.raw().negated()))
    }

    /// Product.
    #[verifier::opaque]
    pub open spec fn spec_mul(self, rhs: F32) -> F32 {
        F32::of(product(Format::Single, self.raw(), rhs.raw()))
    }

    /// Quotient.
    #[verifier::opaque]
    pub open spec fn spec_div(self, rhs: F32) -> F32 {
        F32::of(quotient(Format::Single, self.raw(), rhs.raw()))
    }

    /// What `/` stands for in contracts.
    #[verifier::inline]
    pub open spec fn spec_euclidean_or_real_div(self, rhs: F32) -> F32 {
        self.spec_div(rhs)
    }

    /// The other sign.
    #[verifier::opaque]
    pub open spec fn spec_neg(self) -> F32 {
        F32::of(self.raw().negated())
    }

    /// The other sign.
    #[verifier::when_used_as_spec(spec_neg)]
    pub fn neg(self) -> (r: F32)
        ensures
            r == self.spec_neg(),
    {
        reveal(F32::spec_neg);
        let x = self.unpacked();
        F32::packed(Raw { neg: !x.neg, mag: x.mag })
    }

    /// Square root.
    #[verifier::opaque]
    pub open spec fn spec_sqrt(self) -> F32 {
        F32::of(square_root(Format::Single, self.raw()))
    }

    /// Square root.
    #[verifier::when_used_as_spec(spec_sqrt)]
    pub fn sqrt(self) -> (r: F32)
        ensures
            r == self.spec_sqrt(),
    {
        reveal(F32::spec_sqrt);
        F32::packed(root(Format::Single, self.unpacked()))
    }

    /// The largest whole number not above.
    #[verifier::opaque]
    pub open spec fn spec_floor(self) -> F32 {
        F32::of(floored(Format::Single, self.raw()))
    }

    /// The largest whole number not above.
    #[verifier::when_used_as_spec(spec_floor)]
    pub fn floor(self) -> (r: F32)
        ensures
            r == self.spec_floor(),
    {
        reveal(F32::spec_floor);
        F32::packed(floor(Format::Single, self.unpacked()))
    }

    /// The nearest whole number, halves away from zero.
    #[verifier::opaque]
    pub open spec fn spec_round(self) -> F32 {
        F32::of(rounded(Format::Single, self.raw()))
    }

    /// The nearest whole number, halves away from zero.
    #[verifier::when_used_as_spec(spec_round)]
    pub fn round(self) -> (r: F32)
        ensures
            r == self.spec_round(),
    {
        reveal(F32::spec_round);
        F32::packed(round(Format::Single, self.unpacked()))
    }

    /// The number without its sign.
    pub open spec fn spec_abs(self) -> F32 {
        if self.bits >= 0x8000_0000 {
            F32 { bits: (self.bits - 0x8000_0000) as u32 }
        } else {
            self
        }
    }

    /// The number without its sign.
    #[verifier::when_used_as_spec(spec_abs)]
    pub fn abs(self) -> (r: F32)
        ensures
            r == self.spec_abs(),
    {
        if self.bits >= 0x8000_0000 {
            F32 { bits: self.bits - 0x8000_0000 }
        } else {
            self
        }
    }

    // Order. What is not a number is neither less nor greater nor equal.

    /// Whether the number is not one.
    #[verifier::when_used_as_spec(spec_is_nan)]
    pub fn is_nan(self) -> (b: bool)
        ensures
            b == self.spec_is_nan(),
    {
        self.abs().bits > 0x7f80_0000
    }

    /// Whether the number is neither infinite nor not a number.
    #[verifier::when_used_as_spec(spec_is_finite)]
    pub fn is_finite(self) -> (b: bool)
        ensures
            b == self.spec_is_finite(),
    {
        self.abs().bits < 0x7f80_0000
    }

    fn position(self) -> (k: i64)
        ensures
            k == self.key(),
    {
        if self.bits >= 0x8000_0000 {
            -((self.bits - 0x8000_0000) as i64)
        } else {
            self.bits as i64
        }
    }

    /// Less than.
    pub open spec fn spec_lt(self, rhs: F32) -> bool {
        !self.spec_is_nan() && !rhs.spec_is_nan() && self.key() < rhs.key()
    }

    /// Less than.
    #[verifier::when_used_as_spec(spec_lt)]
    pub fn lt(self, rhs: F32) -> (b: bool)
        ensures
            b == self.spec_lt(rhs),
    {
        !self.is_nan() && !rhs.is_nan() && self.position() < rhs.position()
    }

    /// Less than or equal.
    pub open spec fn spec_le(self, rhs: F32) -> bool {
        !self.spec_is_nan() && !rhs.spec_is_nan() && self.key() <= rhs.key()
    }

    /// Less than or equal.
    #[verifier::when_used_as_spec(spec_le)]
    pub fn le(self, rhs: F32) -> (b: bool)
        ensures
            b == self.spec_le(rhs),
    {
        !self.is_nan() && !rhs.is_nan() && self.position() <= rhs.position()
    }

    /// Greater than.
    pub open spec fn spec_gt(self, rhs: F32) -> bool {
        rhs.spec_lt(self)
    }

    /// Greater than.
    #[verifier::when_used_as_spec(spec_gt)]
    pub fn gt(self, rhs: F32) -> (b: bool)
        ensures
            b == self.spec_gt(rhs),
    {
        rhs.lt(self)
    }

    /// Greater than or equal.
    pub open spec fn spec_ge(self, rhs: F32) -> bool {
        rhs.spec_le(self)
    }

    /// Greater than or equal.
    #[verifier::when_used_as_spec(spec_ge)]
    pub fn ge(self, rhs: F32) -> (b: bool)
        ensures
            b == self.spec_ge(rhs),
    {
        rhs.le(self)
    }

    /// The lesser of two numbers; the other one where one is not a number.
    #[verifier::opaque]
    pub open spec fn spec_min(self, rhs: F32) -> F32 {
        if self.spec_is_nan() || rhs.spec_lt(self) {
            rhs
        } else {
            self
        }
    }

    /// The lesser of two numbers; the other one where one is not a number.
    #[verifier::when_used_as_spec(spec_min)]
    pub fn min(self, rhs: F32) -> (r: F32)
        ensures
            r == self.spec_min(rhs),
    {
        reveal(F32::spec_min);
        if self.is_nan() || rhs.lt(self) {
            rhs
        } else {
            self
        }
    }

    /// The greater of two numbers; the other one where one is not a number.
    #[verifier::opaque]
    pub open spec fn spec_max(self, rhs: F32) -> F32 {
        if self.spec_is_nan() || self.spec_lt(rhs) {
            rhs
        } else {
            self
        }
    }

    /// The greater of two numbers; the other one where one is not a number.
    #[verifier::when_used_as_spec(spec_max)]
    pub fn max(self, rhs: F32) -> (r: F32)
        ensures
            r == self.spec_max(rhs),
    {
        reveal(F32::spec_max);
        if self.is_nan() || self.lt(rhs) {
            rhs
        } else {
            self
        }
    }

    /// The number held within `lo..=hi`. What is not a number stays so.
    #[verifier::opaque]
    pub open spec fn spec_clamp(self, lo: F32, hi: F32) -> F32 {
        if self.spec_lt(lo) {
            lo
        } else if hi.spec_lt(self) {
            hi
        } else {
            self
        }
    }

    /// The number held within `lo..=hi`. What is not a number stays so.
    #[verifier::when_used_as_spec(spec_clamp)]
    pub fn clamp(self, lo: F32, hi: F32) -> (r: F32)
        requires
            lo.spec_le(hi),
        ensures
            r == self.spec_clamp(lo, hi),
    {
        reveal(F32::spec_clamp);
        if self.lt(lo) {
            lo
        } else if hi.lt(self) {
            hi
        } else {
            self
        }
    }

    // Conversions.

    /// The nearest number to a whole one.
    #[verifier::opaque]
    pub open spec fn spec_from_u64(v: u64) -> F32 {
        F32::of(whole_number(Format::Single, v as nat))
    }

    /// The nearest number to a whole one.
    #[verifier::when_used_as_spec(spec_from_u64)]
    pub fn from_u64(v: u64) -> (x: F32)
        ensures
            x == F32::spec_from_u64(v),
    {
        reveal(F32::spec_from_u64);
        F32::packed(from_whole(Format::Single, v))
    }

    /// The nearest number to a whole one.
    pub open spec fn spec_from_u32(v: u32) -> F32 {
        F32::spec_from_u64(v as u64)
    }

    /// The nearest number to a whole one.
    #[verifier::when_used_as_spec(spec_from_u32)]
    pub fn from_u32(v: u32) -> (x: F32)
        ensures
            x == F32::spec_from_u32(v),
    {
        F32::from_u64(v as u64)
    }

    /// The nearest number to a whole one, of either sign.
    pub open spec fn spec_from_i64(v: i64) -> F32 {
        if v < 0 {
            F32::spec_from_u64((-v) as u64).spec_neg()
        } else {
            F32::spec_from_u64(v as u64)
        }
    }

    /// The nearest number to a whole one, of either sign.
    #[verifier::when_used_as_spec(spec_from_i64)]
    pub fn from_i64(v: i64) -> (x: F32)
        ensures
            x == F32::spec_from_i64(v),
    {
        if v < 0 {
            F32::from_u64((-(v as i128)) as u64).neg()
        } else {
            F32::from_u64(v as u64)
        }
    }

    /// The nearest number to `n / d`, for parts that are held exactly.
    pub open spec fn spec_ratio(n: u32, d: u32) -> F32 {
        F32::spec_from_u32(n).spec_div(F32::spec_from_u32(d))
    }

    /// The nearest number to `n / d`, for parts that are held exactly.
    #[verifier::when_used_as_spec(spec_ratio)]
    pub fn ratio(n: u32, d: u32) -> (x: F32)
        ensures
            x == F32::spec_ratio(n, d),
    {
        F32::from_u32(n) / F32::from_u32(d)
    }

    /// The same number in the other precision, rounded where it must be.
    #[verifier::opaque]
    pub open spec fn spec_to_f64(self) -> F64 {
        F64::of(converted(Format::Single, Format::Double, self.raw()))
    }

    /// The same number in the other precision, rounded where it must be.
    #[verifier::when_used_as_spec(spec_to_f64)]
    pub fn to_f64(self) -> (x: F64)
        ensures
            x == self.spec_to_f64(),
    {
        reveal(F32::spec_to_f64);
        F64::packed(convert(Format::Single, Format::Double, self.unpacked()))
    }

    /// The fraction dropped, within `u64`.
    #[verifier::opaque]
    pub open spec fn spec_to_u64(self) -> u64 {
        saturated(Format::Single, self.raw(), 0, u64::MAX as int) as u64
    }

    /// The fraction dropped, within `u64`.
    #[verifier::when_used_as_spec(spec_to_u64)]
    pub fn to_u64(self) -> (v: u64)
        ensures
            v == self.spec_to_u64(),
    {
        reveal(F32::spec_to_u64);
        to_unsigned(Format::Single, self.unpacked())
    }

    /// The fraction dropped, within `u32`.
    #[verifier::opaque]
    pub open spec fn spec_to_u32(self) -> u32 {
        saturated(Format::Single, self.raw(), 0, u32::MAX as int) as u32
    }

    /// The fraction dropped, within `u32`.
    #[verifier::when_used_as_spec(spec_to_u32)]
    pub fn to_u32(self) -> (v: u32)
        ensures
            v == self.spec_to_u32(),
    {
        reveal(F32::spec_to_u32);
        let v: u64 = to_unsigned(Format::Single, self.unpacked());
        if v > 0xffff_ffff {
            0xffff_ffff
        } else {
            v as u32
        }
    }

    /// The fraction dropped, within `i32`.
    #[verifier::opaque]
    pub open spec fn spec_to_i32(self) -> i32 {
        saturated(Format::Single, self.raw(), i32::MIN as int, i32::MAX as int) as i32
    }

    /// The fraction dropped, within `i32`.
    #[verifier::when_used_as_spec(spec_to_i32)]
    pub fn to_i32(self) -> (v: i32)
        ensures
            v == self.spec_to_i32(),
    {
        reveal(F32::spec_to_i32);
        to_signed(Format::Single, self.unpacked())
    }
}

impl Add for F32 {
    type Output = F32;

    #[inline(never)]
    fn add(self, rhs: F32) -> (r: F32) {
        reveal(F32::spec_add);
        F32::packed(plus(Format::Single, self.unpacked(), rhs.unpacked()))
    }
}

impl AddSpecImpl for F32 {
    open spec fn obeys_add_spec() -> bool {
        true
    }

    open spec fn add_req(self, rhs: F32) -> bool {
        true
    }

    open spec fn add_spec(self, rhs: F32) -> F32 {
        self.spec_add(rhs)
    }
}

impl Sub for F32 {
    type Output = F32;

    #[inline(never)]
    fn sub(self, rhs: F32) -> (r: F32) {
        reveal(F32::spec_sub);
        let y = rhs.unpacked();
        F32::packed(plus(Format::Single, self.unpacked(), Raw { neg: !y.neg, mag: y.mag }))
    }
}

impl SubSpecImpl for F32 {
    open spec fn obeys_sub_spec() -> bool {
        true
    }

    open spec fn sub_req(self, rhs: F32) -> bool {
        true
    }

    open spec fn sub_spec(self, rhs: F32) -> F32 {
        self.spec_sub(rhs)
    }
}

impl Mul for F32 {
    type Output = F32;

    #[inline(never)]
    fn mul(self, rhs: F32) -> (r: F32) {
        reveal(F32::spec_mul);
        F32::packed(multiply(Format::Single, self.unpacked(), rhs.unpacked()))
    }
}

impl MulSpecImpl for F32 {
    open spec fn obeys_mul_spec() -> bool {
        true
    }

    open spec fn mul_req(self, rhs: F32) -> bool {
        true
    }

    open spec fn mul_spec(self, rhs: F32) -> F32 {
        self.spec_mul(rhs)
    }
}

impl Div for F32 {
    type Output = F32;

    #[inline(never)]
    fn div(self, rhs: F32) -> (r: F32) {
        reveal(F32::spec_div);
        F32::packed(divide(Format::Single, self.unpacked(), rhs.unpacked()))
    }
}

impl DivSpecImpl for F32 {
    open spec fn obeys_div_spec() -> bool {
        true
    }

    open spec fn div_req(self, rhs: F32) -> bool {
        true
    }

    open spec fn div_spec(self, rhs: F32) -> F32 {
        self.spec_div(rhs)
    }
}

impl PartialEq for F32 {
    fn eq(&self, other: &F32) -> (b: bool) {
        !self.is_nan() && !other.is_nan() && self.position() == other.position()
    }
}

impl PartialEqSpecImpl for F32 {
    open spec fn obeys_eq_spec() -> bool {
        true
    }

    open spec fn eq_spec(&self, other: &F32) -> bool {
        !self.spec_is_nan() && !other.spec_is_nan() && self.key() == other.key()
    }
}

} // verus!
