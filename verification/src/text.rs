//! Text: comparing it, and writing numbers into it.

use crate::fp::model::{
    halve_even, lemma_pow2_le, lemma_quotient, lemma_quotient_bounds, units, Format,
};
use crate::fp::raw::{unpack, Raw};
use crate::fp::round::power;
use crate::fp::{F32, F64};
use vstd::arithmetic::power2::{
    lemma2_to64, lemma2_to64_rest, lemma_pow2_adds, lemma_pow2_pos, lemma_pow2_unfold, pow2,
};
use vstd::prelude::*;
use vstd::string::*;

verus! {

/// Whether two texts are the same.
pub fn same_text(a: &str, b: &str) -> (same: bool)
    ensures
        same == (a@ == b@),
{
    a.to_owned() == b.to_owned()
}

/// The character for a digit.
pub open spec fn digit(d: nat) -> char {
    (48 + d) as char
}

/// A number in decimal, without leading zeros.
pub open spec fn digits(n: nat) -> Seq<char>
    decreases n,
{
    if n < 10 {
        seq![digit(n)]
    } else {
        digits(n / 10).push(digit(n % 10))
    }
}

/// The last `k` decimal digits of a number.
pub open spec fn last_digits(n: nat, k: nat) -> Seq<char>
    decreases k,
{
    if k == 0 {
        seq![]
    } else {
        last_digits(n / 10, (k - 1) as nat).push(digit(n % 10))
    }
}

/// A row of spaces.
pub open spec fn spaces(n: int) -> Seq<char> {
    Seq::new(
        if n > 0 {
            n as nat
        } else {
            0
        },
        |i: int| ' ',
    )
}

/// Text moved to the right end of a column.
pub open spec fn right(s: Seq<char>, width: int) -> Seq<char> {
    spaces(width - s.len()) + s
}

/// Text kept at the left end of a column.
pub open spec fn left(s: Seq<char>, width: int) -> Seq<char> {
    s + spaces(width - s.len())
}

fn push_digit(out: &mut String, d: u8)
    requires
        d < 10,
    ensures
        final(out)@ == old(out)@.push(digit(d as nat)),
{
    let s: &str = if d == 0 {
        "0"
    } else if d == 1 {
        "1"
    } else if d == 2 {
        "2"
    } else if d == 3 {
        "3"
    } else if d == 4 {
        "4"
    } else if d == 5 {
        "5"
    } else if d == 6 {
        "6"
    } else if d == 7 {
        "7"
    } else if d == 8 {
        "8"
    } else {
        "9"
    };
    proof {
        reveal_strlit("0");
        reveal_strlit("1");
        reveal_strlit("2");
        reveal_strlit("3");
        reveal_strlit("4");
        reveal_strlit("5");
        reveal_strlit("6");
        reveal_strlit("7");
        reveal_strlit("8");
        reveal_strlit("9");
        assert(s@ =~= seq![digit(d as nat)]);
    }
    out.append(s);
    assert(out@ =~= old(out)@.push(digit(d as nat)));
}

/// Write a number in decimal.
pub fn push_number(out: &mut String, n: u64)
    ensures
        final(out)@ == old(out)@ + digits(n as nat),
    decreases n,
{
    if n >= 10 {
        push_number(out, n / 10);
    }
    push_digit(out, (n % 10) as u8);
    assert(out@ =~= old(out)@ + digits(n as nat));
}

fn push_spaces(out: &mut String, n: usize)
    ensures
        final(out)@ == old(out)@ + spaces(n as int),
{
    let mut k: usize = 0;
    assert(out@ =~= old(out)@ + spaces(0));
    while k < n
        invariant
            k <= n,
            out@ == old(out)@ + spaces(k as int),
        decreases n - k,
    {
        out.append(" ");
        proof {
            reveal_strlit(" ");
        }
        assert(out@ =~= old(out)@ + spaces(k + 1));
        k = k + 1;
    }
}

/// Write text at the right end of a column.
pub fn push_right(out: &mut String, s: &str, width: usize)
    ensures
        final(out)@ == old(out)@ + right(s@, width as int),
{
    let n: usize = s.unicode_len();
    if n < width {
        push_spaces(out, width - n);
    }
    out.append(s);
    assert(out@ =~= old(out)@ + right(s@, width as int));
}

/// Write text at the left end of a column.
pub fn push_left(out: &mut String, s: &str, width: usize)
    ensures
        final(out)@ == old(out)@ + left(s@, width as int),
{
    let n: usize = s.unicode_len();
    out.append(s);
    if n < width {
        push_spaces(out, width - n);
    }
    assert(out@ =~= old(out)@ + left(s@, width as int));
}

/// A power of ten.
pub open spec fn pow10(k: nat) -> nat
    decreases k,
{
    if k == 0 {
        1
    } else {
        10 * pow10((k - 1) as nat)
    }
}

/// A magnitude times `10^places`, to the nearest whole number, ties to even.
pub open spec fn shifted(f: Format, mag: nat, places: nat) -> nat {
    let n = 2 * (units(f, mag) * pow10(places));
    let d = pow2(f.unit());
    halve_even(n / d, (n / d) * d == n)
}

/// A number with a fixed count of decimals.
pub open spec fn decimal(f: Format, x: Raw, places: nat) -> Seq<char> {
    let sign: Seq<char> = if x.neg {
        "-"@
    } else {
        seq![]
    };
    if x.is_nan(f) {
        "NaN"@
    } else if x.is_infinite(f) {
        sign + "inf"@
    } else {
        let n = shifted(f, x.mag as nat, places);
        let whole = sign + digits(n / pow10(places));
        if places == 0 {
            whole
        } else {
            whole + "."@ + last_digits(n, places)
        }
    }
}

/// A single-precision number with a fixed count of decimals.
pub open spec fn decimal32(x: F32, places: nat) -> Seq<char> {
    decimal(Format::Single, x.raw(), places)
}

/// A double-precision number with a fixed count of decimals.
pub open spec fn decimal64(x: F64, places: nat) -> Seq<char> {
    decimal(Format::Double, x.raw(), places)
}

/// The number that decimal digits stand for, the last place first.
spec fn amount(d: Seq<u8>) -> nat
    decreases d.len(),
{
    if d.len() == 0 {
        0
    } else {
        d[0] as nat + 10 * amount(d.drop_first())
    }
}

/// Decimal digits, the last place first, with no zero in front.
spec fn proper(d: Seq<u8>) -> bool {
    &&& d.len() > 0
    &&& forall|i: int| 0 <= i < d.len() ==> d[i] < 10
    &&& d[d.len() - 1] > 0
}

proof fn lemma_times_one(n: nat)
    ensures
        n * pow10(0) == n,
        pow10(0) * n == n,
{
    assert(n * pow10(0) == n && pow10(0) * n == n) by (nonlinear_arith)
        requires
            pow10(0) == 1,
    ;
}

proof fn lemma_amount_push(d: Seq<u8>, x: u8)
    ensures
        amount(d.push(x)) == amount(d) + x * pow10(d.len()),
    decreases d.len(),
{
    if d.len() == 0 {
        assert(d.push(x).drop_first() =~= Seq::<u8>::empty());
        assert(amount(d.push(x).drop_first()) == 0);
        lemma_times_one(x as nat);
    } else {
        assert(d.push(x).drop_first() =~= d.drop_first().push(x));
        lemma_amount_push(d.drop_first(), x);
        let q = pow10((d.len() - 1) as nat);
        assert(x * (10 * q) == 10 * (x * q)) by (nonlinear_arith);
    }
}

proof fn lemma_amount_positive(d: Seq<u8>)
    requires
        proper(d),
    ensures
        amount(d) >= 1,
    decreases d.len(),
{
    if d.len() > 1 {
        let t = d.drop_first();
        assert(t[t.len() - 1] == d[d.len() - 1]);
        lemma_amount_positive(t);
    }
}

/// The digits of a number, the last place first.
fn split_digits(m: u64) -> (d: Vec<u8>)
    requires
        m > 0,
    ensures
        proper(d@),
        amount(d@) == m,
{
    let mut d: Vec<u8> = Vec::new();
    let mut rest: u64 = m;
    proof {
        lemma_times_one(rest as nat);
    }
    while rest > 0
        invariant
            forall|i: int| 0 <= i < d.len() ==> d[i] < 10,
            rest == 0 ==> d.len() > 0 && d[d.len() - 1] > 0,
            amount(d@) + rest * pow10(d.len() as nat) == m,
        decreases rest,
    {
        let low: u8 = (rest % 10) as u8;
        let ghost before = d@;
        d.push(low);
        proof {
            lemma_amount_push(before, low);
            let q = pow10(before.len());
            let hi = (rest / 10) as nat;
            assert(rest * q == low * q + hi * (10 * q)) by (nonlinear_arith)
                requires
                    rest == 10 * hi + low,
            ;
        }
        rest = rest / 10;
    }
    proof {
        let z = rest as nat;
        assert(z * pow10(d.len() as nat) == 0) by (nonlinear_arith)
            requires
                z == 0,
        ;
    }
    d
}

/// The digits of twice a number.
fn double_digits(d: &Vec<u8>) -> (r: Vec<u8>)
    requires
        proper(d@),
        d.len() < usize::MAX,
    ensures
        proper(r@),
        amount(r@) == 2 * amount(d@),
        r.len() <= d.len() + 1,
{
    let mut r: Vec<u8> = Vec::new();
    let mut carry: u8 = 0;
    let mut i: usize = 0;
    proof {
        assert(d@.subrange(0, d@.len() as int) =~= d@);
        lemma_times_one(2 * amount(d@));
    }
    while i < d.len()
        invariant
            i <= d.len(),
            r.len() == i,
            carry <= 1,
            proper(d@),
            forall|k: int| 0 <= k < r.len() ==> r[k] < 10,
            i > 0 ==> r[i - 1] > 0 || carry > 0 || i < d.len(),
            amount(r@) + pow10(i as nat) * (2 * amount(d@.subrange(i as int, d@.len() as int))
                + carry) == 2 * amount(d@),
        decreases d.len() - i,
    {
        let t: u8 = 2 * d[i] + carry;
        let ghost before = r@;
        r.push(t % 10);
        proof {
            let tail = d@.subrange(i as int, d@.len() as int);
            let next = d@.subrange(i + 1, d@.len() as int);
            assert(tail.drop_first() =~= next);
            lemma_amount_push(before, t % 10);
            let q = pow10(i as nat);
            let a = amount(next);
            let lo = (t % 10) as nat;
            let hi = (t / 10) as nat;
            assert(q * (2 * (d[i as int] + 10 * a) + carry) == lo * q + (10 * q) * (2 * a + hi))
                by (nonlinear_arith)
                requires
                    2 * d[i as int] + carry == 10 * hi + lo,
            ;
        }
        carry = t / 10;
        i = i + 1;
    }
    proof {
        assert(d@.subrange(i as int, d@.len() as int) =~= Seq::<u8>::empty());
        assert(amount(d@.subrange(i as int, d@.len() as int)) == 0);
        let q = pow10(i as nat);
        if carry == 0 {
            assert(q * (2 * 0 + carry) == 0) by (nonlinear_arith)
                requires
                    carry == 0,
            ;
        } else {
            lemma_amount_push(r@, carry);
            assert(q * (2 * 0 + carry) == carry * q) by (nonlinear_arith);
        }
    }
    if carry > 0 {
        r.push(carry);
    }
    r
}

/// Write decimal digits from place `i` up.
fn push_digits(out: &mut String, d: &Vec<u8>, i: usize)
    requires
        proper(d@),
        i < d.len(),
    ensures
        final(out)@ == old(out)@ + digits(amount(d@.subrange(i as int, d@.len() as int))),
    decreases d.len() - i,
{
    let ghost tail = d@.subrange(i as int, d@.len() as int);
    if i + 1 < d.len() {
        push_digits(out, d, i + 1);
        proof {
            let next = d@.subrange(i + 1, d@.len() as int);
            assert(tail.drop_first() =~= next);
            assert(next[next.len() - 1] == d[d.len() - 1]);
            lemma_amount_positive(next);
            let a = amount(tail);
            assert(a == d[i as int] + 10 * amount(next));
            assert(a / 10 == amount(next));
            assert(a % 10 == d[i as int]);
        }
    } else {
        proof {
            assert(tail.drop_first() =~= Seq::<u8>::empty());
            assert(amount(tail.drop_first()) == 0);
        }
    }
    push_digit(out, d[i]);
    assert(out@ =~= old(out)@ + digits(amount(tail)));
}

/// Write `m * 2^j` in decimal.
fn push_large(out: &mut String, m: u64, j: u32)
    requires
        m > 0,
        j <= 2045,
    ensures
        final(out)@ == old(out)@ + digits(m as nat * pow2(j as nat)),
{
    let mut d: Vec<u8> = split_digits(m);
    let mut k: u32 = 0;
    proof {
        lemma2_to64();
        lemma_split_short(d@, m);
        assert(m as nat * pow2(0) == m as nat) by (nonlinear_arith)
            requires
                pow2(0) == 1,
        ;
    }
    while k < j
        invariant
            k <= j <= 2045,
            proper(d@),
            d.len() <= 20 + k,
            amount(d@) == m as nat * pow2(k as nat),
        decreases j - k,
    {
        d = double_digits(&d);
        proof {
            lemma_pow2_unfold((k + 1) as nat);
            let q = pow2(k as nat);
            assert(m as nat * (2 * q) == 2 * (m as nat * q)) by (nonlinear_arith);
        }
        k = k + 1;
    }
    push_digits(out, &d, 0);
    assert(d@.subrange(0, d@.len() as int) =~= d@);
}

/// A 64-bit number has at most twenty digits.
proof fn lemma_split_short(d: Seq<u8>, m: u64)
    requires
        proper(d),
        amount(d) == m,
    ensures
        d.len() <= 20,
{
    if d.len() > 20 {
        lemma_amount_low(d);
        lemma_pow10_le(20, (d.len() - 1) as nat);
        reveal_with_fuel(pow10, 21);
    }
}

proof fn lemma_pow10_le(a: nat, b: nat)
    requires
        a <= b,
    ensures
        pow10(a) <= pow10(b),
    decreases b - a,
{
    if a < b {
        lemma_pow10_le(a, (b - 1) as nat);
    }
}

proof fn lemma_amount_low(d: Seq<u8>)
    requires
        proper(d),
    ensures
        amount(d) >= pow10((d.len() - 1) as nat),
    decreases d.len(),
{
    if d.len() > 1 {
        let t = d.drop_first();
        assert(t[t.len() - 1] == d[d.len() - 1]);
        lemma_amount_low(t);
    }
}

/// A power of ten, as a word.
fn ten_to(k: u32) -> (p: u64)
    requires
        k <= 9,
    ensures
        p == pow10(k as nat),
        1 <= p <= 1_000_000_000,
{
    let mut p: u64 = 1;
    let mut i: u32 = 0;
    proof {
        reveal_with_fuel(pow10, 10);
    }
    while i < k
        invariant
            i <= k <= 9,
            p == pow10(i as nat),
            p <= pow10(k as nat),
            pow10(k as nat) <= 1_000_000_000,
        decreases k - i,
    {
        proof {
            lemma_pow10_le((i + 1) as nat, k as nat);
        }
        p = 10 * p;
        i = i + 1;
    }
    p
}

/// Write the last `k` digits of a number.
fn push_last(out: &mut String, n: u64, k: u32)
    ensures
        final(out)@ == old(out)@ + last_digits(n as nat, k as nat),
    decreases k,
{
    if k > 0 {
        push_last(out, n / 10, k - 1);
        push_digit(out, (n % 10) as u8);
    }
    assert(out@ =~= old(out)@ + last_digits(n as nat, k as nat));
}

/// Where the fraction reaches past the point, doubling and dividing by the
/// units is a shift of the significand.
proof fn lemma_shifted_low(f: Format, mag: nat, m: nat, e: nat, r: nat, p: nat)
    requires
        units(f, mag) == m * pow2(e),
        e + r == f.unit(),
    ensures
        ({
            let n = 2 * (units(f, mag) * p);
            let d = pow2(f.unit());
            let t = (2 * (m * p)) / pow2(r);
            &&& n / d == t
            &&& (n / d) * d == n <==> t * pow2(r) == 2 * (m * p)
        }),
{
    let x = pow2(e);
    let z = pow2(r);
    let d = pow2(f.unit());
    let n = 2 * (units(f, mag) * p);
    let b = 2 * (m * p);
    let t = b / z;
    lemma_pow2_pos(e);
    lemma_pow2_pos(r);
    lemma_pow2_pos(f.unit());
    lemma_pow2_adds(e, r);
    assert(n == b * x) by (nonlinear_arith)
        requires
            n == 2 * ((m * x) * p),
            b == 2 * (m * p),
    ;
    lemma_quotient_bounds(b, z);
    assert(t * d == (t * z) * x && (t + 1) * d == ((t + 1) * z) * x) by (nonlinear_arith)
        requires
            d == x * z,
    ;
    assert((t * z) * x <= b * x && b * x < ((t + 1) * z) * x) by (nonlinear_arith)
        requires
            t * z <= b,
            b < (t + 1) * z,
            x > 0,
    ;
    lemma_quotient(n, d, t);
    if t * z != b {
        assert((t * z) * x < b * x) by (nonlinear_arith)
            requires
                t * z < b,
                x > 0,
        ;
    }
}

/// A whole number keeps its digits, with zeros behind the point.
proof fn lemma_shifted_whole(f: Format, mag: nat, v: nat, places: nat)
    requires
        units(f, mag) == v * pow2(f.unit()),
    ensures
        shifted(f, mag, places) == v * pow10(places),
        shifted(f, mag, places) / pow10(places) == v,
        last_digits(shifted(f, mag, places), places) == last_digits(0, places),
{
    let p = pow10(places);
    let d = pow2(f.unit());
    let n = 2 * (units(f, mag) * p);
    let y = v * p;
    lemma_pow2_pos(f.unit());
    lemma_pow10_le(0, places);
    assert(n == (2 * y) * d) by (nonlinear_arith)
        requires
            n == 2 * ((v * d) * p),
            y == v * p,
    ;
    assert((2 * y + 1) * d == (2 * y) * d + d) by (nonlinear_arith);
    lemma_quotient(n, d, 2 * y);
    assert((v + 1) * p == v * p + p) by (nonlinear_arith);
    lemma_quotient(y, p, v);
    lemma_trailing_zeros(v, places);
}

/// Digits past the last ones do not matter to them.
proof fn lemma_last_digits(n: nat, k: nat)
    ensures
        last_digits(n % pow10(k), k) == last_digits(n, k),
    decreases k,
{
    if k > 0 {
        let q = pow10((k - 1) as nat);
        lemma_pow10_le(0, (k - 1) as nat);
        vstd::arithmetic::div_mod::lemma_mod_breakdown(n as int, 10, q as int);
        let r = n % (10 * q);
        assert(r == 10 * ((n / 10) % q) + n % 10);
        assert(r / 10 == (n / 10) % q);
        assert(r % 10 == n % 10);
        lemma_last_digits(n / 10, (k - 1) as nat);
    }
}

proof fn lemma_trailing_zeros(v: nat, places: nat)
    ensures
        last_digits(v * pow10(places), places) == last_digits(0, places),
    decreases places,
{
    if places > 0 {
        let q = pow10((places - 1) as nat);
        assert(v * (10 * q) == 10 * (v * q)) by (nonlinear_arith);
        lemma_trailing_zeros(v, (places - 1) as nat);
    }
}

/// Write a finite magnitude with a fixed count of decimals.
fn push_finite(out: &mut String, f: Format, mag: u64, places: u32)
    requires
        mag < f.top(),
        places <= 9,
    ensures
        ({
            let n = shifted(f, mag as nat, places as nat);
            let whole = digits(n / pow10(places as nat));
            final(out)@ == old(out)@ + (if places == 0 {
                whole
            } else {
                whole + "."@ + last_digits(n, places as nat)
            })
        }),
{
    let (m, e) = unpack(f, mag);
    let u: u32 = f.unit_bits();
    let p: u64 = ten_to(places);
    let ghost n = shifted(f, mag as nat, places as nat);
    let ghost before = out@;
    let frac: u64;
    if e >= u {
        let j: u32 = e - u;
        proof {
            lemma_pow2_adds(j as nat, u as nat);
            let v = m as nat * pow2(j as nat);
            assert(units(f, mag as nat) == v * pow2(f.unit())) by (nonlinear_arith)
                requires
                    units(f, mag as nat) == m as nat * pow2(e as nat),
                    pow2(e as nat) == pow2(j as nat) * pow2(f.unit()),
                    v == m as nat * pow2(j as nat),
            ;
            lemma_shifted_whole(f, mag as nat, v, places as nat);
            lemma_pow2_pos((f.p() - 1) as nat);
        }
        push_large(out, m, j);
        frac = 0;
        assert(last_digits(frac as nat, places as nat) == last_digits(n, places as nat));
    } else {
        let r: u32 = u - e;
        let w: u64;
        proof {
            lemma_shifted_low(f, mag as nat, m as nat, e as nat, r as nat, p as nat);
            lemma_pow2_le(f.p(), 53);
            lemma2_to64_rest();
            lemma_pow2_pos(r as nat);
            assert(m * p < 0x20_0000_0000_0000 * 1_000_000_001) by (nonlinear_arith)
                requires
                    m < 0x20_0000_0000_0000,
                    1 <= p <= 1_000_000_000,
            ;
            lemma_quotient_bounds(2 * (m as nat * p as nat), pow2(r as nat));
        }
        let b: u128 = 2 * (m as u128 * p as u128);
        let k: u128;
        if r >= 100 {
            proof {
                lemma_pow2_le(100, r as nat);
                lemma_pow2_adds(64, 36);
                crate::fp::model::lemma_quotient_small(b as nat, pow2(r as nat));
            }
            k = 0;
        } else {
            let z: u128 = power(r);
            let t: u128 = b / z;
            let exact: bool = t * z == b;
            proof {
                assert(t <= b) by (nonlinear_arith)
                    requires
                        t * z <= b,
                        z >= 1,
                ;
            }
            k = if t % 2 == 0 || (exact && (t / 2) % 2 == 0) {
                t / 2
            } else {
                t / 2 + 1
            };
        }
        assert(k == n);
        proof {
            lemma_quotient_bounds(k as nat, p as nat);
            let q = k as nat / p as nat;
            assert(q <= m + 1) by (nonlinear_arith)
                requires
                    q * p <= k,
                    k <= m * p + 1,
                    p >= 1,
            ;
            lemma_last_digits(n, places as nat);
        }
        w = (k / p as u128) as u64;
        frac = (k % p as u128) as u64;
        push_number(out, w);
    }
    assert(out@ =~= before + digits(n / pow10(places as nat)));
    if places > 0 {
        out.append(".");
        push_last(out, frac, places);
        assert(out@ =~= before + (digits(n / pow10(places as nat)) + "."@ + last_digits(
            n,
            places as nat,
        )));
    }
}

fn push_decimal(out: &mut String, f: Format, x: Raw, places: u32)
    requires
        places <= 9,
    ensures
        final(out)@ == old(out)@ + decimal(f, x, places as nat),
{
    let top: u64 = f.infinity();
    if x.mag > top {
        out.append("NaN");
        return;
    }
    if x.neg {
        out.append("-");
    }
    if x.mag == top {
        out.append("inf");
    } else {
        push_finite(out, f, x.mag, places);
    }
    assert(out@ =~= old(out)@ + decimal(f, x, places as nat));
}

/// Write a single-precision number with a fixed count of decimals.
pub fn push_decimal32(out: &mut String, x: F32, places: u32)
    requires
        places <= 9,
    ensures
        final(out)@ == old(out)@ + decimal32(x, places as nat),
{
    push_decimal(out, Format::Single, x.unpacked(), places);
}

/// Write a double-precision number with a fixed count of decimals.
pub fn push_decimal64(out: &mut String, x: F64, places: u32)
    requires
        places <= 9,
    ensures
        final(out)@ == old(out)@ + decimal64(x, places as nat),
{
    push_decimal(out, Format::Double, x.unpacked(), places);
}

/// The characters that part words.
pub open spec fn is_space(c: char) -> bool {
    let u = c as u32;
    ||| 9 <= u <= 13
    ||| u == 0x20
    ||| u == 0x85
    ||| u == 0xa0
    ||| u == 0x1680
    ||| 0x2000 <= u <= 0x200a
    ||| u == 0x2028
    ||| u == 0x2029
    ||| u == 0x202f
    ||| u == 0x205f
    ||| u == 0x3000
}

fn parts_words(c: char) -> (b: bool)
    ensures
        b == is_space(c),
{
    let u: u32 = c as u32;
    (u >= 9 && u <= 13) || u == 0x20 || u == 0x85 || u == 0xa0 || u == 0x1680 || (u >= 0x2000 && u
        <= 0x200a) || u == 0x2028 || u == 0x2029 || u == 0x202f || u == 0x205f || u == 0x3000
}

/// The words among the first `n` characters, and the word that is not over yet.
pub open spec fn scanned(s: Seq<char>, n: nat) -> (Seq<Seq<char>>, Seq<char>)
    decreases n,
{
    if n == 0 {
        (seq![], seq![])
    } else {
        let (done, word) = scanned(s, (n - 1) as nat);
        if !is_space(s[n - 1]) {
            (done, word.push(s[n - 1]))
        } else if word.len() > 0 {
            (done.push(word), seq![])
        } else {
            (done, seq![])
        }
    }
}

/// The words of a text: the longest runs without space.
pub open spec fn spec_words(s: Seq<char>) -> Seq<Seq<char>> {
    let (done, word) = scanned(s, s.len());
    if word.len() > 0 {
        done.push(word)
    } else {
        done
    }
}

/// What some strings hold.
pub open spec fn views(v: Seq<String>) -> Seq<Seq<char>> {
    Seq::new(v.len(), |i: int| v[i]@)
}

/// The words of a text.
pub fn words(text: &str) -> (v: Vec<String>)
    ensures
        views(v@) == spec_words(text@),
{
    let n: usize = text.unicode_len();
    let mut v: Vec<String> = Vec::new();
    let mut start: usize = 0;
    let mut i: usize = 0;
    assert(views(v@) =~= seq![]);
    assert(text@.subrange(0, 0) =~= seq![]);
    while i < n
        invariant
            n == text@.len(),
            start <= i <= n,
            views(v@) == scanned(text@, i as nat).0,
            text@.subrange(start as int, i as int) == scanned(text@, i as nat).1,
        decreases n - i,
    {
        let c = text.get_char(i);
        let ghost before = v@;
        if parts_words(c) {
            if start < i {
                let w = text.substring_char(start, i).to_owned();
                v.push(w);
                assert(views(v@) =~= views(before).push(w@));
            }
            start = i + 1;
            assert(text@.subrange(start as int, i + 1) =~= seq![]);
        } else {
            assert(text@.subrange(start as int, i + 1) =~= text@.subrange(
                start as int,
                i as int,
            ).push(c));
        }
        i = i + 1;
    }
    if start < n {
        let w = text.substring_char(start, n).to_owned();
        let ghost before = v@;
        v.push(w);
        assert(views(v@) =~= views(before).push(w@));
    }
    v
}

/// Texts strung together with something between them.
pub open spec fn joined(v: Seq<Seq<char>>, between: Seq<char>) -> Seq<char>
    decreases v.len(),
{
    if v.len() == 0 {
        seq![]
    } else if v.len() == 1 {
        v[0]
    } else {
        joined(v.drop_last(), between) + between + v.last()
    }
}

/// String texts together with something between them.
pub fn join(v: &Vec<String>, between: &str) -> (s: String)
    ensures
        s@ == joined(views(v@), between@),
{
    let mut s = String::new();
    let mut i: usize = 0;
    let ghost all = views(v@);
    assert(joined(all.subrange(0, 0), between@) =~= seq![]);
    while i < v.len()
        invariant
            i <= v.len(),
            all == views(v@),
            s@ == joined(all.subrange(0, i as int), between@),
        decreases v.len() - i,
    {
        if i > 0 {
            s.append(between);
        }
        s.append(v[i].as_str());
        proof {
            let t = all.subrange(0, i + 1);
            assert(t.drop_last() =~= all.subrange(0, i as int));
            assert(t.last() == v@[i as int]@);
            assert(s@ =~= joined(t, between@));
        }
        i = i + 1;
    }
    assert(all.subrange(0, all.len() as int) =~= all);
    s
}

/// Where the first sentence from a place on ends: at the first full stop before
/// a space.
pub open spec fn stop_from(s: Seq<char>, i: nat) -> Option<nat>
    decreases s.len() - i,
{
    if i + 1 >= s.len() {
        None
    } else if s[i as int] == '.' && s[i + 1int] == ' ' {
        Some(i)
    } else {
        stop_from(s, i + 1)
    }
}

/// The first sentence of a text, with its spaces evened out.
pub open spec fn spec_first_sentence(text: Seq<char>) -> Seq<char> {
    let s = joined(spec_words(text), " "@);
    match stop_from(s, 0) {
        Some(i) => s.subrange(0, i + 1int),
        None => s,
    }
}

/// The first sentence of a text, with its spaces evened out.
pub fn first_sentence(text: &str) -> (r: String)
    ensures
        r@ == spec_first_sentence(text@),
{
    let compact = join(&words(text), " ");
    let c = compact.as_str();
    let n: usize = c.unicode_len();
    let ghost s = joined(spec_words(text@), " "@);
    let mut i: usize = 0;
    while i < n && n - i > 1
        invariant
            n == c@.len(),
            s == joined(spec_words(text@), " "@),
            c@ == s,
            i <= n,
            stop_from(s, 0) == stop_from(s, i as nat),
        decreases n - i,
    {
        if c.get_char(i) == '.' && c.get_char(i + 1) == ' ' {
            return c.substring_char(0, i + 1).to_owned();
        }
        i = i + 1;
    }
    compact
}

/// How many bytes a text takes.
pub open spec fn size(s: Seq<char>) -> int {
    vstd::utf8::encode_utf8(s).len() as usize as int
}

/// The lines that words fill: a word goes on the line while the two of them,
/// with a space between, are no longer than the width.
pub open spec fn filled(v: Seq<Seq<char>>, width: usize, n: nat) -> (Seq<Seq<char>>, Seq<char>)
    decreases n,
{
    if n == 0 {
        (seq![], seq![])
    } else {
        let (lines, line) = filled(v, width, (n - 1) as nat);
        let word = v[n - 1];
        if line.len() == 0 {
            (lines, word)
        } else if size(line) + 1 + size(word) > width {
            (lines.push(line), word)
        } else {
            (lines, line + " "@ + word)
        }
    }
}

/// The lines of a wrapped text.
pub open spec fn spec_wrap(s: Seq<char>, width: usize) -> Seq<Seq<char>> {
    let v = spec_words(s);
    let (lines, line) = filled(v, width, v.len());
    if line.len() > 0 {
        lines.push(line)
    } else {
        lines
    }
}

/// Wrap a text into lines.
pub fn wrap(text: &str, width: usize) -> (lines: Vec<String>)
    ensures
        views(lines@) == spec_wrap(text@, width),
{
    let v = words(text);
    let ghost all = spec_words(text@);
    let mut lines: Vec<String> = Vec::new();
    let mut line = String::new();
    let mut k: usize = 0;
    assert(views(lines@) =~= seq![]);
    while k < v.len()
        invariant
            k <= v.len(),
            all == views(v@),
            views(lines@) == filled(all, width, k as nat).0,
            line@ == filled(all, width, k as nat).1,
        decreases v.len() - k,
    {
        let word = v[k].as_str();
        assert(word@ == all[k as int]);
        let empty: bool = line.as_str().is_empty();
        if empty {
            line = word.to_owned();
        } else {
            let a: u128 = line.as_str().len() as u128;
            let b: u128 = word.len() as u128;
            if a + 1 + b > width as u128 {
                let ghost before = lines@;
                let ghost done = line@;
                lines.push(line);
                assert(views(lines@) =~= views(before).push(done));
                line = word.to_owned();
            } else {
                line.append(" ");
                line.append(word);
            }
        }
        k = k + 1;
    }
    if !line.as_str().is_empty() {
        let ghost before = lines@;
        let ghost done = line@;
        lines.push(line);
        assert(views(lines@) =~= views(before).push(done));
    }
    lines
}

/// The number that some digits spell.
pub open spec fn digits_value(s: Seq<char>) -> nat
    decreases s.len(),
{
    if s.len() == 0 {
        0
    } else {
        digits_value(s.drop_last()) * 10 + (s.last() as nat - 48) as nat
    }
}

/// Whether a text is digits, and at least one.
pub open spec fn all_digits(s: Seq<char>) -> bool {
    s.len() > 0 && forall|k: int| 0 <= k < s.len() ==> '0' <= #[trigger] s[k] <= '9'
}

/// What a text reads as: digits, perhaps behind a plus, and no more than fits.
pub open spec fn spec_read_u32(s: Seq<char>) -> Option<u32> {
    let body = if s.len() > 0 && s[0] == '+' {
        s.subrange(1, s.len() as int)
    } else {
        s
    };
    if all_digits(body) && digits_value(body) <= u32::MAX {
        Some(digits_value(body) as u32)
    } else {
        None
    }
}

proof fn lemma_digits_value_grows(s: Seq<char>, n: int)
    requires
        0 <= n <= s.len(),
    ensures
        digits_value(s.subrange(0, n)) <= digits_value(s),
    decreases s.len(),
{
    if n == s.len() {
        assert(s.subrange(0, n) =~= s);
    } else {
        lemma_digits_value_grows(s.drop_last(), n);
        assert(s.drop_last().subrange(0, n) =~= s.subrange(0, n));
    }
}

/// What a text reads as: digits, perhaps behind a plus, and no more than fits.
pub fn read_u32(text: &str) -> (v: Option<u32>)
    ensures
        v == spec_read_u32(text@),
{
    let n: usize = text.unicode_len();
    let start: usize = if n > 0 && text.get_char(0) == '+' {
        1
    } else {
        0
    };
    let ghost body = text@.subrange(start as int, n as int);
    assert(start == 0 ==> body =~= text@);
    if start == n {
        return None;
    }
    let mut v: u32 = 0;
    let mut i: usize = start;
    assert(body.subrange(0, 0) =~= seq![]);
    while i < n
        invariant
            n == text@.len(),
            start <= i <= n,
            start < n,
            body == text@.subrange(start as int, n as int),
            body == (if text@.len() > 0 && text@[0] == '+' {
                text@.subrange(1, text@.len() as int)
            } else {
                text@
            }),
            forall|k: int| 0 <= k < i - start ==> '0' <= #[trigger] body[k] <= '9',
            v == digits_value(body.subrange(0, i - start)),
        decreases n - i,
    {
        let c = text.get_char(i);
        assert(c == body[i - start]);
        if !('0' <= c && c <= '9') {
            return None;
        }
        let d: u32 = c as u32 - 48;
        let ghost longer = body.subrange(0, i + 1 - start);
        assert(longer.drop_last() =~= body.subrange(0, i - start));
        let next: u64 = v as u64 * 10 + d as u64;
        assert(next == digits_value(longer));
        if next > 0xffff_ffff {
            proof {
                lemma_digits_value_grows(body, i + 1 - start);
            }
            return None;
        }
        v = next as u32;
        i = i + 1;
    }
    assert(body.subrange(0, n - start) =~= body);
    Some(v)
}

} // verus!
