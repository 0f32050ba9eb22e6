//! The arithmetic against the machine's own.

use frameboost::fp::{F32, F64};
use frameboost::text::{push_decimal32, push_decimal64, push_left, push_number, push_right};

struct Dice(u64);

impl Dice {
    fn roll(&mut self) -> u64 {
        self.0 = self.0.wrapping_mul(6364136223846793005).wrapping_add(1442695040888963407);
        let x = self.0;
        (x >> 33) ^ (x << 31) ^ (x >> 7)
    }

    /// Bit patterns with many near and equal exponents, and the special ones.
    fn single(&mut self) -> f32 {
        let r = self.roll();
        match r % 8 {
            0 => f32::from_bits((r >> 8) as u32),
            1 => f32::from_bits(((r >> 8) as u32 & 0x807f_ffff) | 0x3f80_0000),
            2 => f32::from_bits(((r >> 8) as u32 & 0x80ff_ffff) | 0x3f00_0000),
            3 => (r >> 50) as f32 - 8192.0,
            4 => f32::from_bits((r >> 8) as u32 & 0x80ff_ffff),
            5 => f32::from_bits(((r >> 8) as u32 & 0x8000_0003) | 0x7f7f_fffc),
            6 => ((r >> 52) as f32 - 2048.0) / 64.0,
            _ => [0.0, -0.0, 1.0, -1.0, 0.5, f32::INFINITY, f32::NEG_INFINITY, f32::NAN]
                [(r >> 8) as usize % 8],
        }
    }

    fn double(&mut self) -> f64 {
        let r = self.roll();
        let s = self.roll();
        match r % 7 {
            0 => f64::from_bits(s),
            1 => f64::from_bits((s & 0x800f_ffff_ffff_ffff) | 0x3ff0_0000_0000_0000),
            2 => f64::from_bits((s & 0x801f_ffff_ffff_ffff) | 0x3fe0_0000_0000_0000),
            3 => (s >> 40) as f64 - 8000000.0,
            4 => f64::from_bits(s & 0x801f_ffff_ffff_ffff),
            5 => ((s >> 50) as f64 - 8192.0) / 256.0,
            _ => [0.0, -0.0, 1.0, -1.0, 0.5, f64::INFINITY, f64::NEG_INFINITY, f64::NAN]
                [(s >> 8) as usize % 8],
        }
    }
}

fn s(v: f32) -> F32 {
    F32::from_bits(v.to_bits())
}

fn d(v: f64) -> F64 {
    F64::from_bits(v.to_bits())
}

fn same32(a: F32, b: f32, what: &str) {
    let x = f32::from_bits(a.to_bits());
    if b.is_nan() {
        assert!(x.is_nan(), "{what}: {x:?} vs {b:?}");
    } else {
        assert_eq!(x.to_bits(), b.to_bits(), "{what}: {x:?} vs {b:?}");
    }
}

fn same64(a: F64, b: f64, what: &str) {
    let x = f64::from_bits(a.to_bits());
    if b.is_nan() {
        assert!(x.is_nan(), "{what}: {x:?} vs {b:?}");
    } else {
        assert_eq!(x.to_bits(), b.to_bits(), "{what}: {x:?} vs {b:?}");
    }
}

#[test]
fn single_arithmetic_is_the_machines() {
    let mut dice = Dice(7);
    for _ in 0..200_000 {
        let (a, b) = (dice.single(), dice.single());
        let (x, y) = (s(a), s(b));
        same32(x + y, a + b, &format!("{a:?} + {b:?}"));
        same32(x - y, a - b, &format!("{a:?} - {b:?}"));
        same32(x * y, a * b, &format!("{a:?} * {b:?}"));
        same32(x / y, a / b, &format!("{a:?} / {b:?}"));
        same32(x.sqrt(), a.sqrt(), &format!("sqrt {a:?}"));
        same32(x.floor(), a.floor(), &format!("floor {a:?}"));
        same32(x.round(), a.round(), &format!("round {a:?}"));
        same32(x.abs(), a.abs(), &format!("abs {a:?}"));
        same32(x.neg(), -a, &format!("neg {a:?}"));
    }
}

#[test]
fn double_arithmetic_is_the_machines() {
    let mut dice = Dice(11);
    for _ in 0..200_000 {
        let (a, b) = (dice.double(), dice.double());
        let (x, y) = (d(a), d(b));
        same64(x + y, a + b, &format!("{a:?} + {b:?}"));
        same64(x - y, a - b, &format!("{a:?} - {b:?}"));
        same64(x * y, a * b, &format!("{a:?} * {b:?}"));
        same64(x / y, a / b, &format!("{a:?} / {b:?}"));
        same64(x.sqrt(), a.sqrt(), &format!("sqrt {a:?}"));
        same64(x.floor(), a.floor(), &format!("floor {a:?}"));
        same64(x.round(), a.round(), &format!("round {a:?}"));
        same64(x.abs(), a.abs(), &format!("abs {a:?}"));
        same64(x.neg(), -a, &format!("neg {a:?}"));
    }
}

#[test]
fn comparisons_are_the_machines() {
    let mut dice = Dice(13);
    for _ in 0..200_000 {
        let (a, b) = (dice.single(), dice.single());
        let (x, y) = (s(a), s(b));
        assert_eq!(x.lt(y), a < b, "{a:?} < {b:?}");
        assert_eq!(x.le(y), a <= b, "{a:?} <= {b:?}");
        assert_eq!(x.gt(y), a > b, "{a:?} > {b:?}");
        assert_eq!(x.ge(y), a >= b, "{a:?} >= {b:?}");
        assert_eq!(x == y, a == b, "{a:?} == {b:?}");
        assert_eq!(x.is_nan(), a.is_nan());
        assert_eq!(x.is_finite(), a.is_finite());
        // Which zero a minimum of two zeros is, is left open.
        if a != b {
            same32(x.min(y), a.min(b), &format!("min {a:?} {b:?}"));
            same32(x.max(y), a.max(b), &format!("max {a:?} {b:?}"));
        }
        same32(
            x.clamp(s(-2.5), s(3.0)),
            a.clamp(-2.5, 3.0),
            &format!("clamp {a:?}"),
        );
        let (p, q) = (dice.double(), dice.double());
        assert_eq!(d(p).lt(d(q)), p < q);
        assert_eq!(d(p).le(d(q)), p <= q);
        assert_eq!(d(p) == d(q), p == q);
        if p != q {
            same64(d(p).max(d(q)), p.max(q), &format!("max {p:?} {q:?}"));
            same64(d(p).min(d(q)), p.min(q), &format!("min {p:?} {q:?}"));
        }
    }
}

#[test]
fn conversions_are_the_machines() {
    let mut dice = Dice(17);
    for _ in 0..200_000 {
        let a = dice.single();
        let b = dice.double();
        same64(s(a).to_f64(), a as f64, &format!("{a:?} widened"));
        same32(d(b).to_f32(), b as f32, &format!("{b:?} narrowed"));
        assert_eq!(s(a).to_u32(), a as u32, "{a:?}");
        assert_eq!(s(a).to_i32(), a as i32, "{a:?}");
        assert_eq!(s(a).to_u64(), a as u64, "{a:?}");
        assert_eq!(d(b).to_u64(), b as u64, "{b:?}");
        assert_eq!(d(b).to_i32(), b as i32, "{b:?}");
        assert_eq!(d(b).to_u32(), b as u32, "{b:?}");
        let n = dice.roll() >> (dice.roll() % 64);
        same32(F32::from_u64(n), n as f32, &format!("{n}"));
        same64(F64::from_u64(n), n as f64, &format!("{n}"));
        same32(F32::from_u32(n as u32), n as u32 as f32, &format!("{n}"));
        same32(F32::from_i64(n as i64), n as i64 as f32, &format!("{n}"));
        same64(F64::from_i64(n as i64), n as i64 as f64, &format!("{n}"));
    }
    same32(F32::from_i64(i64::MIN), i64::MIN as f32, "least");
}

#[test]
fn ratios_are_the_decimals_they_stand_for() {
    for (n, dd, v) in [
        (4, 100, 0.04f32),
        (77, 100, 0.77),
        (67, 100, 0.67),
        (59, 100, 0.59),
        (33, 100, 0.33),
        (55, 100, 0.55),
        (2126, 10000, 0.2126),
        (7152, 10000, 0.7152),
        (722, 10000, 0.0722),
        (1, 10000, 1e-4),
        (1, 1000, 1e-3),
        (1, 100000, 1e-5),
        (1, 1000000, 1e-6),
        (1, 100000000, 1e-8),
        (105, 100, 1.05),
        (2, 5, 0.4),
    ] {
        same32(F32::ratio(n, dd), v, "ratio");
    }
    same64(F64::ratio(15, 100), 0.15, "ratio");
    same32(F32::zero(), 0.0, "zero");
    same32(F32::one(), 1.0, "one");
    same32(F32::half(), 0.5, "half");
    same32(F32::two(), 2.0, "two");
    same32(F32::four(), 4.0, "four");
    same32(F32::max_value(), f32::MAX, "max");
    same32(F32::infinity(), f32::INFINITY, "inf");
    same32(F32::neg_infinity(), f32::NEG_INFINITY, "-inf");
    same64(F64::one(), 1.0, "one");
}

#[test]
fn text_of_numbers_is_the_machines() {
    let mut dice = Dice(23);
    for _ in 0..20_000 {
        let a = dice.single();
        let b = dice.double();
        for places in [0u32, 1, 2, 3, 4] {
            let mut t = String::new();
            push_decimal32(&mut t, s(a), places);
            assert_eq!(t, format!("{a:.*}", places as usize));
            let mut t = String::new();
            push_decimal64(&mut t, d(b), places);
            assert_eq!(t, format!("{b:.*}", places as usize));
        }
        let n = dice.roll() >> (dice.roll() % 64);
        let mut t = String::new();
        push_number(&mut t, n);
        assert_eq!(t, format!("{n}"));
    }
    let mut t = String::new();
    push_right(&mut t, "ab", 5);
    push_left(&mut t, "cd", 4);
    push_right(&mut t, "longer", 3);
    assert_eq!(t, "   abcd  longer");
}
