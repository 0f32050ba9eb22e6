//! The ladder: every step up is cheaper and riskier than the one below it.

use crate::fp::facts::{
    lemma_add_key, lemma_div_key, lemma_from_small, lemma_from_whole, lemma_mul_key,
    lemma_mul_monotone, lemma_mul_one, lemma_mul_unit, lemma_order, lemma_ratio_ends,
    lemma_ratio_key, lemma_ratio_le, lemma_ratio_sign, lemma_round_lower, lemma_round_top,
    lemma_round_upper, lemma_rounded_sum_monotone, lemma_to_u32_monotone, lemma_unity,
};
use crate::fp::model::{lemma_quotient, lemma_quotient_bounds, units, Format};
use crate::fp::raw::{lemma_units_monotone, lemma_units_zero};
use crate::fp::whole::nearest_part;
use crate::fp::F32;
use crate::governor::QualityState;
use crate::level::{rung, spec_recon_cost, MAX_LEVEL};
use vstd::arithmetic::power2::{lemma2_to64, lemma_pow2_adds, lemma_pow2_pos, pow2};
use vstd::prelude::*;

verus! {

/// The units of a number that is not negative.
spec fn amount(x: F32) -> nat {
    units(Format::Single, x.key() as nat)
}

/// Exponents this small are far from the largest.
proof fn lemma_small_exponent(e: nat)
    requires
        e <= 150,
    ensures
        (e + 2) * pow2(23) <= 0x7f80_0000,
        pow2(24) == 0x100_0000,
{
    lemma2_to64();
    assert((e + 2) * 0x80_0000 <= 0x7f80_0000) by (nonlinear_arith)
        requires
            e <= 150,
    ;
}

/// A fraction lies between the 1024ths around it.
proof fn lemma_fraction(n: u32, d: u32, lo: nat, hi: nat)
    requires
        n < 0x100_0000,
        0 < d < 0x100_0000,
        lo * d <= n * 1024,
        n * 1024 <= hi * d,
        0 < hi < 0x100_0000,
        lo < 0x100_0000,
    ensures
        F32::ratio(n, d).is_finite(),
        F32::ratio(n, d).key() >= 0,
        lo * pow2(139) <= amount(F32::ratio(n, d)) <= hi * pow2(139),
{
    let f = Format::Single;
    let u = pow2(149);
    let w = pow2(139);
    lemma_ratio_key(n, d);
    lemma2_to64();
    lemma_pow2_adds(10, 139);
    lemma_small_exponent(139);
    lemma_pow2_pos(139);
    assert(n as nat * u <= (hi * w) * d as nat) by (nonlinear_arith)
        requires
            n * 1024 <= hi * d,
            u == 1024 * w,
            w > 0,
    ;
    assert((lo * w) * d as nat <= n as nat * u) by (nonlinear_arith)
        requires
            lo * d <= n * 1024,
            u == 1024 * w,
            w > 0,
    ;
    lemma_round_upper(f, n as nat * u, d as nat, hi, 139);
    lemma_round_lower(f, n as nat * u, d as nat, lo, 139);
}

/// The cost of a rung lies between bounds in units of `2^-21`, given the 1024ths
/// around its scale.
proof fn lemma_cost(level: u8, scale: u32, generated: u32, lo: nat, hi: nat)
    requires
        level <= MAX_LEVEL,
        rung(level).render_scale == F32::ratio(scale, 100),
        rung(level).generated_per_rendered == generated,
        generated <= 1,
        scale <= 100,
        lo * 100 <= scale * 1024 <= hi * 100,
        0 < lo,
        hi <= 1024,
    ensures
        ({
            let c = rung(level).relative_cost();
            let per: nat = if generated == 0 { 2 } else { 1 };
            &&& c.is_finite()
            &&& c.key() >= 0
            &&& (lo * lo * per + 81920) * pow2(128) <= amount(c)
            &&& amount(c) <= (hi * hi * per + 83968) * pow2(128)
        }),
{
    let f = Format::Single;
    let x = rung(level).render_scale;
    let per: nat = if generated == 0 {
        2
    } else {
        1
    };
    let (w, u) = (pow2(139), pow2(149));
    let v = pow2(129);
    let t = pow2(128);
    lemma2_to64();
    lemma_pow2_pos(128);
    lemma_pow2_pos(139);
    lemma_pow2_pos(149);
    lemma_pow2_adds(139, 139);
    lemma_pow2_adds(129, 149);
    lemma_pow2_adds(1, 128);
    lemma_pow2_adds(11, 128);
    lemma_small_exponent(128);
    lemma_small_exponent(129);
    assert(w * w == v * u);
    assert(v == 2 * t && w == 2048 * t);
    assert(lo <= 1024 && hi > 0);
    // The pixels drawn.
    lemma_fraction(scale, 100, lo, hi);
    let a = amount(x);
    lemma_mul_key(x, x);
    assert(a * a <= ((hi * hi) * v) * u) by (nonlinear_arith)
        requires
            a <= hi * w,
            w * w == v * u,
    {
        assert(a * a <= (hi * w) * (hi * w));
        assert((hi * w) * (hi * w) == (hi * hi) * (w * w));
        assert((hi * hi) * (v * u) == ((hi * hi) * v) * u);
    }
    assert(((lo * lo) * v) * u <= a * a) by (nonlinear_arith)
        requires
            lo * w <= a,
            w * w == v * u,
    {
        assert((lo * w) * (lo * w) <= a * a);
        assert((lo * w) * (lo * w) == (lo * lo) * (w * w));
        assert((lo * lo) * (v * u) == ((lo * lo) * v) * u);
    }
    assert(hi * hi <= 1024 * 1024 && lo * lo <= 1024 * 1024) by (nonlinear_arith)
        requires
            hi <= 1024,
            lo <= 1024,
    ;
    lemma_round_upper(f, a * a, u, hi * hi, 129);
    lemma_round_lower(f, a * a, u, lo * lo, 129);
    let drawn = x * x;
    let b = amount(drawn);
    // Spread over the frames presented.
    let g = F32::from_u32(rung(level).presented_per_rendered());
    let k = (1 + generated) as nat;
    lemma_from_small(k as u32);
    assert(amount(g) == k * u);
    assert(k * u > 0) by (nonlinear_arith)
        requires
            k >= 1,
            u > 0,
    ;
    crate::fp::raw::lemma_units_zero(f, g.key() as nat);
    lemma_div_key(drawn, g);
    assert(b * u <= ((hi * hi * per) * t) * (k * u)) by (nonlinear_arith)
        requires
            b <= (hi * hi) * v,
            v == 2 * t,
            per * k == 2,
            u > 0,
    {
        assert(((hi * hi * per) * t) * (k * u) == (hi * hi) * ((per * k) * t) * u);
        assert(b * u <= ((hi * hi) * v) * u);
    }
    assert(((lo * lo * per) * t) * (k * u) <= b * u) by (nonlinear_arith)
        requires
            (lo * lo) * v <= b,
            v == 2 * t,
            per * k == 2,
            u > 0,
    {
        assert(((lo * lo * per) * t) * (k * u) == (lo * lo) * ((per * k) * t) * u);
        assert(((lo * lo) * v) * u <= b * u);
    }
    lemma_round_upper(f, b * u, k * u, hi * hi * per, 128);
    lemma_round_lower(f, b * u, k * u, lo * lo * per, 128);
    let spread = drawn / g;
    // And the reconstruction pass.
    let r = spec_recon_cost();
    lemma_fraction(4, 100, 40, 41);
    lemma_add_key(spread, r);
    lemma_order(spread, spread);
    lemma_order(r, r);
    let n = amount(spread) + amount(r);
    let top = hi * hi * per + 83968;
    let low = lo * lo * per + 81920;
    assert(n <= (top * t) * 1) by (nonlinear_arith)
        requires
            n <= (hi * hi * per) * t + 41 * w,
            w == 2048 * t,
            top == hi * hi * per + 83968,
    ;
    assert((low * t) * 1 <= n) by (nonlinear_arith)
        requires
            (lo * lo * per) * t + 40 * w <= n,
            w == 2048 * t,
            low == lo * lo * per + 81920,
    ;
    lemma_round_upper(f, n, 1, top, 128);
    lemma_round_lower(f, n, 1, low, 128);
}

/// What is bounded apart is apart.
proof fn lemma_apart(a: F32, b: F32, hi: nat, lo: nat, t: nat)
    requires
        a.is_finite() && b.is_finite(),
        a.key() >= 0 && b.key() >= 0,
        amount(a) <= hi * t,
        lo * t <= amount(b),
        hi < lo,
        t > 0,
    ensures
        a.lt(b),
{
    assert(hi * t < lo * t) by (nonlinear_arith)
        requires
            hi < lo,
            t > 0,
    ;
    lemma_order(b, a);
    lemma_order(a, a);
}

/// Bounds on the cost of a rung, in units of `2^-21`.
spec fn cost_bounds(level: u8) -> (nat, nat) {
    if level == 0 {
        (2179072, 2181120)
    } else if level == 1 {
        (1323808, 1329010)
    } else if level == 2 {
        (1023112, 1027906)
    } else if level == 3 {
        (811552, 816018)
    } else if level == 4 {
        (606208, 608256)
    } else if level == 5 {
        (344064, 346112)
    } else {
        (195489, 198212)
    }
}

proof fn lemma_rung_cost(level: u8)
    requires
        level <= MAX_LEVEL,
    ensures
        ({
            let c = rung(level).relative_cost();
            &&& c.is_finite()
            &&& c.key() >= 0
            &&& cost_bounds(level).0 * pow2(128) <= amount(c)
            &&& amount(c) <= cost_bounds(level).1 * pow2(128)
        }),
{
    if level == 0 {
        lemma_cost(level, 100, 0, 1024, 1024);
        assert(1024nat * 1024 * 2 + 81920 == 2179072);
        assert(1024nat * 1024 * 2 + 83968 == 2181120);
    } else if level == 1 {
        lemma_cost(level, 77, 0, 788, 789);
        assert(788nat * 788 * 2 + 81920 == 1323808);
        assert(789nat * 789 * 2 + 83968 == 1329010);
    } else if level == 2 {
        lemma_cost(level, 67, 0, 686, 687);
        assert(686nat * 686 * 2 + 81920 == 1023112);
        assert(687nat * 687 * 2 + 83968 == 1027906);
    } else if level == 3 {
        lemma_cost(level, 59, 0, 604, 605);
        assert(604nat * 604 * 2 + 81920 == 811552);
        assert(605nat * 605 * 2 + 83968 == 816018);
    } else if level == 4 {
        lemma_cost(level, 50, 0, 512, 512);
        assert(512nat * 512 * 2 + 81920 == 606208);
        assert(512nat * 512 * 2 + 83968 == 608256);
    } else if level == 5 {
        lemma_cost(level, 50, 1, 512, 512);
        assert(512nat * 512 * 1 + 81920 == 344064);
        assert(512nat * 512 * 1 + 83968 == 346112);
    } else {
        lemma_cost(level, 33, 1, 337, 338);
        assert(337nat * 337 * 1 + 81920 == 195489);
        assert(338nat * 338 * 1 + 83968 == 198212);
    }
}

/// The risk of a rung, in hundredths.
spec fn risk(level: u8) -> u32 {
    if level == 0 {
        0
    } else if level == 1 {
        10
    } else if level == 2 {
        18
    } else if level == 3 {
        28
    } else if level == 4 {
        40
    } else if level == 5 {
        65
    } else {
        85
    }
}

/// Every rung costs something.
pub proof fn lemma_cost_positive(level: u8)
    requires
        level <= MAX_LEVEL,
    ensures
        rung(level).relative_cost().is_finite(),
        rung(level).relative_cost().key() > 0,
{
    let c = rung(level).relative_cost();
    lemma_rung_cost(level);
    lemma_pow2_pos(128);
    lemma_units_zero(Format::Single, c.key() as nat);
    assert(cost_bounds(level).0 * pow2(128) > 0) by (nonlinear_arith)
        requires
            cost_bounds(level).0 > 0,
            pow2(128) > 0,
    ;
}

/// Stepping up the ladder is always cheaper and always riskier, so stepping
/// down is always safer.
pub proof fn law_ladder_is_monotonic(lower: u8, higher: u8)
    requires
        lower < higher <= MAX_LEVEL,
    ensures
        rung(higher).relative_cost().lt(rung(lower).relative_cost()),
        rung(lower).a_priori_risk.lt(rung(higher).a_priori_risk),
    decreases higher - lower,
{
    if lower + 1 < higher {
        law_ladder_is_monotonic(lower, (higher - 1) as u8);
        law_ladder_is_monotonic((higher - 1) as u8, higher);
    } else {
        lemma_rung_cost(lower);
        lemma_rung_cost(higher);
        lemma_pow2_pos(128);
        lemma_apart(
            rung(higher).relative_cost(),
            rung(lower).relative_cost(),
            cost_bounds(higher).1,
            cost_bounds(lower).0,
            pow2(128),
        );
        let a = risk(lower);
        let b = risk(higher);
        let up = ((a * 1024) / 100 + 1) as nat;
        let low = ((b * 1024) / 100) as nat;
        lemma_fraction(a, 100, 0, up);
        lemma_fraction(b, 100, low, low + 1);
        lemma_pow2_pos(139);
        lemma_apart(rung(lower).a_priori_risk, rung(higher).a_priori_risk, up, low, pow2(139));
    }
}

/// All the spatial rungs come before all the temporal ones.
pub proof fn law_spatial_rungs_precede_temporal_rungs(level: u8)
    ensures
        rung(level).is_temporal() <==> level >= 5,
        rung(level).is_temporal() <==> rung(level).generated_per_rendered > 0,
{
}

/// Only rungs that generate frames add latency, and those add one frame of it.
pub proof fn law_latency_comes_with_generation(level: u8)
    ensures
        rung(level).added_latency_frames() == if rung(level).generated_per_rendered > 0 {
            F32::one()
        } else {
            F32::zero()
        },
{
}

/// Riskier rungs earn longer probation: a rejection on a higher rung never keeps
/// the ceiling down for less than one on a lower rung.
pub proof fn law_riskier_rungs_earn_longer_probation(s: QualityState, lower: u8, higher: u8)
    requires
        lower < higher <= MAX_LEVEL,
    ensures
        s.backed_off(lower).cooldown <= s.backed_off(higher).cooldown,
{
    let one = F32::one();
    let a = rung(lower).a_priori_risk;
    let b = rung(higher).a_priori_risk;
    let frames = F32::from_u32(s.cfg.cooldown_frames);
    law_ladder_is_monotonic(lower, higher);
    lemma_ratio_key(risk(lower), 100);
    lemma_ratio_key(risk(higher), 100);
    lemma_from_whole(s.cfg.cooldown_frames as u64);
    lemma_add_key(one, a);
    lemma_add_key(one, b);
    lemma_order(a, b);
    lemma_order(one, one);
    lemma_rounded_sum_monotone(Format::Single, one.value() + a.value(), one.value() + b.value());
    // Both sums stay below two.
    lemma_fraction(risk(higher), 100, 0, 1024);
    lemma_unity(Format::Single);
    lemma_pow2_adds(10, 139);
    lemma2_to64();
    lemma_small_exponent(150);
    lemma_pow2_adds(1, 149);
    lemma_order(b, b);
    let n = one.value() + b.value();
    assert(n <= 2 * pow2(149));
    assert(n as nat <= (1 * pow2(150)) * 1);
    lemma_round_upper(Format::Single, n as nat, 1, 1, 150);
    lemma_mul_monotone(frames, one + a, frames, one + b);
    lemma_to_u32_monotone(frames * (one + a), frames * (one + b));
}

/// Each rung costs the one above it between 1.25 and 1.78 times over, so no
/// band narrow enough to be useful is as wide as the step it would damp.
pub proof fn law_adjacent_rungs_differ_widely(level: u8)
    requires
        level < MAX_LEVEL,
    ensures
        ({
            let lower = rung(level).relative_cost().value();
            let higher = rung((level + 1) as u8).relative_cost().value();
            125 * higher <= 100 * lower <= 178 * higher
        }),
{
    let a = rung(level).relative_cost();
    let b = rung((level + 1) as u8).relative_cost();
    lemma_rung_cost(level);
    lemma_rung_cost((level + 1) as u8);
    lemma_order(a, a);
    lemma_order(b, b);
    let t = pow2(128);
    lemma_pow2_pos(128);
    let (lo, hi) = cost_bounds(level);
    let (low, high) = cost_bounds((level + 1) as u8);
    assert(125 * high <= 100 * lo && 100 * hi <= 178 * low);
    assert(125 * (high * t) <= 100 * (lo * t) && 100 * (hi * t) <= 178 * (low * t))
        by (nonlinear_arith)
        requires
            125 * high <= 100 * lo,
            100 * hi <= 178 * low,
            t > 0,
    ;
}

/// The scale of a rung, in hundredths.
spec fn scale_of(level: u8) -> u32 {
    if level == 0 {
        100
    } else if level == 1 {
        77
    } else if level == 2 {
        67
    } else if level == 3 {
        59
    } else if level <= 5 {
        50
    } else {
        33
    }
}

/// Rounding to a whole number does not pass a whole number.
proof fn lemma_rounds_below(p: F32, side: u32)
    requires
        side < 0x100_0000,
        p.is_finite(),
        p.bits < 0x8000_0000,
        amount(p) <= side * pow2(149),
    ensures
        p.round().to_u32() <= side,
{
    reveal(F32::spec_round);
    reveal(F32::spec_to_u32);
    let f = Format::Single;
    let u = pow2(149);
    let n = amount(p);
    lemma_pow2_pos(149);
    if p.raw().mag >= f.whole() {
        lemma_quotient_bounds(n, u);
        assert(n / u <= side) by (nonlinear_arith)
            requires
                (n / u) * u <= n,
                n <= side * u,
                u > 0,
        ;
    } else {
        let k = nearest_part(f, p.raw().mag as nat);
        lemma_quotient_bounds(2 * n + u, 2 * u);
        assert(k <= side) by (nonlinear_arith)
            requires
                k * (2 * u) <= 2 * n + u,
                n <= side * u,
                u > 0,
        ;
        lemma_from_small(k as u32);
        reveal(F32::spec_from_u64);
        let w = F32::from_u32(k as u32);
        assert(p.round() == w);
        lemma_round_top(f, k * u, 1);
        assert((k + 1) * u == k * u + u) by (nonlinear_arith);
        lemma_quotient(k * u, u, k);
    }
}

/// Rendering is never larger than the output, and never nothing: native renders
/// at exactly the output size.
pub proof fn law_rendering_never_exceeds_the_output(level: u8, side: u32)
    requires
        0 < side < 0x100_0000,
    ensures
        1 <= rung(level).scaled_side(side) <= side,
        level == 0 ==> rung(level).scaled_side(side) == side,
{
    let a = F32::from_u32(side);
    let scale = rung(level).render_scale;
    let k = scale_of(level);
    assert(scale == F32::ratio(k, 100));
    lemma_from_small(side);
    lemma_ratio_le(k, 100, 100, 100);
    lemma_ratio_ends(100);
    lemma_ratio_sign(k, 100);
    lemma_mul_unit(a, scale);
    let p = a * scale;
    assert(a.bits < 0x8000_0000) by {
        reveal(F32::spec_from_u64);
        lemma_from_whole(side as u64);
    }
    assert(p.bits < 0x8000_0000) by {
        reveal(F32::spec_mul);
    }
    lemma_units_monotone(Format::Single, p.key() as nat, a.key() as nat);
    lemma_rounds_below(p, side);
    if level == 0 {
        lemma_mul_one(a);
        lemma_round_keeps_whole(side);
    }
}

/// A whole number rounds to itself.
proof fn lemma_round_keeps_whole(v: u32)
    requires
        v < 0x100_0000,
    ensures
        F32::from_u32(v).round().to_u32() == v,
{
    reveal(F32::spec_round);
    reveal(F32::spec_to_u32);
    reveal(F32::spec_from_u64);
    let f = Format::Single;
    let u = pow2(149);
    let a = F32::from_u32(v);
    lemma_pow2_pos(149);
    lemma_from_small(v);
    lemma_from_whole(v as u64);
    let n = v as nat * u;
    assert((v as nat + 1) * u == n + u) by (nonlinear_arith)
        requires
            n == v as nat * u,
    ;
    lemma_quotient(n, u, v as nat);
    assert(v as nat * (2 * u) <= 2 * n + u && 2 * n + u < (v as nat + 1) * (2 * u))
        by (nonlinear_arith)
        requires
            n == v as nat * u,
            u > 0,
    ;
    lemma_quotient(2 * n + u, 2 * u, v as nat);
}

} // verus!
