//! Scenery: what the synthetic renderer says of motion and depth is true of what
//! it draws.

use crate::fp::errors::{lemma_ratio_close, lemma_slip, one_unit};
use crate::fp::facts::{
    lemma_add_key, lemma_div_key, lemma_exact, lemma_from_small, lemma_mul_one, lemma_order,
    lemma_ratio_key, lemma_round_same, lemma_rounded_sum_monotone, lemma_rounds_to_itself,
    lemma_sub_key, lemma_unity, rounded_sum,
};
use crate::fp::model::{lemma_round_exact, units, Format};
use crate::fp::raw::lemma_units_zero;
use crate::fp::F32;
use crate::frame::GBuffer;
use crate::laws::motion::{inside, is_whole};
use crate::laws::sampling::{center, lemma_center, lemma_half_value};
use crate::sim::scene::{seen_at, Frame, LayerKind, Scene, Waves};
use vstd::arithmetic::power2::{lemma2_to64, lemma_pow2_pos, pow2};
use vstd::prelude::*;

verus! {

/// Near layers hide far ones and move most: the nearer of two layers has the
/// lesser depth and the greater parallax.
pub proof fn law_near_layers_move_most()
    ensures
        LayerKind::Foreground.depth().lt(LayerKind::Midground.depth()),
        LayerKind::Midground.depth().lt(LayerKind::Background.depth()),
        LayerKind::Midground.parallax().lt(LayerKind::Foreground.parallax()),
        LayerKind::Background.parallax().lt(LayerKind::Midground.parallax()),
{
    lemma_slip();
    lemma_unity(Format::Single);
    lemma_ratio_close(2, 1);
    lemma_from_small(12);
    lemma_from_small(60);
    lemma_from_small(1);
    lemma_quotient_by_one(12);
    lemma_quotient_by_one(60);
    lemma_ratio_close(45, 100);
    lemma_ratio_close(12, 100);
    lemma_order(LayerKind::Midground.depth(), LayerKind::Foreground.depth());
    lemma_order(LayerKind::Background.depth(), LayerKind::Midground.depth());
    lemma_order(LayerKind::Foreground.parallax(), LayerKind::Midground.parallax());
    lemma_order(LayerKind::Midground.parallax(), LayerKind::Background.parallax());
}

/// A whole number over one is the number.
proof fn lemma_quotient_by_one(n: u32)
    requires
        n < 0x100_0000,
    ensures
        F32::ratio(n, 1).is_finite(),
        F32::ratio(n, 1).value() == n * one_unit(),
{
    let f = Format::Single;
    lemma2_to64();
    lemma_ratio_key(n, 1);
    let h = pow2((f.p() - 1) as nat);
    assert((149 + 2) * h <= f.top()) by (nonlinear_arith)
        requires
            h == 0x80_0000,
            f.top() == 0x7f80_0000,
    ;
    let mag = lemma_exact(f, n as nat, 149);
    lemma_order(F32::ratio(n, 1), F32::ratio(n, 1));
}

/// A number over itself is one.
proof fn lemma_over_itself(n: u32)
    requires
        0 < n < 0x100_0000,
    ensures
        F32::from_u32(n) / F32::from_u32(n) == F32::one(),
{
    let f = Format::Single;
    let a = F32::from_u32(n);
    let u = pow2(149);
    lemma_from_small(n);
    lemma_order(a, a);
    lemma_pow2_pos(149);
    lemma_unity(f);
    let x = units(f, a.key() as nat);
    assert(x > 0) by (nonlinear_arith)
        requires
            x == n * u,
            n > 0,
            u > 0,
    ;
    lemma_order(a, F32::zero());
    lemma_div_key(a, a);
    assert((x * u) * 1 == u * x) by (nonlinear_arith);
    lemma_round_same(f, x * u, x, u, 1);
    lemma_round_exact(f, f.unity());
    assert((a / a).key() == F32::one().key());
}

/// A number over one is the number.
proof fn lemma_over_one(a: F32)
    requires
        a.is_finite(),
    ensures
        a / F32::one() == a,
{
    reveal(F32::spec_div);
    let f = Format::Single;
    let u = pow2(149);
    let mag = a.raw().mag as nat;
    lemma_unity(f);
    lemma_pow2_pos(149);
    assert((units(f, mag) * u) * 1 == units(f, mag) * u);
    lemma_round_same(f, units(f, mag) * u, u, units(f, mag), 1);
    lemma_round_exact(f, mag);
}

/// A difference of whole numbers.
proof fn lemma_whole_difference(a: F32, b: F32, i: int, j: int)
    requires
        is_whole(a, i),
        is_whole(b, j),
        -0x100_0000 < i - j < 0x100_0000,
    ensures
        is_whole(a - b, i - j),
{
    let f = Format::Single;
    let u = pow2(149);
    let d = i - j;
    lemma2_to64();
    lemma_pow2_pos(149);
    lemma_sub_key(a, b);
    assert(i * u - j * u == d * u) by (nonlinear_arith)
        requires
            d == i - j,
    ;
    let m: nat = if d < 0 {
        (-d) as nat
    } else {
        d as nat
    };
    assert(d < 0 ==> d * u == -(m * u) && m * u > 0) by (nonlinear_arith)
        requires
            d < 0 ==> m == -d,
            u > 0,
    ;
    assert(m * u >= 0) by (nonlinear_arith);
    let h = pow2((f.p() - 1) as nat);
    assert((149 + 2) * h <= f.top()) by (nonlinear_arith)
        requires
            h == 0x80_0000,
            f.top() == 0x7f80_0000,
    ;
    let mag = lemma_exact(f, m, 149);
    lemma_units_zero(f, mag);
    lemma_order(a - b, a - b);
}

/// Whether a function gives one answer to one question.
pub open spec fn is_function<S: Fn(F32) -> F32>(s: &S) -> bool {
    forall|a: F32, x: F32, y: F32|
        #[trigger] call_ensures(s, (a,), x) && #[trigger] call_ensures(s, (a,), y) ==> x == y
}

/// Whether the camera of a frame stands at a whole place.
pub open spec fn stands_at(camera: [F32; 2], x: int, y: int) -> bool {
    &&& is_whole(camera[0], x)
    &&& is_whole(camera[1], y)
    &&& -0x40_0000 < x < 0x40_0000
    &&& -0x40_0000 < y < 0x40_0000
}

/// Places that add up to the same place in the world are the same.
proof fn lemma_same_place(x: u32, c: F32, i: int, y: u32, d: F32, j: int)
    requires
        x < 0x40_0000,
        y < 0x40_0000,
        is_whole(c, i),
        is_whole(d, j),
        x + i == y + j,
    ensures
        center(x) + c == center(y) + d,
{
    let h = pow2(148);
    lemma_half_value();
    lemma_center(x);
    lemma_center(y);
    lemma_add_key(center(x), c);
    lemma_add_key(center(y), d);
    let (a, b) = (center(x) + c, center(y) + d);
    assert((2 * x + 1) * h + i * (2 * h) == (2 * (x + i) + 1) * h) by (nonlinear_arith);
    assert((2 * y + 1) * h + j * (2 * h) == (2 * (y + j) + 1) * h) by (nonlinear_arith);
    assert(a.key() == b.key());
    let v = (2 * (x + i) + 1) * h;
    assert(v >= h || v <= -h) by (nonlinear_arith)
        requires
            v == (2 * (x + i) + 1) * h,
            h > 0,
    ;
    if a.key() == 0 {
        lemma_not_nothing(v);
    }
}

/// What is half a pixel at least does not round to nothing.
proof fn lemma_not_nothing(v: int)
    requires
        v >= pow2(148) || v <= -(pow2(148) as int),
    ensures
        rounded_sum(Format::Single, v) != 0,
{
    let half = F32::half();
    lemma_half_value();
    lemma_rounds_to_itself(half);
    lemma_order(half, F32::zero());
    if v > 0 {
        lemma_rounded_sum_monotone(Format::Single, half.value(), v);
    } else {
        lemma_rounded_sum_monotone(Format::Single, half.value(), -v);
    }
}

/// Motion vectors are exact. Rendered at full size, with the camera at whole
/// places, whichever way it moved, a pixel of the nearest layer has as its motion
/// how far the camera went, and that leads to where the same surface was seen
/// before: wherever that is in the frame, the frame before showed there the same
/// color at the same depth.
pub proof fn law_rendered_motion_is_exact<S: Fn(F32) -> F32, C: Fn(F32) -> F32>(
    scene: &Scene,
    before: &Frame,
    now: &Frame,
    sin: &S,
    cos: &C,
    prev: GBuffer,
    next: GBuffer,
    x: u32,
    y: u32,
    ax: int,
    ay: int,
    bx: int,
    by: int,
)
    requires
        0 < scene.output_width < 0x40_0000,
        0 < scene.output_height < 0x40_0000,
        is_function(sin),
        is_function(cos),
        call_ensures(
            Scene::render::<S, C>,
            (scene, scene.output_width, scene.output_height, before, sin, cos),
            prev,
        ),
        call_ensures(
            Scene::render::<S, C>,
            (scene, scene.output_width, scene.output_height, now, sin, cos),
            next,
        ),
        now.prev_camera == before.camera,
        now.seed == before.seed,
        now.flash.key() == 0,
        before.flash.key() == 0,
        now.particles.le(F32::zero()),
        before.particles.le(F32::zero()),
        stands_at(before.camera, bx, by),
        stands_at(now.camera, ax, ay),
        inside(&next, x as int, y as int),
        next.depth.px(x as int, y as int) == LayerKind::Foreground.depth(),
    ensures
        is_whole(next.motion.px(x as int, y as int)@[0], ax - bx),
        is_whole(next.motion.px(x as int, y as int)@[1], ay - by),
        inside(&prev, x + (ax - bx), y + (ay - by)) ==> {
            let (px, py) = (x + (ax - bx), y + (ay - by));
            &&& prev.color.px(px, py)@ == next.color.px(x as int, y as int)@
            &&& prev.depth.px(px, py) == next.depth.px(x as int, y as int)
        },
{
    reveal(Scene::drawn);
    let (w, h) = (scene.output_width, scene.output_height);
    let one = F32::one();
    lemma_over_itself(w);
    lemma_over_itself(h);
    lemma_center(x);
    lemma_center(y);
    lemma_mul_one(center(x));
    lemma_mul_one(center(y));
    law_near_layers_move_most();
    let p = seen_at(&next, x, y);
    assert(scene.drawn(w, h, *now, x, y, sin, cos, p));
    let waves = choose|waves: Waves|
        scene.waves_of(w, h, *now, x, y, sin, cos, waves) && p == #[trigger] scene.pixel(
            w,
            h,
            *now,
            x,
            y,
            waves,
        );
    assert(scene.behind_bar(center(x), *now));
    // Motion.
    let cam = now.camera;
    let was = before.camera;
    lemma_whole_difference(cam[0], was[0], ax, bx);
    lemma_whole_difference(cam[1], was[1], ay, by);
    lemma_mul_one(cam[0] - was[0]);
    lemma_mul_one(cam[1] - was[1]);
    lemma_over_one(cam[0] - was[0]);
    lemma_over_one(cam[1] - was[1]);
    assert(p.motion[0] == cam[0] - was[0] && p.motion[1] == cam[1] - was[1]);
    // Color.
    if inside(&prev, x + (ax - bx), y + (ay - by)) {
        let (px, py) = ((x + (ax - bx)) as u32, (y + (ay - by)) as u32);
        lemma_center(px);
        lemma_center(py);
        lemma_mul_one(center(px));
        lemma_mul_one(center(py));
        lemma_mul_one(cam[0]);
        lemma_mul_one(cam[1]);
        lemma_mul_one(was[0]);
        lemma_mul_one(was[1]);
        lemma_same_place(x, cam[0], ax, px, was[0], bx);
        lemma_same_place(y, cam[1], ay, py, was[1], by);
        let q = seen_at(&prev, px, py);
        assert(scene.drawn(w, h, *before, px, py, sin, cos, q));
        let others = choose|waves: Waves|
            scene.waves_of(w, h, *before, px, py, sin, cos, waves) && q == #[trigger] scene.pixel(
                w,
                h,
                *before,
                px,
                py,
                waves,
            );
        assert(scene.behind_bar(center(px), *before));
        assert(waves.across == others.across);
        assert(waves.down == others.down);
        assert(p.color == q.color);
    }
}

} // verus!
