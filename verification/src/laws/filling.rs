//! Filling: the believable region grows outward, one pixel for each pass.

use crate::fp::facts::{
    lemma_add_key, lemma_order, lemma_rounded_sum_monotone, lemma_rounds_to_itself,
};
use crate::fp::model::Format;
use crate::fp::F32;
use crate::frame::lemma_place;
use crate::laws::recon::law_filling_keeps_believable_pixels;
use crate::recon::interpolate::Patch;
use vstd::prelude::*;

verus! {

/// Whether a picture has a color and a confidence for each place, and every
/// confidence is a number.
pub open spec fn is_picture(p: Patch) -> bool {
    &&& p.width > 0
    &&& p.height > 0
    &&& p.color.len() == p.width * p.height
    &&& p.valid.len() == p.width * p.height
    &&& forall|k: int| 0 <= k < p.valid.len() ==> !(#[trigger] p.valid[k]).is_nan()
}

/// Whether the pixel at place `k` is believable.
pub open spec fn believed(p: Patch, k: int) -> bool {
    p.valid[k].gt(F32::zero())
}

/// Steps from one column or row to another.
pub open spec fn between(a: int, b: int) -> int {
    if a < b {
        b - a
    } else {
        a - b
    }
}

/// Steps from one place to another, where a step goes to any of the eight
/// neighbours.
pub open spec fn steps(width: int, k: int, j: int) -> int {
    let across = between(k % width, j % width);
    let down = between(k / width, j / width);
    if across < down {
        down
    } else {
        across
    }
}

/// Whether a believable pixel lies within `n` steps of place `k`.
pub open spec fn reached(p: Patch, k: int, n: nat) -> bool {
    exists|j: int|
        0 <= j < p.valid.len() && #[trigger] believed(p, j) && steps(p.width, k, j) <= n
}

/// A place is in a column and a row of the picture.
pub proof fn lemma_coordinates(k: int, w: int, h: int)
    requires
        0 <= k < w * h,
        0 < w,
    ensures
        0 <= k % w < w,
        0 <= k / w < h,
        k == (k / w) * w + k % w,
{
    vstd::arithmetic::div_mod::lemma_fundamental_div_mod(k, w);
    vstd::arithmetic::div_mod::lemma_mod_bound(k, w);
    vstd::arithmetic::div_mod::lemma_div_pos_is_pos(k, w);
    let y = k / w;
    let x = k % w;
    assert(w * y == y * w) by (nonlinear_arith);
    assert(y < h) by (nonlinear_arith)
        requires
            w * y + x == k,
            0 <= x,
            k < w * h,
            w > 0,
    ;
}

/// A weight that has grown stays positive.
proof fn lemma_weight_grows(a: F32, v: F32)
    requires
        !a.is_nan(),
        a.key() >= 0,
        v.gt(F32::zero()),
    ensures
        (a + v).gt(F32::zero()),
{
    if a.is_finite() && v.is_finite() {
        lemma_add_key(a, v);
        lemma_rounds_to_itself(v);
        lemma_order(F32::zero(), a);
        lemma_order(F32::zero(), F32::zero());
        lemma_rounded_sum_monotone(Format::Single, v.value(), a.value() + v.value());
    } else {
        reveal(F32::spec_add);
    }
}

/// Whether neighbour `m` of a place is inside the picture and believable.
spec fn helps(p: Patch, x: int, y: int, m: int) -> bool {
    let nx = x + m % 3 - 1;
    let ny = y + m / 3 - 1;
    &&& m != 4
    &&& 0 <= nx < p.width
    &&& 0 <= ny < p.height
    &&& believed(p, ny * p.width + nx)
}

/// A place gathers something where one of its neighbours helps.
proof fn lemma_gathers(p: Patch, x: int, y: int, n: nat)
    requires
        is_picture(p),
        0 <= x < p.width,
        0 <= y < p.height,
        n <= 9,
    ensures
        !p.gathered(x, y, n).weight.is_nan(),
        p.gathered(x, y, n).weight.key() >= 0,
        p.gathered(x, y, n).weight.gt(F32::zero()) <==> exists|m: int|
            0 <= m < n && #[trigger] helps(p, x, y, m),
    decreases n,
{
    if n > 0 {
        let last = n - 1;
        lemma_gathers(p, x, y, last as nat);
        let g = p.gathered(x, y, last as nat);
        let nx = x + last % 3 - 1;
        let ny = y + last / 3 - 1;
        if 0 <= nx < p.width && 0 <= ny < p.height {
            lemma_place(nx, ny, p.width, p.height);
        }
        let k = ny * p.width + nx;
        assert(helps(p, x, y, last) || !helps(p, x, y, last));
        if helps(p, x, y, last) {
            lemma_weight_grows(g.weight, p.valid[k]);
        } else {
            assert(p.gathered(x, y, n) == g);
            if g.weight.gt(F32::zero()) {
                let m = choose|m: int| 0 <= m < last && #[trigger] helps(p, x, y, m);
                assert(helps(p, x, y, m));
            }
        }
    }
}

/// After a pass, a pixel is believable where it was, or where a neighbour was.
proof fn lemma_pass(p: Patch, k: int)
    requires
        is_picture(p),
        0 <= k < p.valid.len(),
    ensures
        is_picture(p.pass()),
        p.pass().width == p.width,
        p.pass().height == p.height,
        believed(p.pass(), k) <==> reached(p, k, 1),
        believed(p, k) ==> p.pass().valid[k] == p.valid[k],
        !believed(p, k) && reached(p, k, 1) ==> p.pass().valid[k] == F32::half(),
        !reached(p, k, 1) ==> p.pass().valid[k] == p.valid[k] && p.pass().color[k] == p.color[k],
{
    let w = p.width;
    let h = p.height;
    let x = k % w;
    let y = k / w;
    lemma_coordinates(k, w, h);
    lemma_gathers(p, x, y, 9);
    assert forall|i: int| 0 <= i < p.pass().valid.len() implies !(
    #[trigger] p.pass().valid[i]).is_nan() by {
        assert(!p.valid[i].is_nan());
    }
    if believed(p, k) {
        assert(steps(w, k, k) == 0);
    } else if p.fills(k) {
        let m = choose|m: int| 0 <= m < 9 && #[trigger] helps(p, x, y, m);
        let nx = x + m % 3 - 1;
        let ny = y + m / 3 - 1;
        lemma_place(nx, ny, w, h);
        let j = ny * w + nx;
        assert(believed(p, j) && steps(w, k, j) <= 1);
    } else if reached(p, k, 1) {
        let j = choose|j: int|
            0 <= j < p.valid.len() && #[trigger] believed(p, j) && steps(w, k, j) <= 1;
        lemma_coordinates(j, w, h);
        let nx = j % w;
        let ny = j / w;
        let m = (ny - y + 1) * 3 + (nx - x + 1);
        assert(0 <= m < 9 && m % 3 == nx - x + 1 && m / 3 == ny - y + 1);
        assert(m == 4 ==> j == k);
        assert(helps(p, x, y, m));
    }
}

/// What a pass reaches in some steps, the picture before it reaches in one more.
proof fn lemma_reach(p: Patch, k: int, n: nat)
    requires
        is_picture(p),
        0 <= k < p.valid.len(),
    ensures
        reached(p.pass(), k, n) <==> reached(p, k, n + 1),
{
    let w = p.width;
    let h = p.height;
    let q = p.pass();
    lemma_coordinates(k, w, h);
    if reached(q, k, n) {
        let j = choose|j: int|
            0 <= j < q.valid.len() && #[trigger] believed(q, j) && steps(w, k, j) <= n;
        lemma_pass(p, j);
        let i = choose|i: int|
            0 <= i < p.valid.len() && #[trigger] believed(p, i) && steps(w, j, i) <= 1;
        assert(steps(w, k, i) <= n + 1);
    }
    if reached(p, k, n + 1) {
        let i = choose|i: int|
            0 <= i < p.valid.len() && #[trigger] believed(p, i) && steps(w, k, i) <= n + 1;
        lemma_coordinates(i, w, h);
        // One step from there toward the place.
        let x = one_nearer(i % w, k % w);
        let y = one_nearer(i / w, k / w);
        lemma_place(x, y, w, h);
        let j = y * w + x;
        assert(steps(w, j, i) <= 1);
        lemma_pass(p, j);
        assert(believed(p, i) && steps(w, j, i) <= 1);
        assert(reached(p, j, 1));
        assert(believed(q, j) && steps(w, k, j) <= n);
    }
}

/// One step nearer to a column or a row.
spec fn one_nearer(a: int, b: int) -> int {
    if a < b {
        a + 1
    } else if a > b {
        a - 1
    } else {
        a
    }
}

/// Filling grows the believable region outward, one pixel for each pass: after
/// `n` passes a hole has a confidence of one half exactly where a pixel that was
/// believable at the start lies within `n` steps of it, and every other pixel is
/// as it was.
pub proof fn law_filling_grows_one_pixel_for_each_pass(p: Patch, n: nat, k: int)
    requires
        is_picture(p),
        0 <= k < p.valid.len(),
    ensures
        ({
            let done = p.passes(n);
            &&& believed(done, k) <==> reached(p, k, n)
            &&& !believed(p, k) && reached(p, k, n) ==> done.valid[k] == F32::half()
            &&& believed(p, k) || !reached(p, k, n) ==> done.valid[k] == p.valid[k]
                && done.color[k] == p.color[k]
        }),
    decreases n,
{
    let w = p.width;
    if n == 0 {
        if reached(p, k, 0) {
            let j = choose|j: int|
                0 <= j < p.valid.len() && #[trigger] believed(p, j) && steps(w, k, j) <= 0;
            lemma_coordinates(k, w, p.height);
            lemma_coordinates(j, w, p.height);
            assert(j == k);
        }
        if believed(p, k) {
            assert(steps(w, k, k) == 0);
        }
    } else {
        let q = p.pass();
        lemma_pass(p, k);
        lemma_reach(p, k, (n - 1) as nat);
        law_filling_grows_one_pixel_for_each_pass(q, (n - 1) as nat, k);
        if believed(q, k) {
            law_filling_keeps_believable_pixels(q, (n - 1) as nat, k);
            let j = choose|j: int|
                0 <= j < p.valid.len() && #[trigger] believed(p, j) && steps(w, k, j) <= 1;
            assert(believed(p, j) && steps(w, k, j) <= n);
        }
    }
}

} // verus!
