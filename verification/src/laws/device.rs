//! Moving planes to a device and back.

use crate::fp::F32;
use crate::frame::{clamped, lemma_place, ImageBuffer, Texel};
use crate::gpu::{
    fill_steps, fill_turns, flat, laid_out, lemma_read_as, patterns, read_as, row_bytes,
    tight_rows, CopyLayout, FillStep, Side,
};
use crate::recon::interpolate::Patch;
use vstd::prelude::*;

verus! {

/// What a machine lays out in memory it reads as it was: numbers come back as
/// they were written.
pub proof fn law_numbers_come_back(b: Seq<u8>, sent: Seq<F32>, back: Seq<F32>)
    requires
        laid_out(patterns(sent), b),
        read_as(b, patterns(back)),
    ensures
        back == sent,
{
    lemma_read_as(b, patterns(back));
    assert(patterns(back) == patterns(sent));
    assert(back.len() == patterns(back).len() && sent.len() == patterns(sent).len());
    assert forall|i: int| 0 <= i < sent.len() implies back[i] == sent[i] by {
        assert(patterns(sent)[i] == patterns(back)[i]);
    }
    assert(back =~= sent);
}

/// What lies between the rows never matters: two copies that agree on the rows
/// are read alike, whatever their padding holds.
pub proof fn law_padding_never_matters(a: Seq<u8>, b: Seq<u8>, l: CopyLayout, n: nat)
    requires
        forall|row: int| 0 <= row < n ==> #[trigger] row_bytes(a, l, row) == row_bytes(b, l, row),
    ensures
        tight_rows(a, l, n) == tight_rows(b, l, n),
    decreases n,
{
    if n > 0 {
        law_padding_never_matters(a, b, l, (n - 1) as nat);
        assert(row_bytes(a, l, n - 1) == row_bytes(b, l, n - 1));
    }
}

/// Whether the rows of a copied plane are those that were uploaded.
pub open spec fn keeps_rows(copy: Seq<u8>, l: CopyLayout, uploaded: Seq<u8>) -> bool {
    &&& uploaded.len() == l.unpadded * l.rows
    &&& forall|row: int|
        0 <= row < l.rows ==> #[trigger] row_bytes(copy, l, row) == uploaded.subrange(
            row * l.unpadded,
            row * l.unpadded + l.unpadded,
        )
}

/// The rows without their padding are the upload, as far as they go.
proof fn lemma_tight_again(copy: Seq<u8>, l: CopyLayout, uploaded: Seq<u8>, n: nat)
    requires
        keeps_rows(copy, l, uploaded),
        n <= l.rows,
    ensures
        tight_rows(copy, l, n) == uploaded.subrange(0, n * l.unpadded),
        n * l.unpadded <= uploaded.len(),
    decreases n,
{
    assert(n * l.unpadded <= l.unpadded * l.rows) by (nonlinear_arith)
        requires
            n <= l.rows,
    ;
    if n > 0 {
        let row = n - 1;
        lemma_tight_again(copy, l, uploaded, row as nat);
        assert(n * l.unpadded == row * l.unpadded + l.unpadded) by (nonlinear_arith)
            requires
                row == n - 1,
        ;
        assert(row * l.unpadded >= 0) by (nonlinear_arith)
            requires
                row >= 0,
        ;
        assert(row_bytes(copy, l, row) == uploaded.subrange(
            row * l.unpadded,
            row * l.unpadded + l.unpadded,
        ));
        assert(uploaded.subrange(0, row * l.unpadded) + uploaded.subrange(
            row * l.unpadded,
            row * l.unpadded + l.unpadded,
        ) =~= uploaded.subrange(0, n * l.unpadded));
    } else {
        assert(0 * l.unpadded == 0) by (nonlinear_arith);
        assert(uploaded.subrange(0, 0) =~= seq![]);
    }
}

/// Reading undoes uploading. Where a device keeps the rows of a plane, what is
/// read back is the numbers that were uploaded, in order and tightly packed, at
/// any width and whatever lies between the rows.
pub proof fn law_reading_undoes_uploading(
    sent: Seq<F32>,
    uploaded: Seq<u8>,
    copy: Seq<u8>,
    l: CopyLayout,
    back: Seq<F32>,
)
    requires
        laid_out(patterns(sent), uploaded),
        keeps_rows(copy, l, uploaded),
        read_as(tight_rows(copy, l, l.rows as nat), patterns(back)),
    ensures
        back == sent,
{
    lemma_tight_again(copy, l, uploaded, l.rows as nat);
    assert(l.rows * l.unpadded == l.unpadded * l.rows) by (nonlinear_arith);
    assert(uploaded.subrange(0, uploaded.len() as int) =~= uploaded);
    law_numbers_come_back(uploaded, sent, back);
}

proof fn lemma_flat_len<T: Texel>(s: Seq<T>, lanes: nat)
    requires
        forall|k: int| 0 <= k < s.len() ==> (#[trigger] s[k]).lanes().len() == lanes,
    ensures
        flat(s).len() == lanes * s.len(),
    decreases s.len(),
{
    if s.len() > 0 {
        assert forall|k: int| 0 <= k < s.drop_last().len() implies (
        #[trigger] s.drop_last()[k]).lanes().len() == lanes by {
            assert(s.drop_last()[k] == s[k]);
        }
        lemma_flat_len(s.drop_last(), lanes);
        assert(lanes * s.len() == lanes * (s.len() - 1) + lanes) by (nonlinear_arith);
    } else {
        assert(lanes * 0 == 0) by (nonlinear_arith);
    }
}

/// The lanes of some pixels say what the pixels were.
proof fn lemma_flat_unique<T: Texel>(a: Seq<T>, b: Seq<T>, lanes: nat, k: int)
    requires
        a.len() == b.len(),
        forall|k: int| 0 <= k < a.len() ==> (#[trigger] a[k]).lanes().len() == lanes,
        forall|k: int| 0 <= k < b.len() ==> (#[trigger] b[k]).lanes().len() == lanes,
        flat(a) == flat(b),
        0 <= k < a.len(),
    ensures
        a[k].lanes() == b[k].lanes(),
    decreases a.len(),
{
    let (x, y) = (a.drop_last(), b.drop_last());
    assert forall|k: int| 0 <= k < x.len() implies (#[trigger] x[k]).lanes().len() == lanes by {
        assert(x[k] == a[k]);
    }
    assert forall|k: int| 0 <= k < y.len() implies (#[trigger] y[k]).lanes().len() == lanes by {
        assert(y[k] == b[k]);
    }
    lemma_flat_len(x, lanes);
    lemma_flat_len(y, lanes);
    let n = flat(x).len() as int;
    assert(flat(x) =~= flat(a).subrange(0, n));
    assert(flat(y) =~= flat(b).subrange(0, n));
    assert(a.last().lanes() =~= flat(a).subrange(n, n + lanes));
    assert(b.last().lanes() =~= flat(b).subrange(n, n + lanes));
    if k < a.len() - 1 {
        lemma_flat_unique(x, y, lanes, k);
        assert(x[k] == a[k] && y[k] == b[k]);
    }
}

/// A color plane that is put together from the lanes of another one is the same
/// picture, pixel for pixel.
pub proof fn law_a_picture_comes_back(sent: &ImageBuffer, back: &ImageBuffer, x: int, y: int)
    requires
        sent.wf(),
        back.wf(),
        back.spec_width() == sent.spec_width(),
        back.spec_height() == sent.spec_height(),
        flat(back.pixels()) == flat(sent.pixels()),
    ensures
        back.px(x, y)@ == sent.px(x, y)@,
{
    sent.lemma_wf();
    back.lemma_wf();
    let w = sent.spec_width() as int;
    let h = sent.spec_height() as int;
    lemma_place(clamped(x, w), clamped(y, h), w, h);
    let k = clamped(y, h) * w + clamped(x, w);
    lemma_flat_unique(sent.pixels(), back.pixels(), 4, k);
}

/// What the two sides of a hole fill hold after some steps, the target and then
/// the scratch planes, where a pass of the device does what a pass of the
/// library does.
pub open spec fn sides_after(steps: Seq<FillStep>, target: Patch, scratch: Patch) -> (Patch, Patch)
    decreases steps.len(),
{
    if steps.len() == 0 {
        (target, scratch)
    } else {
        let (t, s) = sides_after(steps.drop_last(), target, scratch);
        match steps.last() {
            FillStep::Pass { from: Side::Target } => (t, t.pass()),
            FillStep::Pass { from: Side::Scratch } => (s.pass(), s),
            FillStep::CopyBack => (s, s),
        }
    }
}

/// One more pass comes after the others.
proof fn lemma_one_more_pass(p: Patch, n: nat)
    ensures
        p.passes(n + 1) == p.passes(n).pass(),
    decreases n,
{
    if n > 0 {
        lemma_one_more_pass(p.pass(), (n - 1) as nat);
    } else {
        assert(p.passes(1) == p.pass().passes(0));
    }
}

/// Passes that take turns: the side written last holds all of them.
proof fn lemma_turns_fill(passes: nat, target: Patch, scratch: Patch)
    ensures
        ({
            let (t, s) = sides_after(fill_turns(passes), target, scratch);
            if passes % 2 == 0 {
                t == target.passes(passes)
            } else {
                s == target.passes(passes)
            }
        }),
    decreases passes,
{
    let turns = fill_turns(passes);
    if passes > 0 {
        let n = (passes - 1) as nat;
        lemma_turns_fill(n, target, scratch);
        lemma_one_more_pass(target, n);
        assert(turns.drop_last() =~= fill_turns(n));
    }
}

/// A fill on a device is the library's fill: the planes that hold the result end
/// up as that many passes leave them, for odd and even numbers alike, and no
/// passes leave them as they were.
pub proof fn law_a_device_fills_alike(passes: nat, target: Patch, scratch: Patch)
    ensures
        sides_after(fill_steps(passes), target, scratch).0 == target.passes(passes),
{
    lemma_turns_fill(passes, target, scratch);
    if passes % 2 == 1 {
        assert(fill_steps(passes).drop_last() =~= fill_turns(passes));
    }
}

} // verus!
