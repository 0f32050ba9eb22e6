//! The arithmetic around a GPU: how planes are laid out for copies, how work is
//! split into groups, which buffers a hole fill reads and writes, and what the
//! numbers that come back amount to.
//!
//! Devices, textures and shaders belong to the program around the library. It
//! hands over bytes and takes bytes back.

use crate::fp::{F32, F64};
use crate::frame::{Grid, ImageBuffer, MotionBuffer, Texel};
use crate::recon::easu::EasuConfig;
use crate::recon::interpolate::InterpolateConfig;
use crate::signals::Signals;
use vstd::prelude::*;
use vstd::slice::slice_subrange;

verus! {

/// Invocations along each side of a work group.
pub const WORKGROUP: u32 = 8;

/// Rows of a copied texture start at multiples of this many bytes.
pub const COPY_ALIGN: u32 = 256;

/// What a texture plane holds.
#[derive(Clone, Copy, PartialEq, Eq, Structural, Debug)]
pub enum PlaneFormat {
    /// Linear RGBA.
    Color,
    /// Depth, or a validity mask.
    Scalar,
    /// Motion vectors.
    Vec2,
}

impl PlaneFormat {
    /// Numbers per pixel.
    pub open spec fn spec_components(self) -> u32 {
        match self {
            PlaneFormat::Color => 4,
            PlaneFormat::Scalar => 1,
            PlaneFormat::Vec2 => 2,
        }
    }

    /// Numbers per pixel.
    #[verifier::when_used_as_spec(spec_components)]
    pub fn components(self) -> (n: u32)
        ensures
            n == self.spec_components(),
    {
        match self {
            PlaneFormat::Color => 4,
            PlaneFormat::Scalar => 1,
            PlaneFormat::Vec2 => 2,
        }
    }
}

/// How many parts of `size` cover `n`.
pub open spec fn parts(n: int, size: int) -> int {
    (n + size - 1) / size
}

fn count_parts(n: u32, size: u32) -> (c: u32)
    requires
        size > 0,
    ensures
        c == parts(n as int, size as int),
        c <= n,
        c * size >= n,
        c > 0 ==> (c - 1) * size < n,
{
    let c: u32 = if n == 0 {
        0
    } else {
        (n - 1) / size + 1
    };
    proof {
        let s = size as int;
        if n == 0 {
            assert((0 + s - 1) / s == 0) by (nonlinear_arith)
                requires
                    s > 0,
            ;
        } else {
            let q = (n - 1) / s;
            assert((n + s - 1) / s == q + 1) by (nonlinear_arith)
                requires
                    s > 0,
                    q == (n - 1) / s,
            ;
            assert(q * s <= n - 1 && n - 1 < q * s + s && q <= n - 1 && (q + 1) * s == q * s + s)
                by (nonlinear_arith)
                requires
                    s > 0,
                    n >= 1,
                    q == (n - 1) / s,
            ;
        }
        assert(c == 0 ==> c * size == 0) by (nonlinear_arith);
    }
    c
}

/// How a plane is laid out in a buffer that it is copied to.
#[derive(Clone, Copy, Debug)]
pub struct CopyLayout {
    /// Bytes of a row that mean something.
    pub unpadded: u32,
    /// Bytes from one row to the next.
    pub padded: u32,
    /// Rows.
    pub rows: u32,
}

impl CopyLayout {
    /// Rows start at aligned places, no further apart than they must be.
    pub open spec fn valid(self) -> bool {
        &&& self.unpadded <= self.padded < self.unpadded + COPY_ALIGN
        &&& self.padded % COPY_ALIGN == 0
        &&& self.unpadded % 4 == 0
        &&& self.padded * self.rows <= u32::MAX
    }

    /// Bytes in all.
    pub fn size(&self) -> (n: u64)
        requires
            self.valid(),
        ensures
            n == self.padded * self.rows,
    {
        (self.padded * self.rows) as u64
    }
}

/// Lay out a plane for a copy.
pub fn plan_copy(format: PlaneFormat, width: u32, height: u32) -> (l: CopyLayout)
    requires
        parts(width * format.spec_components() * 4, COPY_ALIGN as int) * COPY_ALIGN <= u32::MAX,
        parts(width * format.spec_components() * 4, COPY_ALIGN as int) * COPY_ALIGN * height
            <= u32::MAX,
    ensures
        l.valid(),
        l.unpadded == width * format.spec_components() * 4,
        l.padded == parts(l.unpadded as int, COPY_ALIGN as int) * COPY_ALIGN,
        l.rows == height,
{
    proof {
        let row = width * format.spec_components() * 4;
        let p = parts(row, COPY_ALIGN as int);
        assert(p * 256 >= row);
        assert(row >= 0) by (nonlinear_arith)
            requires
                row == width * format.spec_components() * 4,
        ;
        assert(width * format.spec_components() <= row) by (nonlinear_arith)
            requires
                row == width * format.spec_components() * 4,
        ;
    }
    let unpadded: u32 = width * format.components() * 4;
    let padded: u32 = count_parts(unpadded, COPY_ALIGN) * COPY_ALIGN;
    CopyLayout { unpadded, padded, rows: height }
}

/// The word that four bytes spell, the low byte first.
pub open spec fn word_le(b: Seq<u8>, i: int) -> int {
    b[i] + 0x100 * b[i + 1] + 0x1_0000 * b[i + 2] + 0x100_0000 * b[i + 3]
}

/// The word that four bytes spell, the high byte first.
pub open spec fn word_be(b: Seq<u8>, i: int) -> int {
    b[i + 3] + 0x100 * b[i + 2] + 0x1_0000 * b[i + 1] + 0x100_0000 * b[i]
}

/// Whether bytes spell words, four to each, with the low byte first or the high
/// one.
pub open spec fn spells_in(b: Seq<u8>, w: Seq<u32>, low_first: bool) -> bool {
    &&& b.len() == 4 * w.len()
    &&& forall|i: int|
        0 <= i < w.len() ==> #[trigger] w[i] == if low_first {
            word_le(b, 4 * i)
        } else {
            word_be(b, 4 * i)
        }
}

/// Whether bytes spell words, four to each, all in one byte order.
pub open spec fn spells(b: Seq<u8>, w: Seq<u32>) -> bool {
    spells_in(b, w, true) || spells_in(b, w, false)
}

/// The memory of some words, through `bytemuck::cast_slice`: four bytes for each
/// word, in its place. Which end of a word comes first is up to the machine, and
/// is not said here.
#[verifier::external_body]
fn bytes_of_words(words: &[u32]) -> (b: Vec<u8>)
    requires
        4 * words@.len() <= usize::MAX,
    ensures
        spells(b@, words@),
{
    bytemuck::cast_slice::<u32, u8>(words).to_vec()
}

/// Whether bytes are how this machine lays words out in memory: what the outside
/// call returns for them.
pub closed spec fn laid_out(words: Seq<u32>, b: Seq<u8>) -> bool {
    exists|w: &[u32], r: Vec<u8>| #[trigger]
        call_ensures(bytes_of_words, (w,), r) && w@ == words && r@ == b
}

/// The words that some memory holds, through `bytemuck::pod_collect_to_vec`: one
/// for each four bytes, whatever their alignment. Which end of a word comes
/// first is up to the machine, and is not said here. It is the end that
/// `bytemuck::cast_slice` puts first, since both take memory as it is: words
/// that were laid out are read back as they were.
#[verifier::external_body]
fn words_of_bytes(b: &[u8]) -> (words: Vec<u32>)
    requires
        b@.len() % 4 == 0,
    ensures
        spells(b@, words@),
        forall|w: Seq<u32>| #[trigger] laid_out(w, b@) ==> words@ == w,
{
    bytemuck::pod_collect_to_vec::<u8, u32>(b)
}

/// Whether words are what this machine reads in memory: what the outside call
/// returns for it.
pub closed spec fn read_as(b: Seq<u8>, words: Seq<u32>) -> bool {
    exists|m: &[u8], w: Vec<u32>| #[trigger]
        call_ensures(words_of_bytes, (m,), w) && m@ == b && w@ == words
}

/// What memory is read as is a word for each four bytes, in one byte order, and
/// is what was laid out there.
pub proof fn lemma_read_as(b: Seq<u8>, words: Seq<u32>)
    requires
        read_as(b, words),
    ensures
        spells(b, words),
        forall|w: Seq<u32>| #[trigger] laid_out(w, b) ==> words == w,
{
}

/// The bit patterns of some numbers.
pub open spec fn patterns(s: Seq<F32>) -> Seq<u32> {
    Seq::new(s.len(), |i: int| s[i].bits)
}

/// Numbers as words.
pub fn words_of(numbers: &Vec<F32>) -> (words: Vec<u32>)
    ensures
        words@ == patterns(numbers@),
{
    let mut words: Vec<u32> = Vec::new();
    let mut i: usize = 0;
    while i < numbers.len()
        invariant
            i <= numbers.len(),
            words@ == patterns(numbers@.subrange(0, i as int)),
        decreases numbers.len() - i,
    {
        words.push(numbers[i].to_bits());
        i = i + 1;
        assert(words@ =~= patterns(numbers@.subrange(0, i as int)));
    }
    assert(words@ =~= patterns(numbers@));
    words
}

/// Words as numbers.
pub fn numbers_of(words: &Vec<u32>) -> (numbers: Vec<F32>)
    ensures
        patterns(numbers@) == words@,
{
    let mut numbers: Vec<F32> = Vec::new();
    let mut i: usize = 0;
    while i < words.len()
        invariant
            i <= words.len(),
            numbers.len() == i,
            patterns(numbers@) == words@.subrange(0, i as int),
        decreases words.len() - i,
    {
        numbers.push(F32::from_bits(words[i]));
        i = i + 1;
        assert(patterns(numbers@) =~= words@.subrange(0, i as int));
    }
    assert(patterns(numbers@) =~= words@);
    numbers
}

/// Numbers as a device takes them.
pub fn pack(numbers: &Vec<F32>) -> (b: Vec<u8>)
    requires
        4 * numbers.len() <= usize::MAX,
    ensures
        laid_out(patterns(numbers@), b@),
        spells(b@, patterns(numbers@)),
{
    let words = words_of(numbers);
    let b = bytes_of_words(words.as_slice());
    assert(laid_out(words@, b@));
    b
}

/// Numbers as a device hands them back.
pub fn unpack(b: &[u8]) -> (numbers: Vec<F32>)
    requires
        b@.len() % 4 == 0,
    ensures
        read_as(b@, patterns(numbers@)),
        spells(b@, patterns(numbers@)),
{
    let words = words_of_bytes(b);
    assert(read_as(b@, words@));
    numbers_of(&words)
}

/// The lanes of some pixels, one pixel after the other.
pub open spec fn flat<T: Texel>(s: Seq<T>) -> Seq<F32>
    decreases s.len(),
{
    if s.len() == 0 {
        seq![]
    } else {
        flat(s.drop_last()) + s.last().lanes()
    }
}

/// The lanes of a color plane, one pixel after the other.
pub fn flatten_color(img: &ImageBuffer) -> (v: Vec<F32>)
    requires
        img.wf(),
    ensures
        v@ == flat(img.pixels()),
{
    let px = img.as_slice();
    let mut v: Vec<F32> = Vec::new();
    let mut i: usize = 0;
    while i < px.len()
        invariant
            i <= px@.len(),
            v@ == flat(px@.subrange(0, i as int)),
        decreases px@.len() - i,
    {
        let c = px[i];
        v.push(c[0]);
        v.push(c[1]);
        v.push(c[2]);
        v.push(c[3]);
        proof {
            let t = px@.subrange(0, i + 1);
            assert(t.drop_last() =~= px@.subrange(0, i as int));
            assert(v@ =~= flat(t));
        }
        i = i + 1;
    }
    assert(px@.subrange(0, px@.len() as int) =~= px@);
    v
}

/// The lanes of a motion plane, one pixel after the other.
pub fn flatten_motion(motion: &MotionBuffer) -> (v: Vec<F32>)
    requires
        motion.wf(),
    ensures
        v@ == flat(motion.pixels()),
{
    let px = motion.as_slice();
    let mut v: Vec<F32> = Vec::new();
    let mut i: usize = 0;
    while i < px.len()
        invariant
            i <= px@.len(),
            v@ == flat(px@.subrange(0, i as int)),
        decreases px@.len() - i,
    {
        let c = px[i];
        v.push(c[0]);
        v.push(c[1]);
        proof {
            let t = px@.subrange(0, i + 1);
            assert(t.drop_last() =~= px@.subrange(0, i as int));
            assert(v@ =~= flat(t));
        }
        i = i + 1;
    }
    assert(px@.subrange(0, px@.len() as int) =~= px@);
    v
}

/// The numbers of a scalar plane.
pub fn flatten_scalar(g: &Grid<F32>) -> (v: Vec<F32>)
    requires
        g.wf(),
    ensures
        v@ == g.pixels(),
{
    let px = g.as_slice();
    let mut v: Vec<F32> = Vec::new();
    let mut i: usize = 0;
    while i < px.len()
        invariant
            i <= px@.len(),
            v@ == px@.subrange(0, i as int),
        decreases px@.len() - i,
    {
        v.push(px[i]);
        i = i + 1;
        assert(v@ =~= px@.subrange(0, i as int));
    }
    assert(v@ =~= px@);
    v
}

/// Row `row` of a buffer, without its padding.
pub open spec fn row_bytes(b: Seq<u8>, l: CopyLayout, row: int) -> Seq<u8> {
    b.subrange(row * l.padded, row * l.padded + l.unpadded)
}

/// The first `n` rows of a buffer, one after the other and without their
/// padding.
pub open spec fn tight_rows(b: Seq<u8>, l: CopyLayout, n: nat) -> Seq<u8>
    decreases n,
{
    if n == 0 {
        seq![]
    } else {
        tight_rows(b, l, (n - 1) as nat) + row_bytes(b, l, n - 1)
    }
}

/// Read a copied plane, row by row and without the padding between the rows.
pub fn strip_rows(b: &[u8], l: CopyLayout) -> (numbers: Vec<F32>)
    requires
        l.valid(),
        b@.len() == l.padded * l.rows,
    ensures
        numbers@.len() == (l.unpadded as int / 4) * l.rows,
        read_as(tight_rows(b@, l, l.rows as nat), patterns(numbers@)),
        spells(tight_rows(b@, l, l.rows as nat), patterns(numbers@)),
{
    let mut tight: Vec<u8> = Vec::new();
    let mut row: u32 = 0;
    let ghost n = l.unpadded as int / 4;
    assert(n * 0 == 0);
    while row < l.rows
        invariant
            row <= l.rows,
            l.valid(),
            b@.len() == l.padded * l.rows,
            n == l.unpadded as int / 4,
            tight@ == tight_rows(b@, l, row as nat),
            tight@.len() == 4 * (n * row),
        decreases l.rows - row,
    {
        proof {
            lemma_row_inside(row as int, l.padded as int, l.rows as int);
        }
        let start: usize = (row * l.padded) as usize;
        let end: usize = start + l.unpadded as usize;
        let bytes = slice_subrange(b, start, end);
        let ghost before = tight@;
        extend(&mut tight, bytes);
        proof {
            assert(bytes@ == row_bytes(b@, l, row as int));
            assert(tight@ == tight_rows(b@, l, (row + 1) as nat));
            assert(n * (row + 1) == n * row + n) by (nonlinear_arith);
        }
        row = row + 1;
    }
    unpack(tight.as_slice())
}

/// Append some bytes.
fn extend(v: &mut Vec<u8>, b: &[u8])
    ensures
        final(v)@ == old(v)@ + b@,
{
    let mut i: usize = 0;
    while i < b.len()
        invariant
            i <= b@.len(),
            v@ == old(v)@ + b@.subrange(0, i as int),
        decreases b@.len() - i,
    {
        v.push(b[i]);
        i = i + 1;
        assert(v@ =~= old(v)@ + b@.subrange(0, i as int));
    }
    assert(b@.subrange(0, b@.len() as int) =~= b@);
}

/// A row starts and ends inside the rows.
proof fn lemma_row_inside(row: int, stride: int, rows: int)
    requires
        0 <= row < rows,
        0 <= stride,
    ensures
        0 <= row * stride,
        row * stride + stride <= stride * rows,
{
    assert(0 <= row * stride) by (nonlinear_arith)
        requires
            0 <= row,
            0 <= stride,
    ;
    assert(row * stride + stride <= stride * rows) by (nonlinear_arith)
        requires
            row + 1 <= rows,
            0 <= stride,
    ;
}

/// Put numbers together into a color plane, four to a pixel.
pub fn assemble_color(width: u32, height: u32, numbers: &Vec<F32>) -> (img: ImageBuffer)
    requires
        width > 0,
        height > 0,
        numbers.len() == 4 * (width * height),
    ensures
        img.wf(),
        img.spec_width() == width,
        img.spec_height() == height,
        flat(img.pixels()) == numbers@,
{
    let n: usize = numbers.len() / 4;
    let mut px: Vec<[F32; 4]> = Vec::new();
    let mut i: usize = 0;
    assert(flat(px@) =~= numbers@.subrange(0, 0));
    while i < n
        invariant
            i <= n,
            n == numbers.len() / 4,
            px.len() == i,
            flat(px@) == numbers@.subrange(0, 4 * i),
        decreases n - i,
    {
        let c = [numbers[4 * i], numbers[4 * i + 1], numbers[4 * i + 2], numbers[4 * i + 3]];
        let ghost before = px@;
        px.push(c);
        proof {
            assert(px@.drop_last() =~= before);
            assert(flat(px@) =~= numbers@.subrange(0, 4 * (i + 1)));
        }
        i = i + 1;
    }
    assert(numbers@.subrange(0, 4 * n) =~= numbers@);
    ImageBuffer::from_vec(width, height, px)
}

/// Put numbers together into a scalar plane.
pub fn assemble_scalar(width: u32, height: u32, numbers: Vec<F32>) -> (g: Grid<F32>)
    requires
        width > 0,
        height > 0,
        numbers.len() == width * height,
    ensures
        g.wf(),
        g.spec_width() == width,
        g.spec_height() == height,
        g.pixels() == numbers@,
{
    Grid::from_vec(width, height, numbers)
}

/// Work groups along each side of a plane.
pub fn groups(width: u32, height: u32) -> (g: (u32, u32))
    ensures
        g.0 == parts(width as int, WORKGROUP as int),
        g.1 == parts(height as int, WORKGROUP as int),
        g.0 * WORKGROUP >= width,
        g.1 * WORKGROUP >= height,
{
    (count_parts(width, WORKGROUP), count_parts(height, WORKGROUP))
}

/// Bytes for the partial sums of a reduction: some numbers for each work group,
/// and never none.
pub fn partials_size(width: u32, height: u32, per_group: u32) -> (size: u64)
    requires
        parts(width as int, WORKGROUP as int) * parts(height as int, WORKGROUP as int) * per_group
            * 4 <= u64::MAX,
    ensures
        ({
            let n = parts(width as int, WORKGROUP as int) * parts(height as int, WORKGROUP as int)
                * per_group * 4;
            size == if n < 4 {
                4
            } else {
                n
            }
        }),
{
    let (gw, gh) = groups(width, height);
    proof {
        assert(0 <= gw * gh <= u32::MAX * u32::MAX) by (nonlinear_arith);
        assert(gw * gh * per_group >= 0) by (nonlinear_arith);
    }
    let g: u64 = gw as u64 * gh as u64;
    let n: u64 = g * per_group as u64 * 4;
    if n < 4 {
        4
    } else {
        n
    }
}

/// The sum of the first number of each of the first `n` blocks of four.
pub open spec fn masked(s: Seq<F32>, n: nat) -> F32
    decreases n,
{
    if n == 0 {
        F32::zero()
    } else {
        masked(s, (n - 1) as nat) + s[4 * (n - 1)]
    }
}

/// The fraction of a mask that is invalid, from the partial counts of a
/// reduction: four numbers for each work group, of which the first is the count.
pub fn mask_fraction(sums: &Vec<F32>, width: u32, height: u32) -> (f: F32)
    requires
        width * height <= u32::MAX,
    ensures
        f == masked(sums@, (sums@.len() / 4) as nat) / F32::from_u32((width * height) as u32),
{
    let n: usize = sums.len() / 4;
    let mut invalid = F32::zero();
    let mut i: usize = 0;
    while i < n
        invariant
            i <= n,
            n == sums.len() / 4,
            invalid == masked(sums@, i as nat),
        decreases n - i,
    {
        invalid = invalid + sums[4 * i];
        i = i + 1;
    }
    invalid / F32::from_u32(width * height)
}

/// The sum of number `c` of each of the first `n` blocks of eight.
pub open spec fn column(s: Seq<F32>, c: int, n: nat) -> F64
    decreases n,
{
    if n == 0 {
        F64::zero()
    } else {
        column(s, c, (n - 1) as nat) + s[8 * (n - 1) + c].to_f64()
    }
}

fn sum_column(s: &Vec<F32>, c: usize) -> (t: F64)
    requires
        c < 8,
    ensures
        t == column(s@, c as int, (s@.len() / 8) as nat),
{
    let n: usize = s.len() / 8;
    let mut t = F64::zero();
    let mut i: usize = 0;
    while i < n
        invariant
            i <= n,
            c < 8,
            n == s.len() / 8,
            t == column(s@, c as int, i as nat),
        decreases n - i,
    {
        t = t + s[8 * i + c].to_f64();
        i = i + 1;
    }
    t
}

/// The signals that the partial sums of a pair of frames amount to: eight
/// numbers for each work group, of which the first five are residual, speed,
/// older and newer luminance, and discontinuities.
pub open spec fn signals_of_sums(s: Seq<F32>, pixels: u32, reference_speed: F32) -> Signals {
    let k = (s.len() / 8) as nat;
    let n = F64::from_u32(pixels);
    let zero = F32::zero();
    let one = F32::one();
    let mean_residual = (column(s, 0, k) / n).to_f32();
    let mean_speed = (column(s, 1, k) / n).to_f32();
    let luma_delta = ((column(s, 3, k) - column(s, 2, k)).abs() / n).to_f32();
    Signals {
        disocclusion: zero,
        motion_residual: (mean_residual * F32::four()).clamp(zero, one),
        luma_shift: (luma_delta * F32::four()).clamp(zero, one),
        camera_motion: (mean_speed / reference_speed.max(F32::ratio(1, 1000))).clamp(zero, one),
        depth_complexity: (column(s, 4, k) / n).to_f32().clamp(zero, one),
        pacing_instability: zero,
    }
}

/// Turn the partial sums of a pair of frames into signals.
pub fn measure_sums(sums: &Vec<F32>, width: u32, height: u32, reference_speed: F32) -> (r: Signals)
    requires
        width * height <= u32::MAX,
    ensures
        r == signals_of_sums(sums@, (width * height) as u32, reference_speed),
{
    let n = F64::from_u32(width * height);
    let zero = F32::zero();
    let one = F32::one();
    let mean_residual = (sum_column(sums, 0) / n).to_f32();
    let mean_speed = (sum_column(sums, 1) / n).to_f32();
    let luma_prev = sum_column(sums, 2);
    let luma_next = sum_column(sums, 3);
    let luma_delta = ((luma_next - luma_prev).abs() / n).to_f32();
    let discontinuities = (sum_column(sums, 4) / n).to_f32();
    Signals {
        disocclusion: zero,
        motion_residual: (mean_residual * F32::four()).clamp(zero, one),
        luma_shift: (luma_delta * F32::four()).clamp(zero, one),
        camera_motion: (mean_speed / reference_speed.max(F32::ratio(1, 1000))).clamp(zero, one),
        depth_complexity: discontinuities.clamp(zero, one),
        pacing_instability: zero,
    }
}

/// One of the two pairs of planes that a hole fill goes back and forth between.
#[derive(Clone, Copy, PartialEq, Eq, Structural, Debug)]
pub enum Side {
    /// The planes that hold the result.
    Target,
    /// The planes it is worked out on.
    Scratch,
}

/// One step of a hole fill.
#[derive(Clone, Copy, PartialEq, Eq, Structural, Debug)]
pub enum FillStep {
    /// Run a pass that reads one side and writes the other.
    Pass {
        /// The side read.
        from: Side,
    },
    /// Copy the scratch planes over the target.
    CopyBack,
}

/// Passes that take turns, so that a pixel filled in a pass is no source in the
/// same pass.
pub open spec fn fill_turns(passes: nat) -> Seq<FillStep> {
    Seq::new(
        passes,
        |i: int|
            FillStep::Pass {
                from: if i % 2 == 0 {
                    Side::Target
                } else {
                    Side::Scratch
                },
            },
    )
}

/// The steps of a hole fill: passes that take turns, and a copy where the last
/// one ended on the wrong side.
pub open spec fn fill_steps(passes: nat) -> Seq<FillStep> {
    let turns = fill_turns(passes);
    if passes % 2 == 1 {
        turns.push(FillStep::CopyBack)
    } else {
        turns
    }
}

/// Plan a hole fill.
pub fn plan_fill(passes: u32) -> (steps: Vec<FillStep>)
    ensures
        steps@ == fill_steps(passes as nat),
{
    let mut steps: Vec<FillStep> = Vec::new();
    let mut i: u32 = 0;
    while i < passes
        invariant
            i <= passes,
            steps.len() == i,
            forall|k: int|
                0 <= k < i ==> #[trigger] steps[k] == (FillStep::Pass {
                    from: if k % 2 == 0 {
                        Side::Target
                    } else {
                        Side::Scratch
                    },
                }),
        decreases passes - i,
    {
        steps.push(
            FillStep::Pass {
                from: if i % 2 == 0 {
                    Side::Target
                } else {
                    Side::Scratch
                },
            },
        );
        i = i + 1;
    }
    if passes % 2 == 1 {
        steps.push(FillStep::CopyBack);
    }
    assert(steps@ =~= fill_steps(passes as nat));
    steps
}

/// The parameters of the upsampling pass, as words.
pub fn easu_params(src_w: u32, src_h: u32, dst_w: u32, dst_h: u32, cfg: EasuConfig) -> (p: [u32; 8])
    ensures
        p@ == seq![
            src_w,
            src_h,
            dst_w,
            dst_h,
            cfg.anisotropy_strength.bits,
            if cfg.deringing {
                1u32
            } else {
                0u32
            },
            0u32,
            0u32,
        ],
{
    let dering: u32 = if cfg.deringing {
        1
    } else {
        0
    };
    let p: [u32; 8] = [
        src_w,
        src_h,
        dst_w,
        dst_h,
        cfg.anisotropy_strength.to_bits(),
        dering,
        0,
        0,
    ];
    assert(p@ =~= seq![
        src_w,
        src_h,
        dst_w,
        dst_h,
        cfg.anisotropy_strength.bits,
        if cfg.deringing {
            1u32
        } else {
            0u32
        },
        0u32,
        0u32,
    ]);
    p
}

/// The parameters of a pass over a plane that takes one number, as words: the
/// sharpening, reprojection and mask passes.
pub fn scalar_params(width: u32, height: u32, value: F32) -> (p: [u32; 4])
    ensures
        p@ == seq![width, height, value.bits, 0u32],
{
    let p: [u32; 4] = [width, height, value.to_bits(), 0];
    assert(p@ =~= seq![width, height, value.bits, 0u32]);
    p
}

/// The parameters of the interpolation pass, as words.
pub fn interpolate_params(width: u32, height: u32, t: F32, cfg: InterpolateConfig) -> (p: [u32; 8])
    ensures
        p@ == seq![
            width,
            height,
            t.bits,
            cfg.depth_tolerance.bits,
            cfg.photo_tolerance.bits,
            0u32,
            0u32,
            0u32,
        ],
{
    let p: [u32; 8] = [
        width,
        height,
        t.to_bits(),
        cfg.depth_tolerance.to_bits(),
        cfg.photo_tolerance.to_bits(),
        0,
        0,
        0,
    ];
    assert(p@ =~= seq![
        width,
        height,
        t.bits,
        cfg.depth_tolerance.bits,
        cfg.photo_tolerance.bits,
        0u32,
        0u32,
        0u32,
    ]);
    p
}

/// The parameters of a pass that needs only the size of a plane, as words.
pub fn size_params(width: u32, height: u32) -> (p: [u32; 4])
    ensures
        p@ == seq![width, height, 0u32, 0u32],
{
    let p: [u32; 4] = [width, height, 0, 0];
    assert(p@ =~= seq![width, height, 0u32, 0u32]);
    p
}

/// Parameters as a device takes them.
pub fn uniform_bytes(words: &[u32]) -> (b: Vec<u8>)
    requires
        4 * words@.len() <= usize::MAX,
    ensures
        laid_out(words@, b@),
        spells(b@, words@),
{
    bytes_of_words(words)
}

/// What a binding slot of a pass holds.
#[derive(Clone, Copy, PartialEq, Eq, Structural, Debug)]
pub enum Slot {
    /// A texture that is read.
    Tex,
    /// A color texture that is written.
    StoreColor,
    /// A scalar texture that is written.
    StoreScalar,
    /// A buffer of partial sums.
    Storage,
    /// The parameters.
    Uniform,
}

/// A compute pass.
#[derive(Clone, Copy, PartialEq, Eq, Structural, Debug)]
pub enum PassKind {
    /// Edge-adaptive upsampling.
    Easu,
    /// Contrast-limited sharpening.
    Rcas,
    /// Warping the previous frame.
    Reproject,
    /// Generating a frame.
    Interpolate,
    /// Growing the believable region.
    HoleFill,
    /// Measuring a pair of frames.
    Signals,
    /// Counting the invalid pixels of a mask.
    ReduceMask,
}

impl PassKind {
    /// The name of the pass.
    pub open spec fn spec_label(self) -> &'static str {
        match self {
            PassKind::Easu => "easu",
            PassKind::Rcas => "rcas",
            PassKind::Reproject => "reproject",
            PassKind::Interpolate => "interpolate",
            PassKind::HoleFill => "hole_fill",
            PassKind::Signals => "signals",
            PassKind::ReduceMask => "reduce_mask",
        }
    }

    /// The name of the pass.
    pub fn label(self) -> (s: &'static str)
        ensures
            s == self.spec_label(),
    {
        match self {
            PassKind::Easu => "easu",
            PassKind::Rcas => "rcas",
            PassKind::Reproject => "reproject",
            PassKind::Interpolate => "interpolate",
            PassKind::HoleFill => "hole_fill",
            PassKind::Signals => "signals",
            PassKind::ReduceMask => "reduce_mask",
        }
    }

    /// What the pass binds, in order: what it reads, what it writes, its
    /// parameters.
    pub open spec fn layout(self) -> Seq<Slot> {
        let temporal = seq![
            Slot::Tex,
            Slot::Tex,
            Slot::Tex,
            Slot::Tex,
            Slot::Tex,
            Slot::StoreColor,
            Slot::StoreScalar,
            Slot::Uniform,
        ];
        match self {
            PassKind::Easu => seq![Slot::Tex, Slot::StoreColor, Slot::Uniform],
            PassKind::Rcas => seq![Slot::Tex, Slot::StoreColor, Slot::Uniform],
            PassKind::Reproject => temporal,
            PassKind::Interpolate => temporal,
            PassKind::HoleFill => seq![
                Slot::Tex,
                Slot::Tex,
                Slot::StoreColor,
                Slot::StoreScalar,
                Slot::Uniform,
            ],
            PassKind::Signals => seq![
                Slot::Tex,
                Slot::Tex,
                Slot::Tex,
                Slot::Tex,
                Slot::Storage,
                Slot::Uniform,
            ],
            PassKind::ReduceMask => seq![Slot::Tex, Slot::Storage, Slot::Uniform],
        }
    }

    /// What the pass binds, in order.
    pub fn slots(self) -> (v: Vec<Slot>)
        ensures
            v@ == self.layout(),
    {
        let v: Vec<Slot> = match self {
            PassKind::Easu => vec![Slot::Tex, Slot::StoreColor, Slot::Uniform],
            PassKind::Rcas => vec![Slot::Tex, Slot::StoreColor, Slot::Uniform],
            PassKind::Reproject => temporal_slots(),
            PassKind::Interpolate => temporal_slots(),
            PassKind::HoleFill => vec![
                Slot::Tex,
                Slot::Tex,
                Slot::StoreColor,
                Slot::StoreScalar,
                Slot::Uniform,
            ],
            PassKind::Signals => vec![
                Slot::Tex,
                Slot::Tex,
                Slot::Tex,
                Slot::Tex,
                Slot::Storage,
                Slot::Uniform,
            ],
            PassKind::ReduceMask => vec![Slot::Tex, Slot::Storage, Slot::Uniform],
        };
        assert(v@ =~= self.layout());
        v
    }
}

fn temporal_slots() -> (v: Vec<Slot>)
    ensures
        v@ == PassKind::Reproject.layout(),
{
    let v = vec![
        Slot::Tex,
        Slot::Tex,
        Slot::Tex,
        Slot::Tex,
        Slot::Tex,
        Slot::StoreColor,
        Slot::StoreScalar,
        Slot::Uniform,
    ];
    assert(v@ =~= PassKind::Reproject.layout());
    v
}

} // verus!
