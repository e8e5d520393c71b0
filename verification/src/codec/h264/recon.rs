//! Macroblock reconstruction: prediction plus residual, into the picture.
//!
//! Intra prediction reads reconstructed samples, so a block's residual is added
//! before the next block predicts from it: blocks are taken in decoding order
//! and written straight into the picture.
use vstd::prelude::*;
use super::inter::{predict_chroma, predict_luma};
use super::intra::{
    border, chroma_possible, chroma_sample, mb_possible, mb_sample, nxn_possible, nxn_sample,
    predict_16x16, predict_4x4, predict_8x8, predict_chroma_8x8, Edges, IntraChromaMode,
    IntraNxNMode, Neighbours,
};
use super::math::{in_window, lemma_raster, lemma_rows, lemma_same_place, window_index};
use super::mb::{chroma_qp, spec_chroma_qp, MbType};
use super::neighbour::{
    law_neighbours_share_the_slice, law_scan_orders_round_trip, luma_4x4_index, luma_4x4_origin,
    luma_4x4_x, luma_4x4_y, luma_8x8_origin, spec_luma_4x4_index, BlockRef, MbAddr, SampleRef,
};
use super::picture::{lemma_mb_inside, Canvas, Dpb, Picture};
use super::residual::{scan_4x4, scan_8x8};
use super::state::{MbInfo, MbModel, PicModel, PictureState};
use super::transform::{
    add_residual_4x4, add_residual_8x8, chroma_dc, dequant_4x4, dequant_8x8, dequant_chroma_dc,
    dequant_luma_dc, dequantised_4x4, dequantised_8x8, inverse_4x4, inverse_8x8, luma_dc,
    residual_4x4, residual_8x8, with_residual,
};
use crate::error::Error;
use crate::text::{numbered, put_number, signed};

verus! {

/// The dequantisation weights in force: six 4x4 lists, intra then inter, luma
/// then the two chroma components, and the intra and inter luma 8x8 lists.
#[derive(Debug, Clone, Copy)]
pub struct ScalingLists {
    pub weight_4x4: [[u8; 16]; 6],
    pub weight_8x8: [[u8; 64]; 2],
}

/// Dequantisation weights as a mathematical value.
#[verifier::ext_equal]
pub struct Weights {
    pub w4x4: Seq<Seq<u8>>,
    pub w8x8: Seq<Seq<u8>>,
}

impl Weights {
    /// The 4x4 list of a plane.
    pub open spec fn list_4x4(self, intra: bool, plane: int) -> Seq<u8> {
        self.w4x4[if intra {
            plane
        } else {
            3 + plane
        }]
    }

    /// The luma 8x8 list.
    pub open spec fn list_8x8(self, intra: bool) -> Seq<u8> {
        self.w8x8[if intra {
            0
        } else {
            1
        }]
    }
}

impl View for ScalingLists {
    type V = Weights;

    open spec fn view(&self) -> Weights {
        Weights {
            w4x4: Seq::new(6, |i: int| self.weight_4x4@[i]@),
            w8x8: Seq::new(2, |i: int| self.weight_8x8@[i]@),
        }
    }
}

impl Default for ScalingLists {
    fn default() -> (s: Self)
        ensures
            forall|i: int, j: int|
                0 <= i < 6 && 0 <= j < 16 ==> (#[trigger] s.weight_4x4@[i]@[j]) == 16,
            forall|i: int, j: int|
                0 <= i < 2 && 0 <= j < 64 ==> (#[trigger] s.weight_8x8@[i]@[j]) == 16,
    {
        ScalingLists { weight_4x4: [[16u8;16];6], weight_8x8: [[16u8;64];2] }
    }
}

impl ScalingLists {
    /// The 4x4 list of a plane.
    pub fn list_4x4(&self, intra: bool, plane: usize) -> (list: &[u8; 16])
        requires
            plane < 3,
        ensures
            list@ == self@.list_4x4(intra, plane as int),
    {
        &self.weight_4x4[if intra {
            plane
        } else {
            3 + plane
        }]
    }

    /// The luma 8x8 list.
    pub fn list_8x8(&self, intra: bool) -> (list: &[u8; 64])
        ensures
            list@ == self@.list_8x8(intra),
    {
        &self.weight_8x8[if intra {
            0
        } else {
            1
        }]
    }
}

/// Picture-wide parameters of reconstruction.
#[derive(Debug, Clone, Copy)]
pub struct ReconParams {
    pub scaling: ScalingLists,
    /// Quantiser offset of each chroma component.
    pub chroma_qp_offset: [i32; 2],
    pub constrained_intra: bool,
}

/// Parameters of reconstruction as a mathematical value.
pub struct Tuning {
    pub weights: Weights,
    pub chroma_qp_offset: Seq<i32>,
    pub constrained_intra: bool,
}

impl View for ReconParams {
    type V = Tuning;

    open spec fn view(&self) -> Tuning {
        Tuning {
            weights: self.scaling@,
            chroma_qp_offset: self.chroma_qp_offset@,
            constrained_intra: self.constrained_intra,
        }
    }
}

/// One macroblock's decoded levels, in scan order, before dequantisation.
#[derive(Debug, Clone)]
pub struct Residual {
    /// The `I_16x16` luma DC block.
    pub luma_dc: [i32; 16],
    /// Per 4x4 luma block. For `I_16x16` position 0 is unused.
    pub luma: [[i32; 16]; 16],
    /// Per 8x8 luma block.
    pub luma_8x8: [[i32; 64]; 4],
    /// Per component, the four chroma DC levels.
    pub chroma_dc: [[i32; 4]; 2],
    /// Per component, per 4x4 chroma block: position 0 is unused.
    pub chroma: [[[i32; 16]; 4]; 2],
}

/// One macroblock's levels as a mathematical value.
#[verifier::ext_equal]
pub struct Levels {
    pub luma_dc: Seq<i32>,
    pub luma: Seq<Seq<i32>>,
    pub luma_8x8: Seq<Seq<i32>>,
    pub chroma_dc: Seq<Seq<i32>>,
    /// Four blocks of each component.
    pub chroma: Seq<Seq<i32>>,
}

impl Levels {
    /// No levels at all.
    pub open spec fn none() -> Levels {
        Levels {
            luma_dc: Seq::new(16, |i: int| 0i32),
            luma: Seq::new(16, |b: int| Seq::new(16, |i: int| 0i32)),
            luma_8x8: Seq::new(4, |b: int| Seq::new(64, |i: int| 0i32)),
            chroma_dc: Seq::new(2, |c: int| Seq::new(4, |i: int| 0i32)),
            chroma: Seq::new(8, |b: int| Seq::new(16, |i: int| 0i32)),
        }
    }
}

impl View for Residual {
    type V = Levels;

    open spec fn view(&self) -> Levels {
        Levels {
            luma_dc: self.luma_dc@,
            luma: Seq::new(16, |b: int| self.luma@[b]@),
            luma_8x8: Seq::new(4, |b: int| self.luma_8x8@[b]@),
            chroma_dc: Seq::new(2, |c: int| self.chroma_dc@[c]@),
            chroma: Seq::new(8, |b: int| self.chroma@[b / 4]@[b % 4]@),
        }
    }
}

impl Default for Residual {
    fn default() -> (r: Self)
        ensures
            r@ == Levels::none(),
    {
        let r = Residual {
            luma_dc: [0i32;16],
            luma: [[0i32;16];16],
            luma_8x8: [[0i32;64];4],
            chroma_dc: [[0i32;4];2],
            chroma: [[[0i32;16];4];2],
        };
        assert(r@ =~~= Levels::none());
        r
    }
}

// ---- Blocks and planes ------------------------------------------------------

/// Scan position of each raster position of a 4x4 block.
pub const UNSCAN_4X4: [usize; 16] = [0, 1, 5, 6, 2, 4, 7, 12, 3, 8, 11, 13, 9, 10, 14, 15];

/// Scan position of each raster position of an 8x8 block.
pub const UNSCAN_8X8: [usize; 64] = [
    0, 1, 5, 6, 14, 15, 27, 28, 2, 4, 7, 13, 16, 26, 29, 42, 3, 8, 12, 17, 25, 30, 41, 43, 9, 11, 18,
    24, 31, 40, 44, 53, 10, 19, 23, 32, 39, 45, 52, 54, 20, 22, 33, 38, 46, 51, 55, 60, 21, 34, 37,
    47, 50, 56, 59, 61, 35, 36, 48, 49, 57, 58, 62, 63,
];

/// [`UNSCAN_4X4`] as a function.
#[verifier::opaque]
pub open spec fn unscan_4x4(p: int) -> int {
    UNSCAN_4X4[p] as int
}

/// [`UNSCAN_8X8`] as a function.
#[verifier::opaque]
pub open spec fn unscan_8x8(p: int) -> int {
    UNSCAN_8X8[p] as int
}

/// Levels of a 4x4 block in raster order.
pub open spec fn raster_4x4(levels: Seq<i32>) -> Seq<i32> {
    Seq::new(16, |p: int| levels[unscan_4x4(p)])
}

/// Levels of an 8x8 block in raster order.
pub open spec fn raster_8x8(levels: Seq<i32>) -> Seq<i32> {
    Seq::new(64, |p: int| levels[unscan_8x8(p)])
}

/// Levels of a 4x4 block from scan order to raster order. A block whose DC is
/// coded elsewhere leaves position 0 empty rather than closing up.
pub fn dezigzag_4x4(levels: &[i32; 16]) -> (block: [i32; 16])
    ensures
        block@ == raster_4x4(levels@),
        forall|i: int| 0 <= i < 16 ==> block@[#[trigger] scan_4x4(i)] == levels@[i],
{
    let mut block: [i32; 16] = [0i32;16];
    for p in 0..16usize
        invariant
            forall|q: int| 0 <= q < p ==> (#[trigger] block@[q]) == levels@[unscan_4x4(q)],
    {
        reveal(unscan_4x4);
        block[p] = levels[UNSCAN_4X4[p]];
    }
    assert(block@ =~= raster_4x4(levels@));
    assert forall|i: int| 0 <= i < 16 implies block@[#[trigger] scan_4x4(i)] == levels@[i] by {
        law_scan_4x4_is_a_permutation(i);
    }
    block
}

/// The 4x4 scan visits every place of the block once: each scan position has its
/// own place, and each place its scan position.
pub proof fn law_scan_4x4_is_a_permutation(i: int)
    requires
        0 <= i < 16,
    ensures
        0 <= scan_4x4(i) < 16,
        0 <= unscan_4x4(i) < 16,
        unscan_4x4(scan_4x4(i)) == i,
        scan_4x4(unscan_4x4(i)) == i,
{
    reveal(scan_4x4);
    reveal(unscan_4x4);
}

/// Levels of an 8x8 block from scan order to raster order.
pub fn dezigzag_8x8(levels: &[i32; 64]) -> (block: [i32; 64])
    ensures
        block@ == raster_8x8(levels@),
        forall|i: int| 0 <= i < 64 ==> block@[#[trigger] scan_8x8(i)] == levels@[i],
{
    let mut block: [i32; 64] = [0i32;64];
    for p in 0..64usize
        invariant
            forall|q: int| 0 <= q < p ==> (#[trigger] block@[q]) == levels@[unscan_8x8(q)],
    {
        reveal(unscan_8x8);
        block[p] = levels[UNSCAN_8X8[p]];
    }
    assert(block@ =~= raster_8x8(levels@));
    assert forall|i: int| 0 <= i < 64 implies block@[#[trigger] scan_8x8(i)] == levels@[i] by {
        law_scan_8x8_is_a_permutation(i);
    }
    block
}

/// The 8x8 scan visits every place of the block once: each scan position has its
/// own place, and each place its scan position.
pub proof fn law_scan_8x8_is_a_permutation(i: int)
    requires
        0 <= i < 64,
    ensures
        0 <= scan_8x8(i) < 64,
        0 <= unscan_8x8(i) < 64,
        unscan_8x8(scan_8x8(i)) == i,
        scan_8x8(unscan_8x8(i)) == i,
{
    reveal(scan_8x8);
    reveal(unscan_8x8);
}

/// Coefficients of a 4x4 block: levels dequantised, position 0 replaced by a DC
/// value that had a stage of its own.
pub open spec fn coefficients_4x4(
    levels: Seq<i32>,
    weights: Seq<u8>,
    qp: int,
    dc: Option<int>,
) -> Seq<i32> {
    Seq::new(
        16,
        |i: int|
            if dc is Some && i == 0 {
                dc->0 as i32
            } else {
                dequantised_4x4(raster_4x4(levels)[i] as int, weights, qp, i) as i32
            },
    )
}

/// Residual samples of a 4x4 block.
pub open spec fn samples_4x4(levels: Seq<i32>, weights: Seq<u8>, qp: int, dc: Option<int>) -> Seq<
    i32,
> {
    Seq::new(16, |p: int| residual_4x4(coefficients_4x4(levels, weights, qp, dc), p) as i32)
}

/// Residual samples of an 8x8 block.
pub open spec fn samples_8x8(levels: Seq<i32>, weights: Seq<u8>, qp: int) -> Seq<i32> {
    let coefficients = Seq::new(
        64,
        |i: int| dequantised_8x8(raster_8x8(levels)[i] as int, weights, qp, i) as i32,
    );
    Seq::new(64, |p: int| residual_8x8(coefficients, p) as i32)
}

fn residual_samples_4x4(levels: &[i32; 16], weights: &[u8; 16], qp: u8, dc: Option<i32>) -> (block: [i32;
    16])
    requires
        qp <= 51,
    ensures
        block@ == samples_4x4(
            levels@,
            weights@,
            qp as int,
            match dc {
                Some(v) => Some(v as int),
                None => None,
            },
        ),
{
    let mut block: [i32; 16] = dezigzag_4x4(levels);
    dequant_4x4(&mut block, qp, weights, dc.is_some());
    if let Some(v) = dc {
        block[0] = v;
    }
    let ghost model = match dc {
        Some(v) => Some(v as int),
        None => None,
    };
    let ghost coefficients = coefficients_4x4(levels@, weights@, qp as int, model);
    assert(block@ =~= coefficients);
    inverse_4x4(&mut block);
    assert(block@ =~= samples_4x4(levels@, weights@, qp as int, model));
    block
}

fn residual_samples_8x8(levels: &[i32; 64], weights: &[u8; 64], qp: u8) -> (block: [i32; 64])
    requires
        qp <= 51,
    ensures
        block@ == samples_8x8(levels@, weights@, qp as int),
{
    let mut block: [i32; 64] = dezigzag_8x8(levels);
    dequant_8x8(&mut block, qp, weights);
    assert(block@ =~= Seq::new(
        64,
        |i: int| dequantised_8x8(raster_8x8(levels@)[i] as int, weights@, qp as int, i) as i32,
    ));
    inverse_8x8(&mut block);
    assert(block@ =~= samples_8x8(levels@, weights@, qp as int));
    block
}

/// A plane with a `w` by `h` block written at `(x, y)`.
pub open spec fn put(
    plane: Seq<u8>,
    stride: int,
    x: int,
    y: int,
    w: int,
    h: int,
    block: Seq<u8>,
) -> Seq<u8> {
    Seq::new(
        plane.len(),
        |k: int|
            if in_window(k, stride, x, y, w, h) {
                block[window_index(k, stride, x, y, w)]
            } else {
                plane[k]
            },
    )
}

/// A plane with an `n` by `n` block of residual samples added at `(x, y)`.
pub open spec fn added(
    plane: Seq<u8>,
    stride: int,
    x: int,
    y: int,
    n: int,
    block: Seq<i32>,
) -> Seq<u8> {
    Seq::new(plane.len(), |k: int| with_residual(plane, stride, x, y, n, block, k) as u8)
}

/// Writes a block into a plane.
fn write_block(
    plane: &mut Vec<u8>,
    stride: usize,
    x0: usize,
    y0: usize,
    w: usize,
    h: usize,
    src: &[u8],
)
    requires
        0 < stride,
        w <= 16,
        h <= 16,
        x0 + w <= stride,
        (y0 + h) * stride <= old(plane)@.len(),
        src@.len() == w * h,
    ensures
        final(plane)@ == put(
            old(plane)@,
            stride as int,
            x0 as int,
            y0 as int,
            w as int,
            h as int,
            src@,
        ),
{
    let len: usize = plane.len();
    let ghost before = plane@;
    let ghost (st, x, y, bw, bh) = (stride as int, x0 as int, y0 as int, w as int, h as int);
    let ghost target = put(before, st, x, y, bw, bh, src@);
    for i in 0..h
        invariant
            0 < stride,
            w <= 16,
            h <= 16,
            x0 + w <= stride,
            (y0 + h) * stride <= len,
            src@.len() == w * h,
            plane@.len() == len,
            before.len() == len,
            target.len() == len,
            st == stride,
            x == x0,
            y == y0,
            bw == w,
            bh == h,
            target == put(before, st, x, y, bw, bh, src@),
            forall|k: int|
                0 <= k < len ==> (#[trigger] plane@[k]) == if k / st < y + i {
                    target[k]
                } else {
                    before[k]
                },
    {
        proof {
            lemma_rows(st, y + i, y + bh);
            lemma_raster(st, 0, y + i);
            lemma_rows(bw, i as int, bh);
            assert(bh * bw == bw * bh) by (nonlinear_arith);
        }
        let row: usize = (y0 + i) * stride;
        for j in 0..w
            invariant
                0 < stride,
                w <= 16,
                h <= 16,
                x0 + w <= stride,
                i < h,
                row == (y0 + i) * stride,
                row + stride <= len,
                src@.len() == w * h,
                i * w + w <= w * h,
                plane@.len() == len,
                before.len() == len,
                target.len() == len,
                st == stride,
                x == x0,
                y == y0,
                bw == w,
                bh == h,
                target == put(before, st, x, y, bw, bh, src@),
                forall|k: int|
                    0 <= k < len ==> (#[trigger] plane@[k]) == if k / st < y + i || (k / st == y + i
                        && k % st < x + j) {
                        target[k]
                    } else {
                        before[k]
                    },
        {
            let ghost now = plane@;
            let at: usize = row + x0 + j;
            plane[at] = src[i * w + j];
            proof {
                lemma_raster(st, x + j, y + i);
            }
            assert forall|k: int| 0 <= k < len implies (#[trigger] plane@[k]) == if k / st < y + i
                || (k / st == y + i && k % st < x + (j + 1)) {
                target[k]
            } else {
                before[k]
            } by {
                if k != at {
                    assert(plane@[k] == now[k]);
                    if k % st == x + j && k / st == y + i {
                        lemma_same_place(st, k, x + j, y + i);
                    }
                }
            }
        }
        assert forall|k: int| 0 <= k < len implies (#[trigger] plane@[k]) == if k / st < y + (i + 1) {
            target[k]
        } else {
            before[k]
        } by {
            if k / st == y + i && k % st >= x + bw {
                assert(target[k] == before[k]);
            }
        }
    }
    assert forall|k: int| 0 <= k < len implies (#[trigger] plane@[k]) == target[k] by {
        if k / st >= y + bh {
            assert(target[k] == before[k]);
        }
    }
    assert(plane@ =~= target);
}

/// The picture, the state and the macroblock fit together.
pub open spec fn matched(c: Canvas, pic: PicModel, addr: int) -> bool {
    &&& c.wf()
    &&& pic.wf()
    &&& 0 <= addr < pic.mbs.len()
    &&& c.width == pic.grid.width * 16
    &&& c.height == pic.grid.height * 16
    &&& c.width <= 0x4000_0000
    &&& c.height <= 0x4000_0000
}

/// Column of a macroblock's first sample in a plane.
pub open spec fn mb_left(pic: PicModel, addr: int, side: int) -> int {
    (addr % pic.grid.width) * side
}

/// Row of a macroblock's first sample in a plane.
pub open spec fn mb_top(pic: PicModel, addr: int, side: int) -> int {
    (addr / pic.grid.width) * side
}

/// Where the windows of a macroblock lie in the planes.
pub proof fn lemma_windows(c: Canvas, pic: PicModel, addr: int)
    requires
        matched(c, pic, addr),
    ensures
        0 <= mb_left(pic, addr, 16),
        mb_left(pic, addr, 16) + 16 <= c.width,
        0 <= mb_top(pic, addr, 16),
        mb_top(pic, addr, 16) + 16 <= c.height,
        mb_left(pic, addr, 8) == mb_left(pic, addr, 16) / 2,
        mb_top(pic, addr, 8) == mb_top(pic, addr, 16) / 2,
        mb_left(pic, addr, 8) + 8 <= c.width / 2,
        mb_top(pic, addr, 8) + 8 <= c.height / 2,
        forall|y: int|
            0 <= y <= c.height ==> 0 <= #[trigger] (y * c.width) <= c.planes[0].len(),
        forall|y: int|
            0 <= y <= c.height / 2 ==> 0 <= #[trigger] (y * (c.width / 2)) <= c.planes[1].len(),
        c.planes[1].len() == c.planes[2].len(),
        0 < c.width,
{
    let (w, h) = (pic.grid.width, pic.grid.height);
    lemma_mb_inside(w, h, addr, 16);
    lemma_mb_inside(w, h, addr, 8);
    assert forall|y: int| 0 <= y <= c.height implies 0 <= #[trigger] (y * c.width)
        <= c.planes[0].len() by {
        lemma_rows(c.width, y, c.height);
        assert(c.width * c.height == c.height * c.width) by (nonlinear_arith);
    }
    assert forall|y: int| 0 <= y <= c.height / 2 implies 0 <= #[trigger] (y * (c.width / 2))
        <= c.planes[1].len() by {
        lemma_rows(c.width / 2, y, c.height / 2);
        assert((c.width / 2) * (c.height / 2) == (c.height / 2) * (c.width / 2))
            by (nonlinear_arith);
    }
}

/// A picture with the samples `c` and everything else as before.
pub open spec fn repainted(before: Picture, after: Picture, c: Canvas) -> bool {
    &&& after@ == c
    &&& after.wf()
    &&& after.width == before.width
    &&& after.height == before.height
    &&& after.strides@ == before.strides@
    &&& after.frame_num == before.frame_num
}

/// Writes a block into a picture plane.
fn blit(picture: &mut Picture, plane: usize, x: usize, y: usize, w: usize, h: usize, src: &[u8])
    requires
        old(picture).wf(),
        plane < 3,
        w <= 16,
        h <= 16,
        0 < w,
        x + w <= old(picture)@.stride(plane as int),
        (y + h) * old(picture)@.stride(plane as int) <= old(picture)@.planes[plane as int].len(),
        src@.len() == w * h,
    ensures
        repainted(
            *old(picture),
            *final(picture),
            old(picture)@.with_plane(
                plane as int,
                put(
                    old(picture)@.planes[plane as int],
                    old(picture)@.stride(plane as int),
                    x as int,
                    y as int,
                    w as int,
                    h as int,
                    src@,
                ),
            ),
        ),
{
    let stride: usize = picture.strides[plane];
    write_block(&mut picture.planes[plane], stride, x, y, w, h, src);
    assert(picture@.planes =~= old(picture)@.planes.update(
        plane as int,
        picture.planes@[plane as int]@,
    ));
}

/// Adds a 4x4 block of residual samples to a picture plane.
fn add_4x4(picture: &mut Picture, plane: usize, x: usize, y: usize, block: &[i32; 16])
    requires
        old(picture).wf(),
        plane < 3,
        x + 4 <= old(picture)@.stride(plane as int),
        (y + 4) * old(picture)@.stride(plane as int) <= old(picture)@.planes[plane as int].len(),
    ensures
        repainted(
            *old(picture),
            *final(picture),
            old(picture)@.with_plane(
                plane as int,
                added(
                    old(picture)@.planes[plane as int],
                    old(picture)@.stride(plane as int),
                    x as int,
                    y as int,
                    4,
                    block@,
                ),
            ),
        ),
{
    let stride: usize = picture.strides[plane];
    let len: usize = picture.planes[plane].len();
    proof {
        lemma_raster(stride as int, x as int, y as int);
        lemma_rows(stride as int, y as int, y + 4);
        assert((y + 4) * stride == y * stride + 4 * stride) by (nonlinear_arith);
    }
    let offset: usize = y * stride + x;
    add_residual_4x4(&mut picture.planes[plane], offset, stride, block);
    assert(picture.planes@[plane as int]@ =~= added(
        old(picture)@.planes[plane as int],
        stride as int,
        x as int,
        y as int,
        4,
        block@,
    ));
    assert(picture@.planes =~= old(picture)@.planes.update(
        plane as int,
        picture.planes@[plane as int]@,
    ));
}

/// Adds an 8x8 block of residual samples to a picture plane.
fn add_8x8(picture: &mut Picture, plane: usize, x: usize, y: usize, block: &[i32; 64])
    requires
        old(picture).wf(),
        plane < 3,
        x + 8 <= old(picture)@.stride(plane as int),
        (y + 8) * old(picture)@.stride(plane as int) <= old(picture)@.planes[plane as int].len(),
    ensures
        repainted(
            *old(picture),
            *final(picture),
            old(picture)@.with_plane(
                plane as int,
                added(
                    old(picture)@.planes[plane as int],
                    old(picture)@.stride(plane as int),
                    x as int,
                    y as int,
                    8,
                    block@,
                ),
            ),
        ),
{
    let stride: usize = picture.strides[plane];
    let len: usize = picture.planes[plane].len();
    proof {
        lemma_raster(stride as int, x as int, y as int);
        lemma_rows(stride as int, y as int, y + 8);
        assert((y + 8) * stride == y * stride + 8 * stride) by (nonlinear_arith);
    }
    let offset: usize = y * stride + x;
    add_residual_8x8(&mut picture.planes[plane], offset, stride, block);
    assert(picture.planes@[plane as int]@ =~= added(
        old(picture)@.planes[plane as int],
        stride as int,
        x as int,
        y as int,
        8,
        block@,
    ));
    assert(picture@.planes =~= old(picture)@.planes.update(
        plane as int,
        picture.planes@[plane as int]@,
    ));
}

// ---- Neighbouring samples ---------------------------------------------------

/// The sample of a plane at a place of a macroblock.
pub open spec fn sample_in(c: Canvas, pic: PicModel, plane: int, side: int, at: SampleRef) -> u8 {
    c.planes[plane][(mb_top(pic, at.mb as int, side) + at.y) * c.stride(plane) + mb_left(
        pic,
        at.mb as int,
        side,
    ) + at.x]
}

/// Whether intra prediction may read a macroblock other than the current one.
pub open spec fn readable(pic: PicModel, mb: int, constrained: bool) -> bool {
    !constrained || pic.mbs[mb].is_intra()
}

/// The luma sample at `(x, y)` relative to the current macroblock, if intra
/// prediction of block `blk` may read it: blocks of this macroblock only if they
/// come earlier, inter macroblocks not under constrained intra prediction.
pub open spec fn luma_sample(
    c: Canvas,
    pic: PicModel,
    addr: int,
    x: int,
    y: int,
    blk: int,
    constrained: bool,
) -> Option<u8> {
    match pic.grid.spec_location(addr, x, y, 16) {
        None => None,
        Some(at) => if at.mb == addr {
            if spec_luma_4x4_index(at.x as int, at.y as int) >= blk {
                None
            } else {
                Some(sample_in(c, pic, 0, 16, at))
            }
        } else if readable(pic, at.mb as int, constrained) {
            Some(sample_in(c, pic, 0, 16, at))
        } else {
            None
        },
    }
}

/// The chroma sample at `(x, y)` relative to the current macroblock, if intra
/// prediction may read it.
pub open spec fn chroma_sample_at(
    c: Canvas,
    pic: PicModel,
    addr: int,
    x: int,
    y: int,
    plane: int,
    constrained: bool,
) -> Option<u8> {
    match pic.grid.spec_location(addr, x, y, 8) {
        None => None,
        Some(at) => if at.mb == addr || !readable(pic, at.mb as int, constrained) {
            None
        } else {
            Some(sample_in(c, pic, plane, 8, at))
        },
    }
}

/// The value of an optional sample, 0 where there is none.
pub open spec fn or_zero(sample: Option<u8>) -> u8 {
    match sample {
        Some(v) => v,
        None => 0,
    }
}

/// The samples an intra luma prediction of the `size` wide block at `(bx, by)`
/// reads. The group above and to the right counts only if all of it is there.
pub open spec fn luma_edges(
    c: Canvas,
    pic: PicModel,
    addr: int,
    bx: int,
    by: int,
    size: int,
    blk: int,
    constrained: bool,
) -> Edges {
    let s = |x: int, y: int| luma_sample(c, pic, addr, x, y, blk, constrained);
    let whole = forall|i: int| 0 <= i < size ==> #[trigger] s(bx + size + i, by - 1) is Some;
    Edges {
        top: if s(bx, by - 1) is Some {
            Some(
                Seq::new(
                    if whole {
                        (2 * size) as nat
                    } else {
                        size as nat
                    },
                    |i: int| or_zero(s(bx + i, by - 1)),
                ),
            )
        } else {
            None
        },
        left: if s(bx - 1, by) is Some {
            Some(Seq::new(size as nat, |i: int| or_zero(s(bx - 1, by + i))))
        } else {
            None
        },
        top_left: s(bx - 1, by - 1),
    }
}

/// The samples an intra chroma prediction reads.
pub open spec fn chroma_edges(
    c: Canvas,
    pic: PicModel,
    addr: int,
    plane: int,
    constrained: bool,
) -> Edges {
    let s = |x: int, y: int| chroma_sample_at(c, pic, addr, x, y, plane, constrained);
    Edges {
        top: if s(0, -1) is Some {
            Some(Seq::new(8, |i: int| or_zero(s(i, -1))))
        } else {
            None
        },
        left: if s(-1, 0) is Some {
            Some(Seq::new(8, |i: int| or_zero(s(-1, i))))
        } else {
            None
        },
        top_left: s(-1, -1),
    }
}

fn sample_of(picture: &Picture, state: &PictureState, plane: usize, at: SampleRef) -> (v: u8)
    requires
        matched(picture@, state@, at.mb as int),
        picture.wf(),
        state.wf(),
        plane < 3,
        plane == 0 ==> at.x < 16 && at.y < 16,
        plane > 0 ==> at.x < 8 && at.y < 8,
    ensures
        v == sample_in(
            picture@,
            state@,
            plane as int,
            if plane == 0 {
                16
            } else {
                8
            },
            at,
        ),
{
    proof {
        lemma_windows(picture@, state@, at.mb as int);
    }
    let (mb_x, mb_y) = state.neighbours.origin(at.mb);
    let stride: usize = picture.strides[plane];
    let len: usize = picture.planes[plane].len();
    let (x, y): (usize, usize) = if plane == 0 {
        (mb_x + at.x, mb_y + at.y)
    } else {
        (mb_x / 2 + at.x, mb_y / 2 + at.y)
    };
    proof {
        lemma_raster(stride as int, x as int, y as int);
        if plane == 0 {
            assert(0 <= (y + 1) * picture@.width <= len);
            assert(0 <= y * picture@.width <= len);
        } else {
            assert(0 <= (y + 1) * (picture@.width / 2) <= len);
            assert(0 <= y * (picture@.width / 2) <= len);
        }
    }
    picture.planes[plane][y * stride + x]
}

fn may_read(state: &PictureState, mb: MbAddr, constrained: bool) -> (r: bool)
    requires
        mb < state@.mbs.len(),
    ensures
        r == readable(state@, mb as int, constrained),
{
    !constrained || state.at(BlockRef { mb, blk: 0 }).is_intra()
}

fn intra_sample(
    picture: &Picture,
    state: &PictureState,
    addr: MbAddr,
    x: i32,
    y: i32,
    blk: u8,
    constrained: bool,
) -> (r: Option<u8>)
    requires
        matched(picture@, state@, addr as int),
        picture.wf(),
        state.wf(),
    ensures
        r == luma_sample(
            picture@,
            state@,
            addr as int,
            x as int,
            y as int,
            blk as int,
            constrained,
        ),
{
    proof {
        law_neighbours_share_the_slice(state@.grid, addr as int, x as int, y as int, 16);
    }
    match state.neighbours.luma_location(addr, x, y) {
        None => None,
        Some(at) => {
            if at.mb == addr {
                if luma_4x4_index(at.x, at.y) >= blk {
                    return None;
                }
            } else if !may_read(state, at.mb, constrained) {
                return None;
            }
            Some(sample_of(picture, state, 0, at))
        },
    }
}

fn chroma_intra_sample(
    picture: &Picture,
    state: &PictureState,
    addr: MbAddr,
    x: i32,
    y: i32,
    plane: usize,
    constrained: bool,
) -> (r: Option<u8>)
    requires
        matched(picture@, state@, addr as int),
        picture.wf(),
        state.wf(),
        1 <= plane < 3,
    ensures
        r == chroma_sample_at(
            picture@,
            state@,
            addr as int,
            x as int,
            y as int,
            plane as int,
            constrained,
        ),
{
    proof {
        law_neighbours_share_the_slice(state@.grid, addr as int, x as int, y as int, 8);
    }
    match state.neighbours.chroma_location(addr, x, y) {
        None => None,
        Some(at) => {
            if at.mb == addr || !may_read(state, at.mb, constrained) {
                return None;
            }
            Some(sample_of(picture, state, plane, at))
        },
    }
}

fn zero_if_none(sample: Option<u8>) -> (v: u8)
    ensures
        v == or_zero(sample),
{
    match sample {
        Some(v) => v,
        None => 0,
    }
}

/// Neighbouring samples that have been gathered.
struct Gathered {
    top: Option<Vec<u8>>,
    left: Option<Vec<u8>>,
    top_left: Option<u8>,
}

impl Gathered {
    spec fn model(self) -> Edges {
        Edges {
            top: match self.top {
                Some(v) => Some(v@),
                None => None,
            },
            left: match self.left {
                Some(v) => Some(v@),
                None => None,
            },
            top_left: self.top_left,
        }
    }

    fn neighbours(&self) -> (n: Neighbours<'_>)
        ensures
            n@ == self.model(),
    {
        Neighbours {
            top: match &self.top {
                Some(v) => Some(v.as_slice()),
                None => None,
            },
            left: match &self.left {
                Some(v) => Some(v.as_slice()),
                None => None,
            },
            top_left: self.top_left,
        }
    }
}

/// Gathers the samples an intra luma prediction reads. `blk` is the 4x4 block the
/// prediction is for; 0 for a whole macroblock, which reads only outside itself.
fn gather_luma_neighbours(
    picture: &Picture,
    state: &PictureState,
    addr: MbAddr,
    bx: usize,
    by: usize,
    size: usize,
    blk: u8,
    constrained: bool,
) -> (g: Gathered)
    requires
        matched(picture@, state@, addr as int),
        picture.wf(),
        state.wf(),
        bx <= 16,
        by <= 16,
        size <= 16,
    ensures
        g.model() == luma_edges(
            picture@,
            state@,
            addr as int,
            bx as int,
            by as int,
            size as int,
            blk as int,
            constrained,
        ),
        g.model().covers(size as int),
{
    let ghost (c, pic, ad, x, y, sz, bk) = (
        picture@,
        state@,
        addr as int,
        bx as int,
        by as int,
        size as int,
        blk as int,
    );
    let ghost s = |x: int, y: int| luma_sample(c, pic, ad, x, y, bk, constrained);
    let ghost goal = luma_edges(c, pic, ad, x, y, sz, bk, constrained);
    let row: i32 = by as i32 - 1;
    let mut top: Option<Vec<u8>> = None;
    if intra_sample(picture, state, addr, bx as i32, row, blk, constrained).is_some() {
        let mut whole: bool = true;
        for i in 0..size
            invariant
                matched(picture@, state@, addr as int),
                picture.wf(),
                state.wf(),
                bx <= 16,
                size <= 16,
                row == y - 1,
                x == bx,
                sz == size,
                c == picture@,
                pic == state@,
                ad == addr,
                bk == blk,
                s == (|x: int, y: int| luma_sample(c, pic, ad, x, y, bk, constrained)),
                whole == (forall|j: int| 0 <= j < i ==> #[trigger] s(x + sz + j, y - 1) is Some),
        {
            let there: bool = intra_sample(
                picture,
                state,
                addr,
                (bx + size + i) as i32,
                row,
                blk,
                constrained,
            ).is_some();
            assert(there == s(x + sz + i, y - 1) is Some);
            whole = whole && there;
        }
        let n: usize = if whole {
            2 * size
        } else {
            size
        };
        let mut v: Vec<u8> = Vec::new();
        for i in 0..n
            invariant
                matched(picture@, state@, addr as int),
                picture.wf(),
                state.wf(),
                bx <= 16,
                n <= 32,
                row == y - 1,
                x == bx,
                c == picture@,
                pic == state@,
                ad == addr,
                bk == blk,
                s == (|x: int, y: int| luma_sample(c, pic, ad, x, y, bk, constrained)),
                v@.len() == i,
                forall|j: int| 0 <= j < i ==> (#[trigger] v@[j]) == or_zero(s(x + j, y - 1)),
        {
            v.push(
                zero_if_none(
                    intra_sample(picture, state, addr, (bx + i) as i32, row, blk, constrained),
                ),
            );
        }
        assert(v@ =~= goal.top->0);
        top = Some(v);
    }
    let column: i32 = bx as i32 - 1;
    let mut left: Option<Vec<u8>> = None;
    if intra_sample(picture, state, addr, column, by as i32, blk, constrained).is_some() {
        let mut v: Vec<u8> = Vec::new();
        for i in 0..size
            invariant
                matched(picture@, state@, addr as int),
                picture.wf(),
                state.wf(),
                by <= 16,
                size <= 16,
                column == x - 1,
                y == by,
                c == picture@,
                pic == state@,
                ad == addr,
                bk == blk,
                s == (|x: int, y: int| luma_sample(c, pic, ad, x, y, bk, constrained)),
                v@.len() == i,
                forall|j: int| 0 <= j < i ==> (#[trigger] v@[j]) == or_zero(s(x - 1, y + j)),
        {
            v.push(
                zero_if_none(
                    intra_sample(picture, state, addr, column, (by + i) as i32, blk, constrained),
                ),
            );
        }
        assert(v@ =~= goal.left->0);
        left = Some(v);
    }
    let top_left: Option<u8> = intra_sample(picture, state, addr, column, row, blk, constrained);
    let g = Gathered { top, left, top_left };
    assert(g.model() =~= goal);
    g
}

/// Gathers the samples an intra chroma prediction reads.
fn gather_chroma_neighbours(
    picture: &Picture,
    state: &PictureState,
    addr: MbAddr,
    plane: usize,
    constrained: bool,
) -> (g: Gathered)
    requires
        matched(picture@, state@, addr as int),
        picture.wf(),
        state.wf(),
        1 <= plane < 3,
    ensures
        g.model() == chroma_edges(picture@, state@, addr as int, plane as int, constrained),
        g.model().covers(8),
{
    let ghost (c, pic, ad, p) = (picture@, state@, addr as int, plane as int);
    let ghost goal = chroma_edges(c, pic, ad, p, constrained);
    let mut top: Option<Vec<u8>> = None;
    if chroma_intra_sample(picture, state, addr, 0, -1, plane, constrained).is_some() {
        let mut v: Vec<u8> = Vec::new();
        for i in 0..8usize
            invariant
                matched(picture@, state@, addr as int),
                picture.wf(),
                state.wf(),
                1 <= plane < 3,
                c == picture@,
                pic == state@,
                ad == addr,
                p == plane,
                v@.len() == i,
                forall|j: int|
                    0 <= j < i ==> (#[trigger] v@[j]) == or_zero(
                        chroma_sample_at(c, pic, ad, j, -1, p, constrained),
                    ),
        {
            v.push(
                zero_if_none(
                    chroma_intra_sample(picture, state, addr, i as i32, -1, plane, constrained),
                ),
            );
        }
        assert(v@ =~= goal.top->0);
        top = Some(v);
    }
    let mut left: Option<Vec<u8>> = None;
    if chroma_intra_sample(picture, state, addr, -1, 0, plane, constrained).is_some() {
        let mut v: Vec<u8> = Vec::new();
        for i in 0..8usize
            invariant
                matched(picture@, state@, addr as int),
                picture.wf(),
                state.wf(),
                1 <= plane < 3,
                c == picture@,
                pic == state@,
                ad == addr,
                p == plane,
                v@.len() == i,
                forall|j: int|
                    0 <= j < i ==> (#[trigger] v@[j]) == or_zero(
                        chroma_sample_at(c, pic, ad, -1, j, p, constrained),
                    ),
        {
            v.push(
                zero_if_none(
                    chroma_intra_sample(picture, state, addr, -1, i as i32, plane, constrained),
                ),
            );
        }
        assert(v@ =~= goal.left->0);
        left = Some(v);
    }
    let top_left: Option<u8> = chroma_intra_sample(picture, state, addr, -1, -1, plane, constrained);
    let g = Gathered { top, left, top_left };
    assert(g.model() =~= goal);
    g
}

// ---- Reconstruction ---------------------------------------------------------

/// What a step leaves in the picture, and what is wrong where it failed.
pub type Outcome = (Canvas, Option<Seq<char>>);

/// A result says what is wrong, or that nothing is.
pub open spec fn tells(r: Result<(), Error>, fault: Option<Seq<char>>) -> bool {
    match fault {
        None => r is Ok,
        Some(message) => r matches Err(e) && e.is_decode(message),
    }
}

/// Nothing but the samples of a picture has changed.
pub open spec fn same_frame(before: Picture, after: Picture) -> bool {
    &&& after.wf()
    &&& after.width == before.width
    &&& after.height == before.height
    &&& after.strides@ == before.strides@
    &&& after.frame_num == before.frame_num
}

/// The message for an intra mode number that stands for no mode.
#[verifier::opaque]
pub open spec fn undefined_mode(id: int) -> Seq<char> {
    "intra mode "@ + signed(id) + " is not defined"@
}

/// The message for an intra mode whose samples are missing.
#[verifier::opaque]
pub open spec fn missing_samples(mode: Seq<char>) -> Seq<char> {
    "intra mode "@ + mode + " needs neighbouring samples that are not available"@
}

/// The message for a macroblock that refers to a picture that is not there.
#[verifier::opaque]
pub open spec fn missing_reference(addr: int, ref_idx: int) -> Seq<char> {
    "macroblock "@ + signed(addr) + " references picture "@ + signed(ref_idx)
        + ", which is not in the buffer"@
}

/// The message for a chroma mode number that stands for no mode.
#[verifier::opaque]
pub open spec fn undefined_chroma_mode(id: int) -> Seq<char> {
    "chroma mode "@ + signed(id)
}

/// The message for a chroma mode whose samples are missing.
#[verifier::opaque]
pub open spec fn missing_chroma_samples(mode: Seq<char>, addr: int) -> Seq<char> {
    "chroma mode "@ + mode + " needs neighbours that macroblock "@ + signed(addr)
        + " does not have"@
}

/// The error for an intra mode number that stands for no mode.
fn undefined(id: u8) -> (e: Error)
    ensures
        e.is_decode(undefined_mode(id as int)),
{
    reveal(undefined_mode);
    let mut message = numbered("intra mode ", id as i64);
    message.append(" is not defined");
    Error::decode(message.as_str())
}

/// The error for an intra mode whose samples are missing.
fn unavailable(mode: &str) -> (e: Error)
    ensures
        e.is_decode(missing_samples(mode@)),
{
    reveal(missing_samples);
    let mut message = "intra mode ".to_owned();
    message.append(mode);
    message.append(" needs neighbouring samples that are not available");
    Error::decode(message.as_str())
}

/// The error for a macroblock that refers to a picture that is not there.
fn unreferenced(addr: MbAddr, ref_idx: i8) -> (e: Error)
    ensures
        e.is_decode(missing_reference(addr as int, ref_idx as int)),
{
    reveal(missing_reference);
    let mut message = "macroblock ".to_owned();
    put_number(&mut message, addr as u128);
    message.append(numbered(" references picture ", ref_idx as i64).as_str());
    message.append(", which is not in the buffer");
    assert(message@ =~= missing_reference(addr as int, ref_idx as int));
    Error::decode(message.as_str())
}

/// The error for a chroma mode number that stands for no mode.
fn undefined_chroma(id: u8) -> (e: Error)
    ensures
        e.is_decode(undefined_chroma_mode(id as int)),
{
    reveal(undefined_chroma_mode);
    Error::decode(numbered("chroma mode ", id as i64).as_str())
}

/// The error for a chroma mode whose samples are missing.
fn unavailable_chroma(mode: &str, addr: MbAddr) -> (e: Error)
    ensures
        e.is_decode(missing_chroma_samples(mode@, addr as int)),
{
    reveal(missing_chroma_samples);
    let mut message = "chroma mode ".to_owned();
    message.append(mode);
    message.append(" needs neighbours that macroblock ");
    put_number(&mut message, addr as u128);
    message.append(" does not have");
    Error::decode(message.as_str())
}

/// The intra mode a number stands for.
pub open spec fn nxn_mode_of(id: int) -> IntraNxNMode {
    if id == 0 {
        IntraNxNMode::Vertical
    } else if id == 1 {
        IntraNxNMode::Horizontal
    } else if id == 2 {
        IntraNxNMode::Dc
    } else if id == 3 {
        IntraNxNMode::DiagonalDownLeft
    } else if id == 4 {
        IntraNxNMode::DiagonalDownRight
    } else if id == 5 {
        IntraNxNMode::VerticalRight
    } else if id == 6 {
        IntraNxNMode::HorizontalDown
    } else if id == 7 {
        IntraNxNMode::VerticalLeft
    } else {
        IntraNxNMode::HorizontalUp
    }
}

/// The chroma mode a number stands for.
pub open spec fn chroma_mode_of(id: int) -> IntraChromaMode {
    if id == 0 {
        IntraChromaMode::Dc
    } else if id == 1 {
        IntraChromaMode::Horizontal
    } else if id == 2 {
        IntraChromaMode::Vertical
    } else {
        IntraChromaMode::Plane
    }
}

/// A plane of a canvas with a block written.
pub open spec fn painted(
    c: Canvas,
    plane: int,
    x: int,
    y: int,
    n: int,
    block: Seq<u8>,
) -> Canvas {
    c.with_plane(plane, put(c.planes[plane], c.stride(plane), x, y, n, n, block))
}

/// A plane of a canvas with residual samples added.
pub open spec fn corrected(
    c: Canvas,
    plane: int,
    x: int,
    y: int,
    n: int,
    block: Seq<i32>,
) -> Canvas {
    c.with_plane(plane, added(c.planes[plane], c.stride(plane), x, y, n, block))
}

/// Everything a macroblock is reconstructed from.
pub struct Recipe {
    pub pic: PicModel,
    pub refs: Seq<Canvas>,
    pub addr: int,
    pub info: MbModel,
    pub levels: Levels,
    pub tuning: Tuning,
}

impl Recipe {
    /// Column of the first sample of a 4x4 luma block.
    pub open spec fn x_4x4(self, blk: int) -> int {
        mb_left(self.pic, self.addr, 16) + luma_4x4_x(blk)
    }

    /// Row of the first sample of a 4x4 luma block.
    pub open spec fn y_4x4(self, blk: int) -> int {
        mb_top(self.pic, self.addr, 16) + luma_4x4_y(blk)
    }

    /// Column of the first sample of an 8x8 luma block.
    pub open spec fn x_8x8(self, blk: int) -> int {
        mb_left(self.pic, self.addr, 16) + (blk % 2) * 8
    }

    /// Row of the first sample of an 8x8 luma block.
    pub open spec fn y_8x8(self, blk: int) -> int {
        mb_top(self.pic, self.addr, 16) + (blk / 2) * 8
    }

    /// Column of the first sample of a 4x4 chroma block.
    pub open spec fn x_chroma(self, blk: int) -> int {
        mb_left(self.pic, self.addr, 8) + (blk % 2) * 4
    }

    /// Row of the first sample of a 4x4 chroma block.
    pub open spec fn y_chroma(self, blk: int) -> int {
        mb_top(self.pic, self.addr, 8) + (blk / 2) * 4
    }

    /// A canvas with the residual of 4x4 luma block `blk` added.
    pub open spec fn plus_4x4(self, c: Canvas, blk: int, intra: bool, dc: Option<int>) -> Canvas {
        corrected(
            c,
            0,
            self.x_4x4(blk),
            self.y_4x4(blk),
            4,
            samples_4x4(
                self.levels.luma[blk],
                self.tuning.weights.list_4x4(intra, 0),
                self.info.qp as int,
                dc,
            ),
        )
    }

    /// A canvas with the residual of 8x8 luma block `blk` added.
    pub open spec fn plus_8x8(self, c: Canvas, blk: int, intra: bool) -> Canvas {
        corrected(
            c,
            0,
            self.x_8x8(blk),
            self.y_8x8(blk),
            8,
            samples_8x8(
                self.levels.luma_8x8[blk],
                self.tuning.weights.list_8x8(intra),
                self.info.qp as int,
            ),
        )
    }

    /// Sixteen 4x4 intra blocks, from `blk` on.
    pub open spec fn intra_4x4(self, c: Canvas, blk: int) -> Outcome
        decreases 16 - blk,
    {
        if blk >= 16 {
            (c, None)
        } else if self.info.intra_modes[blk] > 8 {
            (c, Some(undefined_mode(self.info.intra_modes[blk] as int)))
        } else {
            let mode = nxn_mode_of(self.info.intra_modes[blk] as int);
            let edges = luma_edges(
                c,
                self.pic,
                self.addr,
                luma_4x4_x(blk),
                luma_4x4_y(blk),
                4,
                blk,
                self.tuning.constrained_intra,
            );
            let b = border(edges, 4);
            if !nxn_possible(mode, b) {
                (c, Some(missing_samples(mode.called())))
            } else {
                let predicted = painted(
                    c,
                    0,
                    self.x_4x4(blk),
                    self.y_4x4(blk),
                    4,
                    Seq::new(16, |i: int| nxn_sample(mode, b, i % 4, i / 4) as u8),
                );
                let done = if self.info.cbf_luma[blk] {
                    self.plus_4x4(predicted, blk, true, None)
                } else {
                    predicted
                };
                self.intra_4x4(done, blk + 1)
            }
        }
    }

    /// Four 8x8 intra blocks, from `blk` on.
    pub open spec fn intra_8x8(self, c: Canvas, blk: int) -> Outcome
        decreases 4 - blk,
    {
        if blk >= 4 {
            (c, None)
        } else if self.info.intra_modes[4 * blk] > 8 {
            (c, Some(undefined_mode(self.info.intra_modes[4 * blk] as int)))
        } else {
            let mode = nxn_mode_of(self.info.intra_modes[4 * blk] as int);
            let edges = luma_edges(
                c,
                self.pic,
                self.addr,
                (blk % 2) * 8,
                (blk / 2) * 8,
                8,
                4 * blk,
                self.tuning.constrained_intra,
            );
            let b = border(edges, 8);
            if !nxn_possible(mode, b) {
                (c, Some(missing_samples(mode.called())))
            } else {
                let predicted = painted(
                    c,
                    0,
                    self.x_8x8(blk),
                    self.y_8x8(blk),
                    8,
                    Seq::new(64, |i: int| nxn_sample(mode, b.filtered(), i % 8, i / 8) as u8),
                );
                let done = if self.info.luma_8x8_coded(blk) {
                    self.plus_8x8(predicted, blk, true)
                } else {
                    predicted
                };
                self.intra_8x8(done, blk + 1)
            }
        }
    }

    /// The transformed DC levels of an `I_16x16` macroblock, one per 4x4 block in
    /// raster order.
    pub open spec fn dc_of(self, p: int) -> int {
        luma_dc(
            raster_4x4(self.levels.luma_dc),
            self.tuning.weights.list_4x4(true, 0),
            self.info.qp as int,
            p,
        )
    }

    /// The residual of an `I_16x16` macroblock, from 4x4 block `blk` on.
    pub open spec fn plus_16x16(self, c: Canvas, blk: int) -> Canvas
        decreases 16 - blk,
    {
        if blk >= 16 {
            c
        } else {
            self.plus_16x16(
                self.plus_4x4(c, blk, true, Some(self.dc_of(spec_dc_index(blk)))),
                blk + 1,
            )
        }
    }

    /// Luma of an intra macroblock. An `I_PCM` macroblock is left alone.
    pub open spec fn intra_luma(self, c: Canvas) -> Outcome {
        match self.info.mb_type {
            MbType::Intra16x16 { mode, .. } => {
                let edges = luma_edges(
                    c,
                    self.pic,
                    self.addr,
                    0,
                    0,
                    16,
                    0,
                    self.tuning.constrained_intra,
                );
                if !mb_possible(mode, edges) {
                    (c, Some(missing_samples(mode.called())))
                } else {
                    let predicted = painted(
                        c,
                        0,
                        mb_left(self.pic, self.addr, 16),
                        mb_top(self.pic, self.addr, 16),
                        16,
                        Seq::new(256, |i: int| mb_sample(mode, edges, i % 16, i / 16) as u8),
                    );
                    (self.plus_16x16(predicted, 0), None)
                }
            },
            MbType::IntraNxN => if self.info.transform_8x8 {
                self.intra_8x8(c, 0)
            } else {
                self.intra_4x4(c, 0)
            },
            _ => (c, None),
        }
    }

    /// Which reference a 4x4 luma block predicts from.
    pub open spec fn ref_of(self, blk: int) -> int {
        let r = self.info.ref_idx[blk / 4];
        if r > 0 {
            r as int
        } else {
            0
        }
    }

    /// Luma prediction of an inter macroblock, from 4x4 block `blk` on.
    pub open spec fn inter_luma(self, c: Canvas, blk: int) -> Outcome
        decreases 16 - blk,
    {
        if blk >= 16 {
            (c, None)
        } else if self.ref_of(blk) >= self.refs.len() {
            (c, Some(missing_reference(self.addr, self.info.ref_idx[blk / 4] as int)))
        } else {
            let (mx, my) = (self.info.mv[blk].0 as int, self.info.mv[blk].1 as int);
            let source = self.refs[self.ref_of(blk)].samples(0);
            let (x, y) = (self.x_4x4(blk), self.y_4x4(blk));
            self.inter_luma(
                painted(
                    c,
                    0,
                    x,
                    y,
                    4,
                    Seq::new(
                        16,
                        |k: int|
                            source.luma(mx % 4, my % 4, x + mx / 4 + k % 4, y + my / 4 + k / 4) as u8,
                    ),
                ),
                blk + 1,
            )
        }
    }

    /// Luma residual of an inter macroblock in 4x4 blocks, from `blk` on.
    pub open spec fn plus_luma_4x4(self, c: Canvas, blk: int) -> Canvas
        decreases 16 - blk,
    {
        if blk >= 16 {
            c
        } else if self.info.cbf_luma[blk] {
            self.plus_luma_4x4(self.plus_4x4(c, blk, false, None), blk + 1)
        } else {
            self.plus_luma_4x4(c, blk + 1)
        }
    }

    /// Luma residual of an inter macroblock in 8x8 blocks, from `blk` on.
    pub open spec fn plus_luma_8x8(self, c: Canvas, blk: int) -> Canvas
        decreases 4 - blk,
    {
        if blk >= 4 {
            c
        } else if self.info.luma_8x8_coded(blk) {
            self.plus_luma_8x8(self.plus_8x8(c, blk, false), blk + 1)
        } else {
            self.plus_luma_8x8(c, blk + 1)
        }
    }

    /// Luma residual of an inter macroblock.
    pub open spec fn plus_luma(self, c: Canvas) -> Canvas {
        if self.info.transform_8x8 {
            self.plus_luma_8x8(c, 0)
        } else {
            self.plus_luma_4x4(c, 0)
        }
    }

    /// The 4x4 luma block whose motion a 4x4 chroma block follows.
    pub open spec fn luma_of_chroma(self, blk: int) -> int {
        spec_luma_4x4_index((blk % 2) * 8, (blk / 2) * 8)
    }

    /// Chroma prediction of an inter macroblock, from 4x4 block `blk` on.
    pub open spec fn inter_chroma(self, c: Canvas, comp: int, blk: int) -> Outcome
        decreases 4 - blk,
    {
        if blk >= 4 {
            (c, None)
        } else {
            let lb = self.luma_of_chroma(blk);
            if self.ref_of(lb) >= self.refs.len() {
                (c, Some(missing_reference(self.addr, self.info.ref_idx[lb / 4] as int)))
            } else {
                let (mx, my) = (self.info.mv[lb].0 as int, self.info.mv[lb].1 as int);
                let source = self.refs[self.ref_of(lb)].samples(comp + 1);
                let (x, y) = (self.x_chroma(blk), self.y_chroma(blk));
                self.inter_chroma(
                    painted(
                        c,
                        comp + 1,
                        x,
                        y,
                        4,
                        Seq::new(
                            16,
                            |k: int|
                                source.chroma(mx % 8, my % 8, x + mx / 8 + k % 4, y + my / 8 + k / 4)
                                    as u8,
                        ),
                    ),
                    comp,
                    blk + 1,
                )
            }
        }
    }

    /// Chroma prediction of an intra macroblock.
    pub open spec fn intra_chroma(self, c: Canvas, comp: int) -> Outcome {
        if self.info.chroma_mode > 3 {
            (c, Some(undefined_chroma_mode(self.info.chroma_mode as int)))
        } else {
            let mode = chroma_mode_of(self.info.chroma_mode as int);
            let edges = chroma_edges(
                c,
                self.pic,
                self.addr,
                comp + 1,
                self.tuning.constrained_intra,
            );
            if !chroma_possible(mode, edges) {
                (c, Some(missing_chroma_samples(mode.called(), self.addr)))
            } else {
                (
                    painted(
                        c,
                        comp + 1,
                        mb_left(self.pic, self.addr, 8),
                        mb_top(self.pic, self.addr, 8),
                        8,
                        Seq::new(64, |i: int| chroma_sample(mode, edges, i % 8, i / 8) as u8),
                    ),
                    None,
                )
            }
        }
    }

    /// Quantiser of a chroma component.
    pub open spec fn chroma_quantiser(self, comp: int) -> int {
        spec_chroma_qp(self.info.qp as int, self.tuning.chroma_qp_offset[comp] as int)
    }

    /// Weights of a chroma component.
    pub open spec fn chroma_weights(self, comp: int) -> Seq<u8> {
        self.tuning.weights.list_4x4(self.info.is_intra(), comp + 1)
    }

    /// Levels of a 4x4 chroma block: none but DC unless the pattern is 2.
    pub open spec fn chroma_levels(self, comp: int, blk: int) -> Seq<i32> {
        if self.info.cbp_chroma == 2 {
            self.levels.chroma[comp * 4 + blk]
        } else {
            Seq::new(16, |i: int| 0i32)
        }
    }

    /// Residual of a chroma component, from 4x4 block `blk` on.
    pub open spec fn plus_chroma(self, c: Canvas, comp: int, blk: int) -> Canvas
        decreases 4 - blk,
    {
        if blk >= 4 {
            c
        } else {
            let weights = self.chroma_weights(comp);
            let qp = self.chroma_quantiser(comp);
            self.plus_chroma(
                corrected(
                    c,
                    comp + 1,
                    self.x_chroma(blk),
                    self.y_chroma(blk),
                    4,
                    samples_4x4(
                        self.chroma_levels(comp, blk),
                        weights,
                        qp,
                        Some(chroma_dc(self.levels.chroma_dc[comp], weights, qp, blk)),
                    ),
                ),
                comp,
                blk + 1,
            )
        }
    }

    /// The chroma components, from `comp` on.
    pub open spec fn chroma(self, c: Canvas, comp: int) -> Outcome
        decreases 2 - comp,
    {
        if comp >= 2 {
            (c, None)
        } else {
            let (predicted, fault) = if self.info.is_intra() {
                self.intra_chroma(c, comp)
            } else {
                self.inter_chroma(c, comp, 0)
            };
            if fault is Some {
                (predicted, fault)
            } else {
                self.chroma(
                    if self.info.cbp_chroma == 0 {
                        predicted
                    } else {
                        self.plus_chroma(predicted, comp, 0)
                    },
                    comp + 1,
                )
            }
        }
    }

    /// The luma of the macroblock.
    pub open spec fn luma(self, c: Canvas) -> Outcome {
        if self.info.is_intra() {
            self.intra_luma(c)
        } else {
            let (predicted, fault) = self.inter_luma(c, 0);
            if fault is Some {
                (predicted, fault)
            } else {
                (self.plus_luma(predicted), None)
            }
        }
    }

    /// The whole macroblock.
    pub open spec fn apply(self, c: Canvas) -> Outcome {
        let (with_luma, fault) = self.luma(c);
        if fault is Some || self.info.mb_type is IPcm {
            (with_luma, fault)
        } else {
            self.chroma(with_luma, 0)
        }
    }
}

/// Where a 4x4 block's DC value sits among the sixteen: they are a raster of
/// blocks.
pub open spec fn spec_dc_index(blk: int) -> int {
    (luma_4x4_y(blk) / 4) * 4 + luma_4x4_x(blk) / 4
}

/// Where a 4x4 block's DC value sits among the sixteen.
pub fn dc_index(blk: u8) -> (i: usize)
    requires
        blk < 16,
    ensures
        i == spec_dc_index(blk as int),
        i < 16,
{
    proof {
        law_scan_orders_round_trip(blk as int, 0, 0);
    }
    let (x, y) = luma_4x4_origin(blk);
    (y / 4) * 4 + x / 4
}

/// Each 4x4 block has a DC value of its own.
pub proof fn law_dc_index_is_a_permutation(one: int, other: int)
    requires
        0 <= one < 16,
        0 <= other < 16,
        one != other,
    ensures
        0 <= spec_dc_index(one) < 16,
        spec_dc_index(one) != spec_dc_index(other),
{
    lemma_dc_index(one);
    lemma_dc_index(other);
}

/// The place of a DC value in terms of the bits of the block's number.
proof fn lemma_dc_index(blk: int)
    requires
        0 <= blk < 16,
    ensures
        spec_dc_index(blk) == 8 * (blk / 8) + 4 * ((blk / 2) % 2) + 2 * ((blk / 4) % 2) + blk % 2,
{
    let cx = 2 * ((blk / 4) % 2) + blk % 2;
    let cy = 2 * (blk / 8) + (blk / 2) % 2;
    assert(luma_4x4_x(blk) == 4 * cx && luma_4x4_y(blk) == 4 * cy);
    assert((4 * cx) / 4 == cx && (4 * cy) / 4 == cy);
}

fn nxn_mode(id: u8) -> (r: Result<IntraNxNMode, Error>)
    ensures
        r is Ok <==> id <= 8,
        r is Ok ==> r->Ok_0 == nxn_mode_of(id as int),
        r is Err ==> r->Err_0.is_decode(undefined_mode(id as int)),
{
    match IntraNxNMode::from_id(id) {
        Some(mode) => Ok(mode),
        None => Err(undefined(id)),
    }
}

/// What the steps of a reconstruction share.
struct Job<'a> {
    state: &'a PictureState,
    refs: &'a [&'a Picture],
    addr: MbAddr,
    info: &'a MbInfo,
    residual: &'a Residual,
    params: &'a ReconParams,
}

/// Pictures as canvases.
pub open spec fn canvases(refs: Seq<&Picture>) -> Seq<Canvas> {
    Seq::new(refs.len(), |i: int| refs[i]@)
}

/// Pictures that can be predicted from.
pub open spec fn usable(refs: Seq<&Picture>) -> bool {
    forall|i: int|
        0 <= i < refs.len() ==> (#[trigger] refs[i]).wf() && 0 < refs[i].width <= 0x4000_0000 && 0
            < refs[i].height <= 0x4000_0000
}

/// The planes of a usable picture can be predicted from.
proof fn lemma_usable_planes(c: Canvas)
    requires
        c.wf(),
        0 < c.width <= 0x4000_0000,
        0 < c.height <= 0x4000_0000,
    ensures
        c.samples(0).wf(),
        c.samples(1).wf(),
        c.samples(2).wf(),
{
    assert((c.height - 1) * c.width + c.width == c.width * c.height) by (nonlinear_arith);
    let (w, h) = (c.width / 2, c.height / 2);
    assert((h - 1) * w + w == w * h) by (nonlinear_arith);
}

impl<'a> Job<'a> {
    spec fn recipe(self) -> Recipe {
        Recipe {
            pic: self.state@,
            refs: canvases(self.refs@),
            addr: self.addr as int,
            info: self.info@,
            levels: self.residual@,
            tuning: self.params@,
        }
    }

    spec fn wf(self) -> bool {
        &&& self.state.wf()
        &&& self.addr < self.state@.mbs.len()
        &&& self.info.qp <= 51
        &&& usable(self.refs@)
    }

    spec fn on(self, picture: Picture) -> bool {
        &&& self.wf()
        &&& picture.wf()
        &&& matched(picture@, self.state@, self.addr as int)
    }

    /// The macroblock's first luma sample.
    fn origin(&self, Ghost(picture): Ghost<Picture>) -> (r: (usize, usize))
        requires
            self.on(picture),
        ensures
            r.0 == mb_left(self.state@, self.addr as int, 16),
            r.1 == mb_top(self.state@, self.addr as int, 16),
            r.0 + 16 <= picture.width,
            r.1 + 16 <= picture.height,
    {
        proof {
            lemma_windows(picture@, self.state@, self.addr as int);
        }
        self.state.neighbours.origin(self.addr)
    }

    fn plus_4x4(&self, picture: &mut Picture, blk: u8, intra: bool, dc: Option<i32>)
        requires
            self.on(*old(picture)),
            blk < 16,
        ensures
            repainted(
                *old(picture),
                *final(picture),
                self.recipe().plus_4x4(
                    old(picture)@,
                    blk as int,
                    intra,
                    match dc {
                        Some(v) => Some(v as int),
                        None => None,
                    },
                ),
            ),
            self.on(*final(picture)),
    {
        let (mb_x, mb_y) = self.origin(Ghost(*picture));
        let (bx, by) = luma_4x4_origin(blk);
        proof {
            lemma_windows(picture@, self.state@, self.addr as int);
            law_scan_orders_round_trip(blk as int, 0, 0);
            assert(0 <= (mb_y + by + 4) * picture@.width <= picture@.planes[0].len());
        }
        let block: [i32; 16] = residual_samples_4x4(
            &self.residual.luma[blk as usize],
            self.params.scaling.list_4x4(intra, 0),
            self.info.qp,
            dc,
        );
        add_4x4(picture, 0, mb_x + bx, mb_y + by, &block);
    }

    fn plus_8x8(&self, picture: &mut Picture, blk: u8, intra: bool)
        requires
            self.on(*old(picture)),
            blk < 4,
        ensures
            repainted(
                *old(picture),
                *final(picture),
                self.recipe().plus_8x8(old(picture)@, blk as int, intra),
            ),
            self.on(*final(picture)),
    {
        let (mb_x, mb_y) = self.origin(Ghost(*picture));
        let (bx, by) = luma_8x8_origin(blk);
        proof {
            lemma_windows(picture@, self.state@, self.addr as int);
            assert(0 <= (mb_y + by + 8) * picture@.width <= picture@.planes[0].len());
        }
        let block: [i32; 64] = residual_samples_8x8(
            &self.residual.luma_8x8[blk as usize],
            self.params.scaling.list_8x8(intra),
            self.info.qp,
        );
        add_8x8(picture, 0, mb_x + bx, mb_y + by, &block);
    }

    /// One 4x4 intra block.
    fn intra_block_4x4(&self, picture: &mut Picture, blk: u8) -> (r: Result<(), Error>)
        requires
            self.on(*old(picture)),
            blk < 16,
        ensures
            self.on(*final(picture)),
            same_frame(*old(picture), *final(picture)),
            r is Ok ==> self.recipe().intra_4x4(old(picture)@, blk as int)
                == self.recipe().intra_4x4(final(picture)@, blk + 1),
            r matches Err(e) ==> {
                let (c, fault) = self.recipe().intra_4x4(old(picture)@, blk as int);
                c == final(picture)@ && fault is Some && e.is_decode(fault->0)
            },
    {
        let (mb_x, mb_y) = self.origin(Ghost(*picture));
        let (bx, by) = luma_4x4_origin(blk);
        proof {
            lemma_windows(picture@, self.state@, self.addr as int);
            law_scan_orders_round_trip(blk as int, 0, 0);
            assert(0 <= (mb_y + by + 4) * picture@.width <= picture@.planes[0].len());
        }
        let mode: IntraNxNMode = match nxn_mode(self.info.intra_modes[blk as usize]) {
            Ok(mode) => mode,
            Err(e) => {
                return Err(e);
            },
        };
        let g: Gathered = gather_luma_neighbours(
            picture,
            self.state,
            self.addr,
            bx,
            by,
            4,
            blk,
            self.params.constrained_intra,
        );
        let ghost b = border(g.model(), 4);
        let mut pred: [u8; 16] = [0u8;16];
        if !predict_4x4(mode, &g.neighbours(), &mut pred) {
            return Err(unavailable(mode.name()));
        }
        assert(pred@ =~= Seq::new(16, |i: int| nxn_sample(mode, b, i % 4, i / 4) as u8));
        blit(picture, 0, mb_x + bx, mb_y + by, 4, 4, &pred);
        if self.info.luma_cbf(blk) {
            self.plus_4x4(picture, blk, true, None);
        }
        Ok(())
    }

    /// One 8x8 intra block.
    #[verifier::rlimit(60)]
    fn intra_block_8x8(&self, picture: &mut Picture, blk: u8) -> (r: Result<(), Error>)
        requires
            self.on(*old(picture)),
            blk < 4,
        ensures
            self.on(*final(picture)),
            same_frame(*old(picture), *final(picture)),
            r is Ok ==> self.recipe().intra_8x8(old(picture)@, blk as int)
                == self.recipe().intra_8x8(final(picture)@, blk + 1),
            r matches Err(e) ==> {
                let (c, fault) = self.recipe().intra_8x8(old(picture)@, blk as int);
                c == final(picture)@ && fault is Some && e.is_decode(fault->0)
            },
    {
        let (mb_x, mb_y) = self.origin(Ghost(*picture));
        let (bx, by) = luma_8x8_origin(blk);
        proof {
            lemma_windows(picture@, self.state@, self.addr as int);
            assert(0 <= (mb_y + by + 8) * picture@.width <= picture@.planes[0].len());
        }
        let mode: IntraNxNMode = match nxn_mode(self.info.intra_modes[blk as usize * 4]) {
            Ok(mode) => mode,
            Err(e) => {
                return Err(e);
            },
        };
        let g: Gathered = gather_luma_neighbours(
            picture,
            self.state,
            self.addr,
            bx,
            by,
            8,
            blk * 4,
            self.params.constrained_intra,
        );
        let ghost b = border(g.model(), 8);
        let mut pred: [u8; 64] = [0u8;64];
        if !predict_8x8(mode, &g.neighbours(), &mut pred) {
            return Err(unavailable(mode.name()));
        }
        assert(pred@ =~= Seq::new(
            64,
            |i: int| nxn_sample(mode, b.filtered(), i % 8, i / 8) as u8,
        ));
        blit(picture, 0, mb_x + bx, mb_y + by, 8, 8, &pred);
        if self.info.luma_8x8_coded(blk) {
            self.plus_8x8(picture, blk, true);
        }
        Ok(())
    }

    /// Adds the residual of an `I_16x16` macroblock, whose DC levels go through a
    /// transform of their own.
    fn add_intra_16x16_residual(&self, picture: &mut Picture)
        requires
            self.on(*old(picture)),
        ensures
            repainted(
                *old(picture),
                *final(picture),
                self.recipe().plus_16x16(old(picture)@, 0),
            ),
            self.on(*final(picture)),
    {
        let weights: &[u8; 16] = self.params.scaling.list_4x4(true, 0);
        let mut dc: [i32; 16] = dezigzag_4x4(&self.residual.luma_dc);
        dequant_luma_dc(&mut dc, self.info.qp, weights);
        let ghost goal = self.recipe().plus_16x16(picture@, 0);
        for blk in 0..16u8
            invariant
                self.on(*picture),
                same_frame(*old(picture), *picture),
                goal == self.recipe().plus_16x16(picture@, blk as int),
                forall|p: int| 0 <= p < 16 ==> (#[trigger] dc@[p]) == self.recipe().dc_of(p),
        {
            let at: usize = dc_index(blk);
            self.plus_4x4(picture, blk, true, Some(dc[at]));
        }
    }

    fn predict_intra_luma(&self, picture: &mut Picture) -> (r: Result<(), Error>)
        requires
            self.on(*old(picture)),
        ensures
            self.on(*final(picture)),
            repainted(
                *old(picture),
                *final(picture),
                self.recipe().intra_luma(old(picture)@).0,
            ),
            tells(r, self.recipe().intra_luma(old(picture)@).1),
    {
        match self.info.mb_type {
            MbType::Intra16x16 { mode, .. } => {
                let (mb_x, mb_y) = self.origin(Ghost(*picture));
                proof {
                    lemma_windows(picture@, self.state@, self.addr as int);
                    assert(0 <= (mb_y + 16) * picture@.width <= picture@.planes[0].len());
                }
                let g: Gathered = gather_luma_neighbours(
                    picture,
                    self.state,
                    self.addr,
                    0,
                    0,
                    16,
                    0,
                    self.params.constrained_intra,
                );
                let mut pred: [u8; 256] = [0u8;256];
                if !predict_16x16(mode, &g.neighbours(), &mut pred) {
                    return Err(unavailable(mode.name()));
                }
                assert(pred@ =~= Seq::new(
                    256,
                    |i: int| mb_sample(mode, g.model(), i % 16, i / 16) as u8,
                ));
                blit(picture, 0, mb_x, mb_y, 16, 16, &pred);
                self.add_intra_16x16_residual(picture);
                Ok(())
            },
            MbType::IntraNxN => {
                if self.info.transform_8x8 {
                    let ghost goal = self.recipe().intra_8x8(picture@, 0);
                    for blk in 0..4u8
                        invariant
                            self.on(*picture),
                            same_frame(*old(picture), *picture),
                            goal == self.recipe().intra_8x8(picture@, blk as int),
                            goal == self.recipe().intra_luma(old(picture)@),
                    {
                        match self.intra_block_8x8(picture, blk) {
                            Ok(_) => {},
                            Err(e) => {
                                return Err(e);
                            },
                        }
                    }
                } else {
                    let ghost goal = self.recipe().intra_4x4(picture@, 0);
                    for blk in 0..16u8
                        invariant
                            self.on(*picture),
                            same_frame(*old(picture), *picture),
                            goal == self.recipe().intra_4x4(picture@, blk as int),
                            goal == self.recipe().intra_luma(old(picture)@),
                    {
                        match self.intra_block_4x4(picture, blk) {
                            Ok(_) => {},
                            Err(e) => {
                                return Err(e);
                            },
                        }
                    }
                }
                Ok(())
            },
            _ => Ok(()),
        }
    }

    /// The picture a 4x4 luma block predicts from.
    fn reference(&self, blk: u8) -> (r: Option<&Picture>)
        requires
            self.wf(),
            blk < 16,
        ensures
            r is Some <==> self.recipe().ref_of(blk as int) < self.refs@.len(),
            r is Some ==> r->0@ == self.recipe().refs[self.recipe().ref_of(blk as int)],
            r is Some ==> r->0.wf() && r->0@.samples(0).wf() && r->0@.samples(1).wf()
                && r->0@.samples(2).wf(),
    {
        let idx: i8 = self.info.ref_idx_of_block(blk);
        let at: usize = if idx > 0 {
            idx as usize
        } else {
            0
        };
        if at < self.refs.len() {
            let picture: &Picture = self.refs[at];
            proof {
                assert(self.refs@[at as int].wf());
                lemma_usable_planes(picture@);
            }
            Some(picture)
        } else {
            None
        }
    }

    /// Luma prediction of one 4x4 block of an inter macroblock.
    fn inter_block(&self, picture: &mut Picture, blk: u8) -> (r: Result<(), Error>)
        requires
            self.on(*old(picture)),
            blk < 16,
        ensures
            self.on(*final(picture)),
            same_frame(*old(picture), *final(picture)),
            r is Ok ==> self.recipe().inter_luma(old(picture)@, blk as int)
                == self.recipe().inter_luma(final(picture)@, blk + 1),
            r matches Err(e) ==> {
                let (c, fault) = self.recipe().inter_luma(old(picture)@, blk as int);
                c == final(picture)@ && fault is Some && e.is_decode(fault->0)
            },
    {
        let (mb_x, mb_y) = self.origin(Ghost(*picture));
        let (bx, by) = luma_4x4_origin(blk);
        proof {
            lemma_windows(picture@, self.state@, self.addr as int);
            law_scan_orders_round_trip(blk as int, 0, 0);
            assert(0 <= (mb_y + by + 4) * picture@.width <= picture@.planes[0].len());
        }
        let Some(source) = self.reference(blk) else {
            return Err(unreferenced(self.addr, self.info.ref_idx[blk as usize / 4]));
        };
        let mv: (i32, i32) = (
            self.info.mv[blk as usize][0] as i32,
            self.info.mv[blk as usize][1] as i32,
        );
        let mut pred: [u8; 16] = [0u8;16];
        let plane = source.luma();
        predict_luma(&plane, (mb_x + bx) as i32, (mb_y + by) as i32, mv, 4, 4, &mut pred);
        let ghost (x, y) = (mb_x + bx, mb_y + by);
        assert(pred@ =~= Seq::new(
            16,
            |k: int|
                plane@.luma(
                    mv.0 as int % 4,
                    mv.1 as int % 4,
                    x + mv.0 as int / 4 + k % 4,
                    y + mv.1 as int / 4 + k / 4,
                ) as u8,
        ));
        blit(picture, 0, mb_x + bx, mb_y + by, 4, 4, &pred);
        Ok(())
    }

    fn predict_inter(&self, picture: &mut Picture) -> (r: Result<(), Error>)
        requires
            self.on(*old(picture)),
        ensures
            self.on(*final(picture)),
            repainted(
                *old(picture),
                *final(picture),
                self.recipe().inter_luma(old(picture)@, 0).0,
            ),
            tells(r, self.recipe().inter_luma(old(picture)@, 0).1),
    {
        let ghost goal = self.recipe().inter_luma(picture@, 0);
        // Prediction is per 4x4 block: every block of a partition shares its
        // vector, so the partitioning does not matter here.
        for blk in 0..16u8
            invariant
                self.on(*picture),
                same_frame(*old(picture), *picture),
                goal == self.recipe().inter_luma(picture@, blk as int),
                goal == self.recipe().inter_luma(old(picture)@, 0),
        {
            match self.inter_block(picture, blk) {
                Ok(_) => {},
                Err(e) => {
                    return Err(e);
                },
            }
        }
        Ok(())
    }

    fn add_luma_residual(&self, picture: &mut Picture)
        requires
            self.on(*old(picture)),
        ensures
            self.on(*final(picture)),
            repainted(*old(picture), *final(picture), self.recipe().plus_luma(old(picture)@)),
    {
        if self.info.transform_8x8 {
            let ghost goal = self.recipe().plus_luma_8x8(picture@, 0);
            for blk in 0..4u8
                invariant
                    self.on(*picture),
                    same_frame(*old(picture), *picture),
                    goal == self.recipe().plus_luma_8x8(picture@, blk as int),
            {
                if self.info.luma_8x8_coded(blk) {
                    self.plus_8x8(picture, blk, false);
                }
            }
        } else {
            let ghost goal = self.recipe().plus_luma_4x4(picture@, 0);
            for blk in 0..16u8
                invariant
                    self.on(*picture),
                    same_frame(*old(picture), *picture),
                    goal == self.recipe().plus_luma_4x4(picture@, blk as int),
            {
                if self.info.luma_cbf(blk) {
                    self.plus_4x4(picture, blk, false, None);
                }
            }
        }
    }

    fn predict_intra_chroma(&self, picture: &mut Picture, comp: usize) -> (r: Result<(), Error>)
        requires
            self.on(*old(picture)),
            comp < 2,
        ensures
            self.on(*final(picture)),
            repainted(
                *old(picture),
                *final(picture),
                self.recipe().intra_chroma(old(picture)@, comp as int).0,
            ),
            tells(r, self.recipe().intra_chroma(old(picture)@, comp as int).1),
    {
        let (mb_x, mb_y) = self.origin(Ghost(*picture));
        proof {
            lemma_windows(picture@, self.state@, self.addr as int);
            let y = mb_y as int / 2 + 8;
            assert(0 <= y * (picture@.width / 2) <= picture@.planes[1].len());
        }
        let Some(mode) = IntraChromaMode::from_id(self.info.chroma_mode) else {
            return Err(undefined_chroma(self.info.chroma_mode));
        };
        let plane: usize = comp + 1;
        let g: Gathered = gather_chroma_neighbours(
            picture,
            self.state,
            self.addr,
            plane,
            self.params.constrained_intra,
        );
        let mut pred: [u8; 64] = [0u8;64];
        if !predict_chroma_8x8(mode, &g.neighbours(), &mut pred) {
            assert(mode == chroma_mode_of(self.info.chroma_mode as int));
            return Err(unavailable_chroma(mode.name(), self.addr));
        }
        assert(mode == chroma_mode_of(self.info.chroma_mode as int));
        assert(pred@ =~= Seq::new(
            64,
            |i: int| chroma_sample(mode, g.model(), i % 8, i / 8) as u8,
        ));
        blit(picture, plane, mb_x / 2, mb_y / 2, 8, 8, &pred);
        Ok(())
    }

    /// Chroma prediction of one 4x4 block of an inter macroblock.
    fn inter_chroma_block(&self, picture: &mut Picture, comp: usize, blk: u8) -> (r: Result<
        (),
        Error,
    >)
        requires
            self.on(*old(picture)),
            comp < 2,
            blk < 4,
        ensures
            self.on(*final(picture)),
            same_frame(*old(picture), *final(picture)),
            r is Ok ==> self.recipe().inter_chroma(old(picture)@, comp as int, blk as int)
                == self.recipe().inter_chroma(final(picture)@, comp as int, blk + 1),
            r matches Err(e) ==> {
                let (c, fault) = self.recipe().inter_chroma(
                    old(picture)@,
                    comp as int,
                    blk as int,
                );
                c == final(picture)@ && fault is Some && e.is_decode(fault->0)
            },
    {
        let (mb_x, mb_y) = self.origin(Ghost(*picture));
        let bx: usize = (blk as usize % 2) * 4;
        let by: usize = (blk as usize / 2) * 4;
        let x0: usize = mb_x / 2 + bx;
        let y0: usize = mb_y / 2 + by;
        proof {
            lemma_windows(picture@, self.state@, self.addr as int);
            assert(0 <= (y0 + 4) * (picture@.width / 2) <= picture@.planes[1].len());
        }
        // Chroma follows the motion of the luma block at the same place.
        let luma_blk: u8 = luma_4x4_index(bx * 2, by * 2);
        let Some(source) = self.reference(luma_blk) else {
            return Err(unreferenced(self.addr, self.info.ref_idx[luma_blk as usize / 4]));
        };
        let mv: (i32, i32) = (
            self.info.mv[luma_blk as usize][0] as i32,
            self.info.mv[luma_blk as usize][1] as i32,
        );
        let mut pred: [u8; 16] = [0u8;16];
        let plane = source.chroma(comp);
        predict_chroma(&plane, x0 as i32, y0 as i32, mv, 4, 4, &mut pred);
        assert(pred@ =~= Seq::new(
            16,
            |k: int|
                plane@.chroma(
                    mv.0 as int % 8,
                    mv.1 as int % 8,
                    x0 + mv.0 as int / 8 + k % 4,
                    y0 + mv.1 as int / 8 + k / 4,
                ) as u8,
        ));
        blit(picture, comp + 1, x0, y0, 4, 4, &pred);
        Ok(())
    }

    fn predict_inter_chroma(&self, picture: &mut Picture, comp: usize) -> (r: Result<(), Error>)
        requires
            self.on(*old(picture)),
            comp < 2,
        ensures
            self.on(*final(picture)),
            repainted(
                *old(picture),
                *final(picture),
                self.recipe().inter_chroma(old(picture)@, comp as int, 0).0,
            ),
            tells(r, self.recipe().inter_chroma(old(picture)@, comp as int, 0).1),
    {
        let ghost goal = self.recipe().inter_chroma(picture@, comp as int, 0);
        for blk in 0..4u8
            invariant
                self.on(*picture),
                comp < 2,
                same_frame(*old(picture), *picture),
                goal == self.recipe().inter_chroma(picture@, comp as int, blk as int),
                goal == self.recipe().inter_chroma(old(picture)@, comp as int, 0),
        {
            match self.inter_chroma_block(picture, comp, blk) {
                Ok(_) => {},
                Err(e) => {
                    return Err(e);
                },
            }
        }
        Ok(())
    }

    fn add_chroma_residual(&self, picture: &mut Picture, comp: usize)
        requires
            self.on(*old(picture)),
            comp < 2,
        ensures
            self.on(*final(picture)),
            repainted(
                *old(picture),
                *final(picture),
                self.recipe().plus_chroma(old(picture)@, comp as int, 0),
            ),
    {
        let qp: u8 = chroma_qp(self.info.qp, self.params.chroma_qp_offset[comp]);
        let weights: &[u8; 16] = self.params.scaling.list_4x4(self.info.is_intra(), comp + 1);
        let mut dc: [i32; 4] = self.residual.chroma_dc[comp];
        let (mb_x, mb_y) = self.origin(Ghost(*picture));
        dequant_chroma_dc(&mut dc, qp, weights);
        let ghost goal = self.recipe().plus_chroma(picture@, comp as int, 0);
        for blk in 0..4usize
            invariant
                self.on(*picture),
                comp < 2,
                qp <= 51,
                qp == self.recipe().chroma_quantiser(comp as int),
                weights@ == self.recipe().chroma_weights(comp as int),
                mb_x == mb_left(self.state@, self.addr as int, 16),
                mb_y == mb_top(self.state@, self.addr as int, 16),
                forall|p: int|
                    0 <= p < 4 ==> (#[trigger] dc@[p]) == chroma_dc(
                        self.recipe().levels.chroma_dc[comp as int],
                        weights@,
                        qp as int,
                        p,
                    ),
                same_frame(*old(picture), *picture),
                goal == self.recipe().plus_chroma(picture@, comp as int, blk as int),
        {
            let levels: [i32; 16] = if self.info.cbp_chroma == 2 {
                self.residual.chroma[comp][blk]
            } else {
                [0i32;16]
            };
            assert(levels@ =~= self.recipe().chroma_levels(comp as int, blk as int));
            let block: [i32; 16] = residual_samples_4x4(&levels, weights, qp, Some(dc[blk]));
            let x0: usize = mb_x / 2 + (blk % 2) * 4;
            let y0: usize = mb_y / 2 + (blk / 2) * 4;
            proof {
                lemma_windows(picture@, self.state@, self.addr as int);
                assert(0 <= (y0 + 4) * (picture@.width / 2) <= picture@.planes[1].len());
            }
            add_4x4(picture, comp + 1, x0, y0, &block);
        }
    }

    fn reconstruct_chroma(&self, picture: &mut Picture) -> (r: Result<(), Error>)
        requires
            self.on(*old(picture)),
        ensures
            self.on(*final(picture)),
            repainted(*old(picture), *final(picture), self.recipe().chroma(old(picture)@, 0).0),
            tells(r, self.recipe().chroma(old(picture)@, 0).1),
    {
        let ghost goal = self.recipe().chroma(picture@, 0);
        for comp in 0..2usize
            invariant
                self.on(*picture),
                same_frame(*old(picture), *picture),
                goal == self.recipe().chroma(picture@, comp as int),
                goal == self.recipe().chroma(old(picture)@, 0),
        {
            let predicted: Result<(), Error> = if self.info.is_intra() {
                self.predict_intra_chroma(picture, comp)
            } else {
                self.predict_inter_chroma(picture, comp)
            };
            match predicted {
                Ok(_) => {},
                Err(e) => {
                    return Err(e);
                },
            }
            if self.info.cbp_chroma != 0 {
                self.add_chroma_residual(picture, comp);
            }
        }
        Ok(())
    }

    fn run(&self, picture: &mut Picture) -> (r: Result<(), Error>)
        requires
            self.on(*old(picture)),
        ensures
            self.on(*final(picture)),
            repainted(*old(picture), *final(picture), self.recipe().apply(old(picture)@).0),
            tells(r, self.recipe().apply(old(picture)@).1),
    {
        if self.info.is_intra() {
            match self.predict_intra_luma(picture) {
                Ok(_) => {},
                Err(e) => {
                    return Err(e);
                },
            }
        } else {
            match self.predict_inter(picture) {
                Ok(_) => {},
                Err(e) => {
                    return Err(e);
                },
            }
            self.add_luma_residual(picture);
        }
        if self.info.mb_type == MbType::IPcm {
            return Ok(());
        }
        self.reconstruct_chroma(picture)
    }
}

/// Reconstructs one macroblock into `picture`, `refs` being reference list 0.
/// `info` holds the macroblock's type, intra modes, motion and coded flags.
pub fn reconstruct_from(
    picture: &mut Picture,
    state: &PictureState,
    refs: &[&Picture],
    addr: MbAddr,
    info: &MbInfo,
    residual: &Residual,
    params: &ReconParams,
) -> (r: Result<(), Error>)
    requires
        old(picture).wf(),
        state.wf(),
        matched(old(picture)@, state@, addr as int),
        info.qp <= 51,
        usable(refs@),
    ensures
        ({
            let recipe = Recipe {
                pic: state@,
                refs: canvases(refs@),
                addr: addr as int,
                info: info@,
                levels: residual@,
                tuning: params@,
            };
            &&& repainted(*old(picture), *final(picture), recipe.apply(old(picture)@).0)
            &&& tells(r, recipe.apply(old(picture)@).1)
        }),
{
    Job { state, refs, addr, info, residual, params }.run(picture)
}

/// Reconstructs one macroblock into `picture`, predicting from the pictures of
/// the buffer in their stored order.
pub fn reconstruct(
    picture: &mut Picture,
    state: &PictureState,
    dpb: &Dpb,
    addr: MbAddr,
    info: &MbInfo,
    residual: &Residual,
    params: &ReconParams,
) -> (r: Result<(), Error>)
    requires
        old(picture).wf(),
        state.wf(),
        matched(old(picture)@, state@, addr as int),
        info.qp <= 51,
        forall|i: int|
            0 <= i < dpb.refs@.len() ==> (#[trigger] dpb.refs@[i]).wf() && 0 < dpb.refs@[i].width
                <= 0x4000_0000 && 0 < dpb.refs@[i].height <= 0x4000_0000,
    ensures
        ({
            let recipe = Recipe {
                pic: state@,
                refs: Seq::new(dpb.refs@.len(), |i: int| dpb.refs@[i]@),
                addr: addr as int,
                info: info@,
                levels: residual@,
                tuning: params@,
            };
            &&& repainted(*old(picture), *final(picture), recipe.apply(old(picture)@).0)
            &&& tells(r, recipe.apply(old(picture)@).1)
        }),
{
    let n: usize = dpb.refs.len();
    let mut refs: Vec<&Picture> = Vec::new();
    for i in 0..n
        invariant
            n == dpb.refs@.len(),
            refs@.len() == i,
            forall|j: int| #![trigger dpb.refs@[j]] 0 <= j < i ==> *refs@[j] == dpb.refs@[j],
    {
        refs.push(&dpb.refs[i]);
    }
    assert forall|j: int| 0 <= j < refs@.len() implies (#[trigger] refs@[j]).wf() && 0
        < refs@[j].width <= 0x4000_0000 && 0 < refs@[j].height <= 0x4000_0000 by {
        assert(*refs@[j] == dpb.refs@[j]);
    }
    assert(canvases(refs@) =~= Seq::new(dpb.refs@.len(), |i: int| dpb.refs@[i]@)) by {
        assert forall|j: int| 0 <= j < n implies canvases(refs@)[j] == dpb.refs@[j]@ by {
            assert(*refs@[j] == dpb.refs@[j]);
        }
    }
    reconstruct_from(picture, state, refs.as_slice(), addr, info, residual, params)
}

/// The modes that numbers stand for are those that carry them.
pub proof fn law_modes_carry_their_numbers(id: int)
    ensures
        0 <= id <= 8 ==> nxn_mode_of(id).id() == id,
        0 <= id <= 3 ==> chroma_mode_of(id).id() == id,
{
}

/// The DC values of the 4x4 blocks stand as the blocks do, in four rows of four.
pub proof fn law_dc_values_stand_as_their_blocks(x: int, y: int)
    requires
        0 <= x < 16,
        0 <= y < 16,
    ensures
        spec_dc_index(spec_luma_4x4_index(x, y)) == 4 * (y / 4) + x / 4,
{
    super::neighbour::law_every_sample_has_a_block(x, y);
    let blk = spec_luma_4x4_index(x, y);
    let (bx, by) = (luma_4x4_x(blk), luma_4x4_y(blk));
    assert(bx % 4 == 0 && by % 4 == 0);
}

} // verus!
