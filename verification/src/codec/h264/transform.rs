//! Inverse transforms and dequantisation.
//!
//! The transforms are integer ones, so that every decoder agrees bit by bit;
//! their scaling is folded into the quantisation tables. All arithmetic wraps
//! at 32 bits.
use vstd::prelude::*;
use super::math::{
    clip1, clip_sample, in_window, lemma_raster, lemma_rows, lemma_same_place, lemma_shr_i32,
    lemma_wrap, power, shr, small_power, wadd, window_index, wmul, wrap32, wsub,
};

verus! {

/// Norms of the 4x4 transform's basis functions, by quantiser modulo six and by
/// position class.
pub const NORM_ADJUST_4X4: [[i32; 3]; 6] = [
    [10, 16, 13],
    [11, 18, 14],
    [13, 20, 16],
    [14, 23, 18],
    [16, 25, 20],
    [18, 29, 23],
];

/// Norms of the 8x8 transform's basis functions.
pub const NORM_ADJUST_8X8: [[i32; 6]; 6] = [
    [20, 18, 32, 19, 25, 24],
    [22, 19, 35, 21, 28, 26],
    [26, 23, 42, 24, 33, 31],
    [28, 25, 45, 26, 35, 33],
    [32, 28, 51, 30, 40, 38],
    [36, 32, 58, 34, 46, 43],
];

/// Flat 4x4 weights, used whenever no scaling list is in force.
pub const FLAT_WEIGHT_SCALE_4X4: [u8; 16] = [
    16, 16, 16, 16, 16, 16, 16, 16, 16, 16, 16, 16, 16, 16, 16, 16,
];

/// Default weights of intra 4x4 blocks, in scanning order.
pub const DEFAULT_SCALING_LIST_4X4_INTRA: [u8; 16] = [
    6, 13, 13, 20, 20, 20, 28, 28, 28, 28, 32, 32, 32, 37, 37, 42,
];

/// Default weights of inter 4x4 blocks, in scanning order.
pub const DEFAULT_SCALING_LIST_4X4_INTER: [u8; 16] = [
    10, 14, 14, 20, 20, 20, 24, 24, 24, 24, 27, 27, 27, 30, 30, 34,
];

/// Flat 8x8 weights.
pub const FLAT_WEIGHT_SCALE_8X8: [u8; 64] = [
    16, 16, 16, 16, 16, 16, 16, 16, 16, 16, 16, 16, 16, 16, 16, 16, 16, 16, 16, 16, 16, 16, 16, 16,
    16, 16, 16, 16, 16, 16, 16, 16, 16, 16, 16, 16, 16, 16, 16, 16, 16, 16, 16, 16, 16, 16, 16, 16,
    16, 16, 16, 16, 16, 16, 16, 16, 16, 16, 16, 16, 16, 16, 16, 16,
];

/// Default weights of intra 8x8 blocks, in scanning order.
pub const DEFAULT_SCALING_LIST_8X8_INTRA: [u8; 64] = [
    6, 10, 10, 13, 11, 13, 16, 16, 16, 16, 18, 18, 18, 18, 18, 23, 23, 23, 23, 23, 23, 25, 25, 25,
    25, 25, 25, 25, 27, 27, 27, 27, 27, 27, 27, 27, 29, 29, 29, 29, 29, 29, 29, 31, 31, 31, 31,
    31, 31, 33, 33, 33, 33, 33, 36, 36, 36, 36, 38, 38, 38, 40, 40, 42,
];

/// Default weights of inter 8x8 blocks, in scanning order.
pub const DEFAULT_SCALING_LIST_8X8_INTER: [u8; 64] = [
    9, 13, 13, 15, 13, 15, 17, 17, 17, 17, 19, 19, 19, 19, 19, 21, 21, 21, 21, 21, 21, 22, 22, 22,
    22, 22, 22, 22, 24, 24, 24, 24, 24, 24, 24, 24, 25, 25, 25, 25, 25, 25, 25, 27, 27, 27, 27,
    27, 27, 28, 28, 28, 28, 28, 30, 30, 30, 30, 32, 32, 32, 33, 33, 35,
];

/// The norm of a position class of the 4x4 transform.
#[verifier::opaque]
pub open spec fn norm_4x4(m: int, class: int) -> int {
    NORM_ADJUST_4X4[m][class] as int
}

/// The norm of a position class of the 8x8 transform.
#[verifier::opaque]
pub open spec fn norm_8x8(m: int, class: int) -> int {
    NORM_ADJUST_8X8[m][class] as int
}

/// Position class of a 4x4 block: the corners of each 2x2 lattice, its centres,
/// and everything else.
pub open spec fn class_4x4(pos: int) -> int {
    let row_odd = (pos / 4) % 2 == 1;
    let column_odd = pos % 2 == 1;
    if row_odd && column_odd {
        1
    } else if row_odd || column_odd {
        2
    } else {
        0
    }
}

/// Position class of an 8x8 block.
pub open spec fn class_8x8(pos: int) -> int {
    let i = pos / 8;
    let j = pos % 8;
    if i % 4 == 0 && j % 4 == 0 {
        0
    } else if i % 2 == 1 && j % 2 == 1 {
        1
    } else if i % 4 == 2 && j % 4 == 2 {
        2
    } else if (i % 4 == 0 && j % 2 == 1) || (j % 4 == 0 && i % 2 == 1) {
        3
    } else if (i % 4 == 0 && j % 4 == 2) || (i % 4 == 2 && j % 4 == 0) {
        4
    } else {
        5
    }
}

/// By how much a level at a position of a 4x4 block is scaled.
pub open spec fn scale_4x4(weights: Seq<u8>, qp: int, pos: int) -> int {
    weights[pos] * norm_4x4(qp % 6, class_4x4(pos))
}

/// By how much a level at a position of an 8x8 block is scaled.
pub open spec fn scale_8x8(weights: Seq<u8>, qp: int, pos: int) -> int {
    weights[pos] * norm_8x8(qp % 6, class_8x8(pos))
}

/// A scaled level doubled once per six steps of the quantiser, with `bits` of
/// fraction taken off, rounded.
pub open spec fn rescaled(product: int, qp: int, bits: int) -> int {
    if qp / 6 >= bits {
        wrap32(product * power(qp / 6 - bits))
    } else {
        wrap32(product + power(bits - qp / 6 - 1)) / power(bits - qp / 6)
    }
}

/// A level of a 4x4 block dequantised.
pub open spec fn dequantised_4x4(level: int, weights: Seq<u8>, qp: int, pos: int) -> int {
    rescaled(wrap32(level * scale_4x4(weights, qp, pos)), qp, 4)
}

/// A level of an 8x8 block dequantised.
pub open spec fn dequantised_8x8(level: int, weights: Seq<u8>, qp: int, pos: int) -> int {
    rescaled(wrap32(level * scale_8x8(weights, qp, pos)), qp, 6)
}

/// The norms are small positive numbers.
pub proof fn lemma_norms(m: int, class: int)
    requires
        0 <= m < 6,
        0 <= class < 6,
    ensures
        class < 3 ==> 10 <= norm_4x4(m, class) <= 29,
        18 <= norm_8x8(m, class) <= 58,
{
    reveal(norm_4x4);
    reveal(norm_8x8);
}

fn level_scale_4x4(weights: &[u8; 16], qp: u8, pos: usize) -> (scale: i32)
    requires
        pos < 16,
    ensures
        scale == scale_4x4(weights@, qp as int, pos as int),
        0 <= scale <= 7395,
{
    let row_odd: bool = (pos / 4) % 2 == 1;
    let column_odd: bool = pos % 2 == 1;
    let class: usize = if row_odd && column_odd {
        1
    } else if row_odd || column_odd {
        2
    } else {
        0
    };
    let norm: i32 = {
        reveal(norm_4x4);
        NORM_ADJUST_4X4[(qp % 6) as usize][class]
    };
    let weight: i32 = weights[pos] as i32;
    proof {
        lemma_norms(qp as int % 6, class as int);
        assert(0 <= weight * norm <= 7395) by (nonlinear_arith)
            requires
                0 <= weight <= 255,
                0 <= norm <= 29,
        ;
    }
    weight * norm
}

/// The position class of a place of an 8x8 block.
pub fn pos_class_8x8(pos: usize) -> (class: usize)
    requires
        pos < 64,
    ensures
        class == class_8x8(pos as int),
        class < 6,
{
    let i: usize = pos / 8;
    let j: usize = pos % 8;
    if i % 4 == 0 && j % 4 == 0 {
        0
    } else if i % 2 == 1 && j % 2 == 1 {
        1
    } else if i % 4 == 2 && j % 4 == 2 {
        2
    } else if (i % 4 == 0 && j % 2 == 1) || (j % 4 == 0 && i % 2 == 1) {
        3
    } else if (i % 4 == 0 && j % 4 == 2) || (i % 4 == 2 && j % 4 == 0) {
        4
    } else {
        5
    }
}

fn level_scale_8x8(weights: &[u8; 64], qp: u8, pos: usize) -> (scale: i32)
    requires
        pos < 64,
    ensures
        scale == scale_8x8(weights@, qp as int, pos as int),
        0 <= scale <= 14790,
{
    let class: usize = pos_class_8x8(pos);
    let norm: i32 = {
        reveal(norm_8x8);
        NORM_ADJUST_8X8[(qp % 6) as usize][class]
    };
    let weight: i32 = weights[pos] as i32;
    proof {
        lemma_norms(qp as int % 6, class as int);
        assert(0 <= weight * norm <= 14790) by (nonlinear_arith)
            requires
                0 <= weight <= 255,
                0 <= norm <= 58,
        ;
    }
    weight * norm
}

fn rescale(product: i32, qp: u8, bits: u32) -> (r: i32)
    requires
        qp <= 51,
        bits == 4 || bits == 6,
    ensures
        r == rescaled(product as int, qp as int, bits as int),
{
    let octave: u32 = (qp / 6) as u32;
    if octave >= bits {
        wmul(product, small_power(octave - bits))
    } else {
        // Below this quantiser the scale is fractional, so it is rounded.
        shr(wadd(product, small_power(bits - octave - 1)), bits - octave)
    }
}

/// Dequantise the levels of a 4x4 block, in raster order. With `skip_dc`
/// position 0 is left alone: it carries a DC value that has its own stage.
pub fn dequant_4x4(block: &mut [i32; 16], qp: u8, weight_scale: &[u8; 16], skip_dc: bool)
    requires
        qp <= 51,
    ensures
        forall|i: int|
            0 <= i < 16 ==> (#[trigger] final(block)@[i]) == if skip_dc && i == 0 {
                old(block)@[0] as int
            } else {
                dequantised_4x4(old(block)@[i] as int, weight_scale@, qp as int, i)
            },
{
    let start: usize = if skip_dc {
        1
    } else {
        0
    };
    for pos in start..16usize
        invariant
            qp <= 51,
            start == if skip_dc {
                1int
            } else {
                0
            },
            forall|i: int| 0 <= i < 16 && (i < start || i >= pos) ==> (#[trigger] block@[i]) == old(
                block,
            )@[i],
            forall|i: int|
                start <= i < pos ==> (#[trigger] block@[i]) == dequantised_4x4(
                    old(block)@[i] as int,
                    weight_scale@,
                    qp as int,
                    i,
                ),
    {
        block[pos] = rescale(wmul(block[pos], level_scale_4x4(weight_scale, qp, pos)), qp, 4);
    }
}

/// Dequantise the levels of an 8x8 block, in raster order.
pub fn dequant_8x8(block: &mut [i32; 64], qp: u8, weight_scale: &[u8; 64])
    requires
        qp <= 51,
    ensures
        forall|i: int|
            0 <= i < 64 ==> (#[trigger] final(block)@[i]) == dequantised_8x8(
                old(block)@[i] as int,
                weight_scale@,
                qp as int,
                i,
            ),
{
    for pos in 0..64usize
        invariant
            qp <= 51,
            forall|i: int| pos <= i < 64 ==> (#[trigger] block@[i]) == old(block)@[i],
            forall|i: int|
                0 <= i < pos ==> (#[trigger] block@[i]) == dequantised_8x8(
                    old(block)@[i] as int,
                    weight_scale@,
                    qp as int,
                    i,
                ),
    {
        block[pos] = rescale(wmul(block[pos], level_scale_8x8(weight_scale, qp, pos)), qp, 6);
    }
}

/// Output `k` of the four-point inverse transform.
pub open spec fn inverse4(d0: int, d1: int, d2: int, d3: int, k: int) -> int {
    let e0 = wrap32(d0 + d2);
    let e1 = wrap32(d0 - d2);
    let e2 = wrap32(d1 / 2 - d3);
    let e3 = wrap32(d1 + d3 / 2);
    if k == 0 {
        wrap32(e0 + e3)
    } else if k == 1 {
        wrap32(e1 + e2)
    } else if k == 2 {
        wrap32(e1 - e2)
    } else {
        wrap32(e0 - e3)
    }
}

/// A residual sample from the second pass of a transform.
pub open spec fn rounded(v: int) -> int {
    wrap32(v + 32) / 64
}

/// Place `p` of a 4x4 block after its rows have been transformed.
#[verifier::opaque]
pub open spec fn rows_4x4(b: Seq<i32>, p: int) -> int {
    let r = 4 * (p / 4);
    inverse4(b[r] as int, b[r + 1] as int, b[r + 2] as int, b[r + 3] as int, p % 4)
}

/// Place `p` of a 4x4 block of residual samples: rows are transformed, then
/// columns.
#[verifier::opaque]
pub open spec fn residual_4x4(b: Seq<i32>, p: int) -> int {
    let j = p % 4;
    rounded(
        inverse4(
            rows_4x4(b, j),
            rows_4x4(b, j + 4),
            rows_4x4(b, j + 8),
            rows_4x4(b, j + 12),
            p / 4,
        ),
    )
}

fn transform4(d: [i32; 4]) -> (r: [i32; 4])
    ensures
        forall|k: int|
            0 <= k < 4 ==> (#[trigger] r@[k]) == inverse4(
                d@[0] as int,
                d@[1] as int,
                d@[2] as int,
                d@[3] as int,
                k,
            ),
{
    proof {
        lemma_shr_i32(d[1]);
        lemma_shr_i32(d[3]);
    }
    let e0: i32 = wadd(d[0], d[2]);
    let e1: i32 = wsub(d[0], d[2]);
    let e2: i32 = wsub(d[1] >> 1, d[3]);
    let e3: i32 = wadd(d[1], d[3] >> 1);
    [wadd(e0, e3), wadd(e1, e2), wsub(e1, e2), wsub(e0, e3)]
}

fn round6(v: i32) -> (r: i32)
    ensures
        r == rounded(v as int),
{
    let up: i32 = wadd(v, 32);
    proof {
        lemma_shr_i32(up);
    }
    up >> 6
}

/// The 4x4 inverse transform, in place: dequantised coefficients in raster order
/// become residual samples.
pub fn inverse_4x4(block: &mut [i32; 16])
    ensures
        forall|p: int| 0 <= p < 16 ==> (#[trigger] final(block)@[p]) == residual_4x4(old(block)@, p),
{
    let ghost b = block@;
    for i in 0..4usize
        invariant
            b == old(block)@,
            forall|p: int| 0 <= p < 4 * i ==> (#[trigger] block@[p]) == rows_4x4(b, p),
            forall|p: int| 4 * i <= p < 16 ==> (#[trigger] block@[p]) == b[p],
    {
        let r: usize = 4 * i;
        let e: [i32; 4] = transform4([block[r], block[r + 1], block[r + 2], block[r + 3]]);
        block[r] = e[0];
        block[r + 1] = e[1];
        block[r + 2] = e[2];
        block[r + 3] = e[3];
        assert forall|p: int| r <= p < r + 4 implies (#[trigger] block@[p]) == rows_4x4(b, p) by {
            reveal(rows_4x4);
            assert(p / 4 == i && p % 4 == p - r);
        }
    }
    for j in 0..4usize
        invariant
            b == old(block)@,
            forall|p: int|
                0 <= p < 16 ==> (#[trigger] block@[p]) == if p % 4 < j {
                    residual_4x4(b, p)
                } else {
                    rows_4x4(b, p)
                },
    {
        let ghost before = block@;
        let g: [i32; 4] = transform4([block[j], block[j + 4], block[j + 8], block[j + 12]]);
        block[j] = round6(g[0]);
        block[j + 4] = round6(g[1]);
        block[j + 8] = round6(g[2]);
        block[j + 12] = round6(g[3]);
        assert forall|p: int| 0 <= p < 16 implies (#[trigger] block@[p]) == if p % 4 < j + 1 {
            residual_4x4(b, p)
        } else {
            rows_4x4(b, p)
        } by {
            if p % 4 == j {
                reveal(residual_4x4);
                assert(p == j || p == j + 4 || p == j + 8 || p == j + 12);
            } else {
                assert(block@[p] == before[p]);
            }
        }
    }
}

/// Output `k` of the four-point Hadamard transform.
pub open spec fn hadamard4(d0: int, d1: int, d2: int, d3: int, k: int) -> int {
    if k == 0 {
        wrap32(d0 + d1 + d2 + d3)
    } else if k == 1 {
        wrap32(d0 + d1 - d2 - d3)
    } else if k == 2 {
        wrap32(d0 - d1 - d2 + d3)
    } else {
        wrap32(d0 - d1 + d2 - d3)
    }
}

/// Place `p` of a 4x4 block after the Hadamard transform of its rows.
#[verifier::opaque]
pub open spec fn hadamard_rows(b: Seq<i32>, p: int) -> int {
    let r = 4 * (p / 4);
    hadamard4(b[r] as int, b[r + 1] as int, b[r + 2] as int, b[r + 3] as int, p % 4)
}

/// Place `p` of the Hadamard transform of a 4x4 block.
#[verifier::opaque]
pub open spec fn hadamard(b: Seq<i32>, p: int) -> int {
    let j = p % 4;
    hadamard4(
        hadamard_rows(b, j),
        hadamard_rows(b, j + 4),
        hadamard_rows(b, j + 8),
        hadamard_rows(b, j + 12),
        p / 4,
    )
}

fn hadamard_4(d: [i32; 4]) -> (r: [i32; 4])
    ensures
        forall|k: int|
            0 <= k < 4 ==> (#[trigger] r@[k]) == hadamard4(
                d@[0] as int,
                d@[1] as int,
                d@[2] as int,
                d@[3] as int,
                k,
            ),
{
    let s0: i32 = wadd(d[0], d[3]);
    let s1: i32 = wadd(d[1], d[2]);
    let s2: i32 = wsub(d[1], d[2]);
    let s3: i32 = wsub(d[0], d[3]);
    proof {
        lemma_wrap(d[0] + d[3], s1 as int);
        lemma_wrap(d[1] + d[2], (d[0] + d[3]));
        lemma_wrap(d[0] + d[3], d[1] + d[2]);
        lemma_wrap(d[0] - d[3], s2 as int);
        lemma_wrap(d[0] - d[3], d[1] - d[2]);
        lemma_wrap(d[1] - d[2], (d[0] - d[3]));
    }
    [wadd(s0, s1), wadd(s3, s2), wsub(s0, s1), wsub(s3, s2)]
}

/// The Hadamard transform of a 4x4 block, in place and unscaled.
pub fn hadamard_4x4(block: &mut [i32; 16])
    ensures
        forall|p: int| 0 <= p < 16 ==> (#[trigger] final(block)@[p]) == hadamard(old(block)@, p),
{
    let ghost b = block@;
    for i in 0..4usize
        invariant
            b == old(block)@,
            forall|p: int| 0 <= p < 4 * i ==> (#[trigger] block@[p]) == hadamard_rows(b, p),
            forall|p: int| 4 * i <= p < 16 ==> (#[trigger] block@[p]) == b[p],
    {
        let r: usize = 4 * i;
        let e: [i32; 4] = hadamard_4([block[r], block[r + 1], block[r + 2], block[r + 3]]);
        block[r] = e[0];
        block[r + 1] = e[1];
        block[r + 2] = e[2];
        block[r + 3] = e[3];
        assert forall|p: int| r <= p < r + 4 implies (#[trigger] block@[p]) == hadamard_rows(
            b,
            p,
        ) by {
            reveal(hadamard_rows);
            assert(p / 4 == i && p % 4 == p - r);
        }
    }
    for j in 0..4usize
        invariant
            b == old(block)@,
            forall|p: int|
                0 <= p < 16 ==> (#[trigger] block@[p]) == if p % 4 < j {
                    hadamard(b, p)
                } else {
                    hadamard_rows(b, p)
                },
    {
        let ghost before = block@;
        let g: [i32; 4] = hadamard_4([block[j], block[j + 4], block[j + 8], block[j + 12]]);
        block[j] = g[0];
        block[j + 4] = g[1];
        block[j + 8] = g[2];
        block[j + 12] = g[3];
        assert forall|p: int| 0 <= p < 16 implies (#[trigger] block@[p]) == if p % 4 < j + 1 {
            hadamard(b, p)
        } else {
            hadamard_rows(b, p)
        } by {
            if p % 4 == j {
                reveal(hadamard);
                assert(p == j || p == j + 4 || p == j + 8 || p == j + 12);
            } else {
                assert(block@[p] == before[p]);
            }
        }
    }
}

/// A DC level of an `I_16x16` macroblock transformed and dequantised.
pub open spec fn luma_dc(b: Seq<i32>, weights: Seq<u8>, qp: int, p: int) -> int {
    rescaled(wrap32(hadamard(b, p) * scale_4x4(weights, qp, 0)), qp, 6)
}

/// The second transform stage of the sixteen luma DC levels of an `I_16x16`
/// macroblock, and their dequantisation.
pub fn dequant_luma_dc(dc: &mut [i32; 16], qp: u8, weight_scale: &[u8; 16])
    requires
        qp <= 51,
    ensures
        forall|p: int|
            0 <= p < 16 ==> (#[trigger] final(dc)@[p]) == luma_dc(
                old(dc)@,
                weight_scale@,
                qp as int,
                p,
            ),
{
    let ghost b = dc@;
    hadamard_4x4(dc);
    let scale: i32 = level_scale_4x4(weight_scale, qp, 0);
    for i in 0..16usize
        invariant
            qp <= 51,
            scale == scale_4x4(weight_scale@, qp as int, 0),
            forall|p: int|
                0 <= p < 16 ==> (#[trigger] dc@[p]) == if p < i {
                    luma_dc(b, weight_scale@, qp as int, p)
                } else {
                    hadamard(b, p)
                },
    {
        dc[i] = rescale(wmul(dc[i], scale), qp, 6);
    }
}

/// Place `p` of the two by two Hadamard transform of the chroma DC levels.
pub open spec fn chroma_hadamard(b: Seq<i32>, p: int) -> int {
    if p == 0 {
        wrap32(b[0] + b[1] + b[2] + b[3])
    } else if p == 1 {
        wrap32(b[0] - b[1] + b[2] - b[3])
    } else if p == 2 {
        wrap32(b[0] + b[1] - b[2] - b[3])
    } else {
        wrap32(b[0] - b[1] - b[2] + b[3])
    }
}

/// A chroma DC level transformed and dequantised.
pub open spec fn chroma_dc(b: Seq<i32>, weights: Seq<u8>, qp: int, p: int) -> int {
    wrap32(wrap32(chroma_hadamard(b, p) * scale_4x4(weights, qp, 0)) * power(qp / 6)) / 32
}

fn scale_chroma_dc(v: i32, scale: i32, qp: u8) -> (r: i32)
    requires
        qp <= 51,
    ensures
        r as int == wrap32(wrap32(v * scale) * power(qp as int / 6)) / 32,
{
    // The shift to the left comes before the one to the right, so there is no
    // fractional scale to round.
    shr(wmul(wmul(v, scale), small_power((qp / 6) as u32)), 5)
}

/// The second transform stage of the four DC levels of a chroma component, and
/// their dequantisation.
pub fn dequant_chroma_dc(dc: &mut [i32; 4], qp: u8, weight_scale: &[u8; 16])
    requires
        qp <= 51,
    ensures
        forall|p: int|
            0 <= p < 4 ==> (#[trigger] final(dc)@[p]) == chroma_dc(
                old(dc)@,
                weight_scale@,
                qp as int,
                p,
            ),
{
    let scale: i32 = level_scale_4x4(weight_scale, qp, 0);
    let (c0, c1, c2, c3) = (dc[0], dc[1], dc[2], dc[3]);
    proof {
        lemma_wrap(c0 + c1, c2 as int);
        lemma_wrap(c0 + c1 + c2, c3 as int);
        lemma_wrap(c0 - c1, c2 as int);
        lemma_wrap(c0 - c1 + c2, c3 as int);
        lemma_wrap(c0 + c1 - c2, c3 as int);
        lemma_wrap(c0 - c1 - c2, c3 as int);
    }
    dc[0] = scale_chroma_dc(wadd(wadd(wadd(c0, c1), c2), c3), scale, qp);
    dc[1] = scale_chroma_dc(wsub(wadd(wsub(c0, c1), c2), c3), scale, qp);
    dc[2] = scale_chroma_dc(wsub(wsub(wadd(c0, c1), c2), c3), scale, qp);
    dc[3] = scale_chroma_dc(wadd(wsub(wsub(c0, c1), c2), c3), scale, qp);
}

/// Output `k` of the eight-point inverse transform.
pub open spec fn inverse8(d: Seq<int>, k: int) -> int {
    let a0 = wrap32(d[0] + d[4]);
    let a2 = wrap32(d[0] - d[4]);
    let a4 = wrap32(d[2] / 2 - d[6]);
    let a6 = wrap32(d[6] / 2 + d[2]);
    let b0 = wrap32(a0 + a6);
    let b2 = wrap32(a2 + a4);
    let b4 = wrap32(a2 - a4);
    let b6 = wrap32(a0 - a6);
    let a1 = wrap32(-d[3] + d[5] - d[7] - d[7] / 2);
    let a3 = wrap32(d[1] + d[7] - d[3] - d[3] / 2);
    let a5 = wrap32(-d[1] + d[7] + d[5] + d[5] / 2);
    let a7 = wrap32(d[3] + d[5] + d[1] + d[1] / 2);
    let b1 = wrap32(a7 / 4 + a1);
    let b3 = wrap32(a3 + a5 / 4);
    let b5 = wrap32(a3 / 4 - a5);
    let b7 = wrap32(a7 - a1 / 4);
    if k == 0 {
        wrap32(b0 + b7)
    } else if k == 1 {
        wrap32(b2 + b5)
    } else if k == 2 {
        wrap32(b4 + b3)
    } else if k == 3 {
        wrap32(b6 + b1)
    } else if k == 4 {
        wrap32(b6 - b1)
    } else if k == 5 {
        wrap32(b4 - b3)
    } else if k == 6 {
        wrap32(b2 - b5)
    } else {
        wrap32(b0 - b7)
    }
}

/// Eight coefficients of a row.
pub open spec fn row_of_8(b: Seq<i32>, i: int) -> Seq<int> {
    Seq::new(8, |k: int| b[8 * i + k] as int)
}

/// Place `p` of an 8x8 block after its rows have been transformed.
#[verifier::opaque]
pub open spec fn rows_8x8(b: Seq<i32>, p: int) -> int {
    inverse8(row_of_8(b, p / 8), p % 8)
}

/// Place `p` of an 8x8 block of residual samples: rows are transformed, then
/// columns.
#[verifier::opaque]
pub open spec fn residual_8x8(b: Seq<i32>, p: int) -> int {
    rounded(inverse8(Seq::new(8, |k: int| rows_8x8(b, p % 8 + 8 * k)), p / 8))
}

/// One eight-point inverse transform.
fn butterfly_8(d: [i32; 8]) -> (r: [i32; 8])
    ensures
        forall|k: int|
            0 <= k < 8 ==> (#[trigger] r@[k]) == inverse8(Seq::new(8, |i: int| d@[i] as int), k),
{
    proof {
        lemma_shr_i32(d[1]);
        lemma_shr_i32(d[2]);
        lemma_shr_i32(d[3]);
        lemma_shr_i32(d[5]);
        lemma_shr_i32(d[6]);
        lemma_shr_i32(d[7]);
        let (d1, d3, d5, d7) = (d[1] as int, d[3] as int, d[5] as int, d[7] as int);
        lemma_wrap(-d3, d5);
        lemma_wrap(-d3 + d5, d7);
        lemma_wrap(-d3 + d5 - d7, d7 / 2);
        lemma_wrap(d1 + d7, d3);
        lemma_wrap(d1 + d7 - d3, d3 / 2);
        lemma_wrap(-d1, d7);
        lemma_wrap(-d1 + d7, d5);
        lemma_wrap(-d1 + d7 + d5, d5 / 2);
        lemma_wrap(d3 + d5, d1);
        lemma_wrap(d3 + d5 + d1, d1 / 2);
    }
    let a0: i32 = wadd(d[0], d[4]);
    let a2: i32 = wsub(d[0], d[4]);
    let a4: i32 = wsub(d[2] >> 1, d[6]);
    let a6: i32 = wadd(d[6] >> 1, d[2]);
    let b0: i32 = wadd(a0, a6);
    let b2: i32 = wadd(a2, a4);
    let b4: i32 = wsub(a2, a4);
    let b6: i32 = wsub(a0, a6);
    let a1: i32 = wsub(wsub(wadd(wsub(0, d[3]), d[5]), d[7]), d[7] >> 1);
    let a3: i32 = wsub(wsub(wadd(d[1], d[7]), d[3]), d[3] >> 1);
    let a5: i32 = wadd(wadd(wadd(wsub(0, d[1]), d[7]), d[5]), d[5] >> 1);
    let a7: i32 = wadd(wadd(wadd(d[3], d[5]), d[1]), d[1] >> 1);
    proof {
        lemma_shr_i32(a1);
        lemma_shr_i32(a3);
        lemma_shr_i32(a5);
        lemma_shr_i32(a7);
    }
    let b1: i32 = wadd(a7 >> 2, a1);
    let b3: i32 = wadd(a3, a5 >> 2);
    let b5: i32 = wsub(a3 >> 2, a5);
    let b7: i32 = wsub(a7, a1 >> 2);
    [
        wadd(b0, b7),
        wadd(b2, b5),
        wadd(b4, b3),
        wadd(b6, b1),
        wsub(b6, b1),
        wsub(b4, b3),
        wsub(b2, b5),
        wsub(b0, b7),
    ]
}

/// The 8x8 inverse transform, in place.
pub fn inverse_8x8(block: &mut [i32; 64])
    ensures
        forall|p: int| 0 <= p < 64 ==> (#[trigger] final(block)@[p]) == residual_8x8(old(block)@, p),
{
    let ghost b = block@;
    for i in 0..8usize
        invariant
            b == old(block)@,
            forall|p: int| 0 <= p < 8 * i ==> (#[trigger] block@[p]) == rows_8x8(b, p),
            forall|p: int| 8 * i <= p < 64 ==> (#[trigger] block@[p]) == b[p],
    {
        let r: usize = 8 * i;
        let d: [i32; 8] = [
            block[r],
            block[r + 1],
            block[r + 2],
            block[r + 3],
            block[r + 4],
            block[r + 5],
            block[r + 6],
            block[r + 7],
        ];
        assert(Seq::new(8, |k: int| d@[k] as int) =~= row_of_8(b, i as int));
        let e: [i32; 8] = butterfly_8(d);
        let ghost before = block@;
        for k in 0..8usize
            invariant
                r == 8 * i,
                i < 8,
                before.len() == 64,
                forall|p: int|
                    0 <= p < 64 ==> (#[trigger] block@[p]) == if r <= p < r + k {
                        e@[p - r]
                    } else {
                        before[p]
                    },
        {
            block[r + k] = e[k];
        }
        assert forall|p: int| 0 <= p < 8 * (i + 1) implies (#[trigger] block@[p]) == rows_8x8(
            b,
            p,
        ) by {
            if p >= r {
                reveal(rows_8x8);
                assert(p / 8 == i && p % 8 == p - r);
            }
        }
    }
    for j in 0..8usize
        invariant
            b == old(block)@,
            forall|p: int|
                0 <= p < 64 ==> (#[trigger] block@[p]) == if p % 8 < j {
                    residual_8x8(b, p)
                } else {
                    rows_8x8(b, p)
                },
    {
        let d: [i32; 8] = [
            block[j],
            block[j + 8],
            block[j + 16],
            block[j + 24],
            block[j + 32],
            block[j + 40],
            block[j + 48],
            block[j + 56],
        ];
        let ghost column = Seq::new(8, |k: int| rows_8x8(b, j + 8 * k));
        assert(Seq::new(8, |k: int| d@[k] as int) =~= column);
        let e: [i32; 8] = butterfly_8(d);
        let ghost before = block@;
        for k in 0..8usize
            invariant
                j < 8,
                before.len() == 64,
                forall|p: int|
                    0 <= p < 64 ==> (#[trigger] block@[p]) == if p % 8 == j && p / 8 < k {
                        rounded(e@[p / 8] as int)
                    } else {
                        before[p] as int
                    },
        {
            // The rounding belongs to the second pass only.
            block[j + 8 * k] = round6(e[k]);
        }
        assert forall|p: int| 0 <= p < 64 implies (#[trigger] block@[p]) == if p % 8 < j + 1 {
            residual_8x8(b, p)
        } else {
            rows_8x8(b, p)
        } by {
            assert(before[p] == if p % 8 < j {
                residual_8x8(b, p)
            } else {
                rows_8x8(b, p)
            });
            if p % 8 == j {
                reveal(residual_8x8);
                assert(0 <= p / 8 < 8);
                assert(Seq::new(8, |k: int| rows_8x8(b, p % 8 + 8 * k)) =~= column);
            }
        }
    }
}

/// A plane with a block of `n` by `n` residual samples added at `(x, y)`.
pub open spec fn with_residual(
    plane: Seq<u8>,
    stride: int,
    x: int,
    y: int,
    n: int,
    block: Seq<i32>,
    k: int,
) -> int {
    if in_window(k, stride, x, y, n, n) {
        clip_sample(wrap32(plane[k] + block[window_index(k, stride, x, y, n)]))
    } else {
        plane[k] as int
    }
}

fn add_residual(dst: &mut [u8], offset: usize, stride: usize, n: usize, block: &[i32])
    requires
        n == 4 || n == 8,
        block@.len() == n * n,
        0 < stride,
        offset as int % stride as int + n <= stride,
        offset + (n - 1) * stride + n <= old(dst)@.len(),
    ensures
        final(dst)@.len() == old(dst)@.len(),
        forall|k: int|
            0 <= k < old(dst)@.len() ==> (#[trigger] final(dst)@[k]) == with_residual(
                old(dst)@,
                stride as int,
                offset as int % stride as int,
                offset as int / stride as int,
                n as int,
                block@,
                k,
            ),
{
    let ghost (x, y) = (offset as int % stride as int, offset as int / stride as int);
    let ghost plane = dst@;
    let len: usize = dst.len();
    assert(4 * 4 == 16 && 8 * 8 == 64);
    let mut row: usize = offset;
    assert(0 * stride == 0);
    for i in 0..n
        invariant
            n == 4 || n == 8,
            block@.len() == n * n,
            0 < stride,
            x == offset as int % stride as int,
            y == offset as int / stride as int,
            x + n <= stride,
            offset + (n - 1) * stride + n <= len,
            dst@.len() == len,
            plane == old(dst)@,
            plane.len() == len,
            i < n ==> row == offset + i * stride,
            forall|k: int|
                0 <= k < len ==> (#[trigger] dst@[k]) == if (k / stride as int) < y + i {
                    with_residual(plane, stride as int, x, y, n as int, block@, k)
                } else {
                    plane[k] as int
                },
    {
        proof {
            lemma_same_place(stride as int, offset as int, x, y);
            lemma_rows(stride as int, i as int, n - 1);
            assert((y + i) * stride == y * stride + i * stride) by (nonlinear_arith);
            assert(row == (y + i) * stride + x);
        }
        for j in 0..n
            invariant
                n == 4 || n == 8,
                i < n,
                block@.len() == n * n,
                0 < stride,
                0 <= x,
                0 <= y,
                x + n <= stride,
                row == (y + i) * stride + x,
                row + n <= len,
                dst@.len() == len,
                plane.len() == len,
                forall|k: int|
                    0 <= k < len ==> (#[trigger] dst@[k]) == if (k / stride as int) < y + i || ((k / stride as int) == y + i && (k % stride as int) < x + j) {
                        with_residual(plane, stride as int, x, y, n as int, block@, k)
                    } else {
                        plane[k] as int
                    },
        {
            let ghost before = dst@;
            proof {
                lemma_raster(stride as int, x + j, y + i);
                assert(i * n + j < n * n) by (nonlinear_arith)
                    requires
                        0 <= i < n,
                        0 <= j < n,
                ;
            }
            let at: usize = row + j;
            let p: i32 = wadd(dst[at] as i32, block[i * n + j]);
            dst[at] = clip1(p);
            assert forall|k: int| 0 <= k < len implies (#[trigger] dst@[k]) == if (k / stride as int)
                < y + i || ((k / stride as int) == y + i && (k % stride as int) < x + (j + 1)) {
                with_residual(plane, stride as int, x, y, n as int, block@, k)
            } else {
                plane[k] as int
            } by {
                if k != at {
                    assert(dst@[k] == before[k]);
                    if (k / stride as int) == y + i && (k % stride as int) == x + j {
                        lemma_same_place(stride as int, k, x + j, y + i);
                    }
                }
            }
        }
        if i + 1 < n {
            proof {
                lemma_rows(stride as int, i + 1, n - 1);
                assert((i + 1) * stride == i * stride + stride) by (nonlinear_arith);
            }
            row = row + stride;
        }
    }
}

/// Add a 4x4 block of residual samples to the window of a plane that starts at
/// `offset`, clipping to the sample range.
pub fn add_residual_4x4(dst: &mut [u8], offset: usize, stride: usize, block: &[i32; 16])
    requires
        0 < stride,
        offset as int % stride as int + 4 <= stride,
        offset + 3 * stride + 4 <= old(dst)@.len(),
    ensures
        final(dst)@.len() == old(dst)@.len(),
        forall|k: int|
            0 <= k < old(dst)@.len() ==> (#[trigger] final(dst)@[k]) == with_residual(
                old(dst)@,
                stride as int,
                offset as int % stride as int,
                offset as int / stride as int,
                4,
                block@,
                k,
            ),
{
    add_residual(dst, offset, stride, 4, block)
}

/// Add an 8x8 block of residual samples to the window of a plane that starts at
/// `offset`, clipping to the sample range.
pub fn add_residual_8x8(dst: &mut [u8], offset: usize, stride: usize, block: &[i32; 64])
    requires
        0 < stride,
        offset as int % stride as int + 8 <= stride,
        offset + 7 * stride + 8 <= old(dst)@.len(),
    ensures
        final(dst)@.len() == old(dst)@.len(),
        forall|k: int|
            0 <= k < old(dst)@.len() ==> (#[trigger] final(dst)@[k]) == with_residual(
                old(dst)@,
                stride as int,
                offset as int % stride as int,
                offset as int / stride as int,
                8,
                block@,
                k,
            ),
{
    add_residual(dst, offset, stride, 8, block)
}

/// A block of nothing but a DC coefficient transforms to a flat residual.
pub proof fn law_dc_only_4x4_block_is_flat(b: Seq<i32>, p: int)
    requires
        b.len() == 16,
        forall|i: int| 1 <= i < 16 ==> b[i] == 0,
        0 <= p < 16,
    ensures
        residual_4x4(b, p) == rounded(b[0] as int),
{
    reveal(rows_4x4);
    reveal(residual_4x4);
    lemma_wrap(b[0] as int, 0);
    lemma_wrap(0, 0);
    assert forall|q: int| 0 <= q < 16 implies #[trigger] rows_4x4(b, q) == if q < 4 {
        b[0] as int
    } else {
        0
    } by {
        let r = 4 * (q / 4);
        assert(0 <= r <= 12);
        assert(b[r + 1] == 0 && b[r + 2] == 0 && b[r + 3] == 0);
    }
}

/// A block of nothing but a DC coefficient transforms to a flat residual.
pub proof fn law_dc_only_8x8_block_is_flat(b: Seq<i32>, p: int)
    requires
        b.len() == 64,
        forall|i: int| 1 <= i < 64 ==> b[i] == 0,
        0 <= p < 64,
    ensures
        residual_8x8(b, p) == rounded(b[0] as int),
{
    reveal(rows_8x8);
    reveal(residual_8x8);
    lemma_wrap(b[0] as int, 0);
    assert forall|q: int| 0 <= q < 64 implies #[trigger] rows_8x8(b, q) == if q < 8 {
        b[0] as int
    } else {
        0
    } by {
        lemma_first_only_8(row_of_8(b, q / 8), q % 8);
    }
    let column = Seq::new(8, |k: int| rows_8x8(b, p % 8 + 8 * k));
    assert forall|k: int| 1 <= k < 8 implies column[k] == 0 by {
        assert(0 <= p % 8 + 8 * k < 64);
    }
    assert(column[0] == b[0]);
    lemma_first_only_8(column, p / 8);
}

proof fn lemma_first_only_8(d: Seq<int>, k: int)
    requires
        d.len() == 8,
        forall|i: int| 1 <= i < 8 ==> d[i] == 0,
        -0x8000_0000 <= d[0] < 0x8000_0000,
    ensures
        inverse8(d, k) == d[0],
{
    lemma_wrap(d[0], 0);
    lemma_wrap(0, 0);
}

/// The Hadamard transform applied twice multiplies by sixteen.
pub proof fn law_hadamard_twice_scales_by_sixteen(b: Seq<i32>, once: Seq<i32>, p: int)
    requires
        b.len() == 16,
        once.len() == 16,
        forall|i: int| 0 <= i < 16 ==> (#[trigger] once[i]) == hadamard(b, i),
        0 <= p < 16,
    ensures
        hadamard(once, p) == wrap32(16 * b[p]),
{
    // The transform of the rows after that of the columns: each of the two
    // stages, undone by itself, multiplies by four.
    let j = p % 4;
    lemma_hadamard_rows_undo(b, once, 0, j);
    lemma_hadamard_rows_undo(b, once, 1, j);
    lemma_hadamard_rows_undo(b, once, 2, j);
    lemma_hadamard_rows_undo(b, once, 3, j);
    reveal(hadamard);
    lemma_hadamard4_twice(
        b[j] as int,
        b[4 + j] as int,
        b[8 + j] as int,
        b[12 + j] as int,
        p / 4,
        hadamard_rows(once, 4 * 0 + j),
        hadamard_rows(once, 4 * 1 + j),
        hadamard_rows(once, 4 * 2 + j),
        hadamard_rows(once, 4 * 3 + j),
    );
}

/// Transforming the rows of a transform leaves four times the transform of the
/// columns.
proof fn lemma_hadamard_rows_undo(b: Seq<i32>, once: Seq<i32>, i: int, j: int)
    requires
        b.len() == 16,
        once.len() == 16,
        forall|i: int| 0 <= i < 16 ==> (#[trigger] once[i]) == hadamard(b, i),
        0 <= i < 4,
        0 <= j < 4,
    ensures
        hadamard_rows(once, 4 * i + j) == wrap32(
            4 * hadamard4(b[j] as int, b[4 + j] as int, b[8 + j] as int, b[12 + j] as int, i),
        ),
{
    reveal(hadamard_rows);
    let c0 = hadamard4(b[0] as int, b[4] as int, b[8] as int, b[12] as int, i);
    let c1 = hadamard4(b[1] as int, b[5] as int, b[9] as int, b[13] as int, i);
    let c2 = hadamard4(b[2] as int, b[6] as int, b[10] as int, b[14] as int, i);
    let c3 = hadamard4(b[3] as int, b[7] as int, b[11] as int, b[15] as int, i);
    let r = 4 * i;
    assert(once[r + 0] == hadamard4(c0, c1, c2, c3, 0)) by {
        lemma_hadamard_swap(b, i, 0);
    }
    assert(once[r + 1] == hadamard4(c0, c1, c2, c3, 1)) by {
        lemma_hadamard_swap(b, i, 1);
    }
    assert(once[r + 2] == hadamard4(c0, c1, c2, c3, 2)) by {
        lemma_hadamard_swap(b, i, 2);
    }
    assert(once[r + 3] == hadamard4(c0, c1, c2, c3, 3)) by {
        lemma_hadamard_swap(b, i, 3);
    }
    lemma_hadamard4_twice_exact(c0, c1, c2, c3, j);
}

/// The transform does not see whether its arguments have been wrapped.
proof fn lemma_hadamard4_unwrapped(x0: int, x1: int, x2: int, x3: int, k: int)
    ensures
        hadamard4(wrap32(x0), wrap32(x1), wrap32(x2), wrap32(x3), k) == hadamard4(
            x0,
            x1,
            x2,
            x3,
            k,
        ),
{
    let (w0, w1, w2, w3) = (wrap32(x0), wrap32(x1), wrap32(x2), wrap32(x3));
    if k == 0 {
        lemma_wrap(x0, 0 + w1 + w2 + w3);
        lemma_wrap(x0 + w2 + w3, x1);
        lemma_wrap(x0 + x1 + w3, x2);
        lemma_wrap(x0 + x1 + x2, x3);
    } else if k == 1 {
        lemma_wrap(x0, 0 + w1 - w2 - w3);
        lemma_wrap(x0 - w2 - w3, x1);
        lemma_wrap(x0 + x1 - w3, x2);
        lemma_wrap(x0 + x1 - x2, x3);
    } else if k == 2 {
        lemma_wrap(x0, 0 - w1 - w2 + w3);
        lemma_wrap(x0 - w2 + w3, x1);
        lemma_wrap(x0 - x1 + w3, x2);
        lemma_wrap(x0 - x1 - x2, x3);
    } else {
        lemma_wrap(x0, 0 - w1 + w2 - w3);
        lemma_wrap(x0 + w2 - w3, x1);
        lemma_wrap(x0 - x1 - w3, x2);
        lemma_wrap(x0 - x1 + x2, x3);
    }
}

/// The two passes of the transform may be taken in either order.
proof fn lemma_hadamard_swap(b: Seq<i32>, i: int, j: int)
    requires
        b.len() == 16,
        0 <= i < 4,
        0 <= j < 4,
    ensures
        hadamard(b, 4 * i + j) == hadamard4(
            hadamard4(b[0] as int, b[4] as int, b[8] as int, b[12] as int, i),
            hadamard4(b[1] as int, b[5] as int, b[9] as int, b[13] as int, i),
            hadamard4(b[2] as int, b[6] as int, b[10] as int, b[14] as int, i),
            hadamard4(b[3] as int, b[7] as int, b[11] as int, b[15] as int, i),
            j,
        ),
{
    reveal(hadamard);
    reveal(hadamard_rows);
    assert((4 * i + j) % 4 == j && (4 * i + j) / 4 == i);
    let v = |k: int| b[k] as int;
    lemma_hadamard4_unwrapped(
        signs4(v(0), v(1), v(2), v(3), j),
        signs4(v(4), v(5), v(6), v(7), j),
        signs4(v(8), v(9), v(10), v(11), j),
        signs4(v(12), v(13), v(14), v(15), j),
        i,
    );
    lemma_hadamard4_unwrapped(
        signs4(v(0), v(4), v(8), v(12), i),
        signs4(v(1), v(5), v(9), v(13), i),
        signs4(v(2), v(6), v(10), v(14), i),
        signs4(v(3), v(7), v(11), v(15), i),
        j,
    );
    assert(hadamard_rows(b, j) == wrap32(signs4(v(0), v(1), v(2), v(3), j)));
    assert(hadamard_rows(b, j + 4) == wrap32(signs4(v(4), v(5), v(6), v(7), j)));
    assert(hadamard_rows(b, j + 8) == wrap32(signs4(v(8), v(9), v(10), v(11), j)));
    assert(hadamard_rows(b, j + 12) == wrap32(signs4(v(12), v(13), v(14), v(15), j)));
}

/// The four-point Hadamard transform before wrapping.
spec fn signs4(d0: int, d1: int, d2: int, d3: int, k: int) -> int {
    if k == 0 {
        d0 + d1 + d2 + d3
    } else if k == 1 {
        d0 + d1 - d2 - d3
    } else if k == 2 {
        d0 - d1 - d2 + d3
    } else {
        d0 - d1 + d2 - d3
    }
}

proof fn lemma_hadamard4_twice_exact(c0: int, c1: int, c2: int, c3: int, k: int)
    requires
        0 <= k < 4,
    ensures
        hadamard4(
            hadamard4(c0, c1, c2, c3, 0),
            hadamard4(c0, c1, c2, c3, 1),
            hadamard4(c0, c1, c2, c3, 2),
            hadamard4(c0, c1, c2, c3, 3),
            k,
        ) == wrap32(
            4 * if k == 0 {
                c0
            } else if k == 1 {
                c1
            } else if k == 2 {
                c2
            } else {
                c3
            },
        ),
{
    lemma_hadamard4_unwrapped(
        signs4(c0, c1, c2, c3, 0),
        signs4(c0, c1, c2, c3, 1),
        signs4(c0, c1, c2, c3, 2),
        signs4(c0, c1, c2, c3, 3),
        k,
    );
}

proof fn lemma_hadamard4_twice(
    d0: int,
    d1: int,
    d2: int,
    d3: int,
    k: int,
    e0: int,
    e1: int,
    e2: int,
    e3: int,
)
    requires
        0 <= k < 4,
        e0 == wrap32(4 * hadamard4(d0, d1, d2, d3, 0)),
        e1 == wrap32(4 * hadamard4(d0, d1, d2, d3, 1)),
        e2 == wrap32(4 * hadamard4(d0, d1, d2, d3, 2)),
        e3 == wrap32(4 * hadamard4(d0, d1, d2, d3, 3)),
    ensures
        hadamard4(e0, e1, e2, e3, k) == wrap32(
            16 * if k == 0 {
                d0
            } else if k == 1 {
                d1
            } else if k == 2 {
                d2
            } else {
                d3
            },
        ),
{
    let (s0, s1, s2, s3) = (
        signs4(d0, d1, d2, d3, 0),
        signs4(d0, d1, d2, d3, 1),
        signs4(d0, d1, d2, d3, 2),
        signs4(d0, d1, d2, d3, 3),
    );
    lemma_wrap_four(s0);
    lemma_wrap_four(s1);
    lemma_wrap_four(s2);
    lemma_wrap_four(s3);
    lemma_hadamard4_unwrapped(4 * s0, 4 * s1, 4 * s2, 4 * s3, k);
}

proof fn lemma_wrap_four(v: int)
    ensures
        wrap32(4 * wrap32(v)) == wrap32(4 * v),
{
    let w = wrap32(v);
    lemma_wrap(v, 3 * w);
    lemma_wrap(v, v + 2 * w);
    lemma_wrap(v, 2 * v + w);
    lemma_wrap(v, 3 * v);
}

/// Six steps of the quantiser double a dequantised level, once its scale is a
/// whole number.
pub proof fn law_dequantisation_doubles_every_six_steps(
    level: int,
    weights: Seq<u8>,
    qp: int,
    pos: int,
)
    requires
        24 <= qp <= 45,
    ensures
        dequantised_4x4(level, weights, qp + 6, pos) == wrap32(
            2 * dequantised_4x4(level, weights, qp, pos),
        ),
        qp >= 36 ==> dequantised_8x8(level, weights, qp + 6, pos) == wrap32(
            2 * dequantised_8x8(level, weights, qp, pos),
        ),
{
    assert((qp + 6) % 6 == qp % 6 && (qp + 6) / 6 == qp / 6 + 1);
    lemma_double(wrap32(level * scale_4x4(weights, qp, pos)), qp / 6 - 4);
    if qp >= 36 {
        lemma_double(wrap32(level * scale_8x8(weights, qp, pos)), qp / 6 - 6);
    }
}

proof fn lemma_double(product: int, octave: int)
    requires
        0 <= octave <= 4,
    ensures
        wrap32(product * power(octave + 1)) == wrap32(2 * wrap32(product * power(octave))),
{
    let v = product * power(octave);
    assert(product * power(octave + 1) == 2 * v) by (nonlinear_arith)
        requires
            power(octave + 1) == 2 * power(octave),
            v == product * power(octave),
    ;
    lemma_wrap(v, wrap32(v));
    lemma_wrap(v, v);
}

/// A larger quantiser never makes the step of a level smaller, as long as the
/// step fits the arithmetic.
pub proof fn law_step_grows_with_the_quantiser(level: int, weights: Seq<u8>, qp: int, pos: int)
    requires
        0 <= level <= 9000,
        0 <= qp < 51,
        0 <= pos < 64,
    ensures
        pos < 16 ==> dequantised_4x4(level, weights, qp, pos) <= dequantised_4x4(
            level,
            weights,
            qp + 1,
            pos,
        ),
        dequantised_8x8(level, weights, qp, pos) <= dequantised_8x8(level, weights, qp + 1, pos),
{
    let w = weights[pos] as int;
    if pos < 16 {
        lemma_norms(qp % 6, class_4x4(pos));
        lemma_norms((qp + 1) % 6, class_4x4(pos));
        lemma_norms_grow(qp % 6, class_4x4(pos));
        lemma_step(level, w, norm_4x4(qp % 6, class_4x4(pos)), norm_4x4((qp + 1) % 6, class_4x4(pos)), qp, 4);
    }
    lemma_norms(qp % 6, class_8x8(pos));
    lemma_norms((qp + 1) % 6, class_8x8(pos));
    lemma_norms_grow(qp % 6, class_8x8(pos));
    lemma_step(level, w, norm_8x8(qp % 6, class_8x8(pos)), norm_8x8((qp + 1) % 6, class_8x8(pos)), qp, 6);
}

proof fn lemma_norms_grow(m: int, class: int)
    requires
        0 <= m < 6,
        0 <= class < 6,
    ensures
        m < 5 && class < 3 ==> norm_4x4(m, class) <= norm_4x4(m + 1, class),
        class < 3 ==> norm_4x4(5, class) <= 2 * norm_4x4(0, class),
        m < 5 ==> norm_8x8(m, class) <= norm_8x8(m + 1, class),
        norm_8x8(5, class) <= 2 * norm_8x8(0, class),
{
    reveal(norm_4x4);
    reveal(norm_8x8);
}

proof fn lemma_step(level: int, w: int, norm: int, next: int, qp: int, bits: int)
    requires
        0 <= level <= 9000,
        0 <= w <= 255,
        0 <= norm <= 58,
        0 <= next <= 58,
        bits == 4 ==> norm <= 29 && next <= 29,
        0 <= qp < 51,
        bits == 4 || bits == 6,
        qp % 6 < 5 ==> norm <= next,
        qp % 6 == 5 ==> norm <= 2 * next,
    ensures
        rescaled(wrap32(level * (w * norm)), qp, bits) <= rescaled(
            wrap32(level * (w * next)),
            qp + 1,
            bits,
        ),
{
    let p = level * (w * norm);
    let q = level * (w * next);
    assert(0 <= w * norm <= 255 * norm && 0 <= w * next <= 255 * next) by (nonlinear_arith)
        requires
            0 <= w <= 255,
            0 <= norm,
            0 <= next,
    ;
    assert(0 <= p <= 9000 * (w * norm) && 0 <= q <= 9000 * (w * next)) by (nonlinear_arith)
        requires
            0 <= level <= 9000,
            0 <= w * norm,
            0 <= w * next,
            p == level * (w * norm),
            q == level * (w * next),
    ;
    lemma_wrap(p, 0);
    lemma_wrap(q, 0);
    if qp % 6 < 5 {
        assert(p <= q) by (nonlinear_arith)
            requires
                0 <= level,
                0 <= w,
                norm <= next,
                p == level * (w * norm),
                q == level * (w * next),
        ;
    } else {
        assert(p <= 2 * q) by (nonlinear_arith)
            requires
                0 <= level,
                0 <= w,
                norm <= 2 * next,
                p == level * (w * norm),
                q == level * (w * next),
        ;
    }
    let o = qp / 6;
    assert((qp + 1) / 6 == if qp % 6 < 5 {
        o
    } else {
        o + 1
    });
    assert(0 <= o <= 8);
    if o >= bits {
        lemma_octave(p, o - bits);
        lemma_octave(q, o - bits);
        lemma_wrap(p * power(o - bits), 0);
        lemma_wrap(q * power(o - bits), 0);
        if qp % 6 == 5 {
            lemma_octave(q, o + 1 - bits);
            lemma_wrap(q * power(o + 1 - bits), 0);
        }
    } else {
        let t = bits - o;
        lemma_wrap(p + power(t - 1), 0);
        lemma_wrap(q + power(t - 1), 0);
        lemma_wrap(q + power(t - 2), 0);
        lemma_octave_div(p + power(t - 1), t);
        lemma_octave_div(q + power(t - 1), t);
        lemma_octave_div(q + power(t - 2), t - 1);
        lemma_octave(q, 0);
        if qp % 6 == 5 {
            assert((qp + 1) / 6 == o + 1);
        }
    }
}

/// Dividing by the power of a small number.
proof fn lemma_octave_div(v: int, t: int)
    requires
        t <= 6,
    ensures
        t <= 0 ==> v / power(t) == v,
        t == 1 ==> v / power(t) == v / 2,
        t == 2 ==> v / power(t) == v / 4,
        t == 3 ==> v / power(t) == v / 8,
        t == 4 ==> v / power(t) == v / 16,
        t == 5 ==> v / power(t) == v / 32,
        t == 6 ==> v / power(t) == v / 64,
{
}

/// Multiplying by the power of a small octave.
proof fn lemma_octave(v: int, t: int)
    requires
        t <= 4,
    ensures
        t <= 0 ==> v * power(t) == v,
        t == 1 ==> v * power(t) == 2 * v,
        t == 2 ==> v * power(t) == 4 * v,
        t == 3 ==> v * power(t) == 8 * v,
        t == 4 ==> v * power(t) == 16 * v,
{
    let f = power(t);
    assert((f == 1 ==> v * f == v) && (f == 2 ==> v * f == 2 * v) && (f == 4 ==> v * f == 4 * v) && (f
        == 8 ==> v * f == 8 * v) && (f == 16 ==> v * f == 16 * v)) by (nonlinear_arith);
}

/// Every coefficient is at most `bound` from zero.
pub open spec fn bounded(b: Seq<i32>, bound: int) -> bool {
    forall|i: int| 0 <= i < b.len() ==> -bound <= (#[trigger] b[i]) <= bound
}

/// A number that fits in 32 bits stays as it is.
proof fn lemma_fits(v: int)
    requires
        -0x8000_0000 <= v < 0x8000_0000,
    ensures
        wrap32(v) == v,
{
    lemma_wrap(v, 0);
}

/// Halving a sum that is `e` off, against halving its parts.
proof fn lemma_halves(a: int, b: int, e: int)
    requires
        -3 <= e <= 3,
    ensures
        -2 <= (a + b + e) / 2 - (a / 2 + b / 2) <= 2,
        e == 0 ==> 0 <= (a + b + e) / 2 - (a / 2 + b / 2) <= 1,
        -1 <= e <= 1 ==> -1 <= (a + b + e) / 2 - (a / 2 + b / 2) <= 1,
{
}

/// Quartering a sum that is `e` off, against quartering its parts.
proof fn lemma_quarters(a: int, b: int, e: int)
    requires
        -11 <= e <= 11,
    ensures
        -3 <= (a + b + e) / 4 - (a / 4 + b / 4) <= 4,
        -1 <= e <= 1 ==> -1 <= (a + b + e) / 4 - (a / 4 + b / 4) <= 1,
{
}

/// Rounding a sum that is a little off, against rounding its parts.
proof fn lemma_rounded_sum(u: int, v: int, e: int)
    requires
        -0x3f00_0000 <= u <= 0x3f00_0000,
        -0x3f00_0000 <= v <= 0x3f00_0000,
        -30 <= e <= 30,
    ensures
        -1 <= rounded(u + v + e) - (rounded(u) + rounded(v)) <= 1,
{
    lemma_fits(u + 32);
    lemma_fits(v + 32);
    lemma_fits(u + v + e + 32);
}

/// [`inverse4`] where nothing overflows.
spec fn plain4(d0: int, d1: int, d2: int, d3: int, k: int) -> int {
    if k == 0 {
        d0 + d2 + (d1 + d3 / 2)
    } else if k == 1 {
        d0 - d2 + (d1 / 2 - d3)
    } else if k == 2 {
        d0 - d2 - (d1 / 2 - d3)
    } else {
        d0 + d2 - (d1 + d3 / 2)
    }
}

proof fn lemma_inverse4_plain(d0: int, d1: int, d2: int, d3: int, k: int, bound: int)
    requires
        0 <= bound <= 0x2000_0000,
        -bound <= d0 <= bound,
        -bound <= d1 <= bound,
        -bound <= d2 <= bound,
        -bound <= d3 <= bound,
    ensures
        inverse4(d0, d1, d2, d3, k) == plain4(d0, d1, d2, d3, k),
        -7 * bound - 2 <= 2 * plain4(d0, d1, d2, d3, k) <= 7 * bound + 2,
{
    lemma_fits(d0 + d2);
    lemma_fits(d0 - d2);
    lemma_fits(d1 / 2 - d3);
    lemma_fits(d1 + d3 / 2);
    lemma_fits(plain4(d0, d1, d2, d3, k));
}

/// The four-point transform of a sum, of which each part may be `e` off.
proof fn lemma_plain4_adds(
    a: (int, int, int, int),
    b: (int, int, int, int),
    s: (int, int, int, int),
    k: int,
    e: int,
)
    requires
        e == 0 || e == 1,
        -e <= s.0 - (a.0 + b.0) <= e,
        -e <= s.1 - (a.1 + b.1) <= e,
        -e <= s.2 - (a.2 + b.2) <= e,
        -e <= s.3 - (a.3 + b.3) <= e,
    ensures
        -1 - 3 * e <= plain4(s.0, s.1, s.2, s.3, k) - (plain4(a.0, a.1, a.2, a.3, k) + plain4(
            b.0,
            b.1,
            b.2,
            b.3,
            k,
        )) <= 1 + 3 * e,
{
    lemma_halves(a.1, b.1, s.1 - (a.1 + b.1));
    lemma_halves(a.3, b.3, s.3 - (a.3 + b.3));
}

/// A transformed row of a sum is next to the sum of the transformed rows.
proof fn lemma_rows_4x4_add(a: Seq<i32>, b: Seq<i32>, sum: Seq<i32>, p: int)
    requires
        a.len() == 16,
        b.len() == 16,
        sum.len() == 16,
        bounded(a, 0x400_0000),
        bounded(b, 0x400_0000),
        forall|i: int| 0 <= i < 16 ==> (#[trigger] sum[i]) == a[i] + b[i],
        0 <= p < 16,
    ensures
        -1 <= rows_4x4(sum, p) - (rows_4x4(a, p) + rows_4x4(b, p)) <= 1,
        -0xe00_0001 <= rows_4x4(a, p) <= 0xe00_0001,
        -0xe00_0001 <= rows_4x4(b, p) <= 0xe00_0001,
        -0x1c00_0001 <= rows_4x4(sum, p) <= 0x1c00_0001,
{
    reveal(rows_4x4);
    let r = 4 * (p / 4);
    let (a0, a1, a2, a3) = (a[r] as int, a[r + 1] as int, a[r + 2] as int, a[r + 3] as int);
    let (b0, b1, b2, b3) = (b[r] as int, b[r + 1] as int, b[r + 2] as int, b[r + 3] as int);
    assert(sum[r] == a0 + b0 && sum[r + 1] == a1 + b1 && sum[r + 2] == a2 + b2 && sum[r + 3] == a3
        + b3);
    lemma_inverse4_plain(a0, a1, a2, a3, p % 4, 0x400_0000);
    lemma_inverse4_plain(b0, b1, b2, b3, p % 4, 0x400_0000);
    lemma_inverse4_plain(a0 + b0, a1 + b1, a2 + b2, a3 + b3, p % 4, 0x800_0000);
    lemma_plain4_adds(
        (a0, a1, a2, a3),
        (b0, b1, b2, b3),
        (a0 + b0, a1 + b1, a2 + b2, a3 + b3),
        p % 4,
        0,
    );
}

/// The 4x4 transform is linear but for its truncations: of coefficients too
/// small to overflow, transforming a sum and summing the transforms differ by
/// one at most.
pub proof fn law_transforms_superpose_4x4(a: Seq<i32>, b: Seq<i32>, sum: Seq<i32>, p: int)
    requires
        a.len() == 16,
        b.len() == 16,
        sum.len() == 16,
        bounded(a, 0x400_0000),
        bounded(b, 0x400_0000),
        forall|i: int| 0 <= i < 16 ==> (#[trigger] sum[i]) == a[i] + b[i],
        0 <= p < 16,
    ensures
        -1 <= residual_4x4(sum, p) - (residual_4x4(a, p) + residual_4x4(b, p)) <= 1,
{
    reveal(residual_4x4);
    let (j, k) = (p % 4, p / 4);
    lemma_rows_4x4_add(a, b, sum, j);
    lemma_rows_4x4_add(a, b, sum, j + 4);
    lemma_rows_4x4_add(a, b, sum, j + 8);
    lemma_rows_4x4_add(a, b, sum, j + 12);
    let ra = (rows_4x4(a, j), rows_4x4(a, j + 4), rows_4x4(a, j + 8), rows_4x4(a, j + 12));
    let rb = (rows_4x4(b, j), rows_4x4(b, j + 4), rows_4x4(b, j + 8), rows_4x4(b, j + 12));
    let rs = (rows_4x4(sum, j), rows_4x4(sum, j + 4), rows_4x4(sum, j + 8), rows_4x4(sum, j + 12));
    lemma_inverse4_plain(ra.0, ra.1, ra.2, ra.3, k, 0xe00_0001);
    lemma_inverse4_plain(rb.0, rb.1, rb.2, rb.3, k, 0xe00_0001);
    lemma_inverse4_plain(rs.0, rs.1, rs.2, rs.3, k, 0x1c00_0001);
    lemma_plain4_adds(ra, rb, rs, k, 1);
    let u = plain4(ra.0, ra.1, ra.2, ra.3, k);
    let v = plain4(rb.0, rb.1, rb.2, rb.3, k);
    lemma_rounded_sum(u, v, plain4(rs.0, rs.1, rs.2, rs.3, k) - (u + v));
}

/// The even half of the eight-point transform where nothing overflows.
spec fn evens(d0: int, d2: int, d4: int, d6: int, k: int) -> int {
    if k == 0 {
        d0 + d4 + (d6 / 2 + d2)
    } else if k == 1 {
        d0 - d4 + (d2 / 2 - d6)
    } else if k == 2 {
        d0 - d4 - (d2 / 2 - d6)
    } else {
        d0 + d4 - (d6 / 2 + d2)
    }
}

/// The odd half of the eight-point transform where nothing overflows.
spec fn odds(d1: int, d3: int, d5: int, d7: int, k: int) -> int {
    let a1 = -d3 + d5 - d7 - d7 / 2;
    let a3 = d1 + d7 - d3 - d3 / 2;
    let a5 = -d1 + d7 + d5 + d5 / 2;
    let a7 = d3 + d5 + d1 + d1 / 2;
    if k == 0 {
        a7 - a1 / 4
    } else if k == 1 {
        a3 / 4 - a5
    } else if k == 2 {
        a3 + a5 / 4
    } else {
        a7 / 4 + a1
    }
}

/// [`inverse8`] where nothing overflows.
#[verifier::opaque]
spec fn plain8(d: Seq<int>, k: int) -> int {
    if 0 <= k < 4 {
        evens(d[0], d[2], d[4], d[6], k) + odds(d[1], d[3], d[5], d[7], k)
    } else if 4 <= k < 7 {
        evens(d[0], d[2], d[4], d[6], 7 - k) - odds(d[1], d[3], d[5], d[7], 7 - k)
    } else {
        evens(d[0], d[2], d[4], d[6], 0) - odds(d[1], d[3], d[5], d[7], 0)
    }
}

/// Every number is at most `bound` from zero.
spec fn within(d: Seq<int>, bound: int) -> bool {
    d.len() == 8 && forall|i: int| 0 <= i < 8 ==> -bound <= (#[trigger] d[i]) <= bound
}

proof fn lemma_evens(d0: int, d2: int, d4: int, d6: int, bound: int)
    requires
        0 <= bound <= 0x1000_0000,
        -bound <= d0 <= bound,
        -bound <= d2 <= bound,
        -bound <= d4 <= bound,
        -bound <= d6 <= bound,
    ensures
        ({
            let a0 = wrap32(d0 + d4);
            let a2 = wrap32(d0 - d4);
            let a4 = wrap32(d2 / 2 - d6);
            let a6 = wrap32(d6 / 2 + d2);
            &&& wrap32(a0 + a6) == evens(d0, d2, d4, d6, 0)
            &&& wrap32(a2 + a4) == evens(d0, d2, d4, d6, 1)
            &&& wrap32(a2 - a4) == evens(d0, d2, d4, d6, 2)
            &&& wrap32(a0 - a6) == evens(d0, d2, d4, d6, 3)
        }),
        forall|k: int|
            -7 * bound - 2 <= 2 * #[trigger] evens(d0, d2, d4, d6, k) <= 7 * bound + 2,
{
    lemma_fits(d0 + d4);
    lemma_fits(d0 - d4);
    lemma_fits(d2 / 2 - d6);
    lemma_fits(d6 / 2 + d2);
    lemma_fits(evens(d0, d2, d4, d6, 0));
    lemma_fits(evens(d0, d2, d4, d6, 1));
    lemma_fits(evens(d0, d2, d4, d6, 2));
    lemma_fits(evens(d0, d2, d4, d6, 3));
}

proof fn lemma_odds(d1: int, d3: int, d5: int, d7: int, bound: int)
    requires
        0 <= bound <= 0x1000_0000,
        -bound <= d1 <= bound,
        -bound <= d3 <= bound,
        -bound <= d5 <= bound,
        -bound <= d7 <= bound,
    ensures
        ({
            let a1 = wrap32(-d3 + d5 - d7 - d7 / 2);
            let a3 = wrap32(d1 + d7 - d3 - d3 / 2);
            let a5 = wrap32(-d1 + d7 + d5 + d5 / 2);
            let a7 = wrap32(d3 + d5 + d1 + d1 / 2);
            &&& wrap32(a7 / 4 + a1) == odds(d1, d3, d5, d7, 3)
            &&& wrap32(a3 + a5 / 4) == odds(d1, d3, d5, d7, 2)
            &&& wrap32(a3 / 4 - a5) == odds(d1, d3, d5, d7, 1)
            &&& wrap32(a7 - a1 / 4) == odds(d1, d3, d5, d7, 0)
        }),
        forall|k: int|
            -35 * bound - 16 <= 8 * #[trigger] odds(d1, d3, d5, d7, k) <= 35 * bound + 16,
{
    let a1 = -d3 + d5 - d7 - d7 / 2;
    let a3 = d1 + d7 - d3 - d3 / 2;
    let a5 = -d1 + d7 + d5 + d5 / 2;
    let a7 = d3 + d5 + d1 + d1 / 2;
    lemma_fits(a1);
    lemma_fits(a3);
    lemma_fits(a5);
    lemma_fits(a7);
    assert(-7 * bound - 2 <= 2 * a1 <= 7 * bound + 2);
    assert(-7 * bound - 2 <= 2 * a3 <= 7 * bound + 2);
    assert(-7 * bound - 2 <= 2 * a5 <= 7 * bound + 2);
    assert(-7 * bound - 2 <= 2 * a7 <= 7 * bound + 2);
    lemma_fits(a7 / 4 + a1);
    lemma_fits(a3 + a5 / 4);
    lemma_fits(a3 / 4 - a5);
    lemma_fits(a7 - a1 / 4);
}

/// Without overflow the eight-point transform wraps nothing.
proof fn lemma_inverse8_plain(d: Seq<int>, k: int, bound: int)
    requires
        within(d, bound),
        0 <= bound <= 0x1000_0000,
    ensures
        inverse8(d, k) == plain8(d, k),
        -63 * bound - 24 <= 8 * plain8(d, k) <= 63 * bound + 24,
{
    reveal(plain8);
    lemma_evens(d[0], d[2], d[4], d[6], bound);
    lemma_odds(d[1], d[3], d[5], d[7], bound);
    lemma_fits(plain8(d, k));
}

/// The even half of a sum, of which each part may be `e` off.
proof fn lemma_evens_add(
    a: (int, int, int, int),
    b: (int, int, int, int),
    s: (int, int, int, int),
    k: int,
    e: int,
)
    requires
        e == 0 || e == 3,
        -e <= s.0 - (a.0 + b.0) <= e,
        -e <= s.1 - (a.1 + b.1) <= e,
        -e <= s.2 - (a.2 + b.2) <= e,
        -e <= s.3 - (a.3 + b.3) <= e,
    ensures
        ({
            let off = evens(s.0, s.1, s.2, s.3, k) - (evens(a.0, a.1, a.2, a.3, k) + evens(
                b.0,
                b.1,
                b.2,
                b.3,
                k,
            ));
            &&& -11 <= off <= 11
            &&& e == 0 ==> -1 <= off <= 1
        }),
{
    lemma_halves(a.1, b.1, s.1 - (a.1 + b.1));
    lemma_halves(a.3, b.3, s.3 - (a.3 + b.3));
}

/// The odd half of a sum, of which each part may be `e` off.
proof fn lemma_odds_add(
    a: (int, int, int, int),
    b: (int, int, int, int),
    s: (int, int, int, int),
    k: int,
    e: int,
)
    requires
        e == 0 || e == 3,
        -e <= s.0 - (a.0 + b.0) <= e,
        -e <= s.1 - (a.1 + b.1) <= e,
        -e <= s.2 - (a.2 + b.2) <= e,
        -e <= s.3 - (a.3 + b.3) <= e,
    ensures
        ({
            let off = odds(s.0, s.1, s.2, s.3, k) - (odds(a.0, a.1, a.2, a.3, k) + odds(
                b.0,
                b.1,
                b.2,
                b.3,
                k,
            ));
            &&& -15 <= off <= 15
            &&& e == 0 ==> -2 <= off <= 2
        }),
{
    lemma_halves(a.0, b.0, s.0 - (a.0 + b.0));
    lemma_halves(a.1, b.1, s.1 - (a.1 + b.1));
    lemma_halves(a.2, b.2, s.2 - (a.2 + b.2));
    lemma_halves(a.3, b.3, s.3 - (a.3 + b.3));
    let (x1, y1, z1) = (
        -a.1 + a.2 - a.3 - a.3 / 2,
        -b.1 + b.2 - b.3 - b.3 / 2,
        -s.1 + s.2 - s.3 - s.3 / 2,
    );
    let (x3, y3, z3) = (
        a.0 + a.3 - a.1 - a.1 / 2,
        b.0 + b.3 - b.1 - b.1 / 2,
        s.0 + s.3 - s.1 - s.1 / 2,
    );
    let (x5, y5, z5) = (
        -a.0 + a.3 + a.2 + a.2 / 2,
        -b.0 + b.3 + b.2 + b.2 / 2,
        -s.0 + s.3 + s.2 + s.2 / 2,
    );
    let (x7, y7, z7) = (
        a.1 + a.2 + a.0 + a.0 / 2,
        b.1 + b.2 + b.0 + b.0 / 2,
        s.1 + s.2 + s.0 + s.0 / 2,
    );
    lemma_quarters(x1, y1, z1 - (x1 + y1));
    lemma_quarters(x3, y3, z3 - (x3 + y3));
    lemma_quarters(x5, y5, z5 - (x5 + y5));
    lemma_quarters(x7, y7, z7 - (x7 + y7));
}

/// The eight-point transform of a sum, of which each part may be `e` off.
proof fn lemma_plain8_adds(a: Seq<int>, b: Seq<int>, s: Seq<int>, k: int, e: int)
    requires
        e == 0 || e == 3,
        forall|i: int| 0 <= i < 8 ==> -e <= (#[trigger] s[i]) - (a[i] + b[i]) <= e,
    ensures
        -26 <= plain8(s, k) - (plain8(a, k) + plain8(b, k)) <= 26,
        e == 0 ==> -3 <= plain8(s, k) - (plain8(a, k) + plain8(b, k)) <= 3,
{
    reveal(plain8);
    assert(-e <= s[0] - (a[0] + b[0]) <= e && -e <= s[1] - (a[1] + b[1]) <= e);
    assert(-e <= s[2] - (a[2] + b[2]) <= e && -e <= s[3] - (a[3] + b[3]) <= e);
    assert(-e <= s[4] - (a[4] + b[4]) <= e && -e <= s[5] - (a[5] + b[5]) <= e);
    assert(-e <= s[6] - (a[6] + b[6]) <= e && -e <= s[7] - (a[7] + b[7]) <= e);
    let h = if 0 <= k < 4 {
        k
    } else if 4 <= k < 7 {
        7 - k
    } else {
        0
    };
    lemma_evens_add(
        (a[0], a[2], a[4], a[6]),
        (b[0], b[2], b[4], b[6]),
        (s[0], s[2], s[4], s[6]),
        h,
        e,
    );
    lemma_odds_add(
        (a[1], a[3], a[5], a[7]),
        (b[1], b[3], b[5], b[7]),
        (s[1], s[3], s[5], s[7]),
        h,
        e,
    );
}

/// A transformed row of a sum is next to the sum of the transformed rows.
proof fn lemma_rows_8x8_add(a: Seq<i32>, b: Seq<i32>, sum: Seq<i32>, p: int)
    requires
        a.len() == 64,
        b.len() == 64,
        sum.len() == 64,
        bounded(a, 0x100_0000),
        bounded(b, 0x100_0000),
        forall|i: int| 0 <= i < 64 ==> (#[trigger] sum[i]) == a[i] + b[i],
        0 <= p < 64,
    ensures
        -3 <= rows_8x8(sum, p) - (rows_8x8(a, p) + rows_8x8(b, p)) <= 3,
        -0x7e0_0003 <= rows_8x8(a, p) <= 0x7e0_0003,
        -0x7e0_0003 <= rows_8x8(b, p) <= 0x7e0_0003,
        -0xfc0_0003 <= rows_8x8(sum, p) <= 0xfc0_0003,
{
    reveal(rows_8x8);
    let (da, db, ds) = (row_of_8(a, p / 8), row_of_8(b, p / 8), row_of_8(sum, p / 8));
    assert forall|i: int| 0 <= i < 8 implies -0x100_0000 <= (#[trigger] da[i]) <= 0x100_0000 by {
        assert(da[i] == a[8 * (p / 8) + i]);
    }
    assert forall|i: int| 0 <= i < 8 implies -0x100_0000 <= (#[trigger] db[i]) <= 0x100_0000 by {
        assert(db[i] == b[8 * (p / 8) + i]);
    }
    assert forall|i: int| 0 <= i < 8 implies -0 <= (#[trigger] ds[i]) - (da[i] + db[i]) <= 0 by {
        let q = 8 * (p / 8) + i;
        assert(sum[q] == a[q] + b[q]);
    }
    lemma_inverse8_plain(da, p % 8, 0x100_0000);
    lemma_inverse8_plain(db, p % 8, 0x100_0000);
    lemma_inverse8_plain(ds, p % 8, 0x200_0000);
    lemma_plain8_adds(da, db, ds, p % 8, 0);
}

/// The 8x8 transform is linear but for its truncations: of coefficients too
/// small to overflow, transforming a sum and summing the transforms differ by
/// one at most.
pub proof fn law_transforms_superpose_8x8(a: Seq<i32>, b: Seq<i32>, sum: Seq<i32>, p: int)
    requires
        a.len() == 64,
        b.len() == 64,
        sum.len() == 64,
        bounded(a, 0x100_0000),
        bounded(b, 0x100_0000),
        forall|i: int| 0 <= i < 64 ==> (#[trigger] sum[i]) == a[i] + b[i],
        0 <= p < 64,
    ensures
        -1 <= residual_8x8(sum, p) - (residual_8x8(a, p) + residual_8x8(b, p)) <= 1,
{
    reveal(residual_8x8);
    let (j, k) = (p % 8, p / 8);
    let da = Seq::new(8, |i: int| rows_8x8(a, j + 8 * i));
    let db = Seq::new(8, |i: int| rows_8x8(b, j + 8 * i));
    let ds = Seq::new(8, |i: int| rows_8x8(sum, j + 8 * i));
    assert forall|i: int| 0 <= i < 8 implies -0x7e0_0003 <= (#[trigger] da[i]) <= 0x7e0_0003 by {
        lemma_rows_8x8_add(a, b, sum, j + 8 * i);
    }
    assert forall|i: int| 0 <= i < 8 implies -0x7e0_0003 <= (#[trigger] db[i]) <= 0x7e0_0003 by {
        lemma_rows_8x8_add(a, b, sum, j + 8 * i);
    }
    assert forall|i: int| 0 <= i < 8 implies -0xfc0_0003 <= (#[trigger] ds[i]) <= 0xfc0_0003 && -3
        <= ds[i] - (da[i] + db[i]) <= 3 by {
        lemma_rows_8x8_add(a, b, sum, j + 8 * i);
    }
    lemma_inverse8_plain(da, k, 0x7e0_0003);
    lemma_inverse8_plain(db, k, 0x7e0_0003);
    lemma_inverse8_plain(ds, k, 0xfc0_0003);
    lemma_plain8_adds(da, db, ds, k, 3);
    let (u, v) = (plain8(da, k), plain8(db, k));
    lemma_rounded_sum(u, v, plain8(ds, k) - (u + v));
}

} // verus!
