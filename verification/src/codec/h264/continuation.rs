//! How an intra macroblock continues what lies around it, block after block.
use vstd::prelude::*;
use super::drawing::{
    in_range, inside, large_residual, law_whole_residuals_land_in_their_blocks, lemma_block,
    lemma_corrected, modest, whole_residual, within,
};
use super::intra::{border, chroma_sample, mb_sample, nxn_sample};
use super::math::{in_window, lemma_raster, lemma_rows, window_index};
use super::neighbour::{
    law_every_sample_has_a_block, law_locations_name_the_sample_asked_for, luma_4x4_x, luma_4x4_y,
    spec_luma_4x4_index,
};
use super::picture::Canvas;
use super::recon::{
    chroma_edges, chroma_mode_of, corrected, lemma_windows, luma_edges, luma_sample, matched,
    mb_left, mb_top, nxn_mode_of, painted, samples_4x4, Recipe,
};

verus! {

/// A place that the blocks from number `blk` on of the macroblock do not hold.
pub open spec fn settled(r: Recipe, c: Canvas, blk: int, k: int) -> bool {
    let (dx, dy) = within(r, c, 0, 16, k);
    !(inside(r, c, 0, 16, k) && spec_luma_4x4_index(dx, dy) >= blk)
}

/// Two canvases that agree outside the blocks from number `blk` on.
pub open spec fn agree(r: Recipe, c: Canvas, d: Canvas, blk: int) -> bool {
    &&& c.width == d.width
    &&& c.height == d.height
    &&& c.planes.len() == 3
    &&& d.planes.len() == 3
    &&& c.planes[0].len() == d.planes[0].len()
    &&& forall|k: int|
        0 <= k < c.planes[0].len() && settled(r, c, blk, k) ==> #[trigger] d.planes[0][k]
            == c.planes[0][k]
}

/// What prediction of a block reads does not depend on the blocks from it on.
proof fn lemma_sample(r: Recipe, c: Canvas, d: Canvas, blk: int, x: int, y: int, constrained: bool)
    requires
        matched(c, r.pic, r.addr),
        agree(r, c, d, blk),
        -16 <= x < 32,
        -16 <= y < 16,
    ensures
        luma_sample(c, r.pic, r.addr, x, y, blk, constrained) == luma_sample(
            d,
            r.pic,
            r.addr,
            x,
            y,
            blk,
            constrained,
        ),
{
    let n = r.pic.grid;
    law_locations_name_the_sample_asked_for(n, r.addr, x, y, 16);
    if luma_sample(c, r.pic, r.addr, x, y, blk, constrained) is Some {
        let at = n.spec_location(r.addr, x, y, 16)->0;
        assert(0 <= at.mb < r.pic.mbs.len());
        lemma_windows(c, r.pic, at.mb as int);
        let (px, py) = (
            16 * (r.addr % n.width) + x,
            16 * (r.addr / n.width) + y,
        );
        lemma_raster(c.width, px, py);
        lemma_rows(c.width, py, c.height);
        assert(c.width * c.height == c.height * c.width) by (nonlinear_arith);
        let k = py * c.width + px;
        assert(0 <= k < c.planes[0].len());
        assert(within(r, c, 0, 16, k) == (x, y));
        assert(settled(r, c, blk, k));
        assert(d.planes[0][k] == c.planes[0][k]);
    }
}

proof fn lemma_edges(r: Recipe, c: Canvas, d: Canvas, blk: int, bx: int, by: int, size: int)
    requires
        matched(c, r.pic, r.addr),
        agree(r, c, d, blk),
        size == 4 || size == 8,
        0 <= bx <= 16 - size,
        0 <= by <= 16 - size,
    ensures
        luma_edges(c, r.pic, r.addr, bx, by, size, blk, r.tuning.constrained_intra) == luma_edges(
            d,
            r.pic,
            r.addr,
            bx,
            by,
            size,
            blk,
            r.tuning.constrained_intra,
        ),
{
    let q = r.tuning.constrained_intra;
    let s = |x: int, y: int| luma_sample(c, r.pic, r.addr, x, y, blk, q);
    let t = |x: int, y: int| luma_sample(d, r.pic, r.addr, x, y, blk, q);
    assert forall|x: int, y: int| -16 <= x < 32 && -16 <= y < 16 implies #[trigger] s(x, y) == t(
        x,
        y,
    ) by {
        lemma_sample(r, c, d, blk, x, y, q);
    }
    assert forall|x: int, y: int| -16 <= x < 32 && -16 <= y < 16 implies #[trigger] t(x, y) == s(
        x,
        y,
    ) by {}
    let whole_s = forall|i: int| 0 <= i < size ==> #[trigger] s(bx + size + i, by - 1) is Some;
    let whole_t = forall|i: int| 0 <= i < size ==> #[trigger] t(bx + size + i, by - 1) is Some;
    assert(whole_s == whole_t);
    let e = luma_edges(c, r.pic, r.addr, bx, by, size, blk, q);
    let f = luma_edges(d, r.pic, r.addr, bx, by, size, blk, q);
    assert(e.top is Some <==> f.top is Some) by {
        assert(s(bx, by - 1) == t(bx, by - 1));
    }
    assert(e.left is Some <==> f.left is Some) by {
        assert(s(bx - 1, by) == t(bx - 1, by));
    }
    assert(e.top_left == f.top_left) by {
        assert(s(bx - 1, by - 1) == t(bx - 1, by - 1));
    }
    if e.top is Some {
        assert(e.top->0.len() == f.top->0.len());
        assert forall|i: int| 0 <= i < e.top->0.len() implies e.top->0[i] == f.top->0[i] by {
            assert(s(bx + i, by - 1) == t(bx + i, by - 1));
        }
        assert(e.top->0 =~= f.top->0);
    }
    if e.left is Some {
        assert forall|i: int| 0 <= i < e.left->0.len() implies e.left->0[i] == f.left->0[i] by {
            assert(s(bx - 1, by + i) == t(bx - 1, by + i));
        }
        assert(e.left->0 =~= f.left->0);
    }
    assert(e == f);
}

// ---- 4x4 blocks -------------------------------------------------------------

/// The residual of a 4x4 luma block of an intra macroblock.
pub open spec fn intra_residual(r: Recipe, blk: int) -> Seq<i32> {
    samples_4x4(r.levels.luma[blk], r.tuning.weights.w4x4[0], r.info.qp as int, None)
}

/// The mode of a block predicts this sample from what a canvas holds around it.
#[verifier::opaque]
pub open spec fn continued_4x4(r: Recipe, c: Canvas, blk: int, dx: int, dy: int) -> u8 {
    let around = luma_edges(
        c,
        r.pic,
        r.addr,
        luma_4x4_x(blk),
        luma_4x4_y(blk),
        4,
        blk,
        r.tuning.constrained_intra,
    );
    nxn_sample(
        nxn_mode_of(r.info.intra_modes[blk] as int),
        border(around, 4),
        dx % 4,
        dy % 4,
    ) as u8
}

/// The prediction goes by the place in the block and by what lies around it.
proof fn lemma_continued(r: Recipe, c: Canvas, d: Canvas, blk: int, dx: int, dy: int)
    requires
        luma_edges(
            c,
            r.pic,
            r.addr,
            luma_4x4_x(blk),
            luma_4x4_y(blk),
            4,
            blk,
            r.tuning.constrained_intra,
        ) == luma_edges(
            d,
            r.pic,
            r.addr,
            luma_4x4_x(blk),
            luma_4x4_y(blk),
            4,
            blk,
            r.tuning.constrained_intra,
        ),
    ensures
        continued_4x4(r, c, blk, dx % 4, dy % 4) == continued_4x4(r, d, blk, dx, dy),
        continued_4x4(r, c, blk, dx, dy) == continued_4x4(r, d, blk, dx, dy),
{
    reveal(continued_4x4);
    assert((dx % 4) % 4 == dx % 4 && (dy % 4) % 4 == dy % 4);
}

/// A canvas after one 4x4 intra block.
spec fn one_4x4(r: Recipe, c: Canvas, blk: int) -> Canvas {
    let predicted = painted(
        c,
        0,
        r.x_4x4(blk),
        r.y_4x4(blk),
        4,
        Seq::new(16, |i: int| continued_4x4(r, c, blk, i % 4, i / 4)),
    );
    if r.info.cbf_luma[blk] {
        corrected(predicted, 0, r.x_4x4(blk), r.y_4x4(blk), 4, intra_residual(r, blk))
    } else {
        predicted
    }
}

/// What one 4x4 intra block does to a place.
proof fn lemma_one_4x4(r: Recipe, c: Canvas, blk: int, k: int)
    requires
        0 <= blk < 16,
        c.planes.len() == 3,
        c.stride(0) > 0,
        0 <= k < c.planes[0].len(),
        modest(intra_residual(r, blk)),
    ensures
        ({
            let after = one_4x4(r, c, blk);
            let (dx, dy) = within(r, c, 0, 16, k);
            &&& after.width == c.width && after.height == c.height
            &&& after.planes.len() == 3
            &&& after.planes[0].len() == c.planes[0].len()
            &&& after.planes[0][k] == (if inside(r, c, 0, 16, k) && spec_luma_4x4_index(dx, dy)
                == blk {
                let p = continued_4x4(r, c, blk, dx, dy);
                if r.info.cbf_luma[blk] {
                    in_range(p + intra_residual(r, blk)[4 * (dy % 4) + dx % 4])
                } else {
                    p
                }
            } else {
                c.planes[0][k]
            })
        }),
{
    let (x, y) = (r.x_4x4(blk), r.y_4x4(blk));
    let block = Seq::new(16, |i: int| continued_4x4(r, c, blk, i % 4, i / 4));
    let predicted = painted(c, 0, x, y, 4, block);
    let (dx, dy) = within(r, c, 0, 16, k);
    lemma_corrected(predicted, 0, x, y, 4, intra_residual(r, blk), k);
    lemma_block(r, c, blk, k);
    if in_window(k, c.stride(0), x, y, 4, 4) {
        let i = window_index(k, c.stride(0), x, y, 4);
        assert(luma_4x4_x(blk) % 4 == 0 && luma_4x4_y(blk) % 4 == 0);
        let (ix, iy) = (dx - luma_4x4_x(blk), dy - luma_4x4_y(blk));
        assert(ix == dx % 4 && iy == dy % 4);
        assert(i == iy * 4 + ix);
        assert(i % 4 == ix && i / 4 == iy);
        assert(predicted.planes[0][k] == block[i]);
        lemma_continued(r, c, c, blk, dx, dy);
    }
}

proof fn lemma_unfolded_4x4(r: Recipe, c: Canvas, blk: int)
    requires
        0 <= blk < 16,
        r.intra_4x4(c, blk).1 is None,
    ensures
        r.intra_4x4(c, blk) == r.intra_4x4(one_4x4(r, c, blk), blk + 1),
{
    reveal(continued_4x4);
    let around = luma_edges(
        c,
        r.pic,
        r.addr,
        luma_4x4_x(blk),
        luma_4x4_y(blk),
        4,
        blk,
        r.tuning.constrained_intra,
    );
    let mode = nxn_mode_of(r.info.intra_modes[blk] as int);
    let b = border(around, 4);
    let block = Seq::new(16, |i: int| nxn_sample(mode, b, i % 4, i / 4) as u8);
    assert forall|i: int| 0 <= i < 16 implies block[i] == #[trigger] continued_4x4(
        r,
        c,
        blk,
        i % 4,
        i / 4,
    ) by {
        assert((i % 4) % 4 == i % 4 && (i / 4) % 4 == i / 4);
    }
    assert(block =~= Seq::new(16, |i: int| continued_4x4(r, c, blk, i % 4, i / 4)));
}

/// The blocks from number `blk` on leave everything else alone.
proof fn lemma_kept_4x4(r: Recipe, c: Canvas, blk: int)
    requires
        0 <= blk <= 16,
        c.planes.len() == 3,
        c.stride(0) > 0,
        r.intra_4x4(c, blk).1 is None,
        forall|b: int| 0 <= b < 16 ==> modest(#[trigger] intra_residual(r, b)),
    ensures
        agree(r, c, r.intra_4x4(c, blk).0, blk),
    decreases 16 - blk,
{
    if blk < 16 {
        let next = one_4x4(r, c, blk);
        assert(modest(intra_residual(r, blk)));
        lemma_unfolded_4x4(r, c, blk);
        lemma_shape_4x4(r, c, blk);
        lemma_kept_4x4(r, next, blk + 1);
        let after = r.intra_4x4(c, blk).0;
        assert forall|k: int|
            0 <= k < c.planes[0].len() && settled(r, c, blk, k) implies
            #[trigger] after.planes[0][k] == c.planes[0][k] by {
            lemma_one_4x4(r, c, blk, k);
            assert(settled(r, next, blk + 1, k));
        }
    }
}

proof fn lemma_shape_4x4(r: Recipe, c: Canvas, blk: int)
    requires
        c.planes.len() == 3,
    ensures
        ({
            let after = one_4x4(r, c, blk);
            &&& after.width == c.width && after.height == c.height
            &&& after.planes.len() == 3
            &&& after.planes[0].len() == c.planes[0].len()
            &&& after.planes[1].len() == c.planes[1].len()
            &&& after.planes[2].len() == c.planes[2].len()
        }),
{
}

/// Every 4x4 block of a finished intra macroblock is what its mode makes of the
/// finished samples around it, with its residual added where it is coded.
pub proof fn law_4x4_blocks_continue_their_surroundings(r: Recipe, c: Canvas, k: int)
    requires
        matched(c, r.pic, r.addr),
        c.planes.len() == 3,
        c.stride(0) > 0,
        r.intra_4x4(c, 0).1 is None,
        0 <= k < c.planes[0].len(),
        forall|b: int| 0 <= b < 16 ==> modest(#[trigger] intra_residual(r, b)),
    ensures
        ({
            let out = r.intra_4x4(c, 0).0;
            let (dx, dy) = within(r, c, 0, 16, k);
            let blk = spec_luma_4x4_index(dx, dy);
            let p = continued_4x4(r, out, blk, dx, dy);
            out.planes[0][k] == (if !inside(r, c, 0, 16, k) {
                c.planes[0][k]
            } else if r.info.cbf_luma[blk] {
                in_range(p + intra_residual(r, blk)[4 * (dy % 4) + dx % 4])
            } else {
                p
            })
        }),
{
    lemma_kept_4x4(r, c, 0);
    let out = r.intra_4x4(c, 0).0;
    if inside(r, c, 0, 16, k) {
        let (dx, dy) = within(r, c, 0, 16, k);
        law_every_sample_has_a_block(dx, dy);
        lemma_continued_4x4(r, c, 0, spec_luma_4x4_index(dx, dy), k);
    } else {
        assert(settled(r, c, 0, k));
        assert(out.planes[0][k] == c.planes[0][k]);
    }
}

proof fn lemma_continued_4x4(r: Recipe, c: Canvas, from: int, blk: int, k: int)
    requires
        matched(c, r.pic, r.addr),
        c.planes.len() == 3,
        c.stride(0) > 0,
        0 <= from <= blk < 16,
        r.intra_4x4(c, from).1 is None,
        0 <= k < c.planes[0].len(),
        inside(r, c, 0, 16, k),
        spec_luma_4x4_index(within(r, c, 0, 16, k).0, within(r, c, 0, 16, k).1) == blk,
        forall|b: int| 0 <= b < 16 ==> modest(#[trigger] intra_residual(r, b)),
    ensures
        ({
            let out = r.intra_4x4(c, from).0;
            let (dx, dy) = within(r, c, 0, 16, k);
            let p = continued_4x4(r, out, blk, dx, dy);
            out.planes[0][k] == (if r.info.cbf_luma[blk] {
                in_range(p + intra_residual(r, blk)[4 * (dy % 4) + dx % 4])
            } else {
                p
            })
        }),
    decreases blk - from,
{
    let next = one_4x4(r, c, from);
    lemma_unfolded_4x4(r, c, from);
    lemma_shape_4x4(r, c, from);
    if from < blk {
        lemma_continued_4x4(r, next, from + 1, blk, k);
    } else {
        assert(modest(intra_residual(r, blk)));
        lemma_kept_4x4(r, next, blk + 1);
        lemma_kept_4x4(r, c, blk);
        lemma_finished_4x4(r, c, r.intra_4x4(c, blk).0, blk, k);
    }
}

/// A block that nothing touches any more.
proof fn lemma_finished_4x4(r: Recipe, c: Canvas, out: Canvas, blk: int, k: int)
    requires
        matched(c, r.pic, r.addr),
        c.planes.len() == 3,
        c.stride(0) > 0,
        0 <= blk < 16,
        0 <= k < c.planes[0].len(),
        inside(r, c, 0, 16, k),
        spec_luma_4x4_index(within(r, c, 0, 16, k).0, within(r, c, 0, 16, k).1) == blk,
        modest(intra_residual(r, blk)),
        agree(r, one_4x4(r, c, blk), out, blk + 1),
        agree(r, c, out, blk),
    ensures
        ({
            let (dx, dy) = within(r, c, 0, 16, k);
            let p = continued_4x4(r, out, blk, dx, dy);
            out.planes[0][k] == (if r.info.cbf_luma[blk] {
                in_range(p + intra_residual(r, blk)[4 * (dy % 4) + dx % 4])
            } else {
                p
            })
        }),
{
    let next = one_4x4(r, c, blk);
    let (dx, dy) = within(r, c, 0, 16, k);
    lemma_one_4x4(r, c, blk, k);
    assert(settled(r, next, blk + 1, k));
    assert(out.planes[0][k] == next.planes[0][k]);
    assert(0 <= luma_4x4_x(blk) <= 12 && 0 <= luma_4x4_y(blk) <= 12);
    lemma_edges(r, c, out, blk, luma_4x4_x(blk), luma_4x4_y(blk), 4);
    lemma_continued(r, c, out, blk, dx, dy);
}

// ---- 8x8 blocks -------------------------------------------------------------

/// The quadrant of a macroblock that holds a place.
pub open spec fn quadrant(dx: int, dy: int) -> int {
    (if dy < 8 {
        0int
    } else {
        2
    }) + (if dx < 8 {
        0int
    } else {
        1
    })
}

/// The mode of an 8x8 block predicts this sample from what a canvas holds around it,
/// smoothed.
#[verifier::opaque]
pub open spec fn continued_8x8(r: Recipe, c: Canvas, blk: int, dx: int, dy: int) -> u8 {
    let around = luma_edges(
        c,
        r.pic,
        r.addr,
        8 * (blk % 2),
        8 * (blk / 2),
        8,
        4 * blk,
        r.tuning.constrained_intra,
    );
    nxn_sample(
        nxn_mode_of(r.info.intra_modes[4 * blk] as int),
        border(around, 8).filtered(),
        dx % 8,
        dy % 8,
    ) as u8
}

proof fn lemma_continued_large(r: Recipe, c: Canvas, d: Canvas, blk: int, dx: int, dy: int)
    requires
        luma_edges(
            c,
            r.pic,
            r.addr,
            8 * (blk % 2),
            8 * (blk / 2),
            8,
            4 * blk,
            r.tuning.constrained_intra,
        ) == luma_edges(
            d,
            r.pic,
            r.addr,
            8 * (blk % 2),
            8 * (blk / 2),
            8,
            4 * blk,
            r.tuning.constrained_intra,
        ),
    ensures
        continued_8x8(r, c, blk, dx % 8, dy % 8) == continued_8x8(r, d, blk, dx, dy),
        continued_8x8(r, c, blk, dx, dy) == continued_8x8(r, d, blk, dx, dy),
{
    reveal(continued_8x8);
    assert((dx % 8) % 8 == dx % 8 && (dy % 8) % 8 == dy % 8);
}

/// A canvas after one 8x8 intra block.
spec fn one_8x8(r: Recipe, c: Canvas, blk: int) -> Canvas {
    let predicted = painted(
        c,
        0,
        r.x_8x8(blk),
        r.y_8x8(blk),
        8,
        Seq::new(64, |i: int| continued_8x8(r, c, blk, i % 8, i / 8)),
    );
    if r.info.luma_8x8_coded(blk) {
        corrected(predicted, 0, r.x_8x8(blk), r.y_8x8(blk), 8, large_residual(r, true, blk))
    } else {
        predicted
    }
}

/// What one 8x8 intra block does to a place.
proof fn lemma_one_8x8(r: Recipe, c: Canvas, blk: int, k: int)
    requires
        0 <= blk < 4,
        c.planes.len() == 3,
        c.stride(0) > 0,
        0 <= k < c.planes[0].len(),
        modest(large_residual(r, true, blk)),
    ensures
        ({
            let after = one_8x8(r, c, blk);
            let (dx, dy) = within(r, c, 0, 16, k);
            after.planes[0][k] == (if inside(r, c, 0, 16, k) && quadrant(dx, dy) == blk {
                let p = continued_8x8(r, c, blk, dx, dy);
                if r.info.luma_8x8_coded(blk) {
                    in_range(p + large_residual(r, true, blk)[8 * (dy % 8) + dx % 8])
                } else {
                    p
                }
            } else {
                c.planes[0][k]
            })
        }),
{
    let (x, y) = (r.x_8x8(blk), r.y_8x8(blk));
    let block = Seq::new(64, |i: int| continued_8x8(r, c, blk, i % 8, i / 8));
    let predicted = painted(c, 0, x, y, 8, block);
    let (dx, dy) = within(r, c, 0, 16, k);
    assert(blk == 0 || blk == 1 || blk == 2 || blk == 3);
    lemma_corrected(predicted, 0, x, y, 8, large_residual(r, true, blk), k);
    if in_window(k, c.stride(0), x, y, 8, 8) {
        let i = window_index(k, c.stride(0), x, y, 8);
        let (ix, iy) = (dx - 8 * (blk % 2), dy - 8 * (blk / 2));
        assert(ix == dx % 8 && iy == dy % 8);
        assert(i == iy * 8 + ix);
        assert(i % 8 == ix && i / 8 == iy);
        assert(predicted.planes[0][k] == block[i]);
        lemma_continued_large(r, c, c, blk, dx, dy);
    }
}

proof fn lemma_unfolded_8x8(r: Recipe, c: Canvas, blk: int)
    requires
        0 <= blk < 4,
        r.intra_8x8(c, blk).1 is None,
    ensures
        r.intra_8x8(c, blk) == r.intra_8x8(one_8x8(r, c, blk), blk + 1),
{
    reveal(continued_8x8);
    let around = luma_edges(
        c,
        r.pic,
        r.addr,
        (blk % 2) * 8,
        (blk / 2) * 8,
        8,
        4 * blk,
        r.tuning.constrained_intra,
    );
    let mode = nxn_mode_of(r.info.intra_modes[4 * blk] as int);
    let b = border(around, 8);
    let block = Seq::new(64, |i: int| nxn_sample(mode, b.filtered(), i % 8, i / 8) as u8);
    assert forall|i: int| 0 <= i < 64 implies block[i] == #[trigger] continued_8x8(
        r,
        c,
        blk,
        i % 8,
        i / 8,
    ) by {
        assert((i % 8) % 8 == i % 8 && (i / 8) % 8 == i / 8);
    }
    assert(block =~= Seq::new(64, |i: int| continued_8x8(r, c, blk, i % 8, i / 8)));
}

proof fn lemma_shape_8x8(r: Recipe, c: Canvas, blk: int)
    requires
        c.planes.len() == 3,
    ensures
        ({
            let after = one_8x8(r, c, blk);
            &&& after.width == c.width && after.height == c.height
            &&& after.planes.len() == 3
            &&& after.planes[0].len() == c.planes[0].len()
            &&& after.planes[1].len() == c.planes[1].len()
            &&& after.planes[2].len() == c.planes[2].len()
        }),
{
}

/// The 4x4 blocks of a quadrant are numbered together.
proof fn lemma_quadrant(dx: int, dy: int)
    requires
        0 <= dx < 16,
        0 <= dy < 16,
    ensures
        spec_luma_4x4_index(dx, dy) / 4 == quadrant(dx, dy),
{
}

/// The quadrants from number `blk` on leave everything else alone.
proof fn lemma_kept_8x8(r: Recipe, c: Canvas, blk: int)
    requires
        0 <= blk <= 4,
        c.planes.len() == 3,
        c.stride(0) > 0,
        r.intra_8x8(c, blk).1 is None,
        forall|b: int| 0 <= b < 4 ==> modest(#[trigger] large_residual(r, true, b)),
    ensures
        agree(r, c, r.intra_8x8(c, blk).0, 4 * blk),
    decreases 4 - blk,
{
    if blk < 4 {
        let next = one_8x8(r, c, blk);
        assert(modest(large_residual(r, true, blk)));
        lemma_unfolded_8x8(r, c, blk);
        lemma_shape_8x8(r, c, blk);
        lemma_kept_8x8(r, next, blk + 1);
        let after = r.intra_8x8(c, blk).0;
        assert forall|k: int|
            0 <= k < c.planes[0].len() && settled(r, c, 4 * blk, k) implies
            #[trigger] after.planes[0][k] == c.planes[0][k] by {
            lemma_one_8x8(r, c, blk, k);
            assert(settled(r, next, 4 * (blk + 1), k));
            if inside(r, c, 0, 16, k) {
                let (dx, dy) = within(r, c, 0, 16, k);
                lemma_quadrant(dx, dy);
            }
        }
    }
}

/// A quadrant that nothing touches any more.
proof fn lemma_finished_8x8(r: Recipe, c: Canvas, out: Canvas, blk: int, k: int)
    requires
        matched(c, r.pic, r.addr),
        c.planes.len() == 3,
        c.stride(0) > 0,
        0 <= blk < 4,
        0 <= k < c.planes[0].len(),
        inside(r, c, 0, 16, k),
        quadrant(within(r, c, 0, 16, k).0, within(r, c, 0, 16, k).1) == blk,
        modest(large_residual(r, true, blk)),
        agree(r, one_8x8(r, c, blk), out, 4 * (blk + 1)),
        agree(r, c, out, 4 * blk),
    ensures
        ({
            let (dx, dy) = within(r, c, 0, 16, k);
            let p = continued_8x8(r, out, blk, dx, dy);
            out.planes[0][k] == (if r.info.luma_8x8_coded(blk) {
                in_range(p + large_residual(r, true, blk)[8 * (dy % 8) + dx % 8])
            } else {
                p
            })
        }),
{
    let next = one_8x8(r, c, blk);
    let (dx, dy) = within(r, c, 0, 16, k);
    lemma_one_8x8(r, c, blk, k);
    lemma_quadrant(dx, dy);
    assert(settled(r, next, 4 * (blk + 1), k));
    assert(out.planes[0][k] == next.planes[0][k]);
    assert(blk == 0 || blk == 1 || blk == 2 || blk == 3);
    lemma_edges(r, c, out, 4 * blk, 8 * (blk % 2), 8 * (blk / 2), 8);
    lemma_continued_large(r, c, out, blk, dx, dy);
}

proof fn lemma_continued_8x8(r: Recipe, c: Canvas, from: int, blk: int, k: int)
    requires
        matched(c, r.pic, r.addr),
        c.planes.len() == 3,
        c.stride(0) > 0,
        0 <= from <= blk < 4,
        r.intra_8x8(c, from).1 is None,
        0 <= k < c.planes[0].len(),
        inside(r, c, 0, 16, k),
        quadrant(within(r, c, 0, 16, k).0, within(r, c, 0, 16, k).1) == blk,
        forall|b: int| 0 <= b < 4 ==> modest(#[trigger] large_residual(r, true, b)),
    ensures
        ({
            let out = r.intra_8x8(c, from).0;
            let (dx, dy) = within(r, c, 0, 16, k);
            let p = continued_8x8(r, out, blk, dx, dy);
            out.planes[0][k] == (if r.info.luma_8x8_coded(blk) {
                in_range(p + large_residual(r, true, blk)[8 * (dy % 8) + dx % 8])
            } else {
                p
            })
        }),
    decreases blk - from,
{
    let next = one_8x8(r, c, from);
    lemma_unfolded_8x8(r, c, from);
    lemma_shape_8x8(r, c, from);
    if from < blk {
        lemma_continued_8x8(r, next, from + 1, blk, k);
    } else {
        assert(modest(large_residual(r, true, blk)));
        lemma_kept_8x8(r, next, blk + 1);
        lemma_kept_8x8(r, c, blk);
        lemma_finished_8x8(r, c, r.intra_8x8(c, blk).0, blk, k);
    }
}

/// Every 8x8 block of a finished intra macroblock is what its mode makes of the
/// finished samples around it, smoothed, with its residual added where the pattern
/// names it.
pub proof fn law_8x8_blocks_continue_their_surroundings(r: Recipe, c: Canvas, k: int)
    requires
        matched(c, r.pic, r.addr),
        c.planes.len() == 3,
        c.stride(0) > 0,
        r.intra_8x8(c, 0).1 is None,
        0 <= k < c.planes[0].len(),
        forall|b: int| 0 <= b < 4 ==> modest(#[trigger] large_residual(r, true, b)),
    ensures
        ({
            let out = r.intra_8x8(c, 0).0;
            let (dx, dy) = within(r, c, 0, 16, k);
            let blk = quadrant(dx, dy);
            let p = continued_8x8(r, out, blk, dx, dy);
            out.planes[0][k] == (if !inside(r, c, 0, 16, k) {
                c.planes[0][k]
            } else if r.info.luma_8x8_coded(blk) {
                in_range(p + large_residual(r, true, blk)[8 * (dy % 8) + dx % 8])
            } else {
                p
            })
        }),
{
    lemma_kept_8x8(r, c, 0);
    let out = r.intra_8x8(c, 0).0;
    if inside(r, c, 0, 16, k) {
        let (dx, dy) = within(r, c, 0, 16, k);
        lemma_continued_8x8(r, c, 0, quadrant(dx, dy), k);
    } else {
        assert(settled(r, c, 0, k));
        assert(out.planes[0][k] == c.planes[0][k]);
    }
}

// ---- Whole macroblocks ------------------------------------------------------

/// A macroblock predicted as a whole is what its mode makes of the samples around
/// it, with the residual of each 4x4 block added.
pub proof fn law_whole_macroblocks_continue_their_surroundings(r: Recipe, c: Canvas, k: int)
    requires
        c.planes.len() == 3,
        c.stride(0) > 0,
        r.info.mb_type is Intra16x16,
        r.intra_luma(c).1 is None,
        0 <= k < c.planes[0].len(),
        forall|b: int| 0 <= b < 16 ==> modest(#[trigger] whole_residual(r, b)),
    ensures
        ({
            let out = r.intra_luma(c).0;
            let (dx, dy) = within(r, c, 0, 16, k);
            let blk = spec_luma_4x4_index(dx, dy);
            let around = luma_edges(
                c,
                r.pic,
                r.addr,
                0,
                0,
                16,
                0,
                r.tuning.constrained_intra,
            );
            let p = mb_sample(r.info.mb_type->Intra16x16_mode, around, dx, dy) as u8;
            out.planes[0][k] == (if inside(r, c, 0, 16, k) {
                in_range(p + whole_residual(r, blk)[4 * (dy % 4) + dx % 4])
            } else {
                c.planes[0][k]
            })
        }),
{
    let mode = r.info.mb_type->Intra16x16_mode;
    let around = luma_edges(c, r.pic, r.addr, 0, 0, 16, 0, r.tuning.constrained_intra);
    let (x, y) = (mb_left(r.pic, r.addr, 16), mb_top(r.pic, r.addr, 16));
    let block = Seq::new(256, |i: int| mb_sample(mode, around, i % 16, i / 16) as u8);
    let predicted = painted(c, 0, x, y, 16, block);
    assert(r.intra_luma(c).0 == r.plus_16x16(predicted, 0));
    law_whole_residuals_land_in_their_blocks(r, predicted, 0, k);
    let (dx, dy) = within(r, c, 0, 16, k);
    if inside(r, c, 0, 16, k) {
        law_every_sample_has_a_block(dx, dy);
        let i = dy * 16 + dx;
        assert(i == window_index(k, c.stride(0), x, y, 16));
        assert(i % 16 == dx && i / 16 == dy);
        assert(predicted.planes[0][k] == block[i]);
    }
}

/// The chroma of an intra macroblock is what its mode makes of the samples of its
/// component around it.
pub proof fn law_chroma_continues_its_surroundings(r: Recipe, c: Canvas, comp: int, k: int)
    requires
        0 <= comp < 2,
        c.planes.len() == 3,
        c.stride(1) > 0,
        r.intra_chroma(c, comp).1 is None,
        0 <= k < c.planes[comp + 1].len(),
    ensures
        ({
            let out = r.intra_chroma(c, comp).0;
            let (dx, dy) = within(r, c, comp + 1, 8, k);
            let around = chroma_edges(
                c,
                r.pic,
                r.addr,
                comp + 1,
                r.tuning.constrained_intra,
            );
            let mode = chroma_mode_of(r.info.chroma_mode as int);
            &&& out.planes[comp + 1][k] == (if inside(r, c, comp + 1, 8, k) {
                chroma_sample(mode, around, dx, dy) as u8
            } else {
                c.planes[comp + 1][k]
            })
            &&& out.planes[0] == c.planes[0]
            &&& out.planes[2 - comp] == c.planes[2 - comp]
        }),
{
    let (dx, dy) = within(r, c, comp + 1, 8, k);
    if inside(r, c, comp + 1, 8, k) {
        let i = dy * 8 + dx;
        assert(i % 8 == dx && i / 8 == dy);
        assert(i == window_index(
            k,
            c.stride(comp + 1),
            mb_left(r.pic, r.addr, 8),
            mb_top(r.pic, r.addr, 8),
            8,
        ));
    }
}

} // verus!
