//! What a reconstructed macroblock looks like, sample by sample.
use vstd::prelude::*;
use super::math::{in_window, lemma_raster, window_index};
use super::mb::spec_chroma_qp;
use super::neighbour::{
    law_every_sample_has_a_block, law_locations_name_the_sample_asked_for,
    law_scan_orders_round_trip, luma_4x4_x, luma_4x4_y, spec_luma_4x4_index,
};
use super::picture::Canvas;
use super::recon::{
    chroma_sample_at, corrected, luma_sample, mb_left, mb_top, painted, raster_4x4, samples_4x4,
    samples_8x8, spec_dc_index, Recipe,
};
use super::state::PicModel;
use super::transform::{chroma_dc, luma_dc};

verus! {

/// The place in the macroblock of place `k` of a plane whose macroblocks have `side`
/// samples.
pub open spec fn within(r: Recipe, c: Canvas, plane: int, side: int, k: int) -> (int, int) {
    (
        k % c.stride(plane) - mb_left(r.pic, r.addr, side),
        k / c.stride(plane) - mb_top(r.pic, r.addr, side),
    )
}

/// Whether place `k` of a plane belongs to the macroblock.
pub open spec fn inside(r: Recipe, c: Canvas, plane: int, side: int, k: int) -> bool {
    let (dx, dy) = within(r, c, plane, side, k);
    0 <= dx < side && 0 <= dy < side
}

/// A 4x4 block of the macroblock holds the places whose block it is.
pub proof fn lemma_block(r: Recipe, c: Canvas, blk: int, k: int)
    requires
        0 <= blk < 16,
    ensures
        ({
            let (dx, dy) = within(r, c, 0, 16, k);
            in_window(k, c.stride(0), r.x_4x4(blk), r.y_4x4(blk), 4, 4) <==> inside(r, c, 0, 16, k)
                && spec_luma_4x4_index(dx, dy) == blk
        }),
{
    let (dx, dy) = within(r, c, 0, 16, k);
    law_scan_orders_round_trip(blk, 0, 0);
    if in_window(k, c.stride(0), r.x_4x4(blk), r.y_4x4(blk), 4, 4) {
        law_scan_orders_round_trip(blk, dx - luma_4x4_x(blk), dy - luma_4x4_y(blk));
    }
    if inside(r, c, 0, 16, k) {
        law_every_sample_has_a_block(dx, dy);
    }
}

/// The luma sample that a vector in quarters of a sample brings to place `k`.
pub open spec fn brought_luma(r: Recipe, c: Canvas, k: int) -> u8 {
    let (dx, dy) = within(r, c, 0, 16, k);
    let blk = spec_luma_4x4_index(dx, dy);
    let number = r.info.ref_idx[blk / 4];
    let source = r.refs[if number < 0 {
        0
    } else {
        number as int
    }].samples(0);
    let qx = 4 * (k % c.stride(0)) + r.info.mv[blk].0;
    let qy = 4 * (k / c.stride(0)) + r.info.mv[blk].1;
    source.luma(qx % 4, qy % 4, qx / 4, qy / 4) as u8
}

/// Every luma sample of an inter macroblock comes from the picture that its own
/// block refers to, as far away as the vector of that block says in quarters of a
/// sample; everything else stays as it is.
pub proof fn law_luma_follows_the_vector_of_its_block(r: Recipe, c: Canvas, k: int)
    requires
        r.inter_luma(c, 0).1 is None,
        c.planes.len() == 3,
        c.stride(0) > 0,
        0 <= k < c.planes[0].len(),
    ensures
        ({
            let after = r.inter_luma(c, 0).0;
            &&& after.planes[0][k] == (if inside(r, c, 0, 16, k) {
                brought_luma(r, c, k)
            } else {
                c.planes[0][k]
            })
            &&& after.planes[1] == c.planes[1]
            &&& after.planes[2] == c.planes[2]
        }),
{
    lemma_inter_luma(r, c, c, 0, k);
    if inside(r, c, 0, 16, k) {
        let (dx, dy) = within(r, c, 0, 16, k);
        law_every_sample_has_a_block(dx, dy);
    }
}

proof fn lemma_inter_luma(r: Recipe, first: Canvas, c: Canvas, blk: int, k: int)
    requires
        0 <= blk <= 16,
        r.inter_luma(c, blk).1 is None,
        c.planes.len() == 3,
        c.width == first.width,
        c.stride(0) > 0,
        0 <= k < c.planes[0].len(),
    ensures
        ({
            let after = r.inter_luma(c, blk).0;
            let (dx, dy) = within(r, first, 0, 16, k);
            &&& after.planes[0][k] == (if inside(r, first, 0, 16, k) && blk <= spec_luma_4x4_index(
                dx,
                dy,
            ) < 16 {
                brought_luma(r, first, k)
            } else {
                c.planes[0][k]
            })
            &&& after.planes[1] == c.planes[1]
            &&& after.planes[2] == c.planes[2]
        }),
    decreases 16 - blk,
{
    if blk < 16 {
        let (mx, my) = (r.info.mv[blk].0 as int, r.info.mv[blk].1 as int);
        let source = r.refs[r.ref_of(blk)].samples(0);
        let (x, y) = (r.x_4x4(blk), r.y_4x4(blk));
        let block = Seq::new(
            16,
            |k: int| source.luma(mx % 4, my % 4, x + mx / 4 + k % 4, y + my / 4 + k / 4) as u8,
        );
        let next = painted(c, 0, x, y, 4, block);
        lemma_inter_luma(r, first, next, blk + 1, k);
        lemma_block(r, first, blk, k);
        if in_window(k, c.stride(0), x, y, 4, 4) {
            let (kx, ky) = (k % c.stride(0), k / c.stride(0));
            let i = window_index(k, c.stride(0), x, y, 4);
            assert(i == (ky - y) * 4 + (kx - x));
            assert(i % 4 == kx - x && i / 4 == ky - y);
            assert((4 * kx + mx) % 4 == mx % 4 && (4 * kx + mx) / 4 == kx + mx / 4);
            assert((4 * ky + my) % 4 == my % 4 && (4 * ky + my) / 4 == ky + my / 4);
            assert(next.planes[0][k] == block[i]);
        }
    }
}

/// The chroma sample that a vector brings to place `k`: in chroma the same vector
/// counts eighths of a sample. Each 4x4 block follows the first luma block of its
/// quadrant.
pub open spec fn brought_chroma(r: Recipe, c: Canvas, comp: int, k: int) -> u8 {
    let (dx, dy) = within(r, c, comp + 1, 8, k);
    let blk = (if dy < 4 {
        0int
    } else {
        8
    }) + (if dx < 4 {
        0int
    } else {
        4
    });
    let number = r.info.ref_idx[blk / 4];
    let source = r.refs[if number < 0 {
        0
    } else {
        number as int
    }].samples(comp + 1);
    let ex = 8 * (k % c.stride(comp + 1)) + r.info.mv[blk].0;
    let ey = 8 * (k / c.stride(comp + 1)) + r.info.mv[blk].1;
    source.chroma(ex % 8, ey % 8, ex / 8, ey / 8) as u8
}

/// Every chroma sample of an inter macroblock comes from the picture that its block
/// refers to, as far away as the vector says in eighths of a sample; everything
/// else stays as it is.
pub proof fn law_chroma_follows_the_vector_of_its_block(r: Recipe, c: Canvas, comp: int, k: int)
    requires
        0 <= comp < 2,
        r.inter_chroma(c, comp, 0).1 is None,
        c.planes.len() == 3,
        c.stride(1) > 0,
        0 <= k < c.planes[comp + 1].len(),
    ensures
        ({
            let after = r.inter_chroma(c, comp, 0).0;
            &&& after.planes[comp + 1][k] == (if inside(r, c, comp + 1, 8, k) {
                brought_chroma(r, c, comp, k)
            } else {
                c.planes[comp + 1][k]
            })
            &&& after.planes[0] == c.planes[0]
            &&& after.planes[2 - comp] == c.planes[2 - comp]
        }),
{
    lemma_inter_chroma(r, c, c, comp, 0, k);
}

proof fn lemma_inter_chroma(r: Recipe, first: Canvas, c: Canvas, comp: int, blk: int, k: int)
    requires
        0 <= comp < 2,
        0 <= blk <= 4,
        r.inter_chroma(c, comp, blk).1 is None,
        c.planes.len() == 3,
        c.width == first.width,
        c.stride(1) > 0,
        0 <= k < c.planes[comp + 1].len(),
    ensures
        ({
            let after = r.inter_chroma(c, comp, blk).0;
            let (dx, dy) = within(r, first, comp + 1, 8, k);
            let own = (if dy < 4 {
                0int
            } else {
                2
            }) + (if dx < 4 {
                0int
            } else {
                1
            });
            &&& after.planes[comp + 1][k] == (if inside(r, first, comp + 1, 8, k) && blk <= own {
                brought_chroma(r, first, comp, k)
            } else {
                c.planes[comp + 1][k]
            })
            &&& after.planes[0] == c.planes[0]
            &&& after.planes[2 - comp] == c.planes[2 - comp]
        }),
    decreases 4 - blk,
{
    if blk < 4 {
        let lb = r.luma_of_chroma(blk);
        assert(lb == 4 * blk) by {
            assert(blk == 0 || blk == 1 || blk == 2 || blk == 3);
        }
        let (mx, my) = (r.info.mv[lb].0 as int, r.info.mv[lb].1 as int);
        let source = r.refs[r.ref_of(lb)].samples(comp + 1);
        let (x, y) = (r.x_chroma(blk), r.y_chroma(blk));
        let stride = c.stride(comp + 1);
        let block = Seq::new(
            16,
            |k: int| source.chroma(mx % 8, my % 8, x + mx / 8 + k % 4, y + my / 8 + k / 4) as u8,
        );
        let next = painted(c, comp + 1, x, y, 4, block);
        lemma_inter_chroma(r, first, next, comp, blk + 1, k);
        assert(blk == 0 || blk == 1 || blk == 2 || blk == 3);
        if in_window(k, stride, x, y, 4, 4) {
            let (kx, ky) = (k % stride, k / stride);
            let i = window_index(k, stride, x, y, 4);
            assert(i == (ky - y) * 4 + (kx - x));
            assert(i % 4 == kx - x && i / 4 == ky - y);
            assert((8 * kx + mx) % 8 == mx % 8 && (8 * kx + mx) / 8 == kx + mx / 8);
            assert((8 * ky + my) % 8 == my % 8 && (8 * ky + my) / 8 == ky + my / 8);
            assert(next.planes[comp + 1][k] == block[i]);
        }
    }
}

/// A residual block is added sample by sample where the block stands, each sum
/// being brought into range; everything else stays as it is.
pub proof fn law_residuals_are_added_in_place(
    r: Recipe,
    c: Canvas,
    blk: int,
    intra: bool,
    dc: Option<int>,
    k: int,
)
    requires
        0 <= blk < 16,
        c.planes.len() == 3,
        c.stride(0) > 0,
        0 <= k < c.planes[0].len(),
        forall|p: int|
            0 <= p < 16 ==> -0x7000_0000 <= #[trigger] samples_4x4(
                r.levels.luma[blk],
                r.tuning.weights.list_4x4(intra, 0),
                r.info.qp as int,
                dc,
            )[p] <= 0x7000_0000,
    ensures
        ({
            let after = r.plus_4x4(c, blk, intra, dc);
            let (dx, dy) = within(r, c, 0, 16, k);
            let block = samples_4x4(
                r.levels.luma[blk],
                r.tuning.weights.w4x4[if intra {
                    0
                } else {
                    3
                }],
                r.info.qp as int,
                dc,
            );
            let sum = c.planes[0][k] + block[4 * (dy % 4) + dx % 4];
            &&& after.planes[0][k] == (if !inside(r, c, 0, 16, k) || spec_luma_4x4_index(dx, dy)
                != blk {
                c.planes[0][k] as int
            } else if sum < 0 {
                0
            } else if sum > 255 {
                255
            } else {
                sum
            })
            &&& after.planes[1] == c.planes[1]
            &&& after.planes[2] == c.planes[2]
        }),
{
    lemma_block(r, c, blk, k);
    let (x, y) = (r.x_4x4(blk), r.y_4x4(blk));
    if in_window(k, c.stride(0), x, y, 4, 4) {
        let (dx, dy) = within(r, c, 0, 16, k);
        let block = samples_4x4(
            r.levels.luma[blk],
            r.tuning.weights.list_4x4(intra, 0),
            r.info.qp as int,
            dc,
        );
        let i = window_index(k, c.stride(0), x, y, 4);
        assert(luma_4x4_x(blk) % 4 == 0 && luma_4x4_y(blk) % 4 == 0);
        assert(dx % 4 == dx - luma_4x4_x(blk) && dy % 4 == dy - luma_4x4_y(blk));
        assert(i == 4 * (dy % 4) + dx % 4);
        super::math::lemma_wrap(c.planes[0][k] + block[i], 0);
    }
}

/// A sum brought into the range of a sample.
pub open spec fn in_range(sum: int) -> u8 {
    if sum < 0 {
        0
    } else if sum > 255 {
        255
    } else {
        sum as u8
    }
}

/// Residual samples that leave room for a sample to be added.
pub open spec fn modest(block: Seq<i32>) -> bool {
    forall|p: int|
        0 <= p < block.len() ==> -0x7000_0000 <= #[trigger] block[p] <= 0x7000_0000
}

/// What adding a block of residual samples does to a place.
pub proof fn lemma_corrected(c: Canvas, plane: int, x: int, y: int, n: int, block: Seq<i32>, k: int)
    requires
        0 <= plane < 3,
        c.planes.len() == 3,
        c.stride(plane) > 0,
        0 <= k < c.planes[plane].len(),
        0 < n,
        block.len() == n * n,
        modest(block),
    ensures
        ({
            let after = corrected(c, plane, x, y, n, block);
            let (kx, ky) = (k % c.stride(plane), k / c.stride(plane));
            &&& after.planes.len() == 3
            &&& after.width == c.width
            &&& after.planes[plane].len() == c.planes[plane].len()
            &&& forall|p: int| 0 <= p < 3 && p != plane ==> #[trigger] after.planes[p] == c.planes[p]
            &&& after.planes[plane][k] == (if x <= kx < x + n && y <= ky < y + n {
                in_range(c.planes[plane][k] + block[(ky - y) * n + (kx - x)])
            } else {
                c.planes[plane][k]
            })
        }),
{
    let (kx, ky) = (k % c.stride(plane), k / c.stride(plane));
    if in_window(k, c.stride(plane), x, y, n, n) {
        lemma_raster(n, kx - x, ky - y);
        super::math::lemma_rows(n, ky - y, n);
        let i = (ky - y) * n + (kx - x);
        assert(i == window_index(k, c.stride(plane), x, y, n));
        assert(-0x7000_0000 <= block[i] <= 0x7000_0000);
        super::math::lemma_wrap(c.planes[plane][k] + block[i], 0);
    }
}

/// The residual of a 4x4 luma block of an inter macroblock.
pub open spec fn inter_residual(r: Recipe, blk: int) -> Seq<i32> {
    samples_4x4(r.levels.luma[blk], r.tuning.weights.w4x4[3], r.info.qp as int, None)
}

/// Every luma sample of an inter macroblock gets the residual of its own 4x4 block,
/// scaled by the inter weights of luma, where that block is coded.
pub proof fn law_inter_residuals_land_in_their_blocks(r: Recipe, c: Canvas, blk: int, k: int)
    requires
        0 <= blk <= 16,
        c.planes.len() == 3,
        c.stride(0) > 0,
        0 <= k < c.planes[0].len(),
        forall|b: int| 0 <= b < 16 ==> modest(#[trigger] inter_residual(r, b)),
    ensures
        ({
            let (dx, dy) = within(r, c, 0, 16, k);
            let own = spec_luma_4x4_index(dx, dy);
            r.plus_luma_4x4(c, blk).planes[0][k] == (if inside(r, c, 0, 16, k) && own >= blk
                && r.info.cbf_luma[own] {
                in_range(c.planes[0][k] + inter_residual(r, own)[4 * (dy % 4) + dx % 4])
            } else {
                c.planes[0][k]
            })
        }),
    decreases 16 - blk,
{
    let (dx, dy) = within(r, c, 0, 16, k);
    if inside(r, c, 0, 16, k) {
        law_every_sample_has_a_block(dx, dy);
    }
    if blk < 16 {
        if r.info.cbf_luma[blk] {
            let next = r.plus_4x4(c, blk, false, None);
            lemma_corrected(c, 0, r.x_4x4(blk), r.y_4x4(blk), 4, inter_residual(r, blk), k);
            assert(next == corrected(
                c,
                0,
                r.x_4x4(blk),
                r.y_4x4(blk),
                4,
                inter_residual(r, blk),
            ));
            law_inter_residuals_land_in_their_blocks(r, next, blk + 1, k);
            lemma_block(r, c, blk, k);
            lemma_within_block(dx, dy, blk);
        } else {
            law_inter_residuals_land_in_their_blocks(r, c, blk + 1, k);
        }
    }
}

/// The place of a sample in its 4x4 block.
proof fn lemma_within_block(dx: int, dy: int, blk: int)
    requires
        0 <= blk < 16,
    ensures
        luma_4x4_x(blk) <= dx < luma_4x4_x(blk) + 4 ==> dx % 4 == dx - luma_4x4_x(blk),
        luma_4x4_y(blk) <= dy < luma_4x4_y(blk) + 4 ==> dy % 4 == dy - luma_4x4_y(blk),
{
    assert(luma_4x4_x(blk) % 4 == 0 && luma_4x4_y(blk) % 4 == 0);
}

/// The residual of an 8x8 luma block.
pub open spec fn large_residual(r: Recipe, intra: bool, blk: int) -> Seq<i32> {
    samples_8x8(
        r.levels.luma_8x8[blk],
        r.tuning.weights.w8x8[if intra {
            0
        } else {
            1
        }],
        r.info.qp as int,
    )
}

/// Every luma sample of an inter macroblock with large transforms gets the residual
/// of its own quadrant, where the pattern names that quadrant.
pub proof fn law_large_residuals_land_in_their_quadrants(r: Recipe, c: Canvas, blk: int, k: int)
    requires
        0 <= blk <= 4,
        c.planes.len() == 3,
        c.stride(0) > 0,
        0 <= k < c.planes[0].len(),
        forall|b: int| 0 <= b < 4 ==> modest(#[trigger] large_residual(r, false, b)),
    ensures
        ({
            let (dx, dy) = within(r, c, 0, 16, k);
            let own = (if dy < 8 {
                0int
            } else {
                2
            }) + (if dx < 8 {
                0int
            } else {
                1
            });
            r.plus_luma_8x8(c, blk).planes[0][k] == (if inside(r, c, 0, 16, k) && own >= blk
                && r.info.luma_8x8_coded(own) {
                in_range(c.planes[0][k] + large_residual(r, false, own)[8 * (dy % 8) + dx % 8])
            } else {
                c.planes[0][k]
            })
        }),
    decreases 4 - blk,
{
    if blk < 4 {
        assert(blk == 0 || blk == 1 || blk == 2 || blk == 3);
        if r.info.luma_8x8_coded(blk) {
            let block = large_residual(r, false, blk);
            lemma_corrected(c, 0, r.x_8x8(blk), r.y_8x8(blk), 8, block, k);
            let next = corrected(c, 0, r.x_8x8(blk), r.y_8x8(blk), 8, block);
            assert(r.plus_8x8(c, blk, false) == next);
            law_large_residuals_land_in_their_quadrants(r, next, blk + 1, k);
        } else {
            law_large_residuals_land_in_their_quadrants(r, c, blk + 1, k);
        }
    }
}

/// The residual of a 4x4 block of a macroblock predicted as a whole, its DC value
/// being the one that stands where the block stands.
pub open spec fn whole_residual(r: Recipe, blk: int) -> Seq<i32> {
    samples_4x4(
        r.levels.luma[blk],
        r.tuning.weights.w4x4[0],
        r.info.qp as int,
        Some(
            luma_dc(
                raster_4x4(r.levels.luma_dc),
                r.tuning.weights.w4x4[0],
                r.info.qp as int,
                luma_4x4_y(blk) + luma_4x4_x(blk) / 4,
            ),
        ),
    )
}

/// Every luma sample of a macroblock predicted as a whole gets the residual of its
/// own 4x4 block, coded or not, since every block has a DC value.
pub proof fn law_whole_residuals_land_in_their_blocks(r: Recipe, c: Canvas, blk: int, k: int)
    requires
        0 <= blk <= 16,
        c.planes.len() == 3,
        c.stride(0) > 0,
        0 <= k < c.planes[0].len(),
        forall|b: int| 0 <= b < 16 ==> modest(#[trigger] whole_residual(r, b)),
    ensures
        ({
            let (dx, dy) = within(r, c, 0, 16, k);
            let own = spec_luma_4x4_index(dx, dy);
            r.plus_16x16(c, blk).planes[0][k] == (if inside(r, c, 0, 16, k) && own >= blk {
                in_range(c.planes[0][k] + whole_residual(r, own)[4 * (dy % 4) + dx % 4])
            } else {
                c.planes[0][k]
            })
        }),
    decreases 16 - blk,
{
    let (dx, dy) = within(r, c, 0, 16, k);
    if inside(r, c, 0, 16, k) {
        law_every_sample_has_a_block(dx, dy);
    }
    if blk < 16 {
        let block = whole_residual(r, blk);
        lemma_corrected(c, 0, r.x_4x4(blk), r.y_4x4(blk), 4, block, k);
        let next = corrected(c, 0, r.x_4x4(blk), r.y_4x4(blk), 4, block);
        assert((luma_4x4_y(blk) / 4) * 4 == luma_4x4_y(blk));
        assert(r.plus_4x4(c, blk, true, Some(r.dc_of(spec_dc_index(blk)))) == next);
        law_whole_residuals_land_in_their_blocks(r, next, blk + 1, k);
        lemma_block(r, c, blk, k);
        lemma_within_block(dx, dy, blk);
    }
}

/// The residual of a 4x4 chroma block: it is scaled by the quantiser and the
/// weights of its component, its DC value comes with those of the other three
/// blocks, and the other levels count only where the pattern says so.
pub open spec fn chroma_residual(r: Recipe, comp: int, blk: int) -> Seq<i32> {
    let weights = r.tuning.weights.w4x4[if r.info.mb_type is Inter || r.info.mb_type is PSkip {
        4 + comp
    } else {
        1 + comp
    }];
    let qp = spec_chroma_qp(r.info.qp as int, r.tuning.chroma_qp_offset[comp] as int);
    samples_4x4(
        if r.info.cbp_chroma == 2 {
            r.levels.chroma[if comp == 0 {
                blk
            } else {
                4 + blk
            }]
        } else {
            Seq::new(16, |i: int| 0i32)
        },
        weights,
        qp,
        Some(chroma_dc(r.levels.chroma_dc[comp], weights, qp, blk)),
    )
}

/// Every chroma sample gets the residual of its own 4x4 block.
pub proof fn law_chroma_residuals_land_in_their_blocks(
    r: Recipe,
    c: Canvas,
    comp: int,
    blk: int,
    k: int,
)
    requires
        0 <= comp < 2,
        0 <= blk <= 4,
        c.planes.len() == 3,
        c.stride(1) > 0,
        0 <= k < c.planes[comp + 1].len(),
        forall|b: int| 0 <= b < 4 ==> modest(#[trigger] chroma_residual(r, comp, b)),
    ensures
        ({
            let (dx, dy) = within(r, c, comp + 1, 8, k);
            let own = (if dy < 4 {
                0int
            } else {
                2
            }) + (if dx < 4 {
                0int
            } else {
                1
            });
            r.plus_chroma(c, comp, blk).planes[comp + 1][k] == (if inside(r, c, comp + 1, 8, k)
                && own >= blk {
                in_range(
                    c.planes[comp + 1][k] + chroma_residual(r, comp, own)[4 * (dy % 4) + dx % 4],
                )
            } else {
                c.planes[comp + 1][k]
            })
        }),
    decreases 4 - blk,
{
    if blk < 4 {
        assert(blk == 0 || blk == 1 || blk == 2 || blk == 3);
        let block = chroma_residual(r, comp, blk);
        let (x, y) = (r.x_chroma(blk), r.y_chroma(blk));
        lemma_corrected(c, comp + 1, x, y, 4, block, k);
        let next = corrected(c, comp + 1, x, y, 4, block);
        assert(comp == 0 || comp == 1);
        assert(r.plus_chroma(c, comp, blk) == r.plus_chroma(next, comp, blk + 1));
        law_chroma_residuals_land_in_their_blocks(r, next, comp, blk + 1, k);
    }
}

/// Intra prediction reads the sample of the picture that it asks for, and none
/// that is not decoded yet. Where it keeps to intra macroblocks, the samples of
/// others are not to be had either.
pub proof fn law_intra_prediction_reads_the_picture(
    c: Canvas,
    pic: PicModel,
    addr: int,
    x: int,
    y: int,
    blk: int,
    constrained: bool,
)
    requires
        pic.wf(),
        0 <= addr < pic.mbs.len(),
        -16 <= x < 32,
        -16 <= y < 16,
    ensures
        match luma_sample(c, pic, addr, x, y, blk, constrained) {
            Some(v) => {
                let (left, top) = (16 * (addr % pic.grid.width), 16 * (addr / pic.grid.width));
                v == c.planes[0][(top + y) * c.width + left + x]
            },
            None => match pic.grid.spec_location(addr, x, y, 16) {
                None => true,
                Some(at) => if at.mb == addr {
                    spec_luma_4x4_index(x, y) >= blk
                } else {
                    constrained && (pic.mbs[at.mb as int].mb_type is Inter
                        || pic.mbs[at.mb as int].mb_type is PSkip)
                },
            },
        },
        -8 <= x < 16 && -8 <= y < 8 ==> forall|plane: int|
            plane == 1 || plane == 2 ==> match #[trigger] chroma_sample_at(
                c,
                pic,
                addr,
                x,
                y,
                plane,
                constrained,
            ) {
                Some(v) => {
                    let (left, top) = (8 * (addr % pic.grid.width), 8 * (addr / pic.grid.width));
                    v == c.planes[plane][(top + y) * (c.width / 2) + left + x]
                },
                None => match pic.grid.spec_location(addr, x, y, 8) {
                    None => true,
                    Some(at) => at.mb == addr || constrained && (
                    pic.mbs[at.mb as int].mb_type is Inter
                        || pic.mbs[at.mb as int].mb_type is PSkip),
                },
            },
{
    law_locations_name_the_sample_asked_for(pic.grid, addr, x, y, 16);
    if -8 <= x < 16 && -8 <= y < 8 {
        law_locations_name_the_sample_asked_for(pic.grid, addr, x, y, 8);
    }
}

} // verus!
