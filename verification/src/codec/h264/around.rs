//! What a block sees around itself: which block of the picture lies to its left
//! or above, and what it takes from there.
use vstd::prelude::*;
use super::macroblock::{partition_motion, predicted_4x4, predicted_8x8, Site};
use super::neighbour::{
    holder, law_locations_name_the_sample_asked_for, luma_4x4_x, luma_4x4_y, spec_luma_4x4_index,
    BlockRef, Grid,
};
use super::mb::MbType;
use super::state::{filled, filled_refs, MbModel};
use super::syntax::{cbf_inc, CbfBlock, Surroundings};

verus! {

/// No macroblock that may be read holds the sample at `(x, y)` of the current one.
pub open spec fn out_of_sight(n: Grid, curr: int, x: int, y: int, side: int) -> bool {
    match holder(n, curr, x, y, side) {
        None => true,
        Some(mb) => mb != curr && !n.spec_available(mb, curr),
    }
}

/// A place inside, above or to the left of the current macroblock is found in the
/// 4x4 block that holds it. A block that is not decoded yet is not found.
pub proof fn law_places_are_found_in_their_blocks(n: Grid, curr: int, x: int, y: int, blk: int)
    requires
        n.wf(),
        n.width > 0,
        n.slice.len() <= usize::MAX,
        0 <= curr < n.slice.len(),
        0 <= blk < 16,
        -16 <= x < 32,
        -16 <= y < 16,
    ensures
        match n.luma_4x4_at(curr, x, y, blk) {
            Some(b) => {
                let left = 16 * (b.mb as int % n.width) + luma_4x4_x(b.blk as int);
                let top = 16 * (b.mb as int / n.width) + luma_4x4_y(b.blk as int);
                &&& b.blk < 16
                &&& left <= 16 * (curr % n.width) + x < left + 4
                &&& top <= 16 * (curr / n.width) + y < top + 4
                &&& if b.mb == curr {
                    b.blk < blk
                } else {
                    n.spec_available(b.mb as int, curr)
                }
            },
            None => {
                ||| x >= 16 && y >= 0
                ||| out_of_sight(n, curr, x, y, 16)
                ||| 0 <= x < 16 && 0 <= y && spec_luma_4x4_index(x, y) >= blk
            },
        },
{
    law_locations_name_the_sample_asked_for(n, curr, x, y, 16);
    if n.spec_location(curr, x, y, 16) is Some {
        let at = n.spec_location(curr, x, y, 16)->0;
        lemma_index(at.x as int, at.y as int);
        assert(at.mb == curr ==> at.x == x && at.y == y);
    }
}

proof fn lemma_index(x: int, y: int)
    requires
        0 <= x < 16,
        0 <= y < 16,
    ensures
        ({
            let b = spec_luma_4x4_index(x, y);
            &&& 0 <= b < 16
            &&& luma_4x4_x(b) <= x < luma_4x4_x(b) + 4
            &&& luma_4x4_y(b) <= y < luma_4x4_y(b) + 4
        }),
{
}

/// The 4x4 block to the left of a block, or above it, is the one that touches it:
/// its corner lies four samples away. There is none exactly where no macroblock
/// that may be read lies there.
pub proof fn law_4x4_blocks_see_left_and_above(n: Grid, curr: int, blk: int, left: bool)
    requires
        n.wf(),
        n.width > 0,
        n.slice.len() <= usize::MAX,
        0 <= curr < n.slice.len(),
        0 <= blk < 16,
    ensures
        ({
            let (dx, dy) = if left {
                (-1int, 0int)
            } else {
                (0int, -1int)
            };
            let (w, x, y) = (n.width, luma_4x4_x(blk), luma_4x4_y(blk));
            match n.spec_luma_4x4_neighbour(curr, blk, dx, dy) {
                Some(b) => {
                    &&& b.blk < 16
                    &&& 16 * (b.mb as int % w) + luma_4x4_x(b.blk as int) == 16 * (curr % w) + x + 4
                        * dx
                    &&& 16 * (b.mb as int / w) + luma_4x4_y(b.blk as int) == 16 * (curr / w) + y + 4
                        * dy
                    &&& b.mb == curr || n.spec_available(b.mb as int, curr)
                },
                None => out_of_sight(n, curr, x + dx, y + dy, 16),
            }
        }),
{
    let (dx, dy) = if left {
        (-1int, 0int)
    } else {
        (0int, -1int)
    };
    let (x, y) = (luma_4x4_x(blk), luma_4x4_y(blk));
    lemma_earlier(blk);
    assert(-1 <= x + dx < 16 && -1 <= y + dy < 16);
    assert(x + dx >= 0 && y + dy >= 0 ==> spec_luma_4x4_index(x + dx, y + dy) < blk);
    law_places_are_found_in_their_blocks(n, curr, x + dx, y + dy, blk);
    if n.luma_4x4_at(curr, x + dx, y + dy, blk) is Some {
        let b = n.luma_4x4_at(curr, x + dx, y + dy, blk)->0;
        lemma_touching(b.mb as int % n.width, b.blk as int, curr % n.width, blk, dx, true);
        lemma_touching(b.mb as int / n.width, b.blk as int, curr / n.width, blk, dy, false);
    }
}

/// A block that holds the sample just before another one ends there.
proof fn lemma_touching(m: int, b: int, k: int, blk: int, d: int, across: bool)
    requires
        0 <= b < 16,
        0 <= blk < 16,
        d == 0 || d == -1,
        across ==> 16 * m + luma_4x4_x(b) <= 16 * k + luma_4x4_x(blk) + d < 16 * m + luma_4x4_x(b)
            + 4,
        !across ==> 16 * m + luma_4x4_y(b) <= 16 * k + luma_4x4_y(blk) + d < 16 * m + luma_4x4_y(b)
            + 4,
    ensures
        across ==> 16 * m + luma_4x4_x(b) == 16 * k + luma_4x4_x(blk) + 4 * d,
        !across ==> 16 * m + luma_4x4_y(b) == 16 * k + luma_4x4_y(blk) + 4 * d,
{
}

/// The blocks to the left and above within a macroblock come before a block.
proof fn lemma_earlier(blk: int)
    requires
        0 <= blk < 16,
    ensures
        luma_4x4_x(blk) > 0 ==> spec_luma_4x4_index(luma_4x4_x(blk) - 1, luma_4x4_y(blk)) < blk,
        luma_4x4_y(blk) > 0 ==> spec_luma_4x4_index(luma_4x4_x(blk), luma_4x4_y(blk) - 1) < blk,
        0 <= luma_4x4_x(blk) <= 12,
        0 <= luma_4x4_y(blk) <= 12,
{
    assert(blk == 0 || blk == 1 || blk == 2 || blk == 3 || blk == 4 || blk == 5 || blk == 6 || blk
        == 7 || blk == 8 || blk == 9 || blk == 10 || blk == 11 || blk == 12 || blk == 13 || blk
        == 14 || blk == 15);
}

/// The 8x8 block to the left of a block, or above it, is the one that touches it.
pub proof fn law_8x8_blocks_see_left_and_above(n: Grid, curr: int, blk: int, left: bool)
    requires
        n.wf(),
        n.width > 0,
        n.slice.len() <= usize::MAX,
        0 <= curr < n.slice.len(),
        0 <= blk < 4,
    ensures
        ({
            let (dx, dy) = if left {
                (-1int, 0int)
            } else {
                (0int, -1int)
            };
            let (w, x, y) = (n.width, 8 * (blk % 2), 8 * (blk / 2));
            match n.spec_luma_8x8_neighbour(curr, blk, dx, dy) {
                Some(b) => {
                    &&& b.blk < 4
                    &&& 16 * (b.mb as int % w) + 8 * (b.blk as int % 2) == 16 * (curr % w) + x + 8
                        * dx
                    &&& 16 * (b.mb as int / w) + 8 * (b.blk as int / 2) == 16 * (curr / w) + y + 8
                        * dy
                    &&& b.mb == curr || n.spec_available(b.mb as int, curr)
                },
                None => out_of_sight(n, curr, x + dx, y + dy, 16),
            }
        }),
{
    let (dx, dy) = if left {
        (-1int, 0int)
    } else {
        (0int, -1int)
    };
    assert(blk == 0 || blk == 1 || blk == 2 || blk == 3);
    law_locations_name_the_sample_asked_for(n, curr, 8 * (blk % 2) + dx, 8 * (blk / 2) + dy, 16);
}

/// The 4x4 chroma block to the left of a block, or above it, is the one that
/// touches it.
pub proof fn law_chroma_blocks_see_left_and_above(n: Grid, curr: int, blk: int, left: bool)
    requires
        n.wf(),
        n.width > 0,
        n.slice.len() <= usize::MAX,
        0 <= curr < n.slice.len(),
        0 <= blk < 4,
    ensures
        ({
            let (dx, dy) = if left {
                (-1int, 0int)
            } else {
                (0int, -1int)
            };
            let (w, x, y) = (n.width, 4 * (blk % 2), 4 * (blk / 2));
            match n.spec_chroma_4x4_neighbour(curr, blk, dx, dy) {
                Some(b) => {
                    &&& b.blk < 4
                    &&& 8 * (b.mb as int % w) + 4 * (b.blk as int % 2) == 8 * (curr % w) + x + 4
                        * dx
                    &&& 8 * (b.mb as int / w) + 4 * (b.blk as int / 2) == 8 * (curr / w) + y + 4
                        * dy
                    &&& b.mb == curr || n.spec_available(b.mb as int, curr)
                },
                None => out_of_sight(n, curr, x + dx, y + dy, 8),
            }
        }),
{
    let (dx, dy) = if left {
        (-1int, 0int)
    } else {
        (0int, -1int)
    };
    assert(blk == 0 || blk == 1 || blk == 2 || blk == 3);
    law_locations_name_the_sample_asked_for(n, curr, 4 * (blk % 2) + dx, 4 * (blk / 2) + dy, 8);
}

/// What a neighbour adds to the context of a coded flag: 1 where its block is
/// coded. A missing one counts as coded for an intra macroblock alone, raw
/// samples always do, a skipped macroblock never does.
pub open spec fn coded_there(
    c: Surroundings,
    n: Option<BlockRef>,
    own: spec_fn(MbModel, int) -> bool,
) -> int {
    match n {
        None => if c.cur.mb_type is IntraNxN || c.cur.mb_type is Intra16x16
            || c.cur.mb_type is IPcm {
            1
        } else {
            0
        },
        Some(b) => {
            let info = if b.mb == c.addr {
                c.cur
            } else {
                c.pic.mbs[b.mb as int]
            };
            match info.mb_type {
                MbType::IPcm => 1,
                MbType::PSkip => 0,
                _ => if own(info, b.blk as int) {
                    1
                } else {
                    0
                },
            }
        },
    }
}

/// The macroblock next to the current one, as a block.
pub open spec fn next_to(mb: Option<usize>) -> Option<BlockRef> {
    match mb {
        None => None,
        Some(mb) => Some(BlockRef { mb, blk: 0 }),
    }
}

/// A coded flag goes by the flags of the same kind to the left, counted once, and
/// above, counted twice: blocks of luma and of each chroma component by the blocks
/// that touch them, DC blocks by the macroblocks.
pub proof fn law_coded_flags_go_by_their_neighbours(c: Surroundings, blk: u8, comp: usize)
    requires
        blk < 16,
        comp < 2,
    ensures
        ({
            let g = c.pic.grid;
            let own = |m: MbModel, b: int| m.cbf_luma[b];
            cbf_inc(c, CbfBlock::Luma(blk)) == coded_there(
                c,
                g.spec_luma_4x4_neighbour(c.addr, blk as int, -1, 0),
                own,
            ) + 2 * coded_there(c, g.spec_luma_4x4_neighbour(c.addr, blk as int, 0, -1), own)
        }),
        ({
            let g = c.pic.grid;
            let own = |m: MbModel, b: int| m.cbf_luma_dc;
            cbf_inc(c, CbfBlock::LumaDc) == coded_there(c, next_to(g.spec_mb_a(c.addr)), own) + 2
                * coded_there(c, next_to(g.spec_mb_b(c.addr)), own)
        }),
        ({
            let g = c.pic.grid;
            let own = |m: MbModel, b: int| m.cbf_chroma_dc[comp as int];
            cbf_inc(c, CbfBlock::ChromaDc(comp)) == coded_there(
                c,
                next_to(g.spec_mb_a(c.addr)),
                own,
            ) + 2 * coded_there(c, next_to(g.spec_mb_b(c.addr)), own)
        }),
        blk < 4 ==> ({
            let g = c.pic.grid;
            let own = |m: MbModel, b: int|
                m.cbf_chroma_ac[if comp == 0 {
                    b
                } else {
                    4 + b
                }];
            cbf_inc(c, CbfBlock::ChromaAc(comp, blk)) == coded_there(
                c,
                g.spec_chroma_4x4_neighbour(c.addr, blk as int, -1, 0),
                own,
            ) + 2 * coded_there(c, g.spec_chroma_4x4_neighbour(c.addr, blk as int, 0, -1), own)
        }),
{
}

/// The mode expected of an 8x8 block is the one expected of the 4x4 block in its
/// upper left corner.
pub proof fn law_8x8_modes_are_expected_like_4x4_ones(
    at: Site,
    info: MbModel,
    constrained: bool,
    blk: int,
)
    requires
        at.pic.grid.wf(),
        at.pic.grid.width > 0,
        at.pic.grid.slice.len() <= usize::MAX,
        0 <= at.addr < at.pic.grid.slice.len(),
        0 <= blk < 4,
    ensures
        predicted_8x8(at, info, constrained, blk) == predicted_4x4(at, info, constrained, 4 * blk),
{
    let n = at.pic.grid;
    assert(blk == 0 || blk == 1 || blk == 2 || blk == 3);
    law_locations_name_the_sample_asked_for(n, at.addr, 8 * (blk % 2) - 1, 8 * (blk / 2), 16);
    law_locations_name_the_sample_asked_for(n, at.addr, 8 * (blk % 2), 8 * (blk / 2) - 1, 16);
}

/// A neighbour without a mode of its own makes DC the expected mode: one that is
/// not there and, where intra prediction keeps to itself, one predicted from
/// another picture.
pub proof fn law_missing_modes_make_dc_expected(
    at: Site,
    info: MbModel,
    constrained: bool,
    blk: int,
    left: bool,
)
    ensures
        ({
            let n = if left {
                at.pic.grid.spec_luma_4x4_neighbour(at.addr, blk, -1, 0)
            } else {
                at.pic.grid.spec_luma_4x4_neighbour(at.addr, blk, 0, -1)
            };
            let other = at.pic.mbs[n->0.mb as int].mb_type;
            &&& n is None ==> predicted_4x4(at, info, constrained, blk) == 2
            &&& n is Some && n->0.mb != at.addr && constrained && (other is Inter
                || other is PSkip) ==> predicted_4x4(at, info, constrained, blk) == 2
        }),
{
}

/// Without that restriction, a block that has neighbours expects the lesser of
/// their modes.
pub proof fn law_modes_are_expected_from_left_and_above(at: Site, info: MbModel, blk: int)
    ensures
        ({
            let l = at.pic.grid.spec_luma_4x4_neighbour(at.addr, blk, -1, 0);
            let a = at.pic.grid.spec_luma_4x4_neighbour(at.addr, blk, 0, -1);
            let mode = |n: BlockRef|
                (if n.mb == at.addr {
                    info
                } else {
                    at.pic.mbs[n.mb as int]
                }).intra_modes[n.blk as int];
            let r = predicted_4x4(at, info, false, blk);
            l is Some && a is Some ==> r <= mode(l->0) && r <= mode(a->0) && (r == mode(l->0) || r
                == mode(a->0))
        }),
{
}

/// A partition takes its vector from the blocks that hold the samples next to its
/// corners: left of its first row, above its first column, and above its right
/// end. Where the last is not to be had, the one above and to the left stands in.
pub proof fn law_partitions_look_past_their_corners(
    at: Site,
    info: MbModel,
    x: int,
    y: int,
    width: int,
)
    ensures
        ({
            let own = spec_luma_4x4_index(x, y);
            let seen = |px: int, py: int|
                at.pic.motion(at.pic.grid.luma_4x4_at(at.addr, px, py, own), at.addr, info);
            let corner = at.pic.grid.luma_4x4_at(at.addr, x + width, y - 1, own);
            let (a, b, c) = partition_motion(at, info, x, y, width);
            &&& a == seen(x - 1, y)
            &&& b == seen(x, y - 1)
            &&& corner is Some ==> c == seen(x + width, y - 1)
            &&& corner is None ==> c == seen(x - 1, y - 1)
        }),
{
}

/// Motion is kept for the 4x4 blocks of a partition and for no other.
pub proof fn law_motion_fills_its_partition(
    vectors: Seq<(i16, i16)>,
    x: int,
    y: int,
    width: int,
    height: int,
    v: (i16, i16),
    blk: int,
)
    requires
        vectors.len() == 16,
        0 <= blk < 16,
        0 <= x && 0 <= width && x + width <= 16,
        0 <= y && 0 <= height && y + height <= 16,
        x % 4 == 0 && y % 4 == 0 && width % 4 == 0 && height % 4 == 0,
    ensures
        filled(vectors, x, y, width, height, v).len() == 16,
        filled(vectors, x, y, width, height, v)[blk] == (if x <= luma_4x4_x(blk) < x + width && y
            <= luma_4x4_y(blk) < y + height {
            v
        } else {
            vectors[blk]
        }),
{
}

/// Reference indices are kept for the quadrants of a partition and for no other.
pub proof fn law_references_fill_their_partition(
    refs: Seq<i8>,
    x: int,
    y: int,
    width: int,
    height: int,
    v: i8,
    q: int,
)
    requires
        refs.len() == 4,
        0 <= q < 4,
        0 <= x && 0 <= width && x + width <= 16,
        0 <= y && 0 <= height && y + height <= 16,
        x % 8 == 0 && y % 8 == 0 && width % 8 == 0 && height % 8 == 0,
    ensures
        filled_refs(refs, x, y, width, height, v).len() == 4,
        ({
            let left = if q == 1 || q == 3 {
                8int
            } else {
                0
            };
            let top = if q >= 2 {
                8int
            } else {
                0
            };
            filled_refs(refs, x, y, width, height, v)[q] == (if x <= left < x + width && y <= top
                < y + height {
                v
            } else {
                refs[q]
            })
        }),
{
}

/// A macroblock of which nothing else is known yet has no residual, stands still,
/// and refers to the nearest picture unless it is predicted from within its own.
pub proof fn law_new_macroblocks_are_blank(ty: MbType, qp: u8, blk: int)
    requires
        0 <= blk < 16,
    ensures
        ({
            let m = MbModel::blank(ty, qp);
            &&& m.mb_type == ty && m.qp == qp
            &&& m.intra_modes[blk] == 2 && m.chroma_mode == 0
            &&& m.mv[blk] == (0i16, 0i16) && m.mvd[blk] == (0i16, 0i16)
            &&& blk < 4 ==> m.ref_idx[blk] == (if ty is Inter || ty is PSkip {
                0
            } else {
                -1
            })
            &&& m.cbp_luma == 0 && m.cbp_chroma == 0 && !m.transform_8x8 && !m.qp_delta_nonzero
            &&& !m.cbf_luma[blk] && !m.cbf_luma_dc
            &&& blk < 2 ==> !m.cbf_chroma_dc[blk]
            &&& blk < 8 ==> !m.cbf_chroma_ac[blk]
        }),
{
}

} // verus!
