//! The bins that the residual of a macroblock is coded in, block after block.
use vstd::prelude::*;
use super::blocks::{
    block_bins, coded_bins, law_blocks_are_read_back, law_coded_flags_are_read_back, size,
};
use super::cabac::{Cabac, Context};
use super::cabac_coding::{
    behind, held, lemma_ahead, lemma_parts, lemma_read_all, stands, Coder, Symbol,
};
use super::macroblock::{
    one_chroma_ac, one_chroma_dc, one_luma_4x4, residual_of, with_chroma_ac, with_luma_4x4,
    with_luma_8x8, with_luma_dc, Parse, Site,
};
use super::recon::Levels;
use super::residual::{coded_block_flag, coefficients, BlockCat};
use super::state::MbModel;
use super::syntax::{cbf_inc, CbfBlock};

verus! {

/// A place in a block has a level.
pub open spec fn filled_at(block: Seq<i32>, i: int) -> bool {
    block[i] != 0
}

/// A block has a level that is not zero.
pub open spec fn nonzero(block: Seq<i32>) -> bool {
    exists|i: int| 0 <= i < block.len() && #[trigger] filled_at(block, i)
}

/// A block with its flag: the flag alone where every level is zero.
pub open spec fn flagged_bins(cat: BlockCat, inc: int, block: Seq<i32>) -> Seq<Symbol> {
    coded_bins(cat, inc, nonzero(block)) + if nonzero(block) {
        block_bins(cat, block)
    } else {
        Seq::empty()
    }
}

/// A flagged block is read back.
proof fn lemma_flagged(
    c: Coder,
    bank: Seq<Context>,
    cat: BlockCat,
    inc: int,
    block: Seq<i32>,
    data: Seq<u8>,
    start: nat,
)
    requires
        0 <= inc < 4,
        cat !is Luma8x8,
        block.len() == size(cat),
        held(c, bank, flagged_bins(cat, inc, block), data, start),
        behind(c, bank, flagged_bins(cat, inc, block), data, start).engine.pos <= data.len() * 8,
    ensures
        ({
            let after = behind(c, bank, flagged_bins(cat, inc, block), data, start);
            let (coded, s1) = coded_block_flag(stands(c, bank, data, start), cat, inc);
            &&& coded == nonzero(block)
            &&& coded ==> coefficients(s1, cat) == (block, after)
            &&& !coded ==> s1 == after
        }),
{
    let flag = coded_bins(cat, inc, nonzero(block));
    let rest = if nonzero(block) {
        block_bins(cat, block)
    } else {
        Seq::empty()
    };
    let (c1, k1) = lemma_parts(c, bank, flag, rest, data, start);
    law_coded_flags_are_read_back(c, bank, cat, inc, nonzero(block), data, start);
    if nonzero(block) {
        let i = choose|i: int| 0 <= i < block.len() && #[trigger] filled_at(block, i);
        assert(block[i] != 0);
        law_blocks_are_read_back(c1, k1, cat, block, data, start);
    } else {
        lemma_read_all(c1, k1, rest, data, start);
    }
}

/// The kind of the 4x4 luma blocks of a macroblock.
pub open spec fn luma_kind(info: MbModel) -> BlockCat {
    if info.mb_type is Intra16x16 {
        BlockCat::Intra16x16Ac
    } else {
        BlockCat::Luma4x4
    }
}

/// The levels of a block, the first of which may be coded apart.
pub open spec fn in_place(apart: bool, block: Seq<i32>) -> Seq<i32> {
    if apart {
        seq![0i32] + block
    } else {
        block
    }
}

/// A macroblock with the flag of a 4x4 luma block.
pub open spec fn flag_luma(info: MbModel, blk: int, block: Seq<i32>) -> MbModel {
    if nonzero(block) {
        MbModel { cbf_luma: info.cbf_luma.update(blk, true), ..info }
    } else {
        info
    }
}

/// The 4x4 luma blocks from number `blk` on: those whose bit of the pattern is set,
/// in the order of their numbers.
pub open spec fn luma_bins(at: Site, info: MbModel, blocks: Seq<Seq<i32>>, blk: int) -> Seq<Symbol>
    decreases 16 - blk,
{
    if blk >= 16 {
        Seq::empty()
    } else if info.luma_8x8_coded(blk / 4) {
        flagged_bins(luma_kind(info), cbf_inc(at.at(info), CbfBlock::Luma(blk as u8)), blocks[blk])
            + luma_bins(at, flag_luma(info, blk, blocks[blk]), blocks, blk + 1)
    } else {
        luma_bins(at, info, blocks, blk + 1)
    }
}

/// The 4x4 luma blocks of a macroblock are read back in the order of their numbers,
/// each into its own place; a block whose bit of the pattern is clear has no bins
/// and stays as it is.
pub proof fn law_luma_blocks_are_read_back(
    c: Coder,
    bank: Seq<Context>,
    at: Site,
    info: MbModel,
    levels: Levels,
    blocks: Seq<Seq<i32>>,
    blk: int,
    data: Seq<u8>,
    start: nat,
)
    requires
        0 <= blk <= 16,
        info.wf(),
        levels.luma.len() == 16,
        blocks.len() == 16,
        forall|b: int| 0 <= b < 16 ==> (#[trigger] blocks[b]).len() == size(luma_kind(info)),
        held(c, bank, luma_bins(at, info, blocks, blk), data, start),
        behind(c, bank, luma_bins(at, info, blocks, blk), data, start).engine.pos <= data.len() * 8,
    ensures
        ({
            let p = Parse { info, levels, s: stands(c, bank, data, start) };
            let r = with_luma_4x4(p, at, blk);
            &&& r.s == behind(c, bank, luma_bins(at, info, blocks, blk), data, start)
            &&& r.info == (MbModel { cbf_luma: r.info.cbf_luma, ..info })
            &&& r.levels == (Levels { luma: r.levels.luma, ..levels })
            &&& r.info.wf() && r.levels.luma.len() == 16
            &&& forall|b: int|
                0 <= b < 16 ==> #[trigger] r.levels.luma[b] == (if b >= blk && info.luma_8x8_coded(
                    b / 4,
                ) && nonzero(blocks[b]) {
                    in_place(info.mb_type is Intra16x16, blocks[b])
                } else {
                    levels.luma[b]
                })
            &&& forall|b: int|
                0 <= b < 16 ==> #[trigger] r.info.cbf_luma[b] == (info.cbf_luma[b] || (b >= blk
                    && info.luma_8x8_coded(b / 4) && nonzero(blocks[b])))
        }),
    decreases 16 - blk,
{
    let p = Parse { info, levels, s: stands(c, bank, data, start) };
    if blk >= 16 {
        lemma_read_all(c, bank, luma_bins(at, info, blocks, blk), data, start);
    } else if info.luma_8x8_coded(blk / 4) {
        let inc = cbf_inc(at.at(info), CbfBlock::Luma(blk as u8));
        let first = flagged_bins(luma_kind(info), inc, blocks[blk]);
        let rest = luma_bins(at, flag_luma(info, blk, blocks[blk]), blocks, blk + 1);
        let (c1, k1) = lemma_parts(c, bank, first, rest, data, start);
        lemma_ahead(c1, k1, rest, data, start);
        lemma_flagged(c, bank, luma_kind(info), inc, blocks[blk], data, start);
        let one = one_luma_4x4(p, at, blk);
        assert(one.s == stands(c1, k1, data, start));
        assert(one.info == flag_luma(info, blk, blocks[blk]));
        law_luma_blocks_are_read_back(
            c1,
            k1,
            at,
            one.info,
            one.levels,
            blocks,
            blk + 1,
            data,
            start,
        );
    } else {
        law_luma_blocks_are_read_back(c, bank, at, info, levels, blocks, blk + 1, data, start);
    }
}

/// The 8x8 luma blocks from number `blk` on. They have no flag: a block whose bit
/// is set has a level.
pub open spec fn large_bins(info: MbModel, blocks: Seq<Seq<i32>>, blk: int) -> Seq<Symbol>
    decreases 4 - blk,
{
    if blk >= 4 {
        Seq::empty()
    } else if info.luma_8x8_coded(blk) {
        block_bins(BlockCat::Luma8x8, blocks[blk]) + large_bins(info, blocks, blk + 1)
    } else {
        large_bins(info, blocks, blk + 1)
    }
}

proof fn lemma_large_bins(a: MbModel, b: MbModel, blocks: Seq<Seq<i32>>, blk: int)
    requires
        a.cbp_luma == b.cbp_luma,
    ensures
        large_bins(a, blocks, blk) == large_bins(b, blocks, blk),
    decreases 4 - blk,
{
    if blk < 4 {
        lemma_large_bins(a, b, blocks, blk + 1);
    }
}

/// The 8x8 luma blocks of a macroblock are read back in the order of their numbers.
/// Each sets the flags of the four 4x4 blocks that it covers.
pub proof fn law_large_blocks_are_read_back(
    c: Coder,
    bank: Seq<Context>,
    info: MbModel,
    levels: Levels,
    blocks: Seq<Seq<i32>>,
    blk: int,
    data: Seq<u8>,
    start: nat,
)
    requires
        0 <= blk <= 4,
        info.wf(),
        levels.luma_8x8.len() == 4,
        blocks.len() == 4,
        forall|b: int| 0 <= b < 4 ==> (#[trigger] blocks[b]).len() == 64,
        forall|b: int|
            0 <= b < 4 && info.luma_8x8_coded(b) ==> nonzero(#[trigger] blocks[b]),
        held(c, bank, large_bins(info, blocks, blk), data, start),
        behind(c, bank, large_bins(info, blocks, blk), data, start).engine.pos <= data.len() * 8,
    ensures
        ({
            let p = Parse { info, levels, s: stands(c, bank, data, start) };
            let r = with_luma_8x8(p, blk);
            &&& r.s == behind(c, bank, large_bins(info, blocks, blk), data, start)
            &&& r.info == (MbModel { cbf_luma: r.info.cbf_luma, ..info })
            &&& r.levels == (Levels { luma_8x8: r.levels.luma_8x8, ..levels })
            &&& r.info.wf() && r.levels.luma_8x8.len() == 4
            &&& forall|b: int|
                0 <= b < 4 ==> #[trigger] r.levels.luma_8x8[b] == (if b >= blk
                    && info.luma_8x8_coded(b) {
                    blocks[b]
                } else {
                    levels.luma_8x8[b]
                })
            &&& forall|b: int|
                0 <= b < 16 ==> #[trigger] r.info.cbf_luma[b] == (info.cbf_luma[b] || (b / 4 >= blk
                    && info.luma_8x8_coded(b / 4)))
        }),
    decreases 4 - blk,
{
    let p = Parse { info, levels, s: stands(c, bank, data, start) };
    if blk >= 4 {
        lemma_read_all(c, bank, large_bins(info, blocks, blk), data, start);
    } else if info.luma_8x8_coded(blk) {
        let first = block_bins(BlockCat::Luma8x8, blocks[blk]);
        let rest = large_bins(info, blocks, blk + 1);
        let (c1, k1) = lemma_parts(c, bank, first, rest, data, start);
        lemma_ahead(c1, k1, rest, data, start);
        assert(nonzero(blocks[blk]));
        let i = choose|i: int| 0 <= i < blocks[blk].len() && #[trigger] filled_at(blocks[blk], i);
        assert(blocks[blk][i] != 0);
        law_blocks_are_read_back(c, bank, BlockCat::Luma8x8, blocks[blk], data, start);
        let next = MbModel { cbf_luma: super::macroblock::four_set(info.cbf_luma, blk), ..info };
        let put = Levels { luma_8x8: levels.luma_8x8.update(blk, blocks[blk]), ..levels };
        lemma_large_bins(info, next, blocks, blk + 1);
        law_large_blocks_are_read_back(c1, k1, next, put, blocks, blk + 1, data, start);
        assert(with_luma_8x8(p, blk) == with_luma_8x8(
            Parse { info: next, levels: put, s: stands(c1, k1, data, start) },
            blk + 1,
        ));
    } else {
        law_large_blocks_are_read_back(c, bank, info, levels, blocks, blk + 1, data, start);
    }
}

/// The luma DC block is read back where the macroblock is predicted as a whole, and
/// only there.
pub proof fn law_luma_dc_is_read_back(
    c: Coder,
    bank: Seq<Context>,
    at: Site,
    info: MbModel,
    levels: Levels,
    block: Seq<i32>,
    data: Seq<u8>,
    start: nat,
)
    requires
        block.len() == 16,
        ({
            let inc = cbf_inc(at.at(info), CbfBlock::LumaDc);
            let bins = flagged_bins(BlockCat::Intra16x16Dc, inc, block);
            &&& held(c, bank, bins, data, start)
            &&& behind(c, bank, bins, data, start).engine.pos <= data.len() * 8
        }),
    ensures
        ({
            let inc = cbf_inc(at.at(info), CbfBlock::LumaDc);
            let bins = flagged_bins(BlockCat::Intra16x16Dc, inc, block);
            let p = Parse { info, levels, s: stands(c, bank, data, start) };
            let r = with_luma_dc(p, at);
            if info.mb_type is Intra16x16 {
                &&& r.s == behind(c, bank, bins, data, start)
                &&& r.info == (MbModel { cbf_luma_dc: info.cbf_luma_dc || nonzero(block), ..info })
                &&& r.levels == (if nonzero(block) {
                    Levels { luma_dc: block, ..levels }
                } else {
                    levels
                })
            } else {
                r == p
            }
        }),
{
    if info.mb_type is Intra16x16 {
        lemma_flagged(
            c,
            bank,
            BlockCat::Intra16x16Dc,
            cbf_inc(at.at(info), CbfBlock::LumaDc),
            block,
            data,
            start,
        );
    }
}

/// A chroma DC block is read back into the place of its component.
pub proof fn law_chroma_dc_is_read_back(
    c: Coder,
    bank: Seq<Context>,
    at: Site,
    info: MbModel,
    levels: Levels,
    comp: int,
    block: Seq<i32>,
    data: Seq<u8>,
    start: nat,
)
    requires
        0 <= comp < 2,
        info.wf(),
        levels.chroma_dc.len() == 2,
        block.len() == 4,
        ({
            let inc = cbf_inc(at.at(info), CbfBlock::ChromaDc(comp as usize));
            let bins = flagged_bins(BlockCat::ChromaDc, inc, block);
            &&& held(c, bank, bins, data, start)
            &&& behind(c, bank, bins, data, start).engine.pos <= data.len() * 8
        }),
    ensures
        ({
            let inc = cbf_inc(at.at(info), CbfBlock::ChromaDc(comp as usize));
            let bins = flagged_bins(BlockCat::ChromaDc, inc, block);
            let p = Parse { info, levels, s: stands(c, bank, data, start) };
            let r = one_chroma_dc(p, at, comp);
            &&& r.s == behind(c, bank, bins, data, start)
            &&& nonzero(block) ==> {
                &&& r.info == (MbModel {
                    cbf_chroma_dc: info.cbf_chroma_dc.update(comp, true),
                    ..info
                })
                &&& r.levels == (Levels {
                    chroma_dc: levels.chroma_dc.update(comp, block),
                    ..levels
                })
            }
            &&& !nonzero(block) ==> r.info == info && r.levels == levels
        }),
{
    lemma_flagged(
        c,
        bank,
        BlockCat::ChromaDc,
        cbf_inc(at.at(info), CbfBlock::ChromaDc(comp as usize)),
        block,
        data,
        start,
    );
}

/// A macroblock with the flag of a chroma AC block.
pub open spec fn flag_chroma(info: MbModel, i: int, block: Seq<i32>) -> MbModel {
    if nonzero(block) {
        MbModel { cbf_chroma_ac: info.cbf_chroma_ac.update(i, true), ..info }
    } else {
        info
    }
}

/// The chroma AC blocks from number `i` on: the four of the first component, then
/// the four of the second.
pub open spec fn chroma_bins(at: Site, info: MbModel, blocks: Seq<Seq<i32>>, i: int) -> Seq<Symbol>
    decreases 8 - i,
{
    if i >= 8 {
        Seq::empty()
    } else {
        let name = if i < 4 {
            CbfBlock::ChromaAc(0, i as u8)
        } else {
            CbfBlock::ChromaAc(1, (i - 4) as u8)
        };
        flagged_bins(BlockCat::ChromaAc, cbf_inc(at.at(info), name), blocks[i]) + chroma_bins(
            at,
            flag_chroma(info, i, blocks[i]),
            blocks,
            i + 1,
        )
    }
}

/// The chroma AC blocks of a macroblock are read back, those of the first component
/// first, each into its own place behind its DC level.
pub proof fn law_chroma_blocks_are_read_back(
    c: Coder,
    bank: Seq<Context>,
    at: Site,
    info: MbModel,
    levels: Levels,
    blocks: Seq<Seq<i32>>,
    i: int,
    data: Seq<u8>,
    start: nat,
)
    requires
        0 <= i <= 8,
        info.wf(),
        levels.chroma.len() == 8,
        blocks.len() == 8,
        forall|b: int| 0 <= b < 8 ==> (#[trigger] blocks[b]).len() == 15,
        held(c, bank, chroma_bins(at, info, blocks, i), data, start),
        behind(c, bank, chroma_bins(at, info, blocks, i), data, start).engine.pos <= data.len() * 8,
    ensures
        ({
            let p = Parse { info, levels, s: stands(c, bank, data, start) };
            let r = with_chroma_ac(p, at, i);
            &&& r.s == behind(c, bank, chroma_bins(at, info, blocks, i), data, start)
            &&& r.info == (MbModel { cbf_chroma_ac: r.info.cbf_chroma_ac, ..info })
            &&& r.levels == (Levels { chroma: r.levels.chroma, ..levels })
            &&& r.info.wf() && r.levels.chroma.len() == 8
            &&& forall|b: int|
                0 <= b < 8 ==> #[trigger] r.levels.chroma[b] == (if b >= i && nonzero(blocks[b]) {
                    in_place(true, blocks[b])
                } else {
                    levels.chroma[b]
                })
            &&& forall|b: int|
                0 <= b < 8 ==> #[trigger] r.info.cbf_chroma_ac[b] == (info.cbf_chroma_ac[b] || (b
                    >= i && nonzero(blocks[b])))
        }),
    decreases 8 - i,
{
    let p = Parse { info, levels, s: stands(c, bank, data, start) };
    if i >= 8 {
        lemma_read_all(c, bank, chroma_bins(at, info, blocks, i), data, start);
    } else {
        let name = if i < 4 {
            CbfBlock::ChromaAc(0, i as u8)
        } else {
            CbfBlock::ChromaAc(1, (i - 4) as u8)
        };
        let inc = cbf_inc(at.at(info), name);
        let first = flagged_bins(BlockCat::ChromaAc, inc, blocks[i]);
        let rest = chroma_bins(at, flag_chroma(info, i, blocks[i]), blocks, i + 1);
        let (c1, k1) = lemma_parts(c, bank, first, rest, data, start);
        lemma_ahead(c1, k1, rest, data, start);
        lemma_flagged(c, bank, BlockCat::ChromaAc, inc, blocks[i], data, start);
        assert(i / 4 == (if i < 4 {
            0int
        } else {
            1
        }) && i % 4 == (if i < 4 {
            i
        } else {
            i - 4
        }));
        let one = one_chroma_ac(p, at, i / 4, i % 4);
        assert(one.s == stands(c1, k1, data, start));
        assert(one.info == flag_chroma(info, i, blocks[i]));
        law_chroma_blocks_are_read_back(
            c1,
            k1,
            at,
            one.info,
            one.levels,
            blocks,
            i + 1,
            data,
            start,
        );
    }
}

/// The blocks of a macroblock's residual.
pub struct Blocks {
    pub luma_dc: Seq<i32>,
    pub luma: Seq<Seq<i32>>,
    pub large: Seq<Seq<i32>>,
    pub chroma_dc: Seq<Seq<i32>>,
    pub chroma: Seq<Seq<i32>>,
}

impl Blocks {
    /// Every block has the levels of its kind.
    pub open spec fn wf(self, info: MbModel) -> bool {
        &&& self.luma_dc.len() == 16
        &&& self.luma.len() == 16
        &&& forall|b: int|
            0 <= b < 16 ==> (#[trigger] self.luma[b]).len() == (if info.mb_type is Intra16x16 {
                15int
            } else {
                16
            })
        &&& self.large.len() == 4
        &&& forall|b: int| 0 <= b < 4 ==> (#[trigger] self.large[b]).len() == 64
        &&& forall|b: int|
            0 <= b < 4 && info.transform_8x8 && info.luma_8x8_coded(b) ==> nonzero(
                #[trigger] self.large[b],
            )
        &&& self.chroma_dc.len() == 2
        &&& forall|b: int| 0 <= b < 2 ==> (#[trigger] self.chroma_dc[b]).len() == 4
        &&& self.chroma.len() == 8
        &&& forall|b: int| 0 <= b < 8 ==> (#[trigger] self.chroma[b]).len() == 15
    }

    /// The macroblock once its luma DC block is known.
    pub open spec fn after_dc(self, info: MbModel) -> MbModel {
        if info.mb_type is Intra16x16 && nonzero(self.luma_dc) {
            MbModel { cbf_luma_dc: true, ..info }
        } else {
            info
        }
    }

    /// The macroblock once its luma blocks are known.
    pub open spec fn after_luma(self, info: MbModel) -> MbModel {
        MbModel {
            cbf_luma: Seq::new(
                16,
                |b: int|
                    info.cbf_luma[b] || (info.luma_8x8_coded(b / 4) && (info.transform_8x8
                        || nonzero(self.luma[b]))),
            ),
            ..self.after_dc(info)
        }
    }

    /// The macroblock once the chroma DC blocks of `n` components are known.
    pub open spec fn after_chroma_dc(self, info: MbModel, n: int) -> MbModel {
        let first = self.after_luma(info);
        let second = if n >= 1 && nonzero(self.chroma_dc[0]) {
            MbModel { cbf_chroma_dc: first.cbf_chroma_dc.update(0, true), ..first }
        } else {
            first
        };
        if n >= 2 && nonzero(self.chroma_dc[1]) {
            MbModel { cbf_chroma_dc: second.cbf_chroma_dc.update(1, true), ..second }
        } else {
            second
        }
    }

    /// The bins of the luma DC block.
    pub open spec fn dc_bins(self, at: Site, info: MbModel) -> Seq<Symbol> {
        if info.mb_type is Intra16x16 {
            flagged_bins(
                BlockCat::Intra16x16Dc,
                cbf_inc(at.at(info), CbfBlock::LumaDc),
                self.luma_dc,
            )
        } else {
            Seq::empty()
        }
    }

    /// The bins of the other luma blocks.
    pub open spec fn ac_bins(self, at: Site, info: MbModel) -> Seq<Symbol> {
        if info.transform_8x8 {
            large_bins(self.after_dc(info), self.large, 0)
        } else {
            luma_bins(at, self.after_dc(info), self.luma, 0)
        }
    }

    /// The bins of the chroma DC block of a component.
    pub open spec fn chroma_dc_bins(self, at: Site, info: MbModel, comp: int) -> Seq<Symbol> {
        if info.cbp_chroma == 0 {
            Seq::empty()
        } else {
            flagged_bins(
                BlockCat::ChromaDc,
                cbf_inc(
                    at.at(self.after_chroma_dc(info, comp)),
                    CbfBlock::ChromaDc(comp as usize),
                ),
                self.chroma_dc[comp],
            )
        }
    }

    /// The bins of the chroma AC blocks.
    pub open spec fn chroma_ac_bins(self, at: Site, info: MbModel) -> Seq<Symbol> {
        if info.cbp_chroma == 2 {
            chroma_bins(at, self.after_chroma_dc(info, 2), self.chroma, 0)
        } else {
            Seq::empty()
        }
    }

    /// The bins of everything.
    pub open spec fn bins(self, at: Site, info: MbModel) -> Seq<Symbol> {
        self.dc_bins(at, info) + (self.ac_bins(at, info) + (self.chroma_dc_bins(at, info, 0) + (
        self.chroma_dc_bins(at, info, 1) + self.chroma_ac_bins(at, info))))
    }
}

/// The residual of a macroblock is read back. Its bins are those of the luma DC
/// block, where the macroblock is predicted as a whole; of the luma blocks that the
/// pattern names; of both chroma DC blocks, where there is any chroma; and of the
/// chroma AC blocks, where there is more than DC. What has no bins has no levels.
pub proof fn law_residuals_are_read_back(
    c: Coder,
    bank: Seq<Context>,
    at: Site,
    info: MbModel,
    b: Blocks,
    data: Seq<u8>,
    start: nat,
)
    requires
        info.wf(),
        info.cbp_chroma <= 2,
        b.wf(info),
        held(c, bank, b.bins(at, info), data, start),
        behind(c, bank, b.bins(at, info), data, start).engine.pos <= data.len() * 8,
    ensures
        ({
            let r = residual_of(stands(c, bank, data, start), at, info);
            let none = Levels::none();
            &&& r.s == behind(c, bank, b.bins(at, info), data, start)
            &&& r.levels.luma_dc == (if info.mb_type is Intra16x16 && nonzero(b.luma_dc) {
                b.luma_dc
            } else {
                none.luma_dc
            })
            &&& forall|k: int|
                0 <= k < 16 ==> #[trigger] r.levels.luma[k] == (if !info.transform_8x8
                    && info.luma_8x8_coded(k / 4) && nonzero(b.luma[k]) {
                    in_place(info.mb_type is Intra16x16, b.luma[k])
                } else {
                    none.luma[k]
                })
            &&& forall|k: int|
                0 <= k < 4 ==> #[trigger] r.levels.luma_8x8[k] == (if info.transform_8x8
                    && info.luma_8x8_coded(k) {
                    b.large[k]
                } else {
                    none.luma_8x8[k]
                })
            &&& forall|k: int|
                0 <= k < 2 ==> #[trigger] r.levels.chroma_dc[k] == (if info.cbp_chroma > 0
                    && nonzero(b.chroma_dc[k]) {
                    b.chroma_dc[k]
                } else {
                    none.chroma_dc[k]
                })
            &&& forall|k: int|
                0 <= k < 8 ==> #[trigger] r.levels.chroma[k] == (if info.cbp_chroma == 2
                    && nonzero(b.chroma[k]) {
                    in_place(true, b.chroma[k])
                } else {
                    none.chroma[k]
                })
        }),
{
    let luma = b.dc_bins(at, info) + b.ac_bins(at, info);
    let chroma = b.chroma_dc_bins(at, info, 0) + (b.chroma_dc_bins(at, info, 1)
        + b.chroma_ac_bins(at, info));
    assert(b.bins(at, info) =~= luma + chroma);
    let (c1, k1) = lemma_parts(c, bank, luma, chroma, data, start);
    lemma_ahead(c1, k1, chroma, data, start);
    lemma_luma(c, bank, at, info, b, data, start);
    let p = luma_part(stands(c, bank, data, start), at, info);
    lemma_chroma(c1, k1, at, info, b, p.levels, data, start);
    assert(residual_of(stands(c, bank, data, start), at, info) == chroma_part(p, at, info));
}

/// The luma part of a residual.
spec fn luma_part(s: Cabac, at: Site, info: MbModel) -> Parse {
    let dc = with_luma_dc(Parse { info, levels: Levels::none(), s }, at);
    if info.transform_8x8 {
        with_luma_8x8(dc, 0)
    } else {
        with_luma_4x4(dc, at, 0)
    }
}

/// The chroma part of a residual.
spec fn chroma_part(p: Parse, at: Site, info: MbModel) -> Parse {
    let dc = if info.cbp_chroma != 0 {
        one_chroma_dc(one_chroma_dc(p, at, 0), at, 1)
    } else {
        p
    };
    if info.cbp_chroma == 2 {
        with_chroma_ac(dc, at, 0)
    } else {
        dc
    }
}

/// The luma part of a residual is read back.
proof fn lemma_luma(
    c: Coder,
    bank: Seq<Context>,
    at: Site,
    info: MbModel,
    b: Blocks,
    data: Seq<u8>,
    start: nat,
)
    requires
        info.wf(),
        b.wf(info),
        held(c, bank, b.dc_bins(at, info) + b.ac_bins(at, info), data, start),
        behind(c, bank, b.dc_bins(at, info) + b.ac_bins(at, info), data, start).engine.pos
            <= data.len() * 8,
    ensures
        ({
            let r = luma_part(stands(c, bank, data, start), at, info);
            let none = Levels::none();
            &&& r.s == behind(c, bank, b.dc_bins(at, info) + b.ac_bins(at, info), data, start)
            &&& r.info == b.after_luma(info)
            &&& r.levels.chroma_dc == none.chroma_dc
            &&& r.levels.chroma == none.chroma
            &&& r.levels.luma_dc == (if info.mb_type is Intra16x16 && nonzero(b.luma_dc) {
                b.luma_dc
            } else {
                none.luma_dc
            })
            &&& forall|k: int|
                0 <= k < 16 ==> #[trigger] r.levels.luma[k] == (if !info.transform_8x8
                    && info.luma_8x8_coded(k / 4) && nonzero(b.luma[k]) {
                    in_place(info.mb_type is Intra16x16, b.luma[k])
                } else {
                    none.luma[k]
                })
            &&& forall|k: int|
                0 <= k < 4 ==> #[trigger] r.levels.luma_8x8[k] == (if info.transform_8x8
                    && info.luma_8x8_coded(k) {
                    b.large[k]
                } else {
                    none.luma_8x8[k]
                })
        }),
{
    let (w0, w1) = (b.dc_bins(at, info), b.ac_bins(at, info));
    let (c1, k1) = lemma_parts(c, bank, w0, w1, data, start);
    lemma_ahead(c1, k1, w1, data, start);
    let p0 = Parse { info, levels: Levels::none(), s: stands(c, bank, data, start) };
    let p1 = with_luma_dc(p0, at);
    if info.mb_type is Intra16x16 {
        law_luma_dc_is_read_back(c, bank, at, info, p0.levels, b.luma_dc, data, start);
    } else {
        lemma_read_all(c, bank, w0, data, start);
    }
    let i1 = b.after_dc(info);
    assert(p1.s == stands(c1, k1, data, start));
    assert(p1.info == i1);
    assert(i1.wf());
    if info.transform_8x8 {
        law_large_blocks_are_read_back(c1, k1, i1, p1.levels, b.large, 0, data, start);
    } else {
        law_luma_blocks_are_read_back(c1, k1, at, i1, p1.levels, b.luma, 0, data, start);
    }
    let r = luma_part(stands(c, bank, data, start), at, info);
    assert(r.info.cbf_luma =~= b.after_luma(info).cbf_luma);
}

/// The chroma part of a residual is read back.
proof fn lemma_chroma(
    c: Coder,
    bank: Seq<Context>,
    at: Site,
    info: MbModel,
    b: Blocks,
    levels: Levels,
    data: Seq<u8>,
    start: nat,
)
    requires
        info.wf(),
        info.cbp_chroma <= 2,
        b.wf(info),
        levels.chroma_dc == Levels::none().chroma_dc,
        levels.chroma == Levels::none().chroma,
        ({
            let bins = b.chroma_dc_bins(at, info, 0) + (b.chroma_dc_bins(at, info, 1)
                + b.chroma_ac_bins(at, info));
            &&& held(c, bank, bins, data, start)
            &&& behind(c, bank, bins, data, start).engine.pos <= data.len() * 8
        }),
    ensures
        ({
            let bins = b.chroma_dc_bins(at, info, 0) + (b.chroma_dc_bins(at, info, 1)
                + b.chroma_ac_bins(at, info));
            let p = Parse { info: b.after_luma(info), levels, s: stands(c, bank, data, start) };
            let none = Levels::none();
            let r = chroma_part(p, at, info);
            &&& r.s == behind(c, bank, bins, data, start)
            &&& r.levels == (Levels {
                chroma_dc: r.levels.chroma_dc,
                chroma: r.levels.chroma,
                ..levels
            })
            &&& forall|k: int|
                0 <= k < 2 ==> #[trigger] r.levels.chroma_dc[k] == (if info.cbp_chroma > 0
                    && nonzero(b.chroma_dc[k]) {
                    b.chroma_dc[k]
                } else {
                    none.chroma_dc[k]
                })
            &&& forall|k: int|
                0 <= k < 8 ==> #[trigger] r.levels.chroma[k] == (if info.cbp_chroma == 2
                    && nonzero(b.chroma[k]) {
                    in_place(true, b.chroma[k])
                } else {
                    none.chroma[k]
                })
        }),
{
    let (w2, w3, w4) = (
        b.chroma_dc_bins(at, info, 0),
        b.chroma_dc_bins(at, info, 1),
        b.chroma_ac_bins(at, info),
    );
    let (c3, k3) = lemma_parts(c, bank, w2, w3 + w4, data, start);
    let (c4, k4) = lemma_parts(c3, k3, w3, w4, data, start);
    lemma_ahead(c4, k4, w4, data, start);
    lemma_ahead(c3, k3, w3, data, start);
    let p = Parse { info: b.after_luma(info), levels, s: stands(c, bank, data, start) };
    if info.cbp_chroma == 0 {
        lemma_read_all(c, bank, w2, data, start);
        lemma_read_all(c3, k3, w3, data, start);
        lemma_read_all(c4, k4, w4, data, start);
    } else {
        law_chroma_dc_is_read_back(
            c,
            bank,
            at,
            b.after_luma(info),
            levels,
            0,
            b.chroma_dc[0],
            data,
            start,
        );
        let q1 = one_chroma_dc(p, at, 0);
        assert(q1.info == b.after_chroma_dc(info, 1) && q1.s == stands(c3, k3, data, start));
        law_chroma_dc_is_read_back(
            c3,
            k3,
            at,
            q1.info,
            q1.levels,
            1,
            b.chroma_dc[1],
            data,
            start,
        );
        let q2 = one_chroma_dc(q1, at, 1);
        assert(q2.info == b.after_chroma_dc(info, 2) && q2.s == stands(c4, k4, data, start));
        if info.cbp_chroma == 2 {
            law_chroma_blocks_are_read_back(
                c4,
                k4,
                at,
                q2.info,
                q2.levels,
                b.chroma,
                0,
                data,
                start,
            );
        } else {
            lemma_read_all(c4, k4, w4, data, start);
        }
    }
}

} // verus!
