//! Per-macroblock decoded state for the picture in progress.
//!
//! Nearly every syntax element is coded against its neighbours; this is what
//! those lookups read. Fields a macroblock does not really have carry the value
//! the lookups are defined to see: intra modes on an inter macroblock, motion
//! vectors on an intra one.
use vstd::prelude::*;
use super::inter::Neighbour;
use super::mb::{MbType, Part, Partitioning};
use super::neighbour::{
    law_scan_orders_round_trip, luma_4x4_index, luma_4x4_x, luma_4x4_y, spec_luma_4x4_index, BlockRef, Grid, MbAddr, Neighbourhood,
};

verus! {

/// The intra mode that stands for a macroblock without intra modes of its own.
pub const DC_PRED_MODE: u8 = 2;

/// Reference index meaning "no reference".
pub const NO_REF: i8 = -1;

/// What a decoded macroblock left behind for its neighbours.
#[derive(Debug, Clone, Copy)]
pub struct MbInfo {
    pub mb_type: MbType,
    /// Whether the 8x8 transform is used.
    pub transform_8x8: bool,
    /// The luma quantiser.
    pub qp: u8,
    /// Coded block pattern of luma, one bit per 8x8 block.
    pub cbp_luma: u8,
    /// Coded block pattern of chroma: 0, 1 or 2.
    pub cbp_chroma: u8,
    /// Chroma prediction mode, zero where none is coded.
    pub chroma_mode: u8,
    /// Whether the quantiser delta was non-zero.
    pub qp_delta_nonzero: bool,
    /// Intra mode per 4x4 luma block, in scan order.
    pub intra_modes: [u8; 16],
    /// Motion vector per 4x4 luma block, in quarter samples.
    pub mv: [[i16; 2]; 16],
    /// Coded motion vector difference per 4x4 luma block.
    pub mvd: [[i16; 2]; 16],
    /// Reference index per 8x8 partition.
    pub ref_idx: [i8; 4],
    /// Coded flag per 4x4 luma block, one bit each in scan order.
    pub cbf_luma: u16,
    /// Coded flag of the `I_16x16` luma DC block.
    pub cbf_luma_dc: bool,
    /// Coded flag per chroma component's DC block.
    pub cbf_chroma_dc: [bool; 2],
    /// Coded flags per chroma component, one bit per 4x4 AC block.
    pub cbf_chroma_ac: [u8; 2],
}

/// What a decoded macroblock left behind, as a mathematical value.
#[verifier::ext_equal]
pub struct MbModel {
    pub mb_type: MbType,
    pub transform_8x8: bool,
    pub qp: u8,
    pub cbp_luma: u8,
    pub cbp_chroma: u8,
    pub chroma_mode: u8,
    pub qp_delta_nonzero: bool,
    pub intra_modes: Seq<u8>,
    pub mv: Seq<(i16, i16)>,
    pub mvd: Seq<(i16, i16)>,
    pub ref_idx: Seq<i8>,
    pub cbf_luma: Seq<bool>,
    pub cbf_luma_dc: bool,
    pub cbf_chroma_dc: Seq<bool>,
    /// Four flags of each component.
    pub cbf_chroma_ac: Seq<bool>,
}

impl MbModel {
    /// No residual, no coded vector, no intra mode.
    pub open spec fn blank(mb_type: MbType, qp: u8) -> MbModel {
        let first: i8 = if mb_type.spec_is_intra() {
            NO_REF
        } else {
            0
        };
        MbModel {
            mb_type,
            transform_8x8: false,
            qp,
            cbp_luma: 0,
            cbp_chroma: 0,
            chroma_mode: 0,
            qp_delta_nonzero: false,
            intra_modes: Seq::new(16, |i: int| DC_PRED_MODE),
            mv: Seq::new(16, |i: int| (0i16, 0i16)),
            mvd: Seq::new(16, |i: int| (0i16, 0i16)),
            ref_idx: Seq::new(4, |i: int| first),
            cbf_luma: Seq::new(16, |i: int| false),
            cbf_luma_dc: false,
            cbf_chroma_dc: Seq::new(2, |i: int| false),
            cbf_chroma_ac: Seq::new(8, |i: int| false),
        }
    }

    /// Predicted from within the picture.
    pub open spec fn is_intra(self) -> bool {
        self.mb_type.spec_is_intra()
    }

    /// Whether an 8x8 luma block has coefficients.
    pub open spec fn luma_8x8_coded(self, blk: int) -> bool {
        (self.cbp_luma >> blk as u8) & 1 == 1
    }

    /// There is an entry per block.
    pub open spec fn wf(self) -> bool {
        &&& self.intra_modes.len() == 16
        &&& self.mv.len() == 16
        &&& self.mvd.len() == 16
        &&& self.ref_idx.len() == 4
        &&& self.cbf_luma.len() == 16
        &&& self.cbf_chroma_dc.len() == 2
        &&& self.cbf_chroma_ac.len() == 8
    }
}

/// Vectors with those of the 4x4 blocks a rectangle meets replaced.
pub open spec fn filled(
    vectors: Seq<(i16, i16)>,
    x: int,
    y: int,
    width: int,
    height: int,
    v: (i16, i16),
) -> Seq<(i16, i16)> {
    Seq::new(
        16,
        |b: int|
            if block_met(b, x, y, width, height) {
                v
            } else {
                vectors[b]
            },
    )
}

/// Reference indices with those of the 8x8 partitions a rectangle meets
/// replaced.
pub open spec fn filled_refs(
    refs: Seq<i8>,
    x: int,
    y: int,
    width: int,
    height: int,
    v: i8,
) -> Seq<i8> {
    Seq::new(
        4,
        |q: int|
            if quadrant_met(q, x, y, width, height) {
                v
            } else {
                refs[q]
            },
    )
}

/// Pairs of an array of two-element arrays.
pub open spec fn pairs(vectors: Seq<[i16; 2]>) -> Seq<(i16, i16)> {
    Seq::new(vectors.len(), |i: int| (vectors[i]@[0], vectors[i]@[1]))
}

impl View for MbInfo {
    type V = MbModel;

    open spec fn view(&self) -> MbModel {
        MbModel {
            mb_type: self.mb_type,
            transform_8x8: self.transform_8x8,
            qp: self.qp,
            cbp_luma: self.cbp_luma,
            cbp_chroma: self.cbp_chroma,
            chroma_mode: self.chroma_mode,
            qp_delta_nonzero: self.qp_delta_nonzero,
            intra_modes: self.intra_modes@,
            mv: pairs(self.mv@),
            mvd: pairs(self.mvd@),
            ref_idx: self.ref_idx@,
            cbf_luma: Seq::new(16, |b: int| self.luma_bit(b)),
            cbf_luma_dc: self.cbf_luma_dc,
            cbf_chroma_dc: self.cbf_chroma_dc@,
            cbf_chroma_ac: Seq::new(8, |i: int| self.chroma_bit(i / 4, i % 4)),
        }
    }
}

/// Whether column `c` of a grid of blocks `size` samples wide is met on the way
/// from `from` to `from + extent` in steps of `size`.
pub open spec fn met(c: int, from: int, extent: int, size: int) -> bool {
    from / size <= c && size * (c - from / size) < extent
}

/// Whether a 4x4 block is met by a rectangle of the macroblock.
pub open spec fn block_met(blk: int, x: int, y: int, width: int, height: int) -> bool {
    met(luma_4x4_x(blk) / 4, x, width, 4) && met(luma_4x4_y(blk) / 4, y, height, 4)
}

/// Whether an 8x8 partition is met by a rectangle of the macroblock.
pub open spec fn quadrant_met(q: int, x: int, y: int, width: int, height: int) -> bool {
    met(q % 2, x, width, 8) && met(q / 2, y, height, 8)
}

/// A rectangle whose blocks of `size` samples all belong to a macroblock.
pub open spec fn inside_macroblock(x: int, y: int, width: int, height: int, size: int) -> bool {
    &&& width == 0 || size * (x / size) + size * ((width + size - 1) / size) <= 16
    &&& height == 0 || size * (y / size) + size * ((height + size - 1) / size) <= 16
}

impl MbInfo {
    /// The flag of a 4x4 luma block.
    pub open spec fn luma_bit(self, blk: int) -> bool {
        (self.cbf_luma >> blk as u16) & 1 == 1
    }

    /// The flag of a 4x4 chroma AC block of a component.
    pub open spec fn chroma_bit(self, comp: int, blk: int) -> bool {
        (self.cbf_chroma_ac@[comp] >> blk as u8) & 1 == 1
    }

    /// The state a macroblock leaves behind when it is skipped.
    pub fn skipped() -> (info: Self)
        ensures
            info@ == MbModel::blank(MbType::PSkip, 0),
    {
        MbInfo::new(MbType::PSkip, 0)
    }

    /// A blank macroblock of the given type, before its syntax is decoded.
    pub fn new(mb_type: MbType, qp: u8) -> (info: Self)
        ensures
            info@ == MbModel::blank(mb_type, qp),
    {
        let first: i8 = if mb_type.is_intra() {
            NO_REF
        } else {
            0
        };
        let info = MbInfo {
            mb_type,
            transform_8x8: false,
            qp,
            cbp_luma: 0,
            cbp_chroma: 0,
            chroma_mode: 0,
            qp_delta_nonzero: false,
            intra_modes: [2u8;16],
            mv: [[0i16, 0i16];16],
            mvd: [[0i16, 0i16];16],
            ref_idx: [first;4],
            cbf_luma: 0,
            cbf_luma_dc: false,
            cbf_chroma_dc: [false;2],
            cbf_chroma_ac: [0u8;2],
        };
        proof {
            let blank = MbModel::blank(mb_type, qp);
            assert forall|b: int| 0 <= b < 16 implies !#[trigger] info.luma_bit(b) by {
                let n = b as u16;
                assert((0u16 >> n) & 1 == 0) by (bit_vector);
            }
            assert forall|c: int, b: int| 0 <= c < 2 && 0 <= b < 4 implies !#[trigger] info.chroma_bit(
                c,
                b,
            ) by {
                let n = b as u8;
                assert((0u8 >> n) & 1 == 0) by (bit_vector);
            }
            assert(info@ =~= blank);
        }
        info
    }

    /// Predicted from within the picture.
    pub fn is_intra(&self) -> (r: bool)
        ensures
            r == self@.is_intra(),
    {
        self.mb_type.is_intra()
    }

    /// Skipped.
    pub fn is_skipped(&self) -> (r: bool)
        ensures
            r <==> self@.mb_type is PSkip,
    {
        self.mb_type == MbType::PSkip
    }

    /// Whether a neighbour can predict intra modes from this macroblock.
    pub fn is_intra_nxn(&self) -> (r: bool)
        ensures
            r <==> self@.mb_type is IntraNxN,
    {
        self.mb_type == MbType::IntraNxN
    }

    /// The reference index covering a 4x4 luma block.
    pub fn ref_idx_of_block(&self, blk: u8) -> (r: i8)
        requires
            blk < 16,
        ensures
            r == self@.ref_idx[blk as int / 4],
    {
        self.ref_idx[blk as usize / 4]
    }

    /// Whether a 4x4 luma block has coefficients.
    pub fn luma_cbf(&self, blk: u8) -> (r: bool)
        requires
            blk < 16,
        ensures
            r == self@.cbf_luma[blk as int],
    {
        (self.cbf_luma >> blk as u16) & 1 == 1
    }

    /// Records whether a 4x4 luma block has coefficients.
    pub fn set_luma_cbf(&mut self, blk: u8, set: bool)
        requires
            blk < 16,
        ensures
            final(self)@ == (MbModel {
                cbf_luma: old(self)@.cbf_luma.update(blk as int, set),
                ..old(self)@
            }),
    {
        let old_bits: u16 = self.cbf_luma;
        let n: u16 = blk as u16;
        let new_bits: u16 = if set {
            old_bits | (1u16 << n)
        } else {
            old_bits & !(1u16 << n)
        };
        proof {
            lemma_set_bit_16(old_bits, new_bits, n, set);
        }
        self.cbf_luma = new_bits;
        assert(self@.cbf_luma =~= old(self)@.cbf_luma.update(blk as int, set));
        assert(self@.cbf_chroma_ac =~= old(self)@.cbf_chroma_ac);
    }

    /// Whether a 4x4 chroma AC block of component `comp` has coefficients.
    pub fn chroma_cbf(&self, comp: usize, blk: u8) -> (r: bool)
        requires
            comp < 2,
            blk < 4,
        ensures
            r == self@.cbf_chroma_ac[comp * 4 + blk],
    {
        (self.cbf_chroma_ac[comp] >> blk) & 1 == 1
    }

    /// Records whether a 4x4 chroma AC block has coefficients.
    pub fn set_chroma_cbf(&mut self, comp: usize, blk: u8, set: bool)
        requires
            comp < 2,
            blk < 4,
        ensures
            final(self)@ == (MbModel {
                cbf_chroma_ac: old(self)@.cbf_chroma_ac.update(comp * 4 + blk, set),
                ..old(self)@
            }),
    {
        let old_bits: u8 = self.cbf_chroma_ac[comp];
        let new_bits: u8 = if set {
            old_bits | (1u8 << blk)
        } else {
            old_bits & !(1u8 << blk)
        };
        proof {
            lemma_set_bit_8(old_bits, new_bits, blk, set);
        }
        self.cbf_chroma_ac[comp] = new_bits;
        assert(self@.cbf_luma =~= old(self)@.cbf_luma);
        assert(self@.cbf_chroma_ac =~= old(self)@.cbf_chroma_ac.update(comp * 4 + blk, set));
    }

    /// Whether the 8x8 luma block at `blk` has any coded coefficients.
    pub fn luma_8x8_coded(&self, blk: u8) -> (r: bool)
        requires
            blk < 8,
        ensures
            r == self@.luma_8x8_coded(blk as int),
    {
        (self.cbp_luma >> blk) & 1 == 1
    }

    /// Sets the motion vector of every 4x4 block a rectangle of the macroblock
    /// meets.
    pub fn fill_motion(&mut self, x: usize, y: usize, width: usize, height: usize, mv: [i16; 2])
        requires
            x < 16,
            y < 16,
            width <= 16,
            height <= 16,
            inside_macroblock(x as int, y as int, width as int, height as int, 4),
        ensures
            final(self)@ == (MbModel {
                mv: filled(
                    old(self)@.mv,
                    x as int,
                    y as int,
                    width as int,
                    height as int,
                    (mv@[0], mv@[1]),
                ),
                ..old(self)@
            }),
    {
        fill_blocks(&mut self.mv, x, y, width, height, mv);
        assert(self@.mv =~= filled(
            old(self)@.mv,
            x as int,
            y as int,
            width as int,
            height as int,
            (mv@[0], mv@[1]),
        ));
        assert(self@.cbf_luma =~= old(self)@.cbf_luma);
        assert(self@.cbf_chroma_ac =~= old(self)@.cbf_chroma_ac);
    }

    /// As [`Self::fill_motion`], for the coded difference.
    pub fn fill_mvd(&mut self, x: usize, y: usize, width: usize, height: usize, mvd: [i16; 2])
        requires
            x < 16,
            y < 16,
            width <= 16,
            height <= 16,
            inside_macroblock(x as int, y as int, width as int, height as int, 4),
        ensures
            final(self)@ == (MbModel {
                mvd: filled(
                    old(self)@.mvd,
                    x as int,
                    y as int,
                    width as int,
                    height as int,
                    (mvd@[0], mvd@[1]),
                ),
                ..old(self)@
            }),
    {
        fill_blocks(&mut self.mvd, x, y, width, height, mvd);
        assert(self@.mvd =~= filled(
            old(self)@.mvd,
            x as int,
            y as int,
            width as int,
            height as int,
            (mvd@[0], mvd@[1]),
        ));
        assert(self@.cbf_luma =~= old(self)@.cbf_luma);
        assert(self@.cbf_chroma_ac =~= old(self)@.cbf_chroma_ac);
    }

    /// Sets the reference index of every 8x8 partition a rectangle meets.
    pub fn fill_ref_idx(&mut self, x: usize, y: usize, width: usize, height: usize, ref_idx: i8)
        requires
            x < 16,
            y < 16,
            width <= 16,
            height <= 16,
            inside_macroblock(x as int, y as int, width as int, height as int, 8),
        ensures
            final(self)@ == (MbModel {
                ref_idx: filled_refs(
                    old(self)@.ref_idx,
                    x as int,
                    y as int,
                    width as int,
                    height as int,
                    ref_idx,
                ),
                ..old(self)@
            }),
    {
        let ghost before = self.ref_idx@;
        for q in 0..4usize
            invariant
                x < 16,
                y < 16,
                width <= 16,
                height <= 16,
                *self == (MbInfo { ref_idx: self.ref_idx, ..*old(self) }),
                before == old(self).ref_idx@,
                forall|r: int|
                    0 <= r < 4 ==> (#[trigger] self.ref_idx@[r]) == if r < q && quadrant_met(
                        r,
                        x as int,
                        y as int,
                        width as int,
                        height as int,
                    ) {
                        ref_idx
                    } else {
                        before[r]
                    },
        {
            if meets(q % 2, x, width, 8) && meets(q / 2, y, height, 8) {
                self.ref_idx[q] = ref_idx;
            }
        }
        assert(self@.ref_idx =~= filled_refs(
            old(self)@.ref_idx,
            x as int,
            y as int,
            width as int,
            height as int,
            ref_idx,
        ));
        assert(self@.cbf_luma =~= old(self)@.cbf_luma);
        assert(self@.cbf_chroma_ac =~= old(self)@.cbf_chroma_ac);
    }
}

fn meets(c: usize, from: usize, extent: usize, size: usize) -> (r: bool)
    requires
        c < 16,
        from < 16,
        extent <= 16,
        size == 4 || size == 8,
    ensures
        r == met(c as int, from as int, extent as int, size as int),
{
    if size == 4 {
        from / 4 <= c && 4 * (c - from / 4) < extent
    } else {
        from / 8 <= c && 8 * (c - from / 8) < extent
    }
}

fn fill_blocks(
    blocks: &mut [[i16; 2]; 16],
    x: usize,
    y: usize,
    width: usize,
    height: usize,
    value: [i16; 2],
)
    requires
        x < 16,
        y < 16,
        width <= 16,
        height <= 16,
    ensures
        forall|b: int|
            0 <= b < 16 ==> (#[trigger] final(blocks)@[b]) == if block_met(
                b,
                x as int,
                y as int,
                width as int,
                height as int,
            ) {
                value
            } else {
                old(blocks)@[b]
            },
{
    for b in 0..16usize
        invariant
            x < 16,
            y < 16,
            width <= 16,
            height <= 16,
            forall|r: int|
                0 <= r < 16 ==> (#[trigger] blocks@[r]) == if r < b && block_met(
                    r,
                    x as int,
                    y as int,
                    width as int,
                    height as int,
                ) {
                    value
                } else {
                    old(blocks)@[r]
                },
    {
        let (bx, by) = super::neighbour::luma_4x4_origin(b as u8);
        proof {
            law_scan_orders_round_trip(b as int, 0, 0);
        }
        if meets(bx / 4, x, width, 4) && meets(by / 4, y, height, 4) {
            blocks[b] = value;
        }
    }
}

proof fn lemma_set_bit_16(old_bits: u16, new_bits: u16, n: u16, set: bool)
    requires
        n < 16,
        new_bits == if set {
            old_bits | (1u16 << n)
        } else {
            old_bits & !(1u16 << n)
        },
    ensures
        forall|b: int| 0 <= b < 16 ==> (#[trigger] (new_bits >> b as u16) & 1 == 1) == if b == n {
            set
        } else {
            (old_bits >> b as u16) & 1 == 1
        },
{
    assert forall|b: int| 0 <= b < 16 implies (#[trigger] (new_bits >> b as u16) & 1 == 1) == if b
        == n {
        set
    } else {
        (old_bits >> b as u16) & 1 == 1
    } by {
        let m = b as u16;
        assert(((new_bits >> m) & 1 == 1) == if m == n {
            set
        } else {
            (old_bits >> m) & 1 == 1
        }) by (bit_vector)
            requires
                n < 16,
                m < 16,
                new_bits == if set {
                    old_bits | (1u16 << n)
                } else {
                    old_bits & !(1u16 << n)
                },
        ;
    }
}

proof fn lemma_set_bit_8(old_bits: u8, new_bits: u8, n: u8, set: bool)
    requires
        n < 8,
        new_bits == if set {
            old_bits | (1u8 << n)
        } else {
            old_bits & !(1u8 << n)
        },
    ensures
        forall|b: int| 0 <= b < 8 ==> (#[trigger] (new_bits >> b as u8) & 1 == 1) == if b == n {
            set
        } else {
            (old_bits >> b as u8) & 1 == 1
        },
{
    assert forall|b: int| 0 <= b < 8 implies (#[trigger] (new_bits >> b as u8) & 1 == 1) == if b
        == n {
        set
    } else {
        (old_bits >> b as u8) & 1 == 1
    } by {
        let m = b as u8;
        assert(((new_bits >> m) & 1 == 1) == if m == n {
            set
        } else {
            (old_bits >> m) & 1 == 1
        }) by (bit_vector)
            requires
                n < 8,
                m < 8,
                new_bits == if set {
                    old_bits | (1u8 << n)
                } else {
                    old_bits & !(1u8 << n)
                },
        ;
    }
}

/// Decoded state for every macroblock of the picture, with the map that says
/// which of it may be read.
#[derive(Debug)]
pub struct PictureState {
    pub neighbours: Neighbourhood,
    pub mbs: Vec<MbInfo>,
}

/// Decoded state for every macroblock of a picture, as a mathematical value.
#[verifier::ext_equal]
pub struct PicModel {
    pub grid: Grid,
    pub mbs: Seq<MbModel>,
}

impl PicModel {
    /// There is one state per macroblock of the picture.
    pub open spec fn wf(self) -> bool {
        &&& self.grid.wf()
        &&& self.grid.width > 0
        &&& self.grid.slice.len() <= usize::MAX
        &&& self.mbs.len() == self.grid.slice.len()
        &&& forall|i: int| 0 <= i < self.mbs.len() ==> (#[trigger] self.mbs[i]).wf()
    }

    /// A picture none of whose macroblocks is decoded.
    pub open spec fn is_fresh(self) -> bool {
        &&& forall|i: int| 0 <= i < self.grid.slice.len() ==> (#[trigger] self.grid.slice[i]) is None
        &&& forall|i: int|
            0 <= i < self.mbs.len() ==> (#[trigger] self.mbs[i]) == MbModel::blank(MbType::PSkip, 0)
    }

    /// A macroblock put on the map.
    pub open spec fn begun(self, addr: int, slice_id: u32) -> PicModel {
        PicModel {
            grid: Grid { slice: self.grid.slice.update(addr, Some(slice_id)), ..self.grid },
            ..self
        }
    }

    /// A macroblock stored and put on the map.
    pub open spec fn with(self, addr: int, slice_id: u32, info: MbModel) -> PicModel {
        PicModel { mbs: self.mbs.update(addr, info), ..self.begun(addr, slice_id) }
    }

    /// The state a block reference points at, the macroblock being decoded
    /// coming from `cur`.
    pub open spec fn info_of(self, block: BlockRef, curr: int, cur: MbModel) -> MbModel {
        if block.mb == curr {
            cur
        } else {
            self.mbs[block.mb as int]
        }
    }

    /// The motion of a neighbouring 4x4 block as vector prediction sees it.
    pub open spec fn motion(self, block: Option<BlockRef>, curr: int, cur: MbModel) -> Neighbour {
        match block {
            None => Neighbour::spec_unavailable(),
            Some(block) => {
                let info = self.info_of(block, curr, cur);
                if info.is_intra() {
                    Neighbour::spec_unavailable()
                } else {
                    Neighbour {
                        mv: (
                            info.mv[block.blk as int].0 as i32,
                            info.mv[block.blk as int].1 as i32,
                        ),
                        ref_idx: info.ref_idx[block.blk as int / 4],
                    }
                }
            },
        }
    }
}

impl View for PictureState {
    type V = PicModel;

    open spec fn view(&self) -> PicModel {
        PicModel {
            grid: self.neighbours@,
            mbs: Seq::new(self.mbs@.len(), |i: int| self.mbs@[i]@),
        }
    }
}

impl PictureState {
    /// There is one state per macroblock of the picture.
    pub open spec fn wf(self) -> bool {
        &&& self@.wf()
        &&& self.neighbours.width > 0
    }

    /// A picture of `width_mbs` by `height_mbs` macroblocks, none of them
    /// decoded.
    pub fn new(width_mbs: usize, height_mbs: usize) -> (r: Self)
        requires
            width_mbs * height_mbs <= usize::MAX,
        ensures
            r@.grid.wf(),
            r@.grid.width == width_mbs,
            r@.grid.height == height_mbs,
            r@.mbs.len() == r@.grid.slice.len(),
            r@.is_fresh(),
            width_mbs > 0 ==> r.wf(),
    {
        let n: usize = width_mbs * height_mbs;
        let mut mbs: Vec<MbInfo> = Vec::new();
        for i in 0..n
            invariant
                mbs@.len() == i,
                forall|j: int|
                    0 <= j < i ==> (#[trigger] mbs@[j])@ == MbModel::blank(MbType::PSkip, 0),
        {
            mbs.push(MbInfo::skipped());
        }
        PictureState { neighbours: Neighbourhood::new(width_mbs, height_mbs), mbs }
    }

    /// Starts a new picture, discarding all macroblock state.
    pub fn begin_picture(&mut self)
        ensures
            final(self)@.grid.width == old(self)@.grid.width,
            final(self)@.grid.height == old(self)@.grid.height,
            final(self)@.grid.slice.len() == old(self)@.grid.slice.len(),
            final(self)@.mbs.len() == old(self)@.mbs.len(),
            final(self)@.is_fresh(),
            old(self).wf() ==> final(self).wf(),
    {
        self.neighbours.begin_picture();
        let n: usize = self.mbs.len();
        let ghost neighbours = self.neighbours;
        for i in 0..n
            invariant
                self.mbs@.len() == n,
                self.neighbours == neighbours,
                forall|j: int|
                    0 <= j < i ==> (#[trigger] self.mbs@[j])@ == MbModel::blank(MbType::PSkip, 0),
        {
            self.mbs[i] = MbInfo::skipped();
        }
    }

    /// Marks a macroblock as belonging to `slice_id`, before decoding it: its own
    /// neighbour queries compare slices.
    pub fn begin_macroblock(&mut self, addr: MbAddr, slice_id: u32)
        requires
            addr < old(self)@.grid.slice.len(),
        ensures
            final(self)@ == old(self)@.begun(addr as int, slice_id),
            old(self).wf() ==> final(self).wf(),
    {
        self.neighbours.begin_macroblock(addr, slice_id);
        assert(self@.mbs =~= old(self)@.mbs);
    }

    /// Records a decoded macroblock and marks it available.
    pub fn put(&mut self, addr: MbAddr, slice_id: u32, info: MbInfo)
        requires
            addr < old(self)@.grid.slice.len(),
            addr < old(self)@.mbs.len(),
        ensures
            final(self)@ == old(self)@.with(addr as int, slice_id, info@),
            old(self).wf() ==> final(self).wf(),
    {
        self.mbs[addr] = info;
        self.neighbours.begin_macroblock(addr, slice_id);
        assert(self@.mbs =~= old(self)@.mbs.update(addr as int, info@));
    }

    /// The macroblock at `addr`, without an availability check.
    pub fn get(&self, addr: MbAddr) -> (info: &MbInfo)
        requires
            addr < self@.mbs.len(),
        ensures
            info@ == self@.mbs[addr as int],
    {
        &self.mbs[addr]
    }

    /// The macroblock at `addr`, to be changed in place.
    pub fn get_mut(&mut self, addr: MbAddr) -> (info: &mut MbInfo)
        requires
            addr < old(self)@.mbs.len(),
        ensures
            info@ == old(self)@.mbs[addr as int],
            final(self).mbs@ == old(self).mbs@.update(addr as int, *final(info)),
            final(self).neighbours == old(self).neighbours,
    {
        &mut self.mbs[addr]
    }

    /// The macroblock at `addr`, if it may be read when decoding `curr`.
    pub fn available(&self, addr: MbAddr, curr: MbAddr) -> (r: Option<&MbInfo>)
        requires
            self@.mbs.len() == self@.grid.slice.len(),
        ensures
            r is Some <==> self@.grid.spec_available(addr as int, curr as int),
            r is Some ==> r->0@ == self@.mbs[addr as int],
    {
        if self.neighbours.available(addr, curr) {
            Some(&self.mbs[addr])
        } else {
            None
        }
    }

    /// The state a neighbouring block reference points at.
    pub fn at(&self, block: BlockRef) -> (info: &MbInfo)
        requires
            block.mb < self@.mbs.len(),
        ensures
            info@ == self@.mbs[block.mb as int],
    {
        &self.mbs[block.mb]
    }

    /// The motion of a neighbouring 4x4 block as vector prediction sees it.
    /// `curr` and `cur` are the macroblock being decoded, which is not stored
    /// yet.
    pub fn motion(&self, block: Option<BlockRef>, curr: MbAddr, cur: &MbInfo) -> (r: Neighbour)
        requires
            block matches Some(b) ==> b.blk < 16 && (b.mb == curr || b.mb < self@.mbs.len()),
        ensures
            r == self@.motion(block, curr as int, cur@),
    {
        let Some(block) = block else {
            return Neighbour::unavailable();
        };
        let info: &MbInfo = if block.mb == curr {
            cur
        } else {
            self.at(block)
        };
        if info.is_intra() {
            return Neighbour::unavailable();
        }
        Neighbour {
            mv: (info.mv[block.blk as usize][0] as i32, info.mv[block.blk as usize][1] as i32),
            ref_idx: info.ref_idx_of_block(block.blk),
        }
    }

    /// The intra mode of a neighbouring 4x4 block. An inter coded neighbour
    /// counts as DC under constrained intra prediction; an unavailable one gives
    /// `None`.
    pub fn intra_mode(&self, block: Option<BlockRef>, constrained_intra: bool) -> (r: Option<u8>)
        requires
            block matches Some(b) ==> b.blk < 16 && b.mb < self@.mbs.len(),
        ensures
            r == match block {
                None => None::<u8>,
                Some(b) => {
                    let info = self@.mbs[b.mb as int];
                    if !info.is_intra() && constrained_intra {
                        Some(DC_PRED_MODE)
                    } else {
                        Some(info.intra_modes[b.blk as int])
                    }
                },
            },
    {
        let Some(block) = block else {
            return None;
        };
        let info: &MbInfo = self.at(block);
        if !info.is_intra() && constrained_intra {
            return Some(DC_PRED_MODE);
        }
        Some(info.intra_modes[block.blk as usize])
    }
}

/// The 4x4 luma block at a partition's top-left corner.
pub fn partition_block(partitioning: Partitioning, part: usize) -> (blk: u8)
    requires
        part < partitioning.spec_parts().len(),
    ensures
        blk == spec_luma_4x4_index(
            partitioning.spec_parts()[part as int].x as int,
            partitioning.spec_parts()[part as int].y as int,
        ),
        blk < 16,
{
    let parts: Vec<Part> = partitioning.parts();
    let p: Part = parts[part];
    luma_4x4_index(p.x, p.y)
}

/// An intra neighbour, or none at all, offers no motion to predict from.
pub proof fn law_intra_neighbours_offer_no_motion(
    pic: PicModel,
    block: Option<BlockRef>,
    curr: int,
    cur: MbModel,
)
    requires
        block is Some ==> pic.info_of(block->0, curr, cur).is_intra(),
    ensures
        pic.motion(block, curr, cur) == Neighbour::spec_unavailable(),
{
}

/// A block of the macroblock being decoded is read from that macroblock's own
/// state, whatever the picture holds.
pub proof fn law_own_blocks_are_read_from_their_own_state(
    one: PicModel,
    other: PicModel,
    block: BlockRef,
    curr: int,
    cur: MbModel,
)
    requires
        block.mb == curr,
    ensures
        one.motion(Some(block), curr, cur) == other.motion(Some(block), curr, cur),
{
}

} // verus!
