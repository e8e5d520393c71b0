//! Decoding of the macroblock layer's syntax elements.
//!
//! Every element is coded against its neighbours: which context a bin uses says
//! how the neighbouring macroblocks came out. A context that is off by one does
//! not fail, it decodes a different and plausible value.
use vstd::prelude::*;
use super::cabac::{cabac, ArithDecoder, Cabac, ContextState};
use super::math::{abs_i32, lemma_u32_as_i32, lemma_wrap, magnitude, wadd, wrap32, wsub};
use super::mb::{
    mb_type, spec_mb_type, spec_sub_mb_type, sub_mb_type, MbType, SliceKind, SubMbType,
};
use super::neighbour::{lemma_neighbours_exist, BlockRef, MbAddr};
use super::residual::BlockCat;
use super::state::{MbInfo, MbModel, PicModel, PictureState};

verus! {

/// What the context derivations read besides the bitstream. `cur` is the
/// macroblock being decoded, which is not yet in `state`.
pub struct MbContext<'a> {
    pub state: &'a PictureState,
    pub cur: &'a MbInfo,
    pub addr: MbAddr,
    /// Whether intra prediction is kept from reading inter macroblocks.
    pub constrained_intra: bool,
}

/// What the context derivations read, as a mathematical value.
pub struct Surroundings {
    pub pic: PicModel,
    pub cur: MbModel,
    pub addr: int,
}

/// 1 for what is so.
pub open spec fn count(b: bool) -> int {
    if b {
        1
    } else {
        0
    }
}

impl Surroundings {
    /// The macroblock being decoded is one of the picture's.
    pub open spec fn wf(self) -> bool {
        &&& self.pic.wf()
        &&& self.cur.wf()
        &&& 0 <= self.addr < self.pic.mbs.len()
    }

    /// The macroblock to the left.
    pub open spec fn left(self) -> Option<MbModel> {
        match self.pic.grid.spec_mb_a(self.addr) {
            Some(m) => Some(self.pic.mbs[m as int]),
            None => None,
        }
    }

    /// The macroblock above.
    pub open spec fn above(self) -> Option<MbModel> {
        match self.pic.grid.spec_mb_b(self.addr) {
            Some(m) => Some(self.pic.mbs[m as int]),
            None => None,
        }
    }

    /// The state behind a block reference.
    pub open spec fn info(self, block: BlockRef) -> MbModel {
        self.pic.info_of(block, self.addr, self.cur)
    }
}

impl<'a> View for MbContext<'a> {
    type V = Surroundings;

    open spec fn view(&self) -> Surroundings {
        Surroundings { pic: self.state@, cur: self.cur@, addr: self.addr as int }
    }
}

impl<'a> MbContext<'a> {
    /// The picture and the macroblock belong together.
    pub open spec fn wf(self) -> bool {
        self.state.wf() && self@.wf()
    }

    /// The state behind a block reference, the macroblock being decoded coming
    /// from `cur`.
    pub fn info(&self, block: BlockRef) -> (info: &MbInfo)
        requires
            block.mb == self.addr || block.mb < self.state@.mbs.len(),
        ensures
            info@ == self@.info(block),
    {
        if block.mb == self.addr {
            self.cur
        } else {
            self.state.at(block)
        }
    }

    fn mb_a(&self) -> (r: Option<&MbInfo>)
        requires
            self.wf(),
        ensures
            r is Some <==> self@.left() is Some,
            r is Some ==> r->0@ == self@.left()->0,
    {
        proof {
            lemma_neighbours_exist(self@.pic.grid, self.addr as int);
        }
        match self.state.neighbours.mb_a(self.addr) {
            Some(mb) => Some(self.state.at(BlockRef { mb, blk: 0 })),
            None => None,
        }
    }

    fn mb_b(&self) -> (r: Option<&MbInfo>)
        requires
            self.wf(),
        ensures
            r is Some <==> self@.above() is Some,
            r is Some ==> r->0@ == self@.above()->0,
    {
        proof {
            lemma_neighbours_exist(self@.pic.grid, self.addr as int);
        }
        match self.state.neighbours.mb_b(self.addr) {
            Some(mb) => Some(self.state.at(BlockRef { mb, blk: 0 })),
            None => None,
        }
    }
}

fn one_if(b: bool) -> (n: usize)
    ensures
        n == count(b),
{
    if b {
        1
    } else {
        0
    }
}

/// A neighbour that was not skipped.
pub open spec fn not_skipped(mb: Option<MbModel>) -> bool {
    mb is Some && mb->0.mb_type !is PSkip
}

/// Whether the macroblock is skipped. Counts the neighbours that are not.
pub open spec fn mb_skip_flag(s: Cabac, c: Surroundings) -> (bool, Cabac) {
    let (bin, after) = s.decide(11 + count(not_skipped(c.left())) + count(not_skipped(c.above())));
    (bin == 1, after)
}

/// Decodes whether the macroblock is skipped.
pub fn decode_mb_skip_flag(d: &mut ArithDecoder<'_>, cx: &mut ContextState, c: &MbContext<'_>) -> (
    skip: bool)
    requires
        cabac(*old(d), *old(cx)).wf(),
        c.wf(),
    ensures
        (skip, cabac(*final(d), *final(cx))) == mb_skip_flag(cabac(*old(d), *old(cx)), c@),
        cabac(*final(d), *final(cx)).wf(),
        final(d)@.data == old(d)@.data,
{
    let a: bool = match c.mb_a() {
        Some(m) => !m.is_skipped(),
        None => false,
    };
    let b: bool = match c.mb_b() {
        Some(m) => !m.is_skipped(),
        None => false,
    };
    d.decide(cx, 11 + one_if(a) + one_if(b)) == 1
}

/// Contexts of the `I_16x16` part of the intra type tree. The I-slice bank gives
/// the two chroma bins and the two mode bins contexts of their own, the other
/// shares them.
pub struct IntraMbTypeCtx {
    pub luma: usize,
    pub chroma_first: usize,
    pub chroma_second: usize,
    pub mode_first: usize,
    pub mode_second: usize,
}

impl IntraMbTypeCtx {
    /// The bank of I slices.
    pub open spec fn spec_i_slice() -> IntraMbTypeCtx {
        IntraMbTypeCtx {
            luma: 6,
            chroma_first: 7,
            chroma_second: 8,
            mode_first: 9,
            mode_second: 10,
        }
    }

    /// The bank of intra macroblocks in P slices.
    pub open spec fn spec_p_suffix() -> IntraMbTypeCtx {
        IntraMbTypeCtx {
            luma: 18,
            chroma_first: 19,
            chroma_second: 19,
            mode_first: 20,
            mode_second: 20,
        }
    }
}

/// The packed `I_16x16` number, from its first bin on.
pub open spec fn intra_16x16_number(s: Cabac, bank: IntraMbTypeCtx) -> (int, Cabac) {
    let (luma, s1) = s.decide(bank.luma as int);
    let (any, s2) = s1.decide(bank.chroma_first as int);
    let (all, s3) = if any == 1 {
        s2.decide(bank.chroma_second as int)
    } else {
        (0, s2)
    };
    let (high, s4) = s3.decide(bank.mode_first as int);
    let (low, s5) = s4.decide(bank.mode_second as int);
    (1 + 12 * luma + 4 * any + 4 * all + 2 * high + low, s5)
}

/// The rest of an intra type after its first bin `not_nxn`: a terminating bin
/// tells `I_PCM`, what follows being raw bytes.
pub open spec fn intra_number_after(not_nxn: int, s: Cabac, bank: IntraMbTypeCtx) -> (int, Cabac) {
    if not_nxn == 0 {
        (0, s)
    } else {
        let (pcm, s1) = s.terminate();
        if pcm == 1 {
            (25, s1)
        } else {
            intra_16x16_number(s1, bank)
        }
    }
}

/// An intra neighbour that is not `I_NxN`.
pub open spec fn intra_not_nxn(mb: Option<MbModel>) -> bool {
    mb is Some && mb->0.is_intra() && mb->0.mb_type !is IntraNxN
}

/// The intra type number. In an I slice the first bin's context counts the
/// neighbours that are not `I_NxN`.
pub open spec fn intra_mb_number(s: Cabac, c: Option<Surroundings>) -> (int, Cabac) {
    match c {
        Some(c) => {
            let (bin, s1) = s.decide(
                3 + count(intra_not_nxn(c.left())) + count(intra_not_nxn(c.above())),
            );
            intra_number_after(bin, s1, IntraMbTypeCtx::spec_i_slice())
        },
        None => {
            let (bin, s1) = s.decide(17);
            intra_number_after(bin, s1, IntraMbTypeCtx::spec_p_suffix())
        },
    }
}

/// The macroblock type.
pub open spec fn mb_type_element(s: Cabac, c: Surroundings, slice: SliceKind) -> (
    Option<MbType>,
    Cabac,
) {
    match slice {
        SliceKind::I => {
            let (value, after) = intra_mb_number(s, Some(c));
            (spec_mb_type(SliceKind::I, value), after)
        },
        SliceKind::P => {
            let (intra, s1) = s.decide(14);
            if intra == 0 {
                let (split, s2) = s1.decide(15);
                if split == 0 {
                    let (bin, s3) = s2.decide(16);
                    (spec_mb_type(SliceKind::P, 3 * bin), s3)
                } else {
                    let (bin, s3) = s2.decide(17);
                    (spec_mb_type(SliceKind::P, 2 - bin), s3)
                }
            } else {
                let (value, after) = intra_mb_number(s1, None);
                (spec_mb_type(SliceKind::I, value), after)
            }
        },
    }
}

/// Decodes the macroblock type. After `I_PCM` there is nothing left to decode.
pub fn decode_mb_type(
    d: &mut ArithDecoder<'_>,
    cx: &mut ContextState,
    c: &MbContext<'_>,
    slice: SliceKind,
) -> (r: Option<MbType>)
    requires
        cabac(*old(d), *old(cx)).wf(),
        c.wf(),
    ensures
        (r, cabac(*final(d), *final(cx))) == mb_type_element(cabac(*old(d), *old(cx)), c@, slice),
        r is Some,
        slice is I ==> r->0.spec_is_intra(),
        r->0 matches MbType::Intra16x16 { cbp_luma, cbp_chroma, .. } ==> cbp_luma <= 15
            && cbp_chroma <= 2,
        r->0 !is PSkip,
        r->0 !is IPcm ==> cabac(*final(d), *final(cx)).wf(),
        final(d)@.data == old(d)@.data,
{
    match slice {
        SliceKind::I => {
            let value: u32 = decode_intra_mb_type(d, cx, Some(c));
            mb_type(SliceKind::I, value)
        },
        SliceKind::P => {
            // One bin separates the inter types from the intra ones.
            if d.decide(cx, 14) == 0 {
                let value: u32 = if d.decide(cx, 15) == 0 {
                    3 * d.decide(cx, 16) as u32
                } else {
                    2 - d.decide(cx, 17) as u32
                };
                mb_type(SliceKind::P, value)
            } else {
                let value: u32 = decode_intra_mb_type(d, cx, None);
                mb_type(SliceKind::I, value)
            }
        },
    }
}

/// The intra type tree, shared by I slices and the intra macroblocks of P slices;
/// `c` is there only for an I slice.
fn decode_intra_mb_type(
    d: &mut ArithDecoder<'_>,
    cx: &mut ContextState,
    c: Option<&MbContext<'_>>,
) -> (value: u32)
    requires
        cabac(*old(d), *old(cx)).wf(),
        c is Some ==> c->0.wf(),
    ensures
        (value as int, cabac(*final(d), *final(cx))) == intra_mb_number(
            cabac(*old(d), *old(cx)),
            match c {
                Some(c) => Some(c@),
                None => None,
            },
        ),
        value <= 25,
        value != 25 ==> cabac(*final(d), *final(cx)).wf(),
        final(d)@.data == old(d)@.data,
{
    let bank: IntraMbTypeCtx;
    match c {
        Some(c) => {
            let a: bool = match c.mb_a() {
                Some(m) => m.is_intra() && !m.is_intra_nxn(),
                None => false,
            };
            let b: bool = match c.mb_b() {
                Some(m) => m.is_intra() && !m.is_intra_nxn(),
                None => false,
            };
            if d.decide(cx, 3 + one_if(a) + one_if(b)) == 0 {
                return 0;
            }
            bank = IntraMbTypeCtx {
                luma: 6,
                chroma_first: 7,
                chroma_second: 8,
                mode_first: 9,
                mode_second: 10,
            };
        },
        None => {
            if d.decide(cx, 17) == 0 {
                return 0;
            }
            bank = IntraMbTypeCtx {
                luma: 18,
                chroma_first: 19,
                chroma_second: 19,
                mode_first: 20,
                mode_second: 20,
            };
        },
    }
    if d.decode_terminate() == 1 {
        return 25;
    }
    let mut value: u32 = 1 + 12 * d.decide(cx, bank.luma) as u32;
    if d.decide(cx, bank.chroma_first) == 1 {
        value = value + 4;
        if d.decide(cx, bank.chroma_second) == 1 {
            value = value + 4;
        }
    }
    value = value + 2 * d.decide(cx, bank.mode_first) as u32;
    value = value + d.decide(cx, bank.mode_second) as u32;
    value
}

/// How an 8x8 partition is divided.
pub open spec fn sub_mb_type_element(s: Cabac) -> (Option<SubMbType>, Cabac) {
    let (whole, s1) = s.decide(21);
    if whole == 1 {
        (spec_sub_mb_type(0), s1)
    } else {
        let (tall, s2) = s1.decide(22);
        if tall == 0 {
            (spec_sub_mb_type(1), s2)
        } else {
            let (bin, s3) = s2.decide(23);
            (spec_sub_mb_type(if bin == 1 {
                2
            } else {
                3
            }), s3)
        }
    }
}

/// Decodes how an 8x8 partition is divided.
pub fn decode_sub_mb_type(d: &mut ArithDecoder<'_>, cx: &mut ContextState) -> (r: Option<SubMbType>)
    requires
        cabac(*old(d), *old(cx)).wf(),
    ensures
        (r, cabac(*final(d), *final(cx))) == sub_mb_type_element(cabac(*old(d), *old(cx))),
        r is Some,
        cabac(*final(d), *final(cx)).wf(),
        final(d)@.data == old(d)@.data,
{
    let value: u32 = if d.decide(cx, 21) == 1 {
        0
    } else if d.decide(cx, 22) == 0 {
        1
    } else if d.decide(cx, 23) == 1 {
        2
    } else {
        3
    };
    sub_mb_type(value)
}

/// A neighbour that uses the 8x8 transform.
pub open spec fn uses_8x8(mb: Option<MbModel>) -> bool {
    mb is Some && mb->0.transform_8x8
}

/// Whether the 8x8 transform is used.
pub open spec fn transform_size_8x8(s: Cabac, c: Surroundings) -> (bool, Cabac) {
    let (bin, after) = s.decide(399 + count(uses_8x8(c.left())) + count(uses_8x8(c.above())));
    (bin == 1, after)
}

/// Decodes whether the 8x8 transform is used.
pub fn decode_transform_size_8x8(
    d: &mut ArithDecoder<'_>,
    cx: &mut ContextState,
    c: &MbContext<'_>,
) -> (r: bool)
    requires
        cabac(*old(d), *old(cx)).wf(),
        c.wf(),
    ensures
        (r, cabac(*final(d), *final(cx))) == transform_size_8x8(cabac(*old(d), *old(cx)), c@),
        cabac(*final(d), *final(cx)).wf(),
        final(d)@.data == old(d)@.data,
{
    let a: bool = match c.mb_a() {
        Some(m) => m.transform_8x8,
        None => false,
    };
    let b: bool = match c.mb_b() {
        Some(m) => m.transform_8x8,
        None => false,
    };
    d.decide(cx, 399 + one_if(a) + one_if(b)) == 1
}

/// An intra neighbour that chose a chroma mode other than the first.
pub open spec fn chose_chroma_mode(mb: Option<MbModel>) -> bool {
    mb is Some && mb->0.is_intra() && mb->0.mb_type !is IPcm && mb->0.chroma_mode != 0
}

/// The chroma prediction mode: a truncated unary number.
pub open spec fn intra_chroma_pred_mode(s: Cabac, c: Surroundings) -> (int, Cabac) {
    let (b0, s1) = s.decide(
        64 + count(chose_chroma_mode(c.left())) + count(chose_chroma_mode(c.above())),
    );
    if b0 == 0 {
        (0, s1)
    } else {
        let (b1, s2) = s1.decide(67);
        if b1 == 0 {
            (1, s2)
        } else {
            let (b2, s3) = s2.decide(67);
            (if b2 == 0 {
                2
            } else {
                3
            }, s3)
        }
    }
}

/// Decodes the chroma prediction mode.
pub fn decode_intra_chroma_pred_mode(
    d: &mut ArithDecoder<'_>,
    cx: &mut ContextState,
    c: &MbContext<'_>,
) -> (mode: u8)
    requires
        cabac(*old(d), *old(cx)).wf(),
        c.wf(),
    ensures
        (mode as int, cabac(*final(d), *final(cx))) == intra_chroma_pred_mode(cabac(*old(d), *old(cx)), c@),
        mode <= 3,
        cabac(*final(d), *final(cx)).wf(),
        final(d)@.data == old(d)@.data,
{
    let a: bool = match c.mb_a() {
        Some(m) => m.is_intra() && m.mb_type != MbType::IPcm && m.chroma_mode != 0,
        None => false,
    };
    let b: bool = match c.mb_b() {
        Some(m) => m.is_intra() && m.mb_type != MbType::IPcm && m.chroma_mode != 0,
        None => false,
    };
    if d.decide(cx, 64 + one_if(a) + one_if(b)) == 0 {
        return 0;
    }
    if d.decide(cx, 67) == 0 {
        return 1;
    }
    if d.decide(cx, 67) == 0 {
        return 2;
    }
    3
}

/// The mode an escape number stands for: the predicted mode is skipped over.
pub open spec fn escaped_mode(number: int, predicted: int) -> int {
    if number >= predicted {
        number + 1
    } else {
        number
    }
}

/// The intra mode of a block: the predicted one in one bin, or three bins, least
/// significant first, that tell which of the others.
pub open spec fn intra_pred_mode(s: Cabac, predicted: int) -> (int, Cabac) {
    let (same, s1) = s.decide(68);
    if same == 1 {
        (predicted, s1)
    } else {
        let (b0, s2) = s1.decide(69);
        let (b1, s3) = s2.decide(69);
        let (b2, s4) = s3.decide(69);
        (escaped_mode(b0 + 2 * b1 + 4 * b2, predicted), s4)
    }
}

/// Decodes the intra mode of a block.
pub fn decode_intra_pred_mode(d: &mut ArithDecoder<'_>, cx: &mut ContextState, predicted: u8) -> (
    mode: u8)
    requires
        cabac(*old(d), *old(cx)).wf(),
    ensures
        (mode as int, cabac(*final(d), *final(cx))) == intra_pred_mode(cabac(*old(d), *old(cx)), predicted as int),
        predicted <= 8 ==> mode <= 8,
        cabac(*final(d), *final(cx)).wf(),
        final(d)@.data == old(d)@.data,
{
    if d.decide(cx, 68) == 1 {
        return predicted;
    }
    let b0: u8 = d.decide(cx, 69);
    let b1: u8 = d.decide(cx, 69);
    let b2: u8 = d.decide(cx, 69);
    let number: u8 = b0 + 2 * b1 + 4 * b2;
    if number >= predicted {
        number + 1
    } else {
        number
    }
}

/// Whether a neighbouring 8x8 block is known to be empty. One that is not
/// available is no evidence of emptiness; `I_PCM` is never empty.
pub open spec fn known_empty(c: Surroundings, n: Option<BlockRef>, luma_so_far: u8) -> bool {
    match n {
        None => false,
        Some(n) => if n.mb == c.addr {
            (luma_so_far >> n.blk) & 1 != 1
        } else {
            let info = c.pic.mbs[n.mb as int];
            info.mb_type !is IPcm && !info.luma_8x8_coded(n.blk as int)
        },
    }
}

/// The context of the coded bit of 8x8 block `blk`.
pub open spec fn cbp_luma_ctx(c: Surroundings, blk: int, luma: u8) -> int {
    73 + count(known_empty(c, c.pic.grid.spec_luma_8x8_neighbour(c.addr, blk, -1, 0), luma)) + 2
        * count(known_empty(c, c.pic.grid.spec_luma_8x8_neighbour(c.addr, blk, 0, -1), luma))
}

/// The luma pattern from block `blk` on, the bits so far being `luma`.
pub open spec fn cbp_luma_bits(s: Cabac, c: Surroundings, blk: int, luma: u8) -> (u8, Cabac)
    decreases 4 - blk,
{
    if blk >= 4 {
        (luma, s)
    } else {
        let (bin, after) = s.decide(cbp_luma_ctx(c, blk, luma));
        cbp_luma_bits(after, c, blk + 1, luma | ((bin as u8) << blk as u8))
    }
}

/// A neighbour's chroma pattern, nothing where there is none.
pub open spec fn chroma_of(mb: Option<MbModel>) -> int {
    match mb {
        Some(m) => m.cbp_chroma as int,
        None => 0,
    }
}

/// The chroma pattern: whether there are any coefficients, then whether there
/// are more than the DC ones.
pub open spec fn cbp_chroma_bits(s: Cabac, c: Surroundings) -> (int, Cabac) {
    let a = chroma_of(c.left());
    let b = chroma_of(c.above());
    let (any, s1) = s.decide(77 + count(a > 0) + 2 * count(b > 0));
    if any == 0 {
        (0, s1)
    } else {
        let (more, s2) = s1.decide(81 + count(a == 2) + 2 * count(b == 2));
        (1 + more, s2)
    }
}

/// The coded block pattern: luma, chroma.
pub open spec fn coded_block_pattern(s: Cabac, c: Surroundings) -> ((u8, u8), Cabac) {
    let (luma, s1) = cbp_luma_bits(s, c, 0, 0);
    let (chroma, s2) = cbp_chroma_bits(s1, c);
    ((luma, chroma as u8), s2)
}

/// Decodes the coded block pattern: luma, chroma.
pub fn decode_coded_block_pattern(
    d: &mut ArithDecoder<'_>,
    cx: &mut ContextState,
    c: &MbContext<'_>,
) -> (r: (u8, u8))
    requires
        cabac(*old(d), *old(cx)).wf(),
        c.wf(),
    ensures
        (r, cabac(*final(d), *final(cx))) == coded_block_pattern(cabac(*old(d), *old(cx)), c@),
        r.0 <= 15,
        r.1 <= 2,
        cabac(*final(d), *final(cx)).wf(),
        final(d)@.data == old(d)@.data,
{
    let ghost start = cabac(*d, *cx);
    let mut luma: u8 = 0;
    for blk in 0..4u8
        invariant
            c.wf(),
            cabac(*d, *cx).wf(),
            d@.data == old(d)@.data,
            luma <= 15,
            cbp_luma_bits(start, c@, 0, 0) == cbp_luma_bits(cabac(*d, *cx), c@, blk as int, luma),
    {
        let a: bool = empty_at(c, blk, -1, 0, luma);
        let b: bool = empty_at(c, blk, 0, -1, luma);
        let bin: u8 = d.decide(cx, 73 + one_if(a) + 2 * one_if(b));
        assert(luma | (bin << blk) <= 15) by (bit_vector)
            requires
                luma <= 15,
                bin <= 1,
                blk < 4,
        ;
        luma = luma | (bin << blk);
    }
    let a: u8 = match c.mb_a() {
        Some(m) => m.cbp_chroma,
        None => 0,
    };
    let b: u8 = match c.mb_b() {
        Some(m) => m.cbp_chroma,
        None => 0,
    };
    if d.decide(cx, 77 + one_if(a > 0) + 2 * one_if(b > 0)) == 0 {
        return (luma, 0);
    }
    let more: u8 = d.decide(cx, 81 + one_if(a == 2) + 2 * one_if(b == 2));
    (luma, 1 + more)
}

/// Whether the 8x8 block at an offset is known to be empty, blocks of the current
/// macroblock being read from the pattern so far.
fn empty_at(c: &MbContext<'_>, blk: u8, dx: i32, dy: i32, luma_so_far: u8) -> (r: bool)
    requires
        c.wf(),
        -1 <= dx <= 0,
        -1 <= dy <= 0,
    ensures
        r == known_empty(
            c@,
            c@.pic.grid.spec_luma_8x8_neighbour(c@.addr, blk as int, dx as int, dy as int),
            luma_so_far,
        ),
{
    proof {
        lemma_neighbours_exist(c@.pic.grid, c.addr as int);
    }
    match c.state.neighbours.luma_8x8_neighbour(c.addr, blk, dx, dy) {
        None => false,
        Some(n) => !self_or(c, n, luma_so_far),
    }
}

fn self_or(c: &MbContext<'_>, n: BlockRef, luma_so_far: u8) -> (r: bool)
    requires
        n.mb == c.addr || n.mb < c.state@.mbs.len(),
        n.blk < 4,
    ensures
        r == !known_empty(c@, Some(n), luma_so_far),
{
    if n.mb == c.addr {
        return (luma_so_far >> n.blk) & 1 == 1;
    }
    let info: &MbInfo = c.state.at(n);
    info.mb_type == MbType::IPcm || info.luma_8x8_coded(n.blk)
}

/// The signed number a length of bins stands for: 0, 1, -1, 2, -2 and so on.
pub open spec fn alternating(value: int) -> int {
    if value % 2 == 1 {
        (value + 1) / 2
    } else {
        -(value / 2)
    }
}

/// How many ones precede the first zero in a quantiser delta.
pub open spec fn qp_delta_bins(s: Cabac, inc: int, value: int) -> (int, Cabac)
    decreases 104 - value,
{
    if value >= 104 {
        (value, s)
    } else {
        let (bin, after) = s.decide(60 + inc);
        if bin != 1 {
            (value, after)
        } else {
            qp_delta_bins(after, 2 + inc / 2, value + 1)
        }
    }
}

/// The quantiser delta.
pub open spec fn mb_qp_delta(s: Cabac, previous_was_nonzero: bool) -> (int, Cabac) {
    let (value, after) = qp_delta_bins(s, count(previous_was_nonzero), 0);
    (alternating(value), after)
}

/// Decodes the quantiser delta.
pub fn decode_mb_qp_delta(
    d: &mut ArithDecoder<'_>,
    cx: &mut ContextState,
    previous_was_nonzero: bool,
) -> (delta: i32)
    requires
        cabac(*old(d), *old(cx)).wf(),
    ensures
        (delta as int, cabac(*final(d), *final(cx))) == mb_qp_delta(cabac(*old(d), *old(cx)), previous_was_nonzero),
        -52 <= delta <= 52,
        cabac(*final(d), *final(cx)).wf(),
        final(d)@.data == old(d)@.data,
{
    let ghost start = cabac(*d, *cx);
    let ghost target = qp_delta_bins(start, count(previous_was_nonzero), 0);
    let mut inc: usize = one_if(previous_was_nonzero);
    let mut value: i32 = 0;
    // The bound keeps a corrupt stream from looping on.
    while value < 104
        invariant_except_break
            0 <= value <= 104,
            inc <= 3,
            cabac(*d, *cx).wf(),
            d@.data == old(d)@.data,
            target == qp_delta_bins(cabac(*d, *cx), inc as int, value as int),
        ensures
            0 <= value <= 104,
            cabac(*d, *cx).wf(),
            d@.data == old(d)@.data,
            target == (value as int, cabac(*d, *cx)),
        decreases 104 - value,
    {
        if d.decide(cx, 60 + inc) != 1 {
            break;
        }
        inc = 2 + inc / 2;
        value = value + 1;
    }
    let magnitude: i32 = (value + 1) / 2;
    if value % 2 == 1 {
        magnitude
    } else {
        -magnitude
    }
}

/// Whether a neighbouring block points away from the nearest reference.
pub open spec fn refers_away(c: Surroundings, n: Option<BlockRef>) -> bool {
    match n {
        None => false,
        Some(n) => !c.info(n).is_intra() && c.info(n).ref_idx[n.blk as int / 4] > 0,
    }
}

/// How many ones precede the first zero in a reference index.
pub open spec fn ref_idx_bins(s: Cabac, inc: int, value: int) -> (int, Cabac)
    decreases 32 - value,
{
    if value >= 32 {
        (value, s)
    } else {
        let (bin, after) = s.decide(54 + inc);
        if bin != 1 {
            (value, after)
        } else {
            ref_idx_bins(after, inc / 4 + 4, value + 1)
        }
    }
}

/// The reference index of the partition whose first 4x4 block is `blk`.
pub open spec fn ref_idx_element(s: Cabac, c: Surroundings, blk: int) -> (int, Cabac) {
    ref_idx_bins(
        s,
        count(refers_away(c, c.pic.grid.spec_luma_4x4_neighbour(c.addr, blk, -1, 0))) + 2 * count(
            refers_away(c, c.pic.grid.spec_luma_4x4_neighbour(c.addr, blk, 0, -1)),
        ),
        0,
    )
}

fn points_away(c: &MbContext<'_>, n: Option<BlockRef>) -> (r: bool)
    requires
        n matches Some(n) ==> n.blk < 16 && (n.mb == c.addr || n.mb < c.state@.mbs.len()),
    ensures
        r == refers_away(c@, n),
{
    match n {
        None => false,
        Some(n) => {
            let info: &MbInfo = c.info(n);
            !info.is_intra() && info.ref_idx_of_block(n.blk) > 0
        },
    }
}

/// Decodes the reference index of the partition whose first 4x4 block is `blk`.
pub fn decode_ref_idx(
    d: &mut ArithDecoder<'_>,
    cx: &mut ContextState,
    c: &MbContext<'_>,
    blk: u8,
) -> (value: u8)
    requires
        cabac(*old(d), *old(cx)).wf(),
        c.wf(),
    ensures
        (value as int, cabac(*final(d), *final(cx))) == ref_idx_element(cabac(*old(d), *old(cx)), c@, blk as int),
        value <= 32,
        cabac(*final(d), *final(cx)).wf(),
        final(d)@.data == old(d)@.data,
{
    proof {
        lemma_neighbours_exist(c@.pic.grid, c.addr as int);
    }
    let a: bool = points_away(c, c.state.neighbours.luma_4x4_a(c.addr, blk));
    let b: bool = points_away(c, c.state.neighbours.luma_4x4_b(c.addr, blk));
    let mut inc: usize = one_if(a) + 2 * one_if(b);
    let ghost start = cabac(*d, *cx);
    let ghost target = ref_idx_bins(start, inc as int, 0);
    let mut value: u8 = 0;
    while value < 32
        invariant_except_break
            value <= 32,
            inc <= 5,
            cabac(*d, *cx).wf(),
            d@.data == old(d)@.data,
            target == ref_idx_bins(cabac(*d, *cx), inc as int, value as int),
        ensures
            value <= 32,
            cabac(*d, *cx).wf(),
            d@.data == old(d)@.data,
            target == (value as int, cabac(*d, *cx)),
        decreases 32 - value,
    {
        if d.decide(cx, 54 + inc) != 1 {
            break;
        }
        inc = inc / 4 + 4;
        value = value + 1;
    }
    value
}

/// The size of a neighbouring block's coded vector difference. Intra and skipped
/// macroblocks have none.
pub open spec fn mvd_size(c: Surroundings, n: Option<BlockRef>, comp: int) -> int {
    match n {
        None => 0,
        Some(n) => {
            let info = c.info(n);
            if info.is_intra() || info.mb_type is PSkip {
                0
            } else if comp == 0 {
                magnitude(info.mvd[n.blk as int].0 as int)
            } else {
                magnitude(info.mvd[n.blk as int].1 as int)
            }
        },
    }
}

/// Which of three contexts the first bin of a vector difference uses: it goes by
/// the size of the neighbouring differences, not of the vectors.
pub open spec fn mvd_inc(c: Surroundings, blk: int, comp: int) -> int {
    let sum = mvd_size(c, c.pic.grid.spec_luma_4x4_neighbour(c.addr, blk, -1, 0), comp) + mvd_size(
        c,
        c.pic.grid.spec_luma_4x4_neighbour(c.addr, blk, 0, -1),
        comp,
    );
    if sum <= 2 {
        0
    } else if sum <= 32 {
        1
    } else {
        2
    }
}

/// The unary prefix of a vector difference's magnitude, up to nine.
pub open spec fn mvd_prefix(s: Cabac, ctx: int, magnitude: int) -> (int, Cabac)
    decreases 9 - magnitude,
{
    if magnitude >= 9 {
        (magnitude, s)
    } else {
        let (bin, after) = s.decide(ctx);
        if bin != 1 {
            (magnitude, after)
        } else {
            mvd_prefix(
                after,
                if magnitude < 4 {
                    ctx + 1
                } else {
                    ctx
                },
                magnitude + 1,
            )
        }
    }
}

/// One component of a vector difference. Numbers too large for 32 bits wrap.
pub open spec fn mvd_element(s: Cabac, c: Surroundings, blk: int, comp: int) -> (int, Cabac) {
    let base: int = if comp == 0 {
        40
    } else {
        47
    };
    let (nonzero, s1) = s.decide(base + mvd_inc(c, blk, comp));
    if nonzero == 0 {
        (0, s1)
    } else {
        let (prefix, s2) = mvd_prefix(s1, base + 3, 1);
        let (value, s3) = if prefix >= 9 {
            let (suffix, s3) = s2.exp_golomb(3);
            (wrap32(prefix + suffix), s3)
        } else {
            (prefix, s2)
        };
        let (sign, s4) = s3.bypass();
        (if sign == 1 {
            wrap32(-value)
        } else {
            value
        }, s4)
    }
}

fn size_of_mvd(c: &MbContext<'_>, n: Option<BlockRef>, comp: usize) -> (r: i32)
    requires
        comp < 2,
        n matches Some(n) ==> n.blk < 16 && (n.mb == c.addr || n.mb < c.state@.mbs.len()),
    ensures
        r == mvd_size(c@, n, comp as int),
        0 <= r <= 32768,
{
    match n {
        None => 0,
        Some(n) => {
            let info: &MbInfo = c.info(n);
            if info.is_intra() || info.is_skipped() {
                0
            } else {
                abs_i32(info.mvd[n.blk as usize][comp] as i32)
            }
        },
    }
}

/// Which of three contexts the first bin of a vector difference uses.
pub fn mvd_ctx_inc(c: &MbContext<'_>, blk: u8, comp: usize) -> (inc: usize)
    requires
        c.wf(),
        comp < 2,
    ensures
        inc == mvd_inc(c@, blk as int, comp as int),
{
    proof {
        lemma_neighbours_exist(c@.pic.grid, c.addr as int);
    }
    let sum: i32 = size_of_mvd(c, c.state.neighbours.luma_4x4_a(c.addr, blk), comp) + size_of_mvd(
        c,
        c.state.neighbours.luma_4x4_b(c.addr, blk),
        comp,
    );
    if sum <= 2 {
        0
    } else if sum <= 32 {
        1
    } else {
        2
    }
}

/// Decodes one component of a vector difference: `comp` is 0 for horizontal and
/// 1 for vertical.
pub fn decode_mvd(
    d: &mut ArithDecoder<'_>,
    cx: &mut ContextState,
    c: &MbContext<'_>,
    blk: u8,
    comp: usize,
) -> (r: i32)
    requires
        cabac(*old(d), *old(cx)).wf(),
        c.wf(),
        comp < 2,
    ensures
        (r as int, cabac(*final(d), *final(cx))) == mvd_element(cabac(*old(d), *old(cx)), c@, blk as int, comp as int),
        cabac(*final(d), *final(cx)).wf(),
        final(d)@.data == old(d)@.data,
{
    let base: usize = if comp == 0 {
        40
    } else {
        47
    };
    let inc: usize = mvd_ctx_inc(c, blk, comp);
    if d.decide(cx, base + inc) == 0 {
        return 0;
    }
    let ghost start = cabac(*d, *cx);
    let ghost target = mvd_prefix(start, base + 3, 1);
    let mut magnitude: i32 = 1;
    let mut ctx: usize = base + 3;
    while magnitude < 9
        invariant_except_break
            1 <= magnitude <= 9,
            ctx == base + if magnitude < 4 {
                2 + magnitude
            } else {
                6
            },
            base <= 47,
            cabac(*d, *cx).wf(),
            d@.data == old(d)@.data,
            target == mvd_prefix(cabac(*d, *cx), ctx as int, magnitude as int),
        ensures
            1 <= magnitude <= 9,
            cabac(*d, *cx).wf(),
            d@.data == old(d)@.data,
            target == (magnitude as int, cabac(*d, *cx)),
        decreases 9 - magnitude,
    {
        if d.decide(cx, ctx) != 1 {
            break;
        }
        if magnitude < 4 {
            ctx = ctx + 1;
        }
        magnitude = magnitude + 1;
    }
    if magnitude >= 9 {
        let suffix: u32 = d.decode_exp_golomb_bypass(3);
        proof {
            lemma_u32_as_i32(suffix);
            lemma_wrap(suffix as int, 9);
        }
        magnitude = wadd(suffix as i32, magnitude);
    }
    if d.decode_bypass() == 1 {
        wsub(0, magnitude)
    } else {
        magnitude
    }
}

/// Which block a coded flag belongs to.
#[derive(Debug, Clone, Copy, PartialEq, Eq, Structural)]
pub enum CbfBlock {
    /// The `I_16x16` luma DC block.
    LumaDc,
    /// A 4x4 luma block, by index.
    Luma(u8),
    /// A chroma component's DC block.
    ChromaDc(usize),
    /// A 4x4 chroma AC block of a component.
    ChromaAc(usize, u8),
}

impl CbfBlock {
    /// The block is one of a macroblock's.
    pub open spec fn wf(self) -> bool {
        match self {
            CbfBlock::LumaDc => true,
            CbfBlock::Luma(blk) => blk < 16,
            CbfBlock::ChromaDc(comp) => comp < 2,
            CbfBlock::ChromaAc(comp, blk) => comp < 2 && blk < 4,
        }
    }
}

/// A macroblock as a reference to its first block.
pub open spec fn whole_mb(mb: Option<usize>) -> Option<BlockRef> {
    match mb {
        Some(mb) => Some(BlockRef { mb, blk: 0 }),
        None => None,
    }
}

/// The neighbour of a block that its coded flag is compared with, to the left or
/// above. A DC block's neighbour is the neighbouring macroblock's.
pub open spec fn cbf_neighbour(c: Surroundings, block: CbfBlock, left: bool) -> Option<BlockRef> {
    let (dx, dy) = if left {
        (-1int, 0int)
    } else {
        (0int, -1int)
    };
    match block {
        CbfBlock::LumaDc | CbfBlock::ChromaDc(_) => whole_mb(
            if left {
                c.pic.grid.spec_mb_a(c.addr)
            } else {
                c.pic.grid.spec_mb_b(c.addr)
            },
        ),
        CbfBlock::Luma(blk) => c.pic.grid.spec_luma_4x4_neighbour(c.addr, blk as int, dx, dy),
        CbfBlock::ChromaAc(_, blk) => c.pic.grid.spec_chroma_4x4_neighbour(
            c.addr,
            blk as int,
            dx,
            dy,
        ),
    }
}

/// Whether the neighbour of a block counts as coded. Where there is none, an
/// intra macroblock takes it as coded and an inter one as empty; `I_PCM` is
/// always coded, a skipped macroblock never.
pub open spec fn neighbour_coded(c: Surroundings, block: CbfBlock, left: bool) -> bool {
    match cbf_neighbour(c, block, left) {
        None => c.cur.is_intra(),
        Some(found) => {
            let info = c.info(found);
            if info.mb_type is IPcm {
                true
            } else if info.mb_type is PSkip {
                false
            } else {
                match block {
                    CbfBlock::LumaDc => info.cbf_luma_dc,
                    CbfBlock::Luma(_) => info.cbf_luma[found.blk as int],
                    CbfBlock::ChromaDc(comp) => info.cbf_chroma_dc[comp as int],
                    CbfBlock::ChromaAc(comp, _) => info.cbf_chroma_ac[comp * 4 + found.blk],
                }
            }
        },
    }
}

/// The context of a block's coded flag, from the kind's first.
pub open spec fn cbf_inc(c: Surroundings, block: CbfBlock) -> int {
    count(neighbour_coded(c, block, true)) + 2 * count(neighbour_coded(c, block, false))
}

/// The context of a block's coded flag, from the kind's first.
pub fn coded_block_flag_ctx_inc(c: &MbContext<'_>, block: CbfBlock) -> (inc: usize)
    requires
        c.wf(),
        block.wf(),
    ensures
        inc == cbf_inc(c@, block),
        inc < 4,
{
    one_if(neighbouring_cbf(c, block, true)) + 2 * one_if(neighbouring_cbf(c, block, false))
}

fn neighbouring_cbf(c: &MbContext<'_>, block: CbfBlock, left: bool) -> (r: bool)
    requires
        c.wf(),
        block.wf(),
    ensures
        r == neighbour_coded(c@, block, left),
{
    proof {
        lemma_neighbours_exist(c@.pic.grid, c.addr as int);
    }
    let neighbours = &c.state.neighbours;
    let (dx, dy): (i32, i32) = if left {
        (-1, 0)
    } else {
        (0, -1)
    };
    let found: Option<BlockRef> = match block {
        CbfBlock::LumaDc | CbfBlock::ChromaDc(_) => {
            let mb: Option<MbAddr> = if left {
                neighbours.mb_a(c.addr)
            } else {
                neighbours.mb_b(c.addr)
            };
            match mb {
                Some(mb) => Some(BlockRef { mb, blk: 0 }),
                None => None,
            }
        },
        CbfBlock::Luma(blk) => neighbours.luma_4x4_neighbour(c.addr, blk, dx, dy),
        CbfBlock::ChromaAc(_, blk) => neighbours.chroma_4x4_neighbour(c.addr, blk, dx, dy),
    };
    assert(found == cbf_neighbour(c@, block, left));
    let Some(found) = found else {
        return c.cur.is_intra();
    };
    let info: &MbInfo = c.info(found);
    if info.mb_type == MbType::IPcm {
        return true;
    }
    if info.is_skipped() {
        return false;
    }
    match block {
        CbfBlock::LumaDc => info.cbf_luma_dc,
        CbfBlock::Luma(_) => info.luma_cbf(found.blk),
        CbfBlock::ChromaDc(comp) => info.cbf_chroma_dc[comp],
        CbfBlock::ChromaAc(comp, _) => info.chroma_cbf(comp, found.blk),
    }
}

/// The kind a block belongs to.
pub open spec fn spec_cbf_category(block: CbfBlock, intra_16x16: bool) -> BlockCat {
    match block {
        CbfBlock::LumaDc => BlockCat::Intra16x16Dc,
        CbfBlock::Luma(_) => if intra_16x16 {
            BlockCat::Intra16x16Ac
        } else {
            BlockCat::Luma4x4
        },
        CbfBlock::ChromaDc(_) => BlockCat::ChromaDc,
        CbfBlock::ChromaAc(..) => BlockCat::ChromaAc,
    }
}

/// The kind a block belongs to.
pub fn cbf_category(block: CbfBlock, intra_16x16: bool) -> (cat: BlockCat)
    ensures
        cat == spec_cbf_category(block, intra_16x16),
{
    match block {
        CbfBlock::LumaDc => BlockCat::Intra16x16Dc,
        CbfBlock::Luma(_) => if intra_16x16 {
            BlockCat::Intra16x16Ac
        } else {
            BlockCat::Luma4x4
        },
        CbfBlock::ChromaDc(_) => BlockCat::ChromaDc,
        CbfBlock::ChromaAc(..) => BlockCat::ChromaAc,
    }
}

/// The escape of an intra mode never stands for the predicted mode, different
/// numbers stand for different modes, and all eight others can be reached.
pub proof fn law_intra_mode_escape_skips_the_predicted_mode(
    predicted: int,
    a: int,
    b: int,
    mode: int,
)
    requires
        0 <= predicted <= 8,
        0 <= a <= 7,
        0 <= b <= 7,
        0 <= mode <= 8,
    ensures
        escaped_mode(a, predicted) != predicted,
        0 <= escaped_mode(a, predicted) <= 8,
        escaped_mode(a, predicted) == escaped_mode(b, predicted) ==> a == b,
        mode != predicted ==> exists|n: int|
            0 <= n <= 7 && #[trigger] escaped_mode(n, predicted) == mode,
{
    let n = if mode > predicted {
        mode - 1
    } else {
        mode
    };
    if mode != predicted {
        assert(escaped_mode(n, predicted) == mode);
    }
}

/// Longer quantiser deltas alternate in sign and grow in size, and different
/// lengths stand for different deltas.
pub proof fn law_quantiser_deltas_alternate_in_sign(value: int, other: int)
    requires
        0 <= value,
        0 <= other,
    ensures
        value % 2 == 1 ==> alternating(value) > 0 && alternating(value + 1) == -alternating(value),
        alternating(value) == alternating(other) ==> value == other,
{
}

} // verus!
