//! Parsing one macroblock out of the arithmetic-coded data.
//!
//! The order of the syntax elements is what this module is about: each is
//! decoded in a context that depends on those before it, so a step out of order
//! loses the place in the bitstream.
use vstd::prelude::*;
use super::cabac::{cabac, ArithDecoder, Cabac, ContextState};
use super::inter::{
    predict_mv, predict_skip_mv, spec_predict_mv, spec_predict_skip_mv, Neighbour, Partition,
};
use super::math::clip3;
use super::mb::{next_qp, rect, MbType, Part, Partitioning, SliceKind, SubMbType};
use super::neighbour::{
    lemma_neighbours_exist, luma_4x4_index, names_earlier, spec_luma_4x4_index, BlockRef, MbAddr,
};
use super::recon::{Levels, Residual};
use super::residual::{
    coded_block_flag, coefficients, decode_coded_block_flag, decode_coefficients, BlockCat,
};
use super::state::{filled, filled_refs, MbInfo, MbModel, PicModel, PictureState, DC_PRED_MODE};
use super::syntax::{
    cbf_category, cbf_inc, coded_block_flag_ctx_inc, coded_block_pattern,
    decode_coded_block_pattern, decode_intra_chroma_pred_mode, decode_intra_pred_mode,
    decode_mb_qp_delta, decode_mb_skip_flag, decode_mb_type, decode_mvd, decode_ref_idx,
    decode_sub_mb_type, decode_transform_size_8x8, intra_chroma_pred_mode, intra_pred_mode,
    mb_qp_delta, mb_skip_flag, mb_type_element, mvd_element, ref_idx_element, spec_cbf_category,
    sub_mb_type_element, transform_size_8x8, CbfBlock, MbContext, Surroundings,
};
use crate::error::Error;

verus! {

/// A macroblock of a picture in progress.
pub struct Site {
    pub pic: PicModel,
    pub addr: int,
}

impl Site {
    /// What a context derivation reads when `info` is known so far.
    pub open spec fn at(self, info: MbModel) -> Surroundings {
        Surroundings { pic: self.pic, cur: info, addr: self.addr }
    }

    /// The macroblock is one of the picture's.
    pub open spec fn wf(self) -> bool {
        &&& self.pic.wf()
        &&& 0 <= self.addr < self.pic.mbs.len()
    }
}

/// The site of a macroblock.
pub open spec fn site(state: PictureState, addr: MbAddr) -> Site {
    Site { pic: state@, addr: addr as int }
}

// ---- Intra modes ------------------------------------------------------------

/// The intra mode of a neighbouring block, if there is one to predict from. An
/// inter coded neighbour has none under constrained intra prediction.
pub open spec fn mode_of(
    at: Site,
    info: MbModel,
    block: Option<BlockRef>,
    constrained: bool,
) -> Option<u8> {
    match block {
        None => None,
        Some(b) => {
            let n = at.pic.info_of(b, at.addr, info);
            if constrained && !n.is_intra() {
                None
            } else {
                Some(n.intra_modes[b.blk as int])
            }
        },
    }
}

/// The lesser of the neighbours' modes, DC unless both have one.
pub open spec fn predicted_mode(left: Option<u8>, above: Option<u8>) -> u8 {
    match (left, above) {
        (Some(l), Some(a)) => if l <= a {
            l
        } else {
            a
        },
        _ => DC_PRED_MODE,
    }
}

/// A 4x4 block of an 8x8 block.
pub open spec fn corner(block: Option<BlockRef>, c: int) -> Option<BlockRef> {
    match block {
        None => None,
        Some(b) => Some(BlockRef { mb: b.mb, blk: (b.blk * 4 + c) as u8 }),
    }
}

/// The mode predicted for a 4x4 block.
pub open spec fn predicted_4x4(at: Site, info: MbModel, constrained: bool, blk: int) -> u8 {
    predicted_mode(
        mode_of(
            at,
            info,
            at.pic.grid.spec_luma_4x4_neighbour(at.addr, blk, -1, 0),
            constrained,
        ),
        mode_of(
            at,
            info,
            at.pic.grid.spec_luma_4x4_neighbour(at.addr, blk, 0, -1),
            constrained,
        ),
    )
}

/// The mode predicted for an 8x8 block, from the 4x4 blocks that touch its
/// edges: the upper right one of the block to the left, the lower left one of
/// the block above.
pub open spec fn predicted_8x8(at: Site, info: MbModel, constrained: bool, blk: int) -> u8 {
    predicted_mode(
        mode_of(
            at,
            info,
            corner(at.pic.grid.spec_luma_8x8_neighbour(at.addr, blk, -1, 0), 1),
            constrained,
        ),
        mode_of(
            at,
            info,
            corner(at.pic.grid.spec_luma_8x8_neighbour(at.addr, blk, 0, -1), 2),
            constrained,
        ),
    )
}

/// The modes of sixteen 4x4 blocks, from `blk` on.
pub open spec fn modes_4x4(
    s: Cabac,
    at: Site,
    info: MbModel,
    constrained: bool,
    blk: int,
) -> (MbModel, Cabac)
    decreases 16 - blk,
{
    if blk >= 16 {
        (info, s)
    } else {
        let (mode, s2) = intra_pred_mode(s, predicted_4x4(at, info, constrained, blk) as int);
        modes_4x4(
            s2,
            at,
            MbModel { intra_modes: info.intra_modes.update(blk, mode as u8), ..info },
            constrained,
            blk + 1,
        )
    }
}

/// Modes with those of one 8x8 block replaced: each of its 4x4 blocks holds the
/// mode of the whole.
pub open spec fn filled_modes(modes: Seq<u8>, blk: int, mode: u8) -> Seq<u8> {
    Seq::new(
        16,
        |i: int|
            if i / 4 == blk {
                mode
            } else {
                modes[i]
            },
    )
}

/// The modes of four 8x8 blocks, from `blk` on.
pub open spec fn modes_8x8(
    s: Cabac,
    at: Site,
    info: MbModel,
    constrained: bool,
    blk: int,
) -> (MbModel, Cabac)
    decreases 4 - blk,
{
    if blk >= 4 {
        (info, s)
    } else {
        let (mode, s2) = intra_pred_mode(s, predicted_8x8(at, info, constrained, blk) as int);
        modes_8x8(
            s2,
            at,
            MbModel { intra_modes: filled_modes(info.intra_modes, blk, mode as u8), ..info },
            constrained,
            blk + 1,
        )
    }
}

/// The prediction of an intra macroblock: luma modes where they are coded one
/// by one, the chroma mode always.
pub open spec fn intra_prediction(
    s: Cabac,
    at: Site,
    info: MbModel,
    constrained: bool,
    use_8x8: bool,
) -> (MbModel, Cabac) {
    let (luma, s2) = if info.mb_type !is IntraNxN {
        (info, s)
    } else if use_8x8 {
        modes_8x8(s, at, info, constrained, 0)
    } else {
        modes_4x4(s, at, info, constrained, 0)
    };
    let (mode, s3) = intra_chroma_pred_mode(s2, at.at(luma));
    (MbModel { chroma_mode: mode as u8, ..luma }, s3)
}

fn neighbour_mode(
    state: &PictureState,
    addr: MbAddr,
    info: &MbInfo,
    block: Option<BlockRef>,
    constrained: bool,
) -> (r: Option<u8>)
    requires
        block matches Some(b) ==> b.blk < 16 && (b.mb == addr || b.mb < state@.mbs.len()),
    ensures
        r == mode_of(site(*state, addr), info@, block, constrained),
{
    match block {
        None => None,
        Some(b) => {
            let n: &MbInfo = if b.mb == addr {
                info
            } else {
                state.at(b)
            };
            if constrained && !n.is_intra() {
                None
            } else {
                Some(n.intra_modes[b.blk as usize])
            }
        },
    }
}

fn least_mode(left: Option<u8>, above: Option<u8>) -> (r: u8)
    ensures
        r == predicted_mode(left, above),
{
    match (left, above) {
        (Some(l), Some(a)) => {
            if l <= a {
                l
            } else {
                a
            }
        },
        _ => DC_PRED_MODE,
    }
}

fn corner_of(block: Option<BlockRef>, c: u8) -> (r: Option<BlockRef>)
    requires
        c < 4,
        block matches Some(b) ==> b.blk < 4,
    ensures
        r == corner(block, c as int),
        r matches Some(b) ==> b.blk < 16 && b.mb == block->0.mb,
{
    match block {
        None => None,
        Some(b) => Some(BlockRef { mb: b.mb, blk: b.blk * 4 + c }),
    }
}

fn decode_modes_4x4(
    d: &mut ArithDecoder<'_>,
    cx: &mut ContextState,
    state: &PictureState,
    addr: MbAddr,
    info: &mut MbInfo,
    constrained: bool,
)
    requires
        cabac(*old(d), *old(cx)).wf(),
        state.wf(),
        addr < state@.mbs.len(),
    ensures
        (final(info)@, cabac(*final(d), *final(cx))) == modes_4x4(
            cabac(*old(d), *old(cx)),
            site(*state, addr),
            old(info)@,
            constrained,
            0,
        ),
        cabac(*final(d), *final(cx)).wf(),
        final(d)@.data == old(d)@.data,
{
    let ghost at = site(*state, addr);
    let ghost goal = modes_4x4(cabac(*d, *cx), at, info@, constrained, 0);
    let ghost data = d@.data;
    for blk in 0..16u8
        invariant
            cabac(*d, *cx).wf(),
            state.wf(),
            addr < state@.mbs.len(),
            at == site(*state, addr),
            d@.data == data,
            goal == modes_4x4(cabac(*d, *cx), at, info@, constrained, blk as int),
    {
        proof {
            lemma_neighbours_exist(state@.grid, addr as int);
            assert(names_earlier(
                state@.grid.spec_luma_4x4_neighbour(addr as int, blk as int, -1, 0),
                addr as int,
                blk as int,
                16,
            ));
            assert(names_earlier(
                state@.grid.spec_luma_4x4_neighbour(addr as int, blk as int, 0, -1),
                addr as int,
                blk as int,
                16,
            ));
        }
        let left: Option<u8> = neighbour_mode(
            state,
            addr,
            info,
            state.neighbours.luma_4x4_a(addr, blk),
            constrained,
        );
        let above: Option<u8> = neighbour_mode(
            state,
            addr,
            info,
            state.neighbours.luma_4x4_b(addr, blk),
            constrained,
        );
        let ghost before = info@;
        let mode: u8 = decode_intra_pred_mode(d, cx, least_mode(left, above));
        info.intra_modes[blk as usize] = mode;
        assert(info@ =~= MbModel {
            intra_modes: before.intra_modes.update(blk as int, mode),
            ..before
        });
    }
}

fn predict_mode_8x8(
    state: &PictureState,
    addr: MbAddr,
    info: &MbInfo,
    constrained: bool,
    blk: u8,
) -> (mode: u8)
    requires
        state.wf(),
        addr < state@.mbs.len(),
        blk < 4,
    ensures
        mode == predicted_8x8(site(*state, addr), info@, constrained, blk as int),
{
    proof {
        lemma_neighbours_exist(state@.grid, addr as int);
        assert(names_earlier(
            state@.grid.spec_luma_8x8_neighbour(addr as int, blk as int, -1, 0),
            addr as int,
            blk as int,
            4,
        ));
        assert(names_earlier(
            state@.grid.spec_luma_8x8_neighbour(addr as int, blk as int, 0, -1),
            addr as int,
            blk as int,
            4,
        ));
    }
    let n = &state.neighbours;
    let left = corner_of(n.luma_8x8_neighbour(addr, blk, -1, 0), 1);
    let above = corner_of(n.luma_8x8_neighbour(addr, blk, 0, -1), 2);
    least_mode(
        neighbour_mode(state, addr, info, left, constrained),
        neighbour_mode(state, addr, info, above, constrained),
    )
}

fn fill_modes(info: &mut MbInfo, blk: u8, mode: u8)
    requires
        blk < 4,
    ensures
        final(info)@ == (MbModel {
            intra_modes: filled_modes(old(info)@.intra_modes, blk as int, mode),
            ..old(info)@
        }),
{
    let ghost before = info@;
    let first: usize = blk as usize * 4;
    info.intra_modes[first] = mode;
    info.intra_modes[first + 1] = mode;
    info.intra_modes[first + 2] = mode;
    info.intra_modes[first + 3] = mode;
    assert(info@ =~= MbModel {
        intra_modes: filled_modes(before.intra_modes, blk as int, mode),
        ..before
    });
}

fn decode_modes_8x8(
    d: &mut ArithDecoder<'_>,
    cx: &mut ContextState,
    state: &PictureState,
    addr: MbAddr,
    info: &mut MbInfo,
    constrained: bool,
)
    requires
        cabac(*old(d), *old(cx)).wf(),
        state.wf(),
        addr < state@.mbs.len(),
    ensures
        (final(info)@, cabac(*final(d), *final(cx))) == modes_8x8(
            cabac(*old(d), *old(cx)),
            site(*state, addr),
            old(info)@,
            constrained,
            0,
        ),
        cabac(*final(d), *final(cx)).wf(),
        final(d)@.data == old(d)@.data,
{
    let ghost at = site(*state, addr);
    let ghost goal = modes_8x8(cabac(*d, *cx), at, info@, constrained, 0);
    let ghost data = d@.data;
    for blk in 0..4u8
        invariant
            cabac(*d, *cx).wf(),
            state.wf(),
            addr < state@.mbs.len(),
            at == site(*state, addr),
            d@.data == data,
            goal == modes_8x8(cabac(*d, *cx), at, info@, constrained, blk as int),
    {
        let predicted: u8 = predict_mode_8x8(state, addr, info, constrained, blk);
        let mode: u8 = decode_intra_pred_mode(d, cx, predicted);
        fill_modes(info, blk, mode);
    }
}

/// Decodes the prediction of an intra macroblock.
pub fn decode_intra(
    d: &mut ArithDecoder<'_>,
    cx: &mut ContextState,
    state: &PictureState,
    addr: MbAddr,
    info: &mut MbInfo,
    constrained: bool,
    use_8x8: bool,
)
    requires
        cabac(*old(d), *old(cx)).wf(),
        state.wf(),
        addr < state@.mbs.len(),
    ensures
        (final(info)@, cabac(*final(d), *final(cx))) == intra_prediction(
            cabac(*old(d), *old(cx)),
            site(*state, addr),
            old(info)@,
            constrained,
            use_8x8,
        ),
        cabac(*final(d), *final(cx)).wf(),
        final(d)@.data == old(d)@.data,
{
    if info.mb_type == MbType::IntraNxN {
        if use_8x8 {
            decode_modes_8x8(d, cx, state, addr, info, constrained);
        } else {
            decode_modes_4x4(d, cx, state, addr, info, constrained);
        }
    }
    let ghost before = info@;
    let mode: u8 = decode_intra_chroma_pred_mode(
        d,
        cx,
        &MbContext { state, cur: info, addr, constrained_intra: constrained },
    );
    info.chroma_mode = mode;
    assert(info@ =~= MbModel { chroma_mode: mode, ..before });
}

// ---- Motion -----------------------------------------------------------------

/// The first of two places that there is.
pub open spec fn either(a: Option<BlockRef>, b: Option<BlockRef>) -> Option<BlockRef> {
    if a is Some {
        a
    } else {
        b
    }
}

/// The block `dx`, `dy` from the upper left corner of a partition.
pub open spec fn block_near(at: Site, x: int, y: int, dx: int, dy: int) -> Option<BlockRef> {
    at.pic.grid.luma_4x4_at(at.addr, x + dx, y + dy, spec_luma_4x4_index(x, y))
}

/// The neighbours a partition's vector is predicted from: left, above and above
/// right, with above left where above right is missing.
pub open spec fn partition_motion(
    at: Site,
    info: MbModel,
    x: int,
    y: int,
    width: int,
) -> (Neighbour, Neighbour, Neighbour) {
    (
        at.pic.motion(block_near(at, x, y, -1, 0), at.addr, info),
        at.pic.motion(block_near(at, x, y, 0, -1), at.addr, info),
        at.pic.motion(
            either(
                block_near(at, x, y, width, -1),
                block_near(at, x, y, -1, -1),
            ),
            at.addr,
            info,
        ),
    )
}

/// The vector of a skipped macroblock.
pub open spec fn skip_vector(at: Site) -> (i32, i32) {
    let (a, b, c) = partition_motion(at, MbModel::blank(MbType::PSkip, 0), 0, 0, 16);
    spec_predict_skip_mv(
        a,
        b,
        c,
        at.pic.grid.spec_mb_a(at.addr) is Some,
        at.pic.grid.spec_mb_b(at.addr) is Some,
    )
}

/// The reference index of one partition.
pub open spec fn ref_idx_of(s: Cabac, at: Site, info: MbModel, part: Part) -> (MbModel, Cabac) {
    let (x, y) = (part.x as int, part.y as int);
    let (value, s2) = ref_idx_element(s, at.at(info), spec_luma_4x4_index(x, y));
    (
        MbModel {
            ref_idx: filled_refs(
                info.ref_idx,
                x,
                y,
                part.width as int,
                part.height as int,
                value as i8,
            ),
            ..info
        },
        s2,
    )
}

/// The reference indices of the partitions, from number `i` on.
pub open spec fn ref_indices(
    s: Cabac,
    at: Site,
    info: MbModel,
    parts: Seq<Part>,
    i: int,
) -> (MbModel, Cabac)
    decreases parts.len() - i,
{
    if i >= parts.len() {
        (info, s)
    } else {
        let (info2, s2) = ref_idx_of(s, at, info, parts[i]);
        ref_indices(s2, at, info2, parts, i + 1)
    }
}

/// A predicted component and its coded difference, added within 32 bits and cut
/// to 16.
pub open spec fn vector_component(predicted: i32, difference: i16) -> i16 {
    clip3(i32::MIN as int, i32::MAX as int, predicted + difference) as i16
}

/// The vector difference of a partition.
pub open spec fn difference(s: Cabac, at: Site, info: MbModel, blk: int) -> ((i16, i16), Cabac) {
    let (dx, s1) = mvd_element(s, at.at(info), blk, 0);
    let (dy, s2) = mvd_element(s1, at.at(info), blk, 1);
    ((dx as i16, dy as i16), s2)
}

/// The vector predicted for a partition.
pub open spec fn predicted_vector(
    at: Site,
    info: MbModel,
    part: Part,
    partition: Partition,
) -> (i32, i32) {
    let (x, y) = (part.x as int, part.y as int);
    let (a, b, c) = partition_motion(at, info, x, y, part.width as int);
    spec_predict_mv(a, b, c, info.ref_idx[spec_luma_4x4_index(x, y) / 4], partition)
}

/// A macroblock with the vector and the vector difference of a partition.
pub open spec fn moved(info: MbModel, part: Part, mv: (i16, i16), mvd: (i16, i16)) -> MbModel {
    let (x, y) = (part.x as int, part.y as int);
    let (width, height) = (part.width as int, part.height as int);
    MbModel {
        mvd: filled(info.mvd, x, y, width, height, mvd),
        mv: filled(info.mv, x, y, width, height, mv),
        ..info
    }
}

/// The motion of one partition: the coded difference on the predicted vector.
#[verifier::opaque]
pub open spec fn motion_of(
    s: Cabac,
    at: Site,
    info: MbModel,
    part: Part,
    partition: Partition,
) -> (MbModel, Cabac) {
    let (mvd, s2) = difference(s, at, info, spec_luma_4x4_index(part.x as int, part.y as int));
    let predicted = predicted_vector(at, info, part, partition);
    let mv = (vector_component(predicted.0, mvd.0), vector_component(predicted.1, mvd.1));
    (moved(info, part, mv, mvd), s2)
}

/// The motion of the partitions, from number `i` on.
pub open spec fn motions(
    s: Cabac,
    at: Site,
    info: MbModel,
    shape: Partitioning,
    i: int,
) -> (MbModel, Cabac)
    decreases shape.spec_parts().len() - i,
{
    if i >= shape.spec_parts().len() {
        (info, s)
    } else {
        let (info2, s2) = motion_of(
            s,
            at,
            info,
            shape.spec_parts()[i],
            shape.spec_mv_prediction(i),
        );
        motions(s2, at, info2, shape, i + 1)
    }
}

/// A part of a part, placed in the macroblock.
pub open spec fn placed(part: Part, child: Part) -> Part {
    rect(
        (part.x + child.x) as usize,
        (part.y + child.y) as usize,
        child.width,
        child.height,
    )
}

/// The motion of the children of one partition, from number `i` on.
pub open spec fn child_motions(
    s: Cabac,
    at: Site,
    info: MbModel,
    part: Part,
    children: Seq<Part>,
    i: int,
) -> (MbModel, Cabac)
    decreases children.len() - i,
{
    if i >= children.len() {
        (info, s)
    } else {
        let (info2, s2) = motion_of(s, at, info, placed(part, children[i]), Partition::Other);
        child_motions(s2, at, info2, part, children, i + 1)
    }
}

/// The motion of the four partitions and their children, from partition `i` on.
pub open spec fn sub_motions(
    s: Cabac,
    at: Site,
    info: MbModel,
    parts: Seq<Part>,
    subs: Seq<SubMbType>,
    i: int,
) -> (MbModel, Cabac)
    decreases parts.len() - i,
{
    if i >= parts.len() {
        (info, s)
    } else {
        let (info2, s2) = child_motions(s, at, info, parts[i], subs[i].spec_parts(), 0);
        sub_motions(s2, at, info2, parts, subs, i + 1)
    }
}

/// The types of the four sub-macroblocks, after those already known.
pub open spec fn sub_types(s: Cabac, known: Seq<SubMbType>) -> (Seq<SubMbType>, Cabac)
    decreases 4 - known.len(),
{
    if known.len() >= 4 {
        (known, s)
    } else {
        let (t, s2) = sub_mb_type_element(s);
        sub_types(s2, known.push(t->0))
    }
}

/// The prediction of an inter macroblock. Every reference index comes before
/// any vector difference.
pub open spec fn inter_prediction(
    s: Cabac,
    at: Site,
    info: MbModel,
    shape: Partitioning,
    num_ref_idx_l0: int,
) -> (MbModel, Cabac) {
    let split = shape is P8x8 || shape is P8x8Ref0;
    let (subs, s1) = if split {
        sub_types(s, Seq::empty())
    } else {
        (Seq::empty(), s)
    };
    let (referred, s2) = if num_ref_idx_l0 > 1 && shape !is P8x8Ref0 {
        ref_indices(s1, at, info, shape.spec_parts(), 0)
    } else {
        (info, s1)
    };
    if split {
        sub_motions(s2, at, referred, shape.spec_parts(), subs, 0)
    } else {
        motions(s2, at, referred, shape, 0)
    }
}

/// A rectangle of a macroblock on the grid of its 4x4 blocks.
pub open spec fn on_grid(part: Part) -> bool {
    &&& part.x % 4 == 0
    &&& part.y % 4 == 0
    &&& 0 < part.width
    &&& part.width % 4 == 0
    &&& 0 < part.height
    &&& part.height % 4 == 0
    &&& part.x + part.width <= 16
    &&& part.y + part.height <= 16
}

fn or_block(a: Option<BlockRef>, b: Option<BlockRef>) -> (r: Option<BlockRef>)
    ensures
        r == either(a, b),
{
    if a.is_some() {
        a
    } else {
        b
    }
}

/// Neighbours A, B and C of a partition. C gives way to D where it is missing,
/// as it is along the right border and above blocks not yet decoded.
fn partition_neighbours(
    state: &PictureState,
    addr: MbAddr,
    cur: &MbInfo,
    x: usize,
    y: usize,
    width: usize,
) -> (r: (Neighbour, Neighbour, Neighbour))
    requires
        state.wf(),
        addr < state@.mbs.len(),
        x < 16,
        y < 16,
        width <= 16,
    ensures
        r == partition_motion(site(*state, addr), cur@, x as int, y as int, width as int),
{
    let n = &state.neighbours;
    proof {
        let at = site(*state, addr);
        let blk = spec_luma_4x4_index(x as int, y as int);
        lemma_neighbours_exist(state@.grid, addr as int);
        assert(names_earlier(block_near(at, x as int, y as int, -1, 0), addr as int, blk, 16));
        assert(names_earlier(block_near(at, x as int, y as int, 0, -1), addr as int, blk, 16));
        assert(names_earlier(
            block_near(at, x as int, y as int, width as int, -1),
            addr as int,
            blk,
            16,
        ));
        assert(names_earlier(
            block_near(at, x as int, y as int, -1, -1),
            addr as int,
            blk,
            16,
        ));
    }
    let a = n.luma_partition_neighbour(addr, x, y, -1, 0);
    let b = n.luma_partition_neighbour(addr, x, y, 0, -1);
    let c = or_block(
        n.luma_partition_neighbour(addr, x, y, width as i32, -1),
        n.luma_partition_neighbour(addr, x, y, -1, -1),
    );
    (state.motion(a, addr, cur), state.motion(b, addr, cur), state.motion(c, addr, cur))
}

fn skip_mv(state: &PictureState, addr: MbAddr) -> (mv: (i32, i32))
    requires
        state.wf(),
        addr < state@.mbs.len(),
    ensures
        mv == skip_vector(site(*state, addr)),
{
    let (a, b, c) = partition_neighbours(state, addr, &MbInfo::skipped(), 0, 0, 16);
    let n = &state.neighbours;
    predict_skip_mv(a, b, c, n.mb_a(addr).is_some(), n.mb_b(addr).is_some())
}

/// Decodes the reference index of a partition.
fn decode_part_ref_idx(
    d: &mut ArithDecoder<'_>,
    cx: &mut ContextState,
    state: &PictureState,
    addr: MbAddr,
    info: &mut MbInfo,
    part: &Part,
)
    requires
        cabac(*old(d), *old(cx)).wf(),
        state.wf(),
        addr < state@.mbs.len(),
        on_grid(*part),
        part.x % 8 == 0,
        part.y % 8 == 0,
        part.width % 8 == 0,
        part.height % 8 == 0,
    ensures
        (final(info)@, cabac(*final(d), *final(cx))) == ref_idx_of(
            cabac(*old(d), *old(cx)),
            site(*state, addr),
            old(info)@,
            *part,
        ),
        cabac(*final(d), *final(cx)).wf(),
        final(d)@.data == old(d)@.data,
{
    let blk: u8 = luma_4x4_index(part.x, part.y);
    let value: u8 = decode_ref_idx(
        d,
        cx,
        &MbContext { state, cur: info, addr, constrained_intra: false },
        blk,
    );
    info.fill_ref_idx(part.x, part.y, part.width, part.height, value as i8);
}

fn add_vectors(predicted: i32, difference: i16) -> (r: i16)
    ensures
        r == vector_component(predicted, difference),
{
    let sum: i64 = predicted as i64 + difference as i64;
    let kept: i32 = if sum > i32::MAX as i64 {
        i32::MAX
    } else if sum < i32::MIN as i64 {
        i32::MIN
    } else {
        sum as i32
    };
    kept as i16
}

/// Decodes the vector difference of a partition.
fn decode_difference(
    d: &mut ArithDecoder<'_>,
    cx: &mut ContextState,
    state: &PictureState,
    addr: MbAddr,
    info: &MbInfo,
    blk: u8,
) -> (mvd: [i16; 2])
    requires
        cabac(*old(d), *old(cx)).wf(),
        state.wf(),
        addr < state@.mbs.len(),
    ensures
        ((mvd@[0], mvd@[1]), cabac(*final(d), *final(cx))) == difference(
            cabac(*old(d), *old(cx)),
            site(*state, addr),
            info@,
            blk as int,
        ),
        cabac(*final(d), *final(cx)).wf(),
        final(d)@.data == old(d)@.data,
{
    let c = MbContext { state, cur: info, addr, constrained_intra: false };
    let dx: i32 = decode_mvd(d, cx, &c, blk, 0);
    let dy: i32 = decode_mvd(d, cx, &c, blk, 1);
    [dx as i16, dy as i16]
}

fn predict_vector(
    state: &PictureState,
    addr: MbAddr,
    info: &MbInfo,
    part: &Part,
    partition: Partition,
) -> (mv: (i32, i32))
    requires
        state.wf(),
        addr < state@.mbs.len(),
        on_grid(*part),
    ensures
        mv == predicted_vector(site(*state, addr), info@, *part, partition),
{
    // Zero where no reference index was coded.
    let ref_idx: i8 = info.ref_idx_of_block(luma_4x4_index(part.x, part.y));
    let (a, b, c) = partition_neighbours(state, addr, info, part.x, part.y, part.width);
    predict_mv(a, b, c, ref_idx, partition)
}

fn set_motion(info: &mut MbInfo, part: &Part, mv: [i16; 2], mvd: [i16; 2])
    requires
        on_grid(*part),
    ensures
        final(info)@ == moved(old(info)@, *part, (mv@[0], mv@[1]), (mvd@[0], mvd@[1])),
{
    info.fill_mvd(part.x, part.y, part.width, part.height, mvd);
    info.fill_motion(part.x, part.y, part.width, part.height, mv);
}

/// Decodes the motion of a partition.
fn decode_motion(
    d: &mut ArithDecoder<'_>,
    cx: &mut ContextState,
    state: &PictureState,
    addr: MbAddr,
    info: &mut MbInfo,
    part: &Part,
    partition: Partition,
)
    requires
        cabac(*old(d), *old(cx)).wf(),
        state.wf(),
        addr < state@.mbs.len(),
        on_grid(*part),
    ensures
        (final(info)@, cabac(*final(d), *final(cx))) == motion_of(
            cabac(*old(d), *old(cx)),
            site(*state, addr),
            old(info)@,
            *part,
            partition,
        ),
        cabac(*final(d), *final(cx)).wf(),
        final(d)@.data == old(d)@.data,
{
    proof {
        reveal(motion_of);
    }
    let blk: u8 = luma_4x4_index(part.x, part.y);
    let mvd: [i16; 2] = decode_difference(d, cx, state, addr, info, blk);
    let predicted: (i32, i32) = predict_vector(state, addr, info, part, partition);
    let mv: [i16; 2] = [add_vectors(predicted.0, mvd[0]), add_vectors(predicted.1, mvd[1])];
    set_motion(info, part, mv, mvd);
}

/// The partitions of a macroblock, and the children of those of 8x8 samples,
/// lie on the grid.
proof fn lemma_parts_on_grid(shape: Partitioning)
    ensures
        forall|i: int|
            #![trigger shape.spec_parts()[i]]
            0 <= i < shape.spec_parts().len() ==> {
                let p = shape.spec_parts()[i];
                &&& on_grid(p)
                &&& p.x % 8 == 0
                &&& p.y % 8 == 0
                &&& p.width % 8 == 0
                &&& p.height % 8 == 0
            },
        shape is P8x8 || shape is P8x8Ref0 ==> forall|i: int|
            #![trigger shape.spec_parts()[i]]
            0 <= i < 4 ==> shape.spec_parts()[i].x <= 8 && shape.spec_parts()[i].y <= 8,
        shape is P8x8 || shape is P8x8Ref0 ==> shape.spec_parts().len() == 4,
{
}

proof fn lemma_children_on_grid(part: Part, sub: SubMbType)
    requires
        on_grid(part),
        part.x <= 8,
        part.y <= 8,
    ensures
        forall|i: int|
            #![trigger sub.spec_parts()[i]]
            0 <= i < sub.spec_parts().len() ==> on_grid(placed(part, sub.spec_parts()[i]))
                && sub.spec_parts()[i].x <= 8 && sub.spec_parts()[i].y <= 8,
{
}

fn decode_sub_types(d: &mut ArithDecoder<'_>, cx: &mut ContextState) -> (r: Vec<SubMbType>)
    requires
        cabac(*old(d), *old(cx)).wf(),
    ensures
        (r@, cabac(*final(d), *final(cx))) == sub_types(cabac(*old(d), *old(cx)), Seq::empty()),
        r@.len() == 4,
        cabac(*final(d), *final(cx)).wf(),
        final(d)@.data == old(d)@.data,
{
    let mut types: Vec<SubMbType> = Vec::new();
    let ghost goal = sub_types(cabac(*d, *cx), Seq::empty());
    let ghost data = d@.data;
    while types.len() < 4
        invariant
            cabac(*d, *cx).wf(),
            types@.len() <= 4,
            d@.data == data,
            goal == sub_types(cabac(*d, *cx), types@),
        decreases 4 - types@.len(),
    {
        let t: SubMbType = decode_sub_mb_type(d, cx).unwrap();
        types.push(t);
    }
    types
}

fn decode_children(
    d: &mut ArithDecoder<'_>,
    cx: &mut ContextState,
    state: &PictureState,
    addr: MbAddr,
    info: &mut MbInfo,
    part: &Part,
    sub: SubMbType,
)
    requires
        cabac(*old(d), *old(cx)).wf(),
        state.wf(),
        addr < state@.mbs.len(),
        on_grid(*part),
        part.x <= 8,
        part.y <= 8,
    ensures
        (final(info)@, cabac(*final(d), *final(cx))) == child_motions(
            cabac(*old(d), *old(cx)),
            site(*state, addr),
            old(info)@,
            *part,
            sub.spec_parts(),
            0,
        ),
        cabac(*final(d), *final(cx)).wf(),
        final(d)@.data == old(d)@.data,
{
    let children: Vec<Part> = sub.parts();
    let ghost at = site(*state, addr);
    let ghost goal = child_motions(cabac(*d, *cx), at, info@, *part, children@, 0);
    let ghost data = d@.data;
    let n: usize = children.len();
    for i in 0..n
        invariant
            cabac(*d, *cx).wf(),
            state.wf(),
            addr < state@.mbs.len(),
            at == site(*state, addr),
            on_grid(*part),
            part.x <= 8,
            part.y <= 8,
            n == children@.len(),
            children@ == sub.spec_parts(),
            d@.data == data,
            goal == child_motions(cabac(*d, *cx), at, info@, *part, children@, i as int),
    {
        proof {
            lemma_children_on_grid(*part, sub);
        }
        let child: &Part = &children[i];
        assert(*child == sub.spec_parts()[i as int]);
        let inner = Part {
            x: part.x + child.x,
            y: part.y + child.y,
            width: child.width,
            height: child.height,
        };
        assert(inner == placed(*part, *child));
        decode_motion(d, cx, state, addr, info, &inner, Partition::Other);
    }
}

fn decode_ref_indices(
    d: &mut ArithDecoder<'_>,
    cx: &mut ContextState,
    state: &PictureState,
    addr: MbAddr,
    info: &mut MbInfo,
    shape: Partitioning,
)
    requires
        cabac(*old(d), *old(cx)).wf(),
        state.wf(),
        addr < state@.mbs.len(),
    ensures
        (final(info)@, cabac(*final(d), *final(cx))) == ref_indices(
            cabac(*old(d), *old(cx)),
            site(*state, addr),
            old(info)@,
            shape.spec_parts(),
            0,
        ),
        cabac(*final(d), *final(cx)).wf(),
        final(d)@.data == old(d)@.data,
{
    let ghost at = site(*state, addr);
    let ghost data = d@.data;
    let parts: Vec<Part> = shape.parts();
    let n: usize = parts.len();
    let ghost goal = ref_indices(cabac(*d, *cx), at, info@, shape.spec_parts(), 0);
    for i in 0..n
        invariant
            cabac(*d, *cx).wf(),
            state.wf(),
            addr < state@.mbs.len(),
            at == site(*state, addr),
            n == parts@.len(),
            parts@ == shape.spec_parts(),
            d@.data == data,
            goal == ref_indices(cabac(*d, *cx), at, info@, shape.spec_parts(), i as int),
    {
        proof {
            lemma_parts_on_grid(shape);
            assert(on_grid(shape.spec_parts()[i as int]));
        }
        decode_part_ref_idx(d, cx, state, addr, info, &parts[i]);
    }
}

fn decode_motions(
    d: &mut ArithDecoder<'_>,
    cx: &mut ContextState,
    state: &PictureState,
    addr: MbAddr,
    info: &mut MbInfo,
    shape: Partitioning,
)
    requires
        cabac(*old(d), *old(cx)).wf(),
        state.wf(),
        addr < state@.mbs.len(),
    ensures
        (final(info)@, cabac(*final(d), *final(cx))) == motions(
            cabac(*old(d), *old(cx)),
            site(*state, addr),
            old(info)@,
            shape,
            0,
        ),
        cabac(*final(d), *final(cx)).wf(),
        final(d)@.data == old(d)@.data,
{
    let ghost at = site(*state, addr);
    let ghost data = d@.data;
    let parts: Vec<Part> = shape.parts();
    let n: usize = parts.len();
    let ghost goal = motions(cabac(*d, *cx), at, info@, shape, 0);
    for i in 0..n
        invariant
            cabac(*d, *cx).wf(),
            state.wf(),
            addr < state@.mbs.len(),
            at == site(*state, addr),
            n == parts@.len(),
            parts@ == shape.spec_parts(),
            d@.data == data,
            goal == motions(cabac(*d, *cx), at, info@, shape, i as int),
    {
        proof {
            lemma_parts_on_grid(shape);
            assert(on_grid(shape.spec_parts()[i as int]));
        }
        decode_motion(d, cx, state, addr, info, &parts[i], shape.mv_prediction(i));
    }
}

fn decode_sub_motions(
    d: &mut ArithDecoder<'_>,
    cx: &mut ContextState,
    state: &PictureState,
    addr: MbAddr,
    info: &mut MbInfo,
    shape: Partitioning,
    subs: &Vec<SubMbType>,
)
    requires
        cabac(*old(d), *old(cx)).wf(),
        state.wf(),
        addr < state@.mbs.len(),
        shape is P8x8 || shape is P8x8Ref0,
        subs@.len() == 4,
    ensures
        (final(info)@, cabac(*final(d), *final(cx))) == sub_motions(
            cabac(*old(d), *old(cx)),
            site(*state, addr),
            old(info)@,
            shape.spec_parts(),
            subs@,
            0,
        ),
        cabac(*final(d), *final(cx)).wf(),
        final(d)@.data == old(d)@.data,
{
    let ghost at = site(*state, addr);
    let ghost data = d@.data;
    let parts: Vec<Part> = shape.parts();
    let n: usize = parts.len();
    let ghost goal = sub_motions(cabac(*d, *cx), at, info@, shape.spec_parts(), subs@, 0);
    for i in 0..n
        invariant
            cabac(*d, *cx).wf(),
            state.wf(),
            addr < state@.mbs.len(),
            at == site(*state, addr),
            n == parts@.len(),
            parts@ == shape.spec_parts(),
            d@.data == data,
            shape is P8x8 || shape is P8x8Ref0,
            subs@.len() == 4,
            goal == sub_motions(cabac(*d, *cx), at, info@, shape.spec_parts(), subs@, i as int),
    {
        proof {
            lemma_parts_on_grid(shape);
            assert(on_grid(shape.spec_parts()[i as int]));
        }
        decode_children(d, cx, state, addr, info, &parts[i], subs[i]);
    }
}

/// Decodes the prediction of an inter macroblock. Every reference index is
/// coded before any vector difference, so the loops cannot be merged.
pub fn decode_inter(
    d: &mut ArithDecoder<'_>,
    cx: &mut ContextState,
    state: &PictureState,
    addr: MbAddr,
    info: &mut MbInfo,
    shape: Partitioning,
    num_ref_idx_l0: usize,
)
    requires
        cabac(*old(d), *old(cx)).wf(),
        state.wf(),
        addr < state@.mbs.len(),
    ensures
        (final(info)@, cabac(*final(d), *final(cx))) == inter_prediction(
            cabac(*old(d), *old(cx)),
            site(*state, addr),
            old(info)@,
            shape,
            num_ref_idx_l0 as int,
        ),
        cabac(*final(d), *final(cx)).wf(),
        final(d)@.data == old(d)@.data,
{
    let split: bool = shape.has_sub_partitions();
    let subs: Vec<SubMbType> = if split {
        decode_sub_types(d, cx)
    } else {
        Vec::new()
    };
    if num_ref_idx_l0 > 1 && shape.codes_ref_idx() {
        decode_ref_indices(d, cx, state, addr, info, shape);
    }
    if split {
        decode_sub_motions(d, cx, state, addr, info, shape, &subs);
    } else {
        decode_motions(d, cx, state, addr, info, shape);
    }
}

// ---- Residual ---------------------------------------------------------------

/// A macroblock and its levels as far as they are parsed, and the decoder.
pub struct Parse {
    pub info: MbModel,
    pub levels: Levels,
    pub s: Cabac,
}

/// Whether a macroblock is predicted as a whole.
pub open spec fn is_16x16(info: MbModel) -> bool {
    info.mb_type is Intra16x16
}

/// The coded flag of a block.
pub open spec fn flag_of(s: Cabac, at: Site, info: MbModel, block: CbfBlock) -> (bool, Cabac) {
    coded_block_flag(
        s,
        spec_cbf_category(block, is_16x16(info)),
        cbf_inc(at.at(info), block),
    )
}

/// Levels that leave the first place to DC.
pub open spec fn after_dc(levels: Seq<i32>) -> Seq<i32> {
    seq![0i32] + levels
}

/// The luma DC block of an `I_16x16` macroblock.
pub open spec fn with_luma_dc(p: Parse, at: Site) -> Parse {
    if !is_16x16(p.info) {
        p
    } else {
        let (coded, s1) = flag_of(p.s, at, p.info, CbfBlock::LumaDc);
        if coded {
            let (levels, s2) = coefficients(s1, BlockCat::Intra16x16Dc);
            Parse {
                info: MbModel { cbf_luma_dc: true, ..p.info },
                levels: Levels { luma_dc: levels, ..p.levels },
                s: s2,
            }
        } else {
            Parse { s: s1, ..p }
        }
    }
}

/// Flags with the four of an 8x8 block set.
pub open spec fn four_set(flags: Seq<bool>, blk: int) -> Seq<bool> {
    Seq::new(16, |i: int| i / 4 == blk || flags[i])
}

/// 8x8 luma blocks, from `blk` on. They have no coded flag: the bit of the
/// pattern stands for the four 4x4 blocks, whose flags neighbours read.
pub open spec fn with_luma_8x8(p: Parse, blk: int) -> Parse
    decreases 4 - blk,
{
    if blk >= 4 {
        p
    } else if p.info.luma_8x8_coded(blk) {
        let (levels, s2) = coefficients(p.s, BlockCat::Luma8x8);
        with_luma_8x8(
            Parse {
                info: MbModel { cbf_luma: four_set(p.info.cbf_luma, blk), ..p.info },
                levels: Levels { luma_8x8: p.levels.luma_8x8.update(blk, levels), ..p.levels },
                s: s2,
            },
            blk + 1,
        )
    } else {
        with_luma_8x8(p, blk + 1)
    }
}

/// One 4x4 luma block.
pub open spec fn one_luma_4x4(p: Parse, at: Site, blk: int) -> Parse {
    if !p.info.luma_8x8_coded(blk / 4) {
        p
    } else {
        let (coded, s1) = flag_of(p.s, at, p.info, CbfBlock::Luma(blk as u8));
        if coded {
            let (levels, s2) = if is_16x16(p.info) {
                let (ac, s3) = coefficients(s1, BlockCat::Intra16x16Ac);
                (after_dc(ac), s3)
            } else {
                coefficients(s1, BlockCat::Luma4x4)
            };
            Parse {
                info: MbModel { cbf_luma: p.info.cbf_luma.update(blk, true), ..p.info },
                levels: Levels { luma: p.levels.luma.update(blk, levels), ..p.levels },
                s: s2,
            }
        } else {
            Parse { s: s1, ..p }
        }
    }
}

/// 4x4 luma blocks, from `blk` on.
pub open spec fn with_luma_4x4(p: Parse, at: Site, blk: int) -> Parse
    decreases 16 - blk,
{
    if blk >= 16 {
        p
    } else {
        with_luma_4x4(one_luma_4x4(p, at, blk), at, blk + 1)
    }
}

/// One chroma DC block.
pub open spec fn one_chroma_dc(p: Parse, at: Site, comp: int) -> Parse {
    let (coded, s1) = flag_of(p.s, at, p.info, CbfBlock::ChromaDc(comp as usize));
    if coded {
        let (levels, s2) = coefficients(s1, BlockCat::ChromaDc);
        Parse {
            info: MbModel { cbf_chroma_dc: p.info.cbf_chroma_dc.update(comp, true), ..p.info },
            levels: Levels { chroma_dc: p.levels.chroma_dc.update(comp, levels), ..p.levels },
            s: s2,
        }
    } else {
        Parse { s: s1, ..p }
    }
}

/// One chroma AC block.
pub open spec fn one_chroma_ac(p: Parse, at: Site, comp: int, blk: int) -> Parse {
    let i = comp * 4 + blk;
    let (coded, s1) = flag_of(p.s, at, p.info, CbfBlock::ChromaAc(comp as usize, blk as u8));
    if coded {
        let (levels, s2) = coefficients(s1, BlockCat::ChromaAc);
        Parse {
            info: MbModel { cbf_chroma_ac: p.info.cbf_chroma_ac.update(i, true), ..p.info },
            levels: Levels { chroma: p.levels.chroma.update(i, after_dc(levels)), ..p.levels },
            s: s2,
        }
    } else {
        Parse { s: s1, ..p }
    }
}

/// Chroma AC blocks, from number `i` on; number `i` is block `i % 4` of
/// component `i / 4`.
pub open spec fn with_chroma_ac(p: Parse, at: Site, i: int) -> Parse
    decreases 8 - i,
{
    if i >= 8 {
        p
    } else {
        with_chroma_ac(one_chroma_ac(p, at, i / 4, i % 4), at, i + 1)
    }
}

/// The residual of a macroblock. Chroma DC of both components comes before any
/// chroma AC.
pub open spec fn residual_of(s: Cabac, at: Site, info: MbModel) -> Parse {
    let dc = with_luma_dc(Parse { info, levels: Levels::none(), s }, at);
    let luma = if info.transform_8x8 {
        with_luma_8x8(dc, 0)
    } else {
        with_luma_4x4(dc, at, 0)
    };
    let chroma = if info.cbp_chroma != 0 {
        one_chroma_dc(one_chroma_dc(luma, at, 0), at, 1)
    } else {
        luma
    };
    if info.cbp_chroma == 2 {
        with_chroma_ac(chroma, at, 0)
    } else {
        chroma
    }
}

/// A parsed macroblock as the executable parts hold it.
pub open spec fn parsed(
    info: MbInfo,
    out: Residual,
    d: ArithDecoder<'_>,
    cx: ContextState,
) -> Parse {
    Parse { info: info@, levels: out@, s: cabac(d, cx) }
}

/// Decodes the coded flag of a block.
fn decode_cbf(
    d: &mut ArithDecoder<'_>,
    cx: &mut ContextState,
    state: &PictureState,
    addr: MbAddr,
    info: &MbInfo,
    block: CbfBlock,
) -> (coded: bool)
    requires
        cabac(*old(d), *old(cx)).wf(),
        state.wf(),
        addr < state@.mbs.len(),
        block.wf(),
    ensures
        (coded, cabac(*final(d), *final(cx))) == flag_of(
            cabac(*old(d), *old(cx)),
            site(*state, addr),
            info@,
            block,
        ),
        cabac(*final(d), *final(cx)).wf(),
        final(d)@.data == old(d)@.data,
{
    let inc: usize = coded_block_flag_ctx_inc(
        &MbContext { state, cur: info, addr, constrained_intra: false },
        block,
    );
    let cat: BlockCat = cbf_category(block, matches!(info.mb_type, MbType::Intra16x16 { .. }));
    decode_coded_block_flag(d, cx, cat, inc)
}

/// Decodes the fifteen levels behind a DC value.
fn decode_ac(d: &mut ArithDecoder<'_>, cx: &mut ContextState, cat: BlockCat) -> (r: [i32; 16])
    requires
        cabac(*old(d), *old(cx)).wf(),
        cat.spec_max_coeffs() == 15,
    ensures
        (r@, cabac(*final(d), *final(cx))) == ({
            let (levels, s) = coefficients(cabac(*old(d), *old(cx)), cat);
            (after_dc(levels), s)
        }),
        cabac(*final(d), *final(cx)).wf(),
        final(d)@.data == old(d)@.data,
{
    let mut ac: [i32; 15] = [0i32;15];
    decode_coefficients(d, cx, cat, &mut ac);
    let mut r: [i32; 16] = [0i32;16];
    for i in 0..15usize
        invariant
            forall|j: int| 1 <= j <= i ==> r@[j] == ac@[j - 1],
            r@[0] == 0,
    {
        r[i + 1] = ac[i];
    }
    assert(r@ =~= after_dc(ac@));
    r
}

fn decode_luma_dc(
    d: &mut ArithDecoder<'_>,
    cx: &mut ContextState,
    state: &PictureState,
    addr: MbAddr,
    info: &mut MbInfo,
    out: &mut Residual,
)
    requires
        cabac(*old(d), *old(cx)).wf(),
        state.wf(),
        addr < state@.mbs.len(),
    ensures
        parsed(*final(info), *final(out), *final(d), *final(cx)) == with_luma_dc(
            parsed(*old(info), *old(out), *old(d), *old(cx)),
            site(*state, addr),
        ),
        cabac(*final(d), *final(cx)).wf(),
        final(d)@.data == old(d)@.data,
        final(info)@.qp == old(info)@.qp,
{
    let ghost before = *info;
    let ghost blank = *out;
    if !matches!(info.mb_type, MbType::Intra16x16 { .. }) {
        return;
    }
    if decode_cbf(d, cx, state, addr, info, CbfBlock::LumaDc) {
        info.cbf_luma_dc = true;
        let mut levels: [i32; 16] = [0i32;16];
        decode_coefficients(d, cx, BlockCat::Intra16x16Dc, &mut levels);
        out.luma_dc = levels;
        assert(info@ =~= MbModel { cbf_luma_dc: true, ..before@ });
        assert(out@ =~= Levels { luma_dc: levels@, ..blank@ });
    }
}

fn decode_luma_8x8(
    d: &mut ArithDecoder<'_>,
    cx: &mut ContextState,
    info: &mut MbInfo,
    out: &mut Residual,
    blk: u8,
)
    requires
        cabac(*old(d), *old(cx)).wf(),
        blk < 4,
    ensures
        with_luma_8x8(parsed(*old(info), *old(out), *old(d), *old(cx)), blk as int)
            == with_luma_8x8(parsed(*final(info), *final(out), *final(d), *final(cx)), blk + 1),
        cabac(*final(d), *final(cx)).wf(),
        final(d)@.data == old(d)@.data,
        final(info)@.qp == old(info)@.qp,
{
    let ghost before = *info;
    let ghost blank = *out;
    if info.luma_8x8_coded(blk) {
        info.set_luma_cbf(blk * 4, true);
        info.set_luma_cbf(blk * 4 + 1, true);
        info.set_luma_cbf(blk * 4 + 2, true);
        info.set_luma_cbf(blk * 4 + 3, true);
        let mut levels: [i32; 64] = [0i32;64];
        decode_coefficients(d, cx, BlockCat::Luma8x8, &mut levels);
        out.luma_8x8[blk as usize] = levels;
        assert(info@ =~= MbModel { cbf_luma: four_set(before@.cbf_luma, blk as int), ..before@ });
        assert(out@ =~= Levels {
            luma_8x8: blank@.luma_8x8.update(blk as int, levels@),
            ..blank@
        });
    }
}

fn decode_luma_4x4(
    d: &mut ArithDecoder<'_>,
    cx: &mut ContextState,
    state: &PictureState,
    addr: MbAddr,
    info: &mut MbInfo,
    out: &mut Residual,
    blk: u8,
)
    requires
        cabac(*old(d), *old(cx)).wf(),
        state.wf(),
        addr < state@.mbs.len(),
        blk < 16,
    ensures
        parsed(*final(info), *final(out), *final(d), *final(cx)) == one_luma_4x4(
            parsed(*old(info), *old(out), *old(d), *old(cx)),
            site(*state, addr),
            blk as int,
        ),
        cabac(*final(d), *final(cx)).wf(),
        final(d)@.data == old(d)@.data,
        final(info)@.qp == old(info)@.qp,
{
    let ghost blank = *out;
    if !info.luma_8x8_coded(blk / 4) {
        return;
    }
    if decode_cbf(d, cx, state, addr, info, CbfBlock::Luma(blk)) {
        let whole: bool = matches!(info.mb_type, MbType::Intra16x16 { .. });
        info.set_luma_cbf(blk, true);
        let levels: [i32; 16] = if whole {
            decode_ac(d, cx, BlockCat::Intra16x16Ac)
        } else {
            let mut levels: [i32; 16] = [0i32;16];
            decode_coefficients(d, cx, BlockCat::Luma4x4, &mut levels);
            levels
        };
        out.luma[blk as usize] = levels;
        assert(out@ =~= Levels { luma: blank@.luma.update(blk as int, levels@), ..blank@ });
    }
}

fn decode_chroma_dc(
    d: &mut ArithDecoder<'_>,
    cx: &mut ContextState,
    state: &PictureState,
    addr: MbAddr,
    info: &mut MbInfo,
    out: &mut Residual,
    comp: usize,
)
    requires
        cabac(*old(d), *old(cx)).wf(),
        state.wf(),
        addr < state@.mbs.len(),
        comp < 2,
    ensures
        parsed(*final(info), *final(out), *final(d), *final(cx)) == one_chroma_dc(
            parsed(*old(info), *old(out), *old(d), *old(cx)),
            site(*state, addr),
            comp as int,
        ),
        cabac(*final(d), *final(cx)).wf(),
        final(d)@.data == old(d)@.data,
        final(info)@.qp == old(info)@.qp,
{
    let ghost before = *info;
    let ghost blank = *out;
    if decode_cbf(d, cx, state, addr, info, CbfBlock::ChromaDc(comp)) {
        info.cbf_chroma_dc[comp] = true;
        let mut levels: [i32; 4] = [0i32;4];
        decode_coefficients(d, cx, BlockCat::ChromaDc, &mut levels);
        out.chroma_dc[comp] = levels;
        assert(info@ =~= MbModel {
            cbf_chroma_dc: before@.cbf_chroma_dc.update(comp as int, true),
            ..before@
        });
        assert(out@ =~= Levels {
            chroma_dc: blank@.chroma_dc.update(comp as int, levels@),
            ..blank@
        });
    }
}

fn set_chroma_levels(out: &mut Residual, comp: usize, blk: u8, levels: [i32; 16])
    requires
        comp < 2,
        blk < 4,
    ensures
        final(out)@ == (Levels {
            chroma: old(out)@.chroma.update(comp * 4 + blk, levels@),
            ..old(out)@
        }),
{
    let ghost before = *out;
    let mut blocks: [[i32; 16]; 4] = out.chroma[comp];
    blocks[blk as usize] = levels;
    out.chroma[comp] = blocks;
    let ghost want = before@.chroma.update(comp * 4 + blk, levels@);
    assert forall|b: int| 0 <= b < 8 implies out@.chroma[b] == want[b] by {
        if b / 4 == comp {
            if b % 4 == blk {
                assert(b == comp * 4 + blk);
            }
        }
    }
    assert(out@.chroma =~= want);
    assert(out@ =~= Levels { chroma: want, ..before@ });
}

fn decode_chroma_ac(
    d: &mut ArithDecoder<'_>,
    cx: &mut ContextState,
    state: &PictureState,
    addr: MbAddr,
    info: &mut MbInfo,
    out: &mut Residual,
    comp: usize,
    blk: u8,
)
    requires
        cabac(*old(d), *old(cx)).wf(),
        state.wf(),
        addr < state@.mbs.len(),
        comp < 2,
        blk < 4,
    ensures
        parsed(*final(info), *final(out), *final(d), *final(cx)) == one_chroma_ac(
            parsed(*old(info), *old(out), *old(d), *old(cx)),
            site(*state, addr),
            comp as int,
            blk as int,
        ),
        cabac(*final(d), *final(cx)).wf(),
        final(d)@.data == old(d)@.data,
        final(info)@.qp == old(info)@.qp,
{
    if decode_cbf(d, cx, state, addr, info, CbfBlock::ChromaAc(comp, blk)) {
        info.set_chroma_cbf(comp, blk, true);
        let levels: [i32; 16] = decode_ac(d, cx, BlockCat::ChromaAc);
        set_chroma_levels(out, comp, blk, levels);
    }
}

/// Decodes the residual of a macroblock.
pub fn decode_residual(
    d: &mut ArithDecoder<'_>,
    cx: &mut ContextState,
    state: &PictureState,
    addr: MbAddr,
    info: &mut MbInfo,
) -> (out: Residual)
    requires
        cabac(*old(d), *old(cx)).wf(),
        state.wf(),
        addr < state@.mbs.len(),
    ensures
        parsed(*final(info), out, *final(d), *final(cx)) == residual_of(
            cabac(*old(d), *old(cx)),
            site(*state, addr),
            old(info)@,
        ),
        cabac(*final(d), *final(cx)).wf(),
        final(d)@.data == old(d)@.data,
        final(info)@.qp == old(info)@.qp,
{
    let ghost at = site(*state, addr);
    let ghost data = d@.data;
    let ghost qp = info.qp;
    let use_8x8: bool = info.transform_8x8;
    let cbp_chroma: u8 = info.cbp_chroma;
    let mut out: Residual = Residual::default();
    decode_luma_dc(d, cx, state, addr, info, &mut out);
    if use_8x8 {
        let ghost goal = with_luma_8x8(parsed(*info, out, *d, *cx), 0);
        for blk in 0..4u8
            invariant
                cabac(*d, *cx).wf(),
                d@.data == data,
                info.qp == qp,
                goal == with_luma_8x8(parsed(*info, out, *d, *cx), blk as int),
        {
            decode_luma_8x8(d, cx, info, &mut out, blk);
        }
    } else {
        let ghost goal = with_luma_4x4(parsed(*info, out, *d, *cx), at, 0);
        for blk in 0..16u8
            invariant
                cabac(*d, *cx).wf(),
                state.wf(),
                addr < state@.mbs.len(),
                at == site(*state, addr),
                d@.data == data,
                info.qp == qp,
                goal == with_luma_4x4(parsed(*info, out, *d, *cx), at, blk as int),
        {
            decode_luma_4x4(d, cx, state, addr, info, &mut out, blk);
        }
    }
    // Chroma DC of both components precedes every chroma AC block.
    if cbp_chroma != 0 {
        decode_chroma_dc(d, cx, state, addr, info, &mut out, 0);
        decode_chroma_dc(d, cx, state, addr, info, &mut out, 1);
    }
    if cbp_chroma == 2 {
        let ghost goal = with_chroma_ac(parsed(*info, out, *d, *cx), at, 0);
        for i in 0..8usize
            invariant
                cabac(*d, *cx).wf(),
                state.wf(),
                addr < state@.mbs.len(),
                at == site(*state, addr),
                d@.data == data,
                info.qp == qp,
                goal == with_chroma_ac(parsed(*info, out, *d, *cx), at, i as int),
        {
            decode_chroma_ac(d, cx, state, addr, info, &mut out, i / 4, (i % 4) as u8);
        }
    }
    out
}

// ---- Macroblock -------------------------------------------------------------

/// What the slice fixes for the parsing of its macroblocks.
#[derive(Debug, Clone, Copy)]
pub struct Rules {
    pub kind: SliceKind,
    /// Whether a macroblock may use the 8x8 transform.
    pub allow_8x8: bool,
    pub num_ref_idx_l0: usize,
    /// Whether intra prediction is kept from reading inter macroblocks.
    pub constrained_intra: bool,
}

/// A macroblock of a type whose other elements are not parsed yet. The type of
/// an `I_16x16` macroblock carries its coded block pattern.
pub open spec fn started(ty: MbType, qp: u8) -> MbModel {
    let blank = MbModel::blank(ty, qp);
    match ty {
        MbType::Intra16x16 { cbp_luma, cbp_chroma, .. } => MbModel {
            cbp_luma,
            cbp_chroma,
            ..blank
        },
        _ => blank,
    }
}

/// A macroblock with its transform flag read.
pub open spec fn with_transform(s: Cabac, at: Site, info: MbModel) -> (MbModel, Cabac) {
    let (large, s2) = transform_size_8x8(s, at.at(info));
    (MbModel { transform_8x8: large, ..info }, s2)
}

/// The prediction of a macroblock. The transform flag of an `I_NxN` macroblock
/// comes first: it says how many modes there are.
pub open spec fn with_prediction(s: Cabac, at: Site, info: MbModel, rules: Rules) -> (
    MbModel,
    Cabac,
) {
    match info.mb_type {
        MbType::Inter(shape) => inter_prediction(
            s,
            at,
            info,
            shape,
            rules.num_ref_idx_l0 as int,
        ),
        MbType::PSkip => (info, s),
        _ => {
            let (sized, s2) = if rules.allow_8x8 && info.mb_type is IntraNxN {
                with_transform(s, at, info)
            } else {
                (info, s)
            };
            intra_prediction(s2, at, sized, rules.constrained_intra, sized.transform_8x8)
        },
    }
}

/// The coded block pattern, and the transform flag of an inter macroblock that
/// has luma to transform.
pub open spec fn with_pattern(s: Cabac, at: Site, info: MbModel, rules: Rules) -> (MbModel, Cabac) {
    let (patterned, s2) = if info.mb_type is IntraNxN || info.mb_type is Inter {
        let ((luma, chroma), s1) = coded_block_pattern(s, at.at(info));
        (MbModel { cbp_luma: luma, cbp_chroma: chroma, ..info }, s1)
    } else {
        (info, s)
    };
    if rules.allow_8x8 && info.mb_type is Inter && patterned.cbp_luma != 0 {
        with_transform(s2, at, patterned)
    } else {
        (patterned, s2)
    }
}

/// Whether the macroblock before, if it is of the same slice, changed the
/// quantiser.
pub open spec fn quantiser_moved(at: Site) -> bool {
    &&& at.addr > 0
    &&& at.pic.grid.spec_available(at.addr - 1, at.addr)
    &&& at.pic.mbs[at.addr - 1].qp_delta_nonzero
}

/// The quantiser, coded where there is anything to quantise.
pub open spec fn with_quantiser(s: Cabac, at: Site, info: MbModel, qp: u8) -> (MbModel, Cabac) {
    if info.cbp_luma != 0 || info.cbp_chroma != 0 || is_16x16(info) {
        let (delta, s2) = mb_qp_delta(s, quantiser_moved(at));
        (
            MbModel {
                qp: ((qp + delta) % 52) as u8,
                qp_delta_nonzero: delta != 0,
                ..info
            },
            s2,
        )
    } else {
        (info, s)
    }
}

/// A macroblock of a known type.
#[verifier::opaque]
pub open spec fn coded_macroblock(s: Cabac, at: Site, ty: MbType, qp: u8, rules: Rules) -> Parse {
    let (predicted, s1) = with_prediction(s, at, started(ty, qp), rules);
    let (patterned, s2) = with_pattern(s1, at, predicted, rules);
    let (quantised, s3) = with_quantiser(s2, at, patterned, qp);
    residual_of(s3, at, quantised)
}

/// A skipped macroblock.
pub open spec fn skipped_macroblock(at: Site, qp: u8) -> MbModel {
    let blank = MbModel::blank(MbType::PSkip, 0);
    let mv = skip_vector(at);
    MbModel {
        qp,
        mv: filled(blank.mv, 0, 0, 16, 16, (mv.0 as i16, mv.1 as i16)),
        ..blank
    }
}

/// What parsing a macroblock gives: the macroblock, or what is wrong.
pub struct Parsed {
    pub fault: Option<Seq<char>>,
    pub parse: Parse,
}

/// The message for a macroblock of uncompressed samples.
pub open spec fn raw_samples() -> Seq<char> {
    "I_PCM macroblocks are not supported by CABAC picture decode"@
}

/// Whether the macroblock is skipped, which only those of P slices can be.
#[verifier::opaque]
pub open spec fn skip_of(s: Cabac, at: Site, rules: Rules) -> (bool, Cabac) {
    if rules.kind is P {
        mb_skip_flag(s, at.at(MbModel::blank(MbType::PSkip, 0)))
    } else {
        (false, s)
    }
}

/// The type of a macroblock that is not skipped.
#[verifier::opaque]
pub open spec fn type_of(s: Cabac, at: Site, rules: Rules) -> (MbType, Cabac) {
    let (ty, s2) = mb_type_element(s, at.at(MbModel::blank(MbType::PSkip, 0)), rules.kind);
    (ty->0, s2)
}

/// One macroblock.
pub open spec fn macroblock(s: Cabac, at: Site, qp: u8, rules: Rules) -> Parsed {
    let blank = MbModel::blank(MbType::PSkip, 0);
    let (skip, s1) = skip_of(s, at, rules);
    if skip {
        Parsed {
            fault: None,
            parse: Parse { info: skipped_macroblock(at, qp), levels: Levels::none(), s: s1 },
        }
    } else {
        let (ty, s2) = type_of(s1, at, rules);
        if ty is IPcm {
            Parsed {
                fault: Some(raw_samples()),
                parse: Parse { info: blank, levels: Levels::none(), s: s2 },
            }
        } else {
            Parsed { fault: None, parse: coded_macroblock(s2, at, ty, qp, rules) }
        }
    }
}

fn decode_transform(
    d: &mut ArithDecoder<'_>,
    cx: &mut ContextState,
    state: &PictureState,
    addr: MbAddr,
    info: &mut MbInfo,
)
    requires
        cabac(*old(d), *old(cx)).wf(),
        state.wf(),
        addr < state@.mbs.len(),
    ensures
        (final(info)@, cabac(*final(d), *final(cx))) == with_transform(
            cabac(*old(d), *old(cx)),
            site(*state, addr),
            old(info)@,
        ),
        cabac(*final(d), *final(cx)).wf(),
        final(d)@.data == old(d)@.data,
{
    let ghost before = info@;
    let large: bool = decode_transform_size_8x8(
        d,
        cx,
        &MbContext { state, cur: info, addr, constrained_intra: false },
    );
    info.transform_8x8 = large;
    assert(info@ =~= MbModel { transform_8x8: large, ..before });
}

fn decode_prediction(
    d: &mut ArithDecoder<'_>,
    cx: &mut ContextState,
    state: &PictureState,
    addr: MbAddr,
    info: &mut MbInfo,
    rules: &Rules,
)
    requires
        cabac(*old(d), *old(cx)).wf(),
        state.wf(),
        addr < state@.mbs.len(),
    ensures
        (final(info)@, cabac(*final(d), *final(cx))) == with_prediction(
            cabac(*old(d), *old(cx)),
            site(*state, addr),
            old(info)@,
            *rules,
        ),
        cabac(*final(d), *final(cx)).wf(),
        final(d)@.data == old(d)@.data,
{
    match info.mb_type {
        MbType::Inter(shape) => {
            decode_inter(d, cx, state, addr, info, shape, rules.num_ref_idx_l0);
        },
        MbType::PSkip => {},
        _ => {
            if rules.allow_8x8 && info.mb_type == MbType::IntraNxN {
                decode_transform(d, cx, state, addr, info);
            }
            let use_8x8: bool = info.transform_8x8;
            decode_intra(d, cx, state, addr, info, rules.constrained_intra, use_8x8);
        },
    }
}

fn decode_pattern(
    d: &mut ArithDecoder<'_>,
    cx: &mut ContextState,
    state: &PictureState,
    addr: MbAddr,
    info: &mut MbInfo,
    rules: &Rules,
)
    requires
        cabac(*old(d), *old(cx)).wf(),
        state.wf(),
        addr < state@.mbs.len(),
    ensures
        (final(info)@, cabac(*final(d), *final(cx))) == with_pattern(
            cabac(*old(d), *old(cx)),
            site(*state, addr),
            old(info)@,
            *rules,
        ),
        cabac(*final(d), *final(cx)).wf(),
        final(d)@.data == old(d)@.data,
{
    let ty: MbType = info.mb_type;
    if ty.has_coded_block_pattern() {
        let ghost before = info@;
        let (luma, chroma) = decode_coded_block_pattern(
            d,
            cx,
            &MbContext { state, cur: info, addr, constrained_intra: false },
        );
        info.cbp_luma = luma;
        info.cbp_chroma = chroma;
        assert(info@ =~= MbModel { cbp_luma: luma, cbp_chroma: chroma, ..before });
    }
    if rules.allow_8x8 && matches!(ty, MbType::Inter(_)) && info.cbp_luma != 0 {
        decode_transform(d, cx, state, addr, info);
    }
}

fn previous_moved(state: &PictureState, addr: MbAddr) -> (r: bool)
    requires
        state.wf(),
        addr < state@.mbs.len(),
    ensures
        r == quantiser_moved(site(*state, addr)),
{
    if addr == 0 {
        return false;
    }
    match state.available(addr - 1, addr) {
        Some(info) => info.qp_delta_nonzero,
        None => false,
    }
}

fn decode_quantiser(
    d: &mut ArithDecoder<'_>,
    cx: &mut ContextState,
    state: &PictureState,
    addr: MbAddr,
    info: &mut MbInfo,
    qp: u8,
)
    requires
        cabac(*old(d), *old(cx)).wf(),
        state.wf(),
        addr < state@.mbs.len(),
        qp <= 51,
        old(info)@.qp <= 51,
    ensures
        (final(info)@, cabac(*final(d), *final(cx))) == with_quantiser(
            cabac(*old(d), *old(cx)),
            site(*state, addr),
            old(info)@,
            qp,
        ),
        cabac(*final(d), *final(cx)).wf(),
        final(d)@.data == old(d)@.data,
        final(info)@.qp <= 51,
{
    if info.cbp_luma != 0 || info.cbp_chroma != 0 || matches!(
        info.mb_type,
        MbType::Intra16x16 { .. }
    ) {
        let ghost before = info@;
        let delta: i32 = decode_mb_qp_delta(d, cx, previous_moved(state, addr));
        info.qp = next_qp(qp, delta);
        info.qp_delta_nonzero = delta != 0;
        assert(info@ =~= MbModel { qp: info.qp, qp_delta_nonzero: delta != 0, ..before });
    }
}

/// Neither prediction nor pattern says anything about the quantiser.
proof fn lemma_quantiser_waits(s: Cabac, at: Site, info: MbModel, rules: Rules)
    ensures
        with_prediction(s, at, info, rules).0.qp == info.qp,
        with_pattern(s, at, info, rules).0.qp == info.qp,
{
    match info.mb_type {
        MbType::Inter(shape) => {
            let split = shape is P8x8 || shape is P8x8Ref0;
            let (subs, s1) = if split {
                sub_types(s, Seq::empty())
            } else {
                (Seq::empty(), s)
            };
            lemma_ref_indices_qp(s1, at, info, shape.spec_parts(), 0);
            let (referred, s2) = if rules.num_ref_idx_l0 > 1 && shape !is P8x8Ref0 {
                ref_indices(s1, at, info, shape.spec_parts(), 0)
            } else {
                (info, s1)
            };
            lemma_sub_motions_qp(s2, at, referred, shape.spec_parts(), subs, 0);
            lemma_motions_qp(s2, at, referred, shape, 0);
        },
        MbType::PSkip => {},
        _ => {
            let (sized, s2) = if rules.allow_8x8 && info.mb_type is IntraNxN {
                with_transform(s, at, info)
            } else {
                (info, s)
            };
            lemma_modes_qp(s2, at, sized, rules.constrained_intra, 0);
        },
    }
}

proof fn lemma_modes_qp(s: Cabac, at: Site, info: MbModel, constrained: bool, blk: int)
    ensures
        modes_4x4(s, at, info, constrained, blk).0.qp == info.qp,
        modes_8x8(s, at, info, constrained, blk).0.qp == info.qp,
    decreases 16 - blk,
{
    if blk < 16 {
        let (mode, s2) = intra_pred_mode(s, predicted_4x4(at, info, constrained, blk) as int);
        lemma_modes_qp(
            s2,
            at,
            MbModel { intra_modes: info.intra_modes.update(blk, mode as u8), ..info },
            constrained,
            blk + 1,
        );
        let (mode8, s8) = intra_pred_mode(s, predicted_8x8(at, info, constrained, blk) as int);
        lemma_modes_qp(
            s8,
            at,
            MbModel { intra_modes: filled_modes(info.intra_modes, blk, mode8 as u8), ..info },
            constrained,
            blk + 1,
        );
    }
}

proof fn lemma_ref_indices_qp(s: Cabac, at: Site, info: MbModel, parts: Seq<Part>, i: int)
    ensures
        ref_indices(s, at, info, parts, i).0.qp == info.qp,
    decreases parts.len() - i,
{
    if i < parts.len() {
        let (info2, s2) = ref_idx_of(s, at, info, parts[i]);
        lemma_ref_indices_qp(s2, at, info2, parts, i + 1);
    }
}

proof fn lemma_motions_qp(s: Cabac, at: Site, info: MbModel, shape: Partitioning, i: int)
    ensures
        motions(s, at, info, shape, i).0.qp == info.qp,
    decreases shape.spec_parts().len() - i,
{
    if i < shape.spec_parts().len() {
        reveal(motion_of);
        let (info2, s2) = motion_of(
            s,
            at,
            info,
            shape.spec_parts()[i],
            shape.spec_mv_prediction(i),
        );
        lemma_motions_qp(s2, at, info2, shape, i + 1);
    }
}

proof fn lemma_child_motions_qp(
    s: Cabac,
    at: Site,
    info: MbModel,
    part: Part,
    children: Seq<Part>,
    i: int,
)
    ensures
        child_motions(s, at, info, part, children, i).0.qp == info.qp,
    decreases children.len() - i,
{
    if i < children.len() {
        reveal(motion_of);
        let (info2, s2) = motion_of(s, at, info, placed(part, children[i]), Partition::Other);
        lemma_child_motions_qp(s2, at, info2, part, children, i + 1);
    }
}

proof fn lemma_sub_motions_qp(
    s: Cabac,
    at: Site,
    info: MbModel,
    parts: Seq<Part>,
    subs: Seq<SubMbType>,
    i: int,
)
    ensures
        sub_motions(s, at, info, parts, subs, i).0.qp == info.qp,
    decreases parts.len() - i,
{
    if i < parts.len() {
        lemma_child_motions_qp(s, at, info, parts[i], subs[i].spec_parts(), 0);
        let (info2, s2) = child_motions(s, at, info, parts[i], subs[i].spec_parts(), 0);
        lemma_sub_motions_qp(s2, at, info2, parts, subs, i + 1);
    }
}

/// Decodes a macroblock of a known type.
fn decode_coded_macroblock(
    d: &mut ArithDecoder<'_>,
    cx: &mut ContextState,
    state: &PictureState,
    addr: MbAddr,
    ty: MbType,
    qp: u8,
    rules: &Rules,
) -> (r: (MbInfo, Residual))
    requires
        cabac(*old(d), *old(cx)).wf(),
        state.wf(),
        addr < state@.mbs.len(),
        qp <= 51,
    ensures
        parsed(r.0, r.1, *final(d), *final(cx)) == coded_macroblock(
            cabac(*old(d), *old(cx)),
            site(*state, addr),
            ty,
            qp,
            *rules,
        ),
        cabac(*final(d), *final(cx)).wf(),
        final(d)@.data == old(d)@.data,
        r.0@.qp <= 51,
{
    let ghost at = site(*state, addr);
    proof {
        reveal(coded_macroblock);
    }
    let mut info = MbInfo::new(ty, qp);
    match ty {
        MbType::Intra16x16 { cbp_luma, cbp_chroma, .. } => {
            info.cbp_luma = cbp_luma;
            info.cbp_chroma = cbp_chroma;
        },
        _ => {},
    }
    assert(info@ =~= started(ty, qp));
    proof {
        lemma_quantiser_waits(cabac(*d, *cx), at, info@, *rules);
    }
    decode_prediction(d, cx, state, addr, &mut info, rules);
    proof {
        lemma_quantiser_waits(cabac(*d, *cx), at, info@, *rules);
    }
    decode_pattern(d, cx, state, addr, &mut info, rules);
    decode_quantiser(d, cx, state, addr, &mut info, qp);
    let out: Residual = decode_residual(d, cx, state, addr, &mut info);
    (info, out)
}

fn decode_skip(
    d: &mut ArithDecoder<'_>,
    cx: &mut ContextState,
    state: &PictureState,
    addr: MbAddr,
    rules: &Rules,
) -> (skip: bool)
    requires
        cabac(*old(d), *old(cx)).wf(),
        state.wf(),
        addr < state@.mbs.len(),
    ensures
        (skip, cabac(*final(d), *final(cx))) == skip_of(
            cabac(*old(d), *old(cx)),
            site(*state, addr),
            *rules,
        ),
        cabac(*final(d), *final(cx)).wf(),
        final(d)@.data == old(d)@.data,
{
    proof {
        reveal(skip_of);
    }
    let blank = MbInfo::skipped();
    let c = MbContext {
        state,
        cur: &blank,
        addr,
        constrained_intra: rules.constrained_intra,
    };
    rules.kind == SliceKind::P && decode_mb_skip_flag(d, cx, &c)
}

fn decode_type(
    d: &mut ArithDecoder<'_>,
    cx: &mut ContextState,
    state: &PictureState,
    addr: MbAddr,
    rules: &Rules,
) -> (ty: MbType)
    requires
        cabac(*old(d), *old(cx)).wf(),
        state.wf(),
        addr < state@.mbs.len(),
    ensures
        (ty, cabac(*final(d), *final(cx))) == type_of(
            cabac(*old(d), *old(cx)),
            site(*state, addr),
            *rules,
        ),
        ty !is IPcm ==> cabac(*final(d), *final(cx)).wf(),
        final(d)@.data == old(d)@.data,
{
    proof {
        reveal(type_of);
    }
    let blank = MbInfo::skipped();
    let c = MbContext {
        state,
        cur: &blank,
        addr,
        constrained_intra: rules.constrained_intra,
    };
    decode_mb_type(d, cx, &c, rules.kind).unwrap()
}

fn skipped_info(state: &PictureState, addr: MbAddr, qp: u8) -> (info: MbInfo)
    requires
        state.wf(),
        addr < state@.mbs.len(),
    ensures
        info@ == skipped_macroblock(site(*state, addr), qp),
{
    let mut info = MbInfo::skipped();
    info.qp = qp;
    let mv: (i32, i32) = skip_mv(state, addr);
    let ghost before = info@;
    assert(before =~= MbModel { qp, ..MbModel::blank(MbType::PSkip, 0) });
    info.fill_motion(0, 0, 16, 16, [mv.0 as i16, mv.1 as i16]);
    info
}

/// Decodes one macroblock. `qp` is the quantiser of the one before it.
pub fn decode_macroblock(
    d: &mut ArithDecoder<'_>,
    cx: &mut ContextState,
    state: &PictureState,
    addr: MbAddr,
    qp: u8,
    rules: &Rules,
) -> (r: Result<(MbInfo, Residual), Error>)
    requires
        cabac(*old(d), *old(cx)).wf(),
        state.wf(),
        addr < state@.mbs.len(),
        qp <= 51,
    ensures
        ({
            let m = macroblock(cabac(*old(d), *old(cx)), site(*state, addr), qp, *rules);
            &&& cabac(*final(d), *final(cx)) == m.parse.s
            &&& match m.fault {
                Some(message) => r matches Err(e) && e.is_decode(message),
                None => r matches Ok(v) && v.0@ == m.parse.info && v.1@ == m.parse.levels,
            }
        }),
        r matches Ok(v) ==> v.0@.qp <= 51 && cabac(*final(d), *final(cx)).wf(),
        final(d)@.data == old(d)@.data,
{
    if decode_skip(d, cx, state, addr, rules) {
        return Ok((skipped_info(state, addr, qp), Residual::default()));
    }
    let ty: MbType = decode_type(d, cx, state, addr, rules);
    if ty == MbType::IPcm {
        return Err(
            Error::decode("I_PCM macroblocks are not supported by CABAC picture decode"),
        );
    }
    Ok(decode_coded_macroblock(d, cx, state, addr, ty, qp, rules))
}

/// The mode of a block is expected to be the lesser of those to its left and above
/// it, and DC where one of them is not known.
pub proof fn law_expected_mode_is_the_lesser(left: Option<u8>, above: Option<u8>)
    ensures
        ({
            let r = predicted_mode(left, above);
            &&& left is None || above is None ==> r == 2
            &&& left is Some && above is Some ==> (r == left->0 || r == above->0) && r <= left->0
                && r <= above->0
        }),
{
}

/// A vector is what was expected and the difference together, as long as that
/// fits.
pub proof fn law_vectors_add_up(predicted: i32, difference: i16)
    requires
        i16::MIN <= predicted + difference <= i16::MAX,
    ensures
        vector_component(predicted, difference) == predicted + difference,
{
}

/// A part of a part lies as far into the macroblock as both say.
pub proof fn law_parts_of_parts_lie_within(part: Part, child: Part, x: int, y: int)
    requires
        part.x + child.x <= usize::MAX,
        part.y + child.y <= usize::MAX,
    ensures
        placed(part, child).holds(x, y) <==> child.holds(x - part.x, y - part.y),
{
}

/// The quantiser of a macroblock is that of the one before it with the delta added,
/// in a circle of 52, and it only changes where something is coded.
pub proof fn law_quantisers_follow_each_other(s: Cabac, at: Site, info: MbModel, qp: u8)
    requires
        qp <= 51,
        info.qp == qp,
    ensures
        ({
            let (r, after) = with_quantiser(s, at, info, qp);
            let delta = mb_qp_delta(s, quantiser_moved(at)).0;
            let coded = info.cbp_luma > 0 || info.cbp_chroma > 0 || info.mb_type is Intra16x16;
            &&& !coded ==> r == info && after == s
            &&& coded && 0 <= qp + delta <= 51 ==> r.qp == qp + delta
            &&& coded && -52 <= qp + delta < 0 ==> r.qp == qp + delta + 52
            &&& coded && 52 <= qp + delta < 104 ==> r.qp == qp + delta - 52
            &&& coded ==> r.qp_delta_nonzero == (delta != 0)
        }),
{
}

} // verus!
