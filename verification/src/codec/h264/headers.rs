//! What the headers of a stream say, read by `h264_reader`.
//!
//! The grammar of parameter sets and slice headers is that crate's. What the
//! decoder needs of them comes out as plain values, and everything decided from
//! those values is decided elsewhere.
use h264_reader::nal::pps::{PicParamSetId, PicParameterSet};
use h264_reader::nal::slice::{
    DecRefPicMarking, MemoryManagementControlOperation, ModificationOfPicNums, NumRefIdxActive,
    RefPicListModifications, SliceHeader,
};
use h264_reader::nal::sps::{
    ChromaFormat, FrameMbsFlags, PicOrderCntType, ScalingLists8x8, SeqParamSetId, SeqParameterSet,
};
use h264_reader::nal::{Nal, NalHeader, RefNal};
use h264_reader::rbsp::{BitRead, BitReader};
use super::lookahead::{deltas_fit, runs_fit};
use super::slice::bit;
use vstd::prelude::*;

verus! {

/// What is needed of a sequence parameter set.
#[derive(Debug, Clone, Copy)]
pub struct Sps {
    pub id: u8,
    /// Whether chroma is sampled 4:2:0.
    pub is_420: bool,
    pub separate_planes: bool,
    pub luma_depth_minus8: u8,
    pub chroma_depth_minus8: u8,
    /// Whether pictures are whole frames.
    pub frames_only: bool,
    /// Whether numbers of frames may be missing.
    pub gaps_allowed: bool,
    pub width_mbs_minus1: u32,
    pub height_units_minus1: u32,
    pub max_refs: u32,
    pub log2_max_frame_num: u8,
    /// Offsets left, right, top and bottom, in chroma samples.
    pub crop: Option<[u32; 4]>,
}

/// What is needed of a picture parameter set.
#[derive(Debug, Clone, Copy)]
pub struct Pps {
    pub id: u8,
    pub sps_id: u8,
    /// Whether data is arithmetic coded.
    pub cabac: bool,
    pub slice_groups: bool,
    pub weighted_pred: bool,
    pub redundant_pics: bool,
    pub num_ref_idx_l0_minus1: u32,
    pub init_qp_minus26: i32,
    pub chroma_qp_offset: i32,
    pub constrained_intra: bool,
    /// Whether the 8x8 transform may be used, and the second chroma offset.
    pub extension: Option<(bool, i32)>,
}

/// The scaling lists of a sequence parameter set, in scan order, as far as they
/// are written: six 4x4 lists, and the intra and inter luma 8x8 lists. A list
/// ends with the number before its first 0.
#[derive(Debug, Clone, Copy)]
pub struct SeqMatrix {
    pub lists_4x4: [Option<[u8; 16]>; 6],
    pub lists_8x8: [Option<[u8; 64]>; 2],
}

/// The scaling lists of a picture parameter set, like those of a [`SeqMatrix`].
/// There are 8x8 lists only where the 8x8 transform may be used.
#[derive(Debug, Clone, Copy)]
pub struct PicMatrix {
    pub lists_4x4: [Option<[u8; 16]>; 6],
    pub lists_8x8: Option<[Option<[u8; 64]>; 2]>,
}

/// The numbers of a slice header.
#[derive(Debug, Clone, Copy)]
pub struct SliceFields {
    pub first_mb: u32,
    /// 0 for P, 1 for B, 2 for I, 3 for SP and 4 for SI.
    pub family: u8,
    pub frame_num: u16,
    pub num_ref_idx_l0_minus1: Option<u32>,
    pub cabac_init_idc: Option<u32>,
    pub qp_delta: i32,
    pub disable_deblocking_idc: u8,
    pub alpha_offset_div2: Option<i32>,
    pub beta_offset_div2: Option<i32>,
    pub pps_id: u8,
}

/// A command that changes the order of reference list 0.
#[derive(Debug, Clone, Copy, PartialEq, Eq, Structural)]
pub enum ListCommand {
    Subtract(u32),
    Add(u32),
    LongTerm(u32),
    /// Of a view of a multi-view stream.
    OtherView(u32),
}

/// An operation on the reference buffer.
#[derive(Debug, Clone, Copy, PartialEq, Eq, Structural)]
pub enum BufferCommand {
    ShortTermUnused(u32),
    AllUnused,
    /// Any operation on long-term references.
    LongTerm,
}

/// What a slice header says of the picture as a reference.
#[derive(Debug)]
pub enum MarkingFields {
    /// Nothing, as for a picture that is no reference.
    Absent,
    Idr { long_term: bool },
    SlidingWindow,
    Adaptive(Vec<BufferCommand>),
}

/// What a slice header says of the picture as a reference, as a mathematical
/// value.
pub enum MarkingModel {
    Absent,
    Idr { long_term: bool },
    SlidingWindow,
    Adaptive(Seq<BufferCommand>),
}

impl View for MarkingFields {
    type V = MarkingModel;

    open spec fn view(&self) -> MarkingModel {
        match self {
            MarkingFields::Absent => MarkingModel::Absent,
            MarkingFields::Idr { long_term } => MarkingModel::Idr { long_term: *long_term },
            MarkingFields::SlidingWindow => MarkingModel::SlidingWindow,
            MarkingFields::Adaptive(ops) => MarkingModel::Adaptive(ops@),
        }
    }
}

/// An `h264_reader::Context`: the parameter sets that later headers refer to.
#[verifier::external_body]
pub struct SetStore {
    context: h264_reader::Context,
}

/// A unit that a store was given, by what it was taken for.
pub enum SetUnit {
    Sequence(Seq<u8>),
    Picture(Seq<u8>),
}

/// The parameter sets a store was given, as units of the stream in the order
/// they came. A later set of a number replaces an earlier one of its kind.
pub uninterp spec fn parameter_sets(store: SetStore) -> Seq<SetUnit>;

/// A store without parameter sets: `Context::new`.
#[verifier::external_body]
pub(crate) fn empty_store() -> (store: SetStore)
    ensures
        parameter_sets(store) == Seq::<SetUnit>::empty(),
{
    SetStore { context: h264_reader::Context::new() }
}

/// What `SeqParameterSet::from_bits` reads out of a unit, or its error in words.
pub uninterp spec fn sps_of(nal: Seq<u8>) -> Result<Sps, Seq<char>>;

/// Reads a sequence parameter set: `SeqParameterSet::from_bits` on the payload
/// of a unit, its error in its `Debug` form.
#[verifier::external_body]
pub(crate) fn read_sps(nal: &[u8]) -> (r: Result<Sps, String>)
    requires
        nal@.len() > 0,
        runs_fit(nal@),
    ensures
        match r {
            Ok(sps) => sps_of(nal@) == Ok::<Sps, Seq<char>>(sps),
            Err(text) => sps_of(nal@) == Err::<Sps, Seq<char>>(text@),
        },
{
    let bits = RefNal::new(nal, &[], true).rbsp_bits();
    let s = SeqParameterSet::from_bits(bits).map_err(|e| format!("{e:?}"))?;
    let c = &s.chroma_info;
    let crop = s.frame_cropping.as_ref();
    Ok(Sps {
        id: s.seq_parameter_set_id.id(), is_420: matches!(c.chroma_format, ChromaFormat::YUV420),
        separate_planes: c.separate_colour_plane_flag,
        luma_depth_minus8: c.bit_depth_luma_minus8, chroma_depth_minus8: c.bit_depth_chroma_minus8,
        frames_only: matches!(s.frame_mbs_flags, FrameMbsFlags::Frames),
        gaps_allowed: s.gaps_in_frame_num_value_allowed_flag, max_refs: s.max_num_ref_frames,
        width_mbs_minus1: s.pic_width_in_mbs_minus1,
        height_units_minus1: s.pic_height_in_map_units_minus1,
        log2_max_frame_num: s.log2_max_frame_num(),
        crop: crop.map(|c| [c.left_offset, c.right_offset, c.top_offset, c.bottom_offset]),
    })
}

/// The `SeqScalingMatrix` that `SeqParameterSet::from_bits` reads out of a unit.
pub uninterp spec fn sps_matrix_of(nal: Seq<u8>) -> Option<SeqMatrix>;

/// Reads the scaling lists of a sequence parameter set: the `SeqScalingMatrix`
/// of `SeqParameterSet::from_bits`, none where the set has none or cannot be
/// read. Of 4:4:4 lists it takes the two of luma.
#[verifier::external_body]
pub(crate) fn read_sps_matrix(nal: &[u8]) -> (r: Option<SeqMatrix>)
    requires
        nal@.len() > 0,
        runs_fit(nal@),
    ensures
        r == sps_matrix_of(nal@),
{
    let s = SeqParameterSet::from_bits(RefNal::new(nal, &[], true).rbsp_bits()).ok()?;
    let matrix = *s.chroma_info.scaling_matrix?;
    let lists_8x8 = match matrix.scaling_lists8x8 {
        ScalingLists8x8::Y(lists) => lists,
        ScalingLists8x8::YCbCr([intra, inter, ..]) => [intra, inter],
    };
    Some(SeqMatrix { lists_4x4: matrix.scaling_lists4x4.0, lists_8x8 })
}

/// Puts a sequence parameter set into a store: `Context::put_seq_param_set`.
#[verifier::external_body]
pub(crate) fn put_sps(store: &mut SetStore, nal: &[u8])
    requires
        nal@.len() > 0,
        runs_fit(nal@),
        sps_of(nal@) is Ok,
    ensures
        parameter_sets(*final(store)) == parameter_sets(*old(store)).push(
            SetUnit::Sequence(nal@),
        ),
{
    let bits = RefNal::new(nal, &[], true).rbsp_bits();
    if let Ok(set) = SeqParameterSet::from_bits(bits) {
        store.context.put_seq_param_set(set);
    }
}

/// What `PicParameterSet::from_bits` reads out of a unit, or its error in words,
/// given the parameter sets that came before.
pub uninterp spec fn pps_of(sets: Seq<SetUnit>, nal: Seq<u8>) -> Result<Pps, Seq<char>>;

/// Reads a picture parameter set: `PicParameterSet::from_bits` on the payload of
/// a unit, its error in its `Debug` form.
#[verifier::external_body]
pub(crate) fn read_pps(store: &SetStore, nal: &[u8]) -> (r: Result<Pps, String>)
    requires
        nal@.len() > 0,
        runs_fit(nal@),
    ensures
        match r {
            Ok(pps) => pps_of(parameter_sets(*store), nal@) == Ok::<Pps, Seq<char>>(pps),
            Err(text) => pps_of(parameter_sets(*store), nal@) == Err::<Pps, Seq<char>>(text@),
        },
{
    let bits = RefNal::new(nal, &[], true).rbsp_bits();
    let p = PicParameterSet::from_bits(&store.context, bits).map_err(|e| format!("{e:?}"))?;
    let more = p.extension.as_ref();
    Ok(Pps {
        id: p.pic_parameter_set_id.id(), sps_id: p.seq_parameter_set_id.id(),
        cabac: p.entropy_coding_mode_flag, slice_groups: p.slice_groups.is_some(),
        weighted_pred: p.weighted_pred_flag, redundant_pics: p.redundant_pic_cnt_present_flag,
        num_ref_idx_l0_minus1: p.num_ref_idx_l0_default_active_minus1,
        init_qp_minus26: p.pic_init_qp_minus26, chroma_qp_offset: p.chroma_qp_index_offset,
        constrained_intra: p.constrained_intra_pred_flag,
        extension: more.map(|e| (e.transform_8x8_mode_flag, e.second_chroma_qp_index_offset)),
    })
}

/// The `PicScalingMatrix` that `PicParameterSet::from_bits` reads out of a unit,
/// given the parameter sets that came before.
pub uninterp spec fn pps_matrix_of(sets: Seq<SetUnit>, nal: Seq<u8>) -> Option<PicMatrix>;

/// Reads the scaling lists of a picture parameter set: the `PicScalingMatrix` of
/// `PicParameterSet::from_bits`, none where the set has none or cannot be read.
/// Of 4:4:4 lists it takes the two of luma.
#[verifier::external_body]
pub(crate) fn read_pps_matrix(store: &SetStore, nal: &[u8]) -> (r: Option<PicMatrix>)
    requires
        nal@.len() > 0,
        runs_fit(nal@),
    ensures
        r == pps_matrix_of(parameter_sets(*store), nal@),
{
    let bits = RefNal::new(nal, &[], true).rbsp_bits();
    let set = PicParameterSet::from_bits(&store.context, bits).ok()?;
    let matrix = *set.extension?.pic_scaling_matrix?;
    let lists_8x8 = matrix.scaling_lists8x8.map(|lists| match lists {
        ScalingLists8x8::Y(lists) => lists,
        ScalingLists8x8::YCbCr([intra, inter, ..]) => [intra, inter],
    });
    Some(PicMatrix { lists_4x4: matrix.scaling_lists4x4.0, lists_8x8 })
}

/// Puts a picture parameter set into a store: `Context::put_pic_param_set`.
#[verifier::external_body]
pub(crate) fn put_pps(store: &mut SetStore, nal: &[u8])
    requires
        nal@.len() > 0,
        runs_fit(nal@),
        pps_of(parameter_sets(*old(store)), nal@) is Ok,
    ensures
        parameter_sets(*final(store)) == parameter_sets(*old(store)).push(
            SetUnit::Picture(nal@),
        ),
{
    let bits = RefNal::new(nal, &[], true).rbsp_bits();
    if let Ok(set) = PicParameterSet::from_bits(&store.context, bits) {
        store.context.put_pic_param_set(set);
    }
}

/// A unit from byte `at` on without the bytes that keep start codes out of it,
/// `zeros` being how many zeros stand just before. A 3 behind two zeros is such a
/// byte, and nothing above 3 may follow it. Nothing below 3 may stand there.
pub open spec fn unescaped(nal: Seq<u8>, at: int, zeros: int) -> Option<Seq<u8>>
    decreases nal.len() - at,
{
    if at >= nal.len() {
        Some(Seq::empty())
    } else if zeros == 2 && nal[at] == 3 {
        if at + 1 < nal.len() && nal[at + 1] > 3 {
            None
        } else {
            unescaped(nal, at + 1, 0)
        }
    } else if zeros == 2 && nal[at] < 3 {
        None
    } else {
        match unescaped(nal, at + 1, if nal[at] == 0 {
            zeros + 1
        } else {
            0
        }) {
            Some(rest) => Some(seq![nal[at]] + rest),
            None => None,
        }
    }
}

/// The payload of a unit: what is behind its first byte.
pub open spec fn payload_of(nal: Seq<u8>) -> Option<Seq<u8>> {
    unescaped(nal, 1, 0)
}

/// What `rbsp::decode_nal` says of a unit that has no payload.
pub uninterp spec fn payload_refusal_of(nal: Seq<u8>) -> Seq<char>;

/// The payload of a unit, without its first byte and without the bytes that keep
/// start codes out of it: `rbsp::decode_nal`. It reports an error where bytes
/// stand that have to be kept out, or where a byte that keeps them out has
/// nothing to keep out; here the error is its words.
#[verifier::external_body]
pub(crate) fn read_payload(nal: &[u8]) -> (r: Result<Vec<u8>, String>)
    requires
        nal@.len() > 0,
    ensures
        match r {
            Ok(payload) => payload_of(nal@) == Some(payload@),
            Err(text) => payload_of(nal@) is None && text@ == payload_refusal_of(nal@),
        },
{
    let payload = h264_reader::rbsp::decode_nal(nal).map_err(|e| e.to_string())?;
    Ok(payload.into_owned())
}

/// How the picture order count of a slice is written.
#[derive(Debug, Clone, Copy, PartialEq, Eq, Structural)]
pub enum OrderCount {
    /// In four bits more than this.
    Lsb(u8),
    /// As differences, unless they are all zero.
    Deltas { all_zero: bool },
    /// Not at all.
    Absent,
}

/// What a sequence parameter set says of the headers of its slices.
#[derive(Debug, Clone, Copy)]
pub struct SeqLayout {
    pub separate_planes: bool,
    pub monochrome: bool,
    pub frame_num_bits: u8,
    /// Whether a slice says if it is a field.
    pub fields: bool,
    pub order_count: OrderCount,
}

/// What a picture parameter set says of the headers of its slices.
#[derive(Debug, Clone, Copy)]
pub struct PicLayout {
    pub sps_id: u8,
    /// Whether a frame has a second difference of the order count.
    pub bottom_count: bool,
    pub redundant_pics: bool,
    pub weighted_pred: bool,
    /// B slices bring weights where this is 1.
    pub weighted_bipred_idc: u8,
    pub num_ref_idx_l0_minus1: u32,
    pub num_ref_idx_l1_minus1: u32,
    /// Whether data is arithmetic coded.
    pub cabac: bool,
    pub init_qp_minus26: i32,
    pub init_qs_minus26: i32,
}

/// What `Context::sps_by_id` gives for a number, given the parameter sets.
pub uninterp spec fn seq_layout_of(sets: Seq<SetUnit>, id: u8) -> Option<SeqLayout>;

/// Looks up a sequence parameter set by its number: `Context::sps_by_id`, none
/// where there is no such set or number.
#[verifier::external_body]
pub(crate) fn read_seq_layout(store: &SetStore, id: u8) -> (r: Option<SeqLayout>)
    ensures
        r == seq_layout_of(parameter_sets(*store), id),
{
    let s = store.context.sps_by_id(SeqParamSetId::from_u32(id.into()).ok()?)?;
    let order_count = match s.pic_order_cnt {
        PicOrderCntType::TypeZero { log2_max_pic_order_cnt_lsb_minus4: n } => OrderCount::Lsb(n),
        PicOrderCntType::TypeOne { delta_pic_order_always_zero_flag: all_zero, .. } => OrderCount::Deltas { all_zero },
        PicOrderCntType::TypeTwo => OrderCount::Absent,
    };
    Some(SeqLayout {
        separate_planes: s.chroma_info.separate_colour_plane_flag,
        monochrome: matches!(s.chroma_info.chroma_format, ChromaFormat::Monochrome),
        frame_num_bits: s.log2_max_frame_num(), order_count,
        fields: matches!(s.frame_mbs_flags, FrameMbsFlags::Fields { .. }),
    })
}

/// What `Context::pps_by_id` gives for a number, given the parameter sets.
pub uninterp spec fn pic_layout_of(sets: Seq<SetUnit>, id: u8) -> Option<PicLayout>;

/// Looks up a picture parameter set by its number: `Context::pps_by_id`, none
/// where there is no such set. What `PicParameterSet::from_bits` lets through has
/// at most 32 entries in a list and initial quantisers of at most 51.
#[verifier::external_body]
pub(crate) fn read_pic_layout(store: &SetStore, id: u8) -> (r: Option<PicLayout>)
    ensures
        r == pic_layout_of(parameter_sets(*store), id),
        r matches Some(p) ==> p.num_ref_idx_l0_minus1 <= 31 && p.num_ref_idx_l1_minus1 <= 31,
        r matches Some(p) ==> -100 <= p.init_qp_minus26 <= 25 && -26 <= p.init_qs_minus26 <= 25,
{
    let p = store.context.pps_by_id(PicParamSetId::from_u32(id.into()).ok()?)?;
    Some(PicLayout {
        sps_id: p.seq_parameter_set_id.id(),
        bottom_count: p.bottom_field_pic_order_in_frame_present_flag,
        redundant_pics: p.redundant_pic_cnt_present_flag, weighted_pred: p.weighted_pred_flag,
        weighted_bipred_idc: p.weighted_bipred_idc,
        num_ref_idx_l0_minus1: p.num_ref_idx_l0_default_active_minus1,
        num_ref_idx_l1_minus1: p.num_ref_idx_l1_default_active_minus1,
        cabac: p.entropy_coding_mode_flag, init_qp_minus26: p.pic_init_qp_minus26,
        init_qs_minus26: p.pic_init_qs_minus26,
    })
}

/// The numbers that `SliceHeader::from_bits` reads at the head of a payload, or
/// its error in words, given the parameter sets and the first byte of the unit.
pub uninterp spec fn slice_fields_of(
    sets: Seq<SetUnit>,
    first: u8,
    payload: Seq<u8>,
) -> Result<SliceFields, Seq<char>>;

/// Reads the numbers of a slice header: `SliceHeader::from_bits`, its error in
/// its `Debug` form. It adds the quantiser deltas before it looks at them, so
/// that a header whose sums do not fit is left out.
#[verifier::external_body]
pub(crate) fn read_slice_fields(store: &SetStore, first: u8, payload: &[u8]) -> (r: Result<
    SliceFields,
    String,
>)
    requires
        runs_fit(payload@),
        deltas_fit(parameter_sets(*store), first, payload@),
    ensures
        match r {
            Ok(fields) => slice_fields_of(parameter_sets(*store), first, payload@) == Ok::<
                SliceFields,
                Seq<char>,
            >(fields),
            Err(text) => slice_fields_of(parameter_sets(*store), first, payload@) == Err::<
                SliceFields,
                Seq<char>,
            >(text@),
        },
{
    let header = NalHeader::new(first).map_err(|e| format!("{e:?}"))?;
    let (ctx, bits) = (&store.context, &mut BitReader::new(payload));
    let (h, _, pps) = SliceHeader::from_bits(ctx, bits, header, None).map_err(|e| format!("{e:?}"))?;
    let num_ref_idx_l0_minus1 = match h.num_ref_idx_active {
        Some(NumRefIdxActive::P { num_ref_idx_l0_active_minus1: n }) => Some(n),
        Some(NumRefIdxActive::B { num_ref_idx_l0_active_minus1: n, .. }) => Some(n),
        None => None,
    };
    Ok(SliceFields {
        first_mb: h.first_mb_in_slice, family: h.slice_type.family as u8, frame_num: h.frame_num,
        num_ref_idx_l0_minus1, cabac_init_idc: h.cabac_init_idc, qp_delta: h.slice_qp_delta,
        disable_deblocking_idc: h.disable_deblocking_filter_idc,
        alpha_offset_div2: h.slice_alpha_c0_offset_div2,
        beta_offset_div2: h.slice_beta_offset_div2, pps_id: pps.pic_parameter_set_id.id(),
    })
}

/// The changes to reference list 0 that `SliceHeader::from_bits` reads at the
/// head of a payload, given the parameter sets and the first byte of the unit.
pub uninterp spec fn list_commands_of(
    sets: Seq<SetUnit>,
    first: u8,
    payload: Seq<u8>,
) -> Option<Seq<ListCommand>>;

/// Reads the changes a slice header makes to reference list 0:
/// `SliceHeader::from_bits`, as in [`read_slice_fields`].
#[verifier::external_body]
pub(crate) fn read_list_commands(store: &SetStore, first: u8, payload: &[u8]) -> (r: Option<
    Vec<ListCommand>,
>)
    requires
        runs_fit(payload@),
        deltas_fit(parameter_sets(*store), first, payload@),
    ensures
        match r {
            Some(commands) => list_commands_of(parameter_sets(*store), first, payload@) == Some(
                commands@,
            ),
            None => list_commands_of(parameter_sets(*store), first, payload@) is None,
        },
{
    let (header, bits) = (NalHeader::new(first).ok()?, &mut BitReader::new(payload));
    let (h, ..) = SliceHeader::from_bits(&store.context, bits, header, None).ok()?;
    let list = match h.ref_pic_list_modification {
        Some(RefPicListModifications::P { ref_pic_list_modification_l0: list }) => list,
        Some(RefPicListModifications::B { ref_pic_list_modification_l0: list, .. }) => list,
        _ => Vec::new(),
    };
    Some(list.into_iter().map(|m| match m {
        ModificationOfPicNums::Subtract(v) => ListCommand::Subtract(v),
        ModificationOfPicNums::Add(v) => ListCommand::Add(v),
        ModificationOfPicNums::LongTermRef(v) => ListCommand::LongTerm(v),
        ModificationOfPicNums::SubtractViewIdx(v) => ListCommand::OtherView(v),
        ModificationOfPicNums::AddViewIdx(v) => ListCommand::OtherView(v),
    }).collect())
}

/// What `SliceHeader::from_bits` reads of the picture as a reference at the head
/// of a payload, given the parameter sets and the first byte of the unit.
pub uninterp spec fn marking_of(sets: Seq<SetUnit>, first: u8, payload: Seq<u8>) -> Option<MarkingModel>;

/// Reads what a slice header says of the picture as a reference:
/// `SliceHeader::from_bits`, as in [`read_slice_fields`].
#[verifier::external_body]
pub(crate) fn read_marking(store: &SetStore, first: u8, payload: &[u8]) -> (r: Option<MarkingFields>)
    requires
        runs_fit(payload@),
        deltas_fit(parameter_sets(*store), first, payload@),
    ensures
        match r {
            Some(marking) => marking_of(parameter_sets(*store), first, payload@) == Some(marking@),
            None => marking_of(parameter_sets(*store), first, payload@) is None,
        },
{
    let (header, bits) = (NalHeader::new(first).ok()?, &mut BitReader::new(payload));
    let (h, ..) = SliceHeader::from_bits(&store.context, bits, header, None).ok()?;
    Some(match h.dec_ref_pic_marking {
        None => MarkingFields::Absent,
        Some(DecRefPicMarking::Idr { long_term_reference_flag: long_term, .. }) => MarkingFields::Idr { long_term },
        Some(DecRefPicMarking::SlidingWindow) => MarkingFields::SlidingWindow,
        Some(DecRefPicMarking::Adaptive(ops)) => MarkingFields::Adaptive(ops.into_iter().map(|op| match op {
            MemoryManagementControlOperation::ShortTermUnusedForRef { difference_of_pic_nums_minus1: n } => BufferCommand::ShortTermUnused(n),
            MemoryManagementControlOperation::AllRefPicturesUnused => BufferCommand::AllUnused,
            _ => BufferCommand::LongTerm,
        }).collect()),
    })
}

/// Where the header that `SliceHeader::from_bits` reads at the head of a payload
/// ends, in bits, given the parameter sets and the first byte of the unit.
pub uninterp spec fn header_end_of(sets: Seq<SetUnit>, first: u8, payload: Seq<u8>) -> Option<int>;

/// A `BitReader` on a payload.
#[verifier::external_body]
pub struct PayloadBits<'a> {
    reader: BitReader<&'a [u8]>,
}

/// The payload a reader is on.
pub uninterp spec fn source_of(bits: PayloadBits) -> Seq<u8>;

/// How many bits a reader has read.
pub uninterp spec fn place_of(bits: PayloadBits) -> int;

/// A reader that stands behind the slice header: `SliceHeader::from_bits` on a
/// new `BitReader`, as in [`read_slice_fields`].
#[verifier::external_body]
pub(crate) fn behind_header<'a>(store: &SetStore, first: u8, payload: &'a [u8]) -> (r: Option<
    PayloadBits<'a>,
>)
    requires
        runs_fit(payload@),
        deltas_fit(parameter_sets(*store), first, payload@),
    ensures
        match r {
            Some(bits) => header_end_of(parameter_sets(*store), first, payload@) == Some(
                place_of(bits),
            ) && source_of(bits) == payload@ && 0 <= place_of(bits) <= payload@.len() * 8,
            None => header_end_of(parameter_sets(*store), first, payload@) is None,
        },
{
    let (header, mut reader) = (NalHeader::new(first).ok()?, BitReader::new(payload));
    SliceHeader::from_bits(&store.context, &mut reader, header, None).ok()?;
    Some(PayloadBits { reader })
}

/// Whether a reader stands between two bytes: `BitRead::byte_aligned`.
#[verifier::external_body]
pub(crate) fn is_aligned(bits: &PayloadBits<'_>) -> (r: bool)
    ensures
        r == (place_of(*bits) % 8 == 0),
{
    bits.reader.byte_aligned()
}

/// The next bit, the most significant of each byte first: `BitRead::read_bit`,
/// none behind the last byte.
#[verifier::external_body]
pub(crate) fn next_bit(bits: &mut PayloadBits<'_>) -> (r: Option<bool>)
    ensures
        source_of(*final(bits)) == source_of(*old(bits)),
        r is None <==> place_of(*old(bits)) >= source_of(*old(bits)).len() * 8,
        r matches Some(b) ==> b == bit(source_of(*old(bits)), place_of(*old(bits))) && place_of(
            *final(bits),
        ) == place_of(*old(bits)) + 1,
{
    bits.reader.read_bit("bit").ok()
}

/// How many whole bytes are left: the length of what `BitReader::into_reader`
/// returns.
#[verifier::external_body]
pub(crate) fn bytes_left(bits: PayloadBits<'_>) -> (r: usize)
    requires
        place_of(bits) % 8 == 0,
    ensures
        r == source_of(bits).len() - place_of(bits) / 8,
{
    bits.reader.into_reader().len()
}

} // verus!
