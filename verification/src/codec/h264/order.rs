//! The order of things: what a macroblock is told and when, how a slice goes from
//! macroblock to macroblock, and what becomes of the finished picture.
use vstd::prelude::*;
use std::time::Duration;
use super::cabac::{initial_context, Cabac};
use super::cabac_init::context_line;
use super::decoder::{mixed_fault, same_marking, unit_effect};
use super::macroblock::{
    child_motions, inter_prediction, motion_of, motions, quantiser_moved, skip_vector,
    skipped_macroblock, started, sub_motions, sub_types, with_pattern, Rules, Site,
};
use super::math::lemma_raster;
use super::inter::Partition;
use super::mb::{MbType, Part, Partitioning, SubMbType};
use super::neighbour::Grid;
use super::picture::{greyed, unclaimed, Canvas, Cropping};
use super::picture_decode::{
    macroblocks, one_macroblock, shows, slice_contexts, slice_rules, stock, with_control, Plan,
    PictureDecoder, Progress,
};
use super::slice::{CabacSlice, Deblocking, SliceInfo, Sets};
use super::state::MbModel;
use super::syntax::{coded_block_pattern, transform_size_8x8};
use crate::media::Frame;

verus! {

// ---- Macroblocks ------------------------------------------------------------

/// The pattern is coded for the types that leave it open; the type of a macroblock
/// predicted as a whole carries it. The transform flag of an inter macroblock comes
/// behind the pattern, where the slice allows it and there is luma to transform.
pub proof fn law_patterns_are_coded_where_types_leave_them_open(
    s: Cabac,
    at: Site,
    info: MbModel,
    rules: Rules,
)
    ensures
        ({
            let (r, after) = with_pattern(s, at, info, rules);
            let ((luma, chroma), s1) = coded_block_pattern(s, at.at(info));
            let told = MbModel { cbp_luma: luma, cbp_chroma: chroma, ..info };
            match info.mb_type {
                MbType::IntraNxN => r == told && after == s1,
                MbType::Inter(_) => if rules.allow_8x8 && luma > 0 {
                    let (large, s2) = transform_size_8x8(s1, at.at(told));
                    r == (MbModel { transform_8x8: large, ..told }) && after == s2
                } else {
                    r == told && after == s1
                },
                _ => r == info && after == s,
            }
        }),
        ({
            let m = started(info.mb_type, info.qp);
            info.mb_type matches MbType::Intra16x16 { cbp_luma, cbp_chroma, .. } ==> m.cbp_luma
                == cbp_luma && m.cbp_chroma == cbp_chroma
        }),
{
}

/// Vectors say nothing about references.
proof fn lemma_motion(s: Cabac, at: Site, info: MbModel, part: Part, partition: Partition)
    ensures
        motion_of(s, at, info, part, partition).0.ref_idx == info.ref_idx,
{
    reveal(motion_of);
}

proof fn lemma_motions(s: Cabac, at: Site, info: MbModel, shape: Partitioning, i: int)
    ensures
        motions(s, at, info, shape, i).0.ref_idx == info.ref_idx,
    decreases shape.spec_parts().len() - i,
{
    if i < shape.spec_parts().len() {
        let (part, rule) = (shape.spec_parts()[i], shape.spec_mv_prediction(i));
        lemma_motion(s, at, info, part, rule);
        let (info2, s2) = motion_of(s, at, info, part, rule);
        lemma_motions(s2, at, info2, shape, i + 1);
    }
}

proof fn lemma_child_motions(
    s: Cabac,
    at: Site,
    info: MbModel,
    part: Part,
    children: Seq<Part>,
    i: int,
)
    ensures
        child_motions(s, at, info, part, children, i).0.ref_idx == info.ref_idx,
    decreases children.len() - i,
{
    if i < children.len() {
        let child = super::macroblock::placed(part, children[i]);
        lemma_motion(s, at, info, child, Partition::Other);
        let (info2, s2) = motion_of(s, at, info, child, Partition::Other);
        lemma_child_motions(s2, at, info2, part, children, i + 1);
    }
}

proof fn lemma_sub_motions(
    s: Cabac,
    at: Site,
    info: MbModel,
    parts: Seq<Part>,
    subs: Seq<SubMbType>,
    i: int,
)
    ensures
        sub_motions(s, at, info, parts, subs, i).0.ref_idx == info.ref_idx,
    decreases parts.len() - i,
{
    if i < parts.len() {
        lemma_child_motions(s, at, info, parts[i], subs[i].spec_parts(), 0);
        let (info2, s2) = child_motions(s, at, info, parts[i], subs[i].spec_parts(), 0);
        lemma_sub_motions(s2, at, info2, parts, subs, i + 1);
    }
}

/// Where there is one reference to choose from, or the type says that the nearest
/// one is meant, no index is coded and every partition refers to the nearest.
pub proof fn law_single_references_have_no_index(
    s: Cabac,
    at: Site,
    qp: u8,
    shape: Partitioning,
    num_ref_idx_l0: int,
    q: int,
)
    requires
        num_ref_idx_l0 <= 1 || shape is P8x8Ref0,
        0 <= q < 4,
    ensures
        inter_prediction(
            s,
            at,
            started(MbType::Inter(shape), qp),
            shape,
            num_ref_idx_l0,
        ).0.ref_idx[q] == 0,
{
    let info = started(MbType::Inter(shape), qp);
    let (subs, s1) = sub_types(s, Seq::empty());
    lemma_sub_motions(s1, at, info, shape.spec_parts(), subs, 0);
    lemma_motions(s, at, info, shape, 0);
}

/// A skipped macroblock keeps the quantiser, has no residual, refers to the nearest
/// picture, and moves as a whole.
pub proof fn law_skipped_macroblocks_move_as_a_whole(at: Site, qp: u8, blk: int)
    requires
        0 <= blk < 16,
    ensures
        ({
            let m = skipped_macroblock(at, qp);
            let v = skip_vector(at);
            &&& m.mb_type is PSkip
            &&& m.qp == qp && !m.qp_delta_nonzero
            &&& m.cbp_luma == 0 && m.cbp_chroma == 0 && !m.transform_8x8
            &&& m.mv[blk] == (v.0 as i16, v.1 as i16)
            &&& m.mvd[blk] == (0i16, 0i16)
            &&& blk < 4 ==> m.ref_idx[blk] == 0
        }),
{
}

/// Only the macroblocks of P slices can be skipped.
pub proof fn law_only_p_slices_skip(s: Cabac, at: Site, qp: u8, rules: Rules)
    requires
        rules.kind is I,
    ensures
        super::macroblock::skip_of(s, at, rules) == (false, s),
{
    reveal(super::macroblock::skip_of);
}

/// Whether the quantiser moved is asked of the macroblock decoded just before, if
/// it belongs to the same slice.
pub proof fn law_quantisers_look_one_back(at: Site)
    requires
        0 <= at.addr < at.pic.grid.slice.len(),
    ensures
        at.addr == 0 ==> !quantiser_moved(at),
        at.addr > 0 ==> ({
            let (now, before) = (at.pic.grid.slice[at.addr], at.pic.grid.slice[at.addr - 1]);
            quantiser_moved(at) <==> before is Some && before == now
                && at.pic.mbs[at.addr - 1].qp_delta_nonzero
        }),
{
}

// ---- Slices -----------------------------------------------------------------

/// A slice tells its macroblocks what they may do, and an I slice starts from the
/// first column of the initial models, a P slice from the one that it names.
pub proof fn law_slices_rule_their_macroblocks(info: SliceInfo, i: int)
    requires
        0 <= i < 460,
    ensures
        ({
            let r = slice_rules(info);
            &&& r.kind is P <==> info.kind is P
            &&& r.allow_8x8 == info.transform_8x8_enabled
            &&& r.num_ref_idx_l0 == info.num_ref_idx_l0
            &&& r.constrained_intra == info.constrained_intra
        }),
        slice_contexts(info).len() == 460,
        ({
            let column = if info.kind is I {
                0int
            } else {
                1 + info.cabac_init_idc
            };
            slice_contexts(info)[i] == initial_context(
                context_line(i, column),
                info.slice_qp as int,
            )
        }),
{
}

/// A macroblock that a slice goes on from is on the map, under the number of the
/// slice, and the next one starts from its quantiser.
pub proof fn law_quantisers_carry_over(p: Progress, plan: Plan, addr: int, qp: u8)
    requires
        0 <= addr < p.pic.mbs.len(),
        p.pic.mbs.len() == p.pic.grid.slice.len(),
        one_macroblock(p, plan, addr, qp).more,
    ensures
        ({
            let one = one_macroblock(p, plan, addr, qp);
            &&& one.after.fault is None
            &&& one.after.pic.grid.slice[addr] == Some(plan.id)
            &&& one.qp == one.after.pic.mbs[addr].qp
        }),
{
    reveal(one_macroblock);
}

/// A slice changes the map from its first macroblock on, without a gap, and there
/// puts its own number; macroblocks before it stay as they are.
pub proof fn law_slices_claim_a_run_of_macroblocks(
    p: Progress,
    plan: Plan,
    addr: int,
    total: int,
    qp: u8,
) -> (end: int)
    requires
        0 <= addr <= total,
        total == p.pic.mbs.len(),
        total == p.pic.grid.slice.len(),
    ensures
        addr <= end <= total,
        addr < total ==> addr < end,
        ({
            let after = macroblocks(p, plan, addr, total, qp).pic;
            &&& after.grid.slice.len() == total
            &&& after.mbs.len() == total
            &&& forall|m: int| addr <= m < end ==> #[trigger] after.grid.slice[m] == Some(plan.id)
            &&& forall|m: int|
                0 <= m < total && !(addr <= m < end) ==> #[trigger] after.grid.slice[m]
                    == p.pic.grid.slice[m]
            &&& forall|m: int|
                0 <= m < total && !(addr <= m < end) ==> #[trigger] after.mbs[m] == p.pic.mbs[m]
        }),
    decreases total - addr,
{
    if addr >= total {
        addr
    } else {
        let one = one_macroblock(p, plan, addr, qp);
        assert(one.after.pic.grid.slice =~= p.pic.grid.slice.update(addr, Some(plan.id))
            && one.after.pic.mbs.len() == total && forall|m: int|
            0 <= m < total && m != addr ==> #[trigger] one.after.pic.mbs[m] == p.pic.mbs[m]) by {
            reveal(one_macroblock);
        }
        if one.more {
            law_slices_claim_a_run_of_macroblocks(one.after, plan, addr + 1, total, one.qp)
        } else {
            addr + 1
        }
    }
}

/// Each slice keeps its own control of the filter; a slice that never came filters
/// every edge, with no offset.
pub proof fn law_slices_keep_their_filter_control(
    controls: Seq<Deblocking>,
    id: int,
    control: Deblocking,
    other: int,
)
    requires
        0 <= id,
        0 <= other < id || id < other < controls.len(),
    ensures
        ({
            let after = with_control(controls, id, control);
            &&& after.len() == (if controls.len() > id {
                controls.len() as int
            } else {
                id + 1
            })
            &&& after[id] == control
            &&& other < controls.len() ==> after[other] == controls[other]
            &&& other >= controls.len() ==> after[other].disable_idc == 0
                && after[other].alpha_offset == 0 && after[other].beta_offset == 0
        }),
{
}

/// From an IDR picture on, nothing decoded before can be referred to.
pub proof fn law_idr_slices_refer_to_nothing(before: PictureDecoder, slice: CabacSlice)
    ensures
        slice.info.idr ==> stock(before, slice).len() == 0,
        !slice.info.idr ==> stock(before, slice) == before.dpb.refs@,
{
}

// ---- Pictures ---------------------------------------------------------------

/// The slices of a picture agree on its configuration, on whether it is a
/// reference, and on how it is marked: exactly then nothing is wrong with them.
pub proof fn law_slices_of_a_picture_agree(slices: Seq<CabacSlice>)
    requires
        slices.len() > 0,
    ensures
        mixed_fault(slices) is None <==> {
            &&& forall|i: int|
                0 <= i < slices.len() ==> (#[trigger] slices[i]).info.picture
                    == slices[0].info.picture
            &&& forall|i: int|
                0 <= i < slices.len() ==> (#[trigger] slices[i]).info.nal_ref_idc
                    == slices[0].info.nal_ref_idc
            &&& forall|i: int|
                0 <= i < slices.len() ==> same_marking(
                    (#[trigger] slices[i]).marking,
                    slices[0].marking,
                )
            &&& slices[0].info.nal_ref_idc == 0 <==> slices[0].marking is NonReference
        },
{
}

/// Only parameter sets change the parameter sets, and only coded slices bring
/// slices.
pub proof fn law_units_do_as_their_type_says(sets: Sets, nal: Seq<u8>)
    requires
        nal.len() > 0,
    ensures
        ({
            let t = nal[0] % 32;
            let e = unit_effect(sets, nal);
            &&& t != 7 && t != 8 ==> e.sets == sets
            &&& t != 1 && t != 5 ==> e.slice is None
            &&& e.fault is Some ==> e.slice is None
        }),
{
    let first = nal[0];
    assert(first & 0x1f == first % 32) by (bit_vector);
}

/// The sample in column `x` and row `y` of a finished picture is mid-grey where no
/// slice brought the macroblock that holds it, and stays as it is elsewhere.
pub proof fn law_holes_are_grey(c: Canvas, grid: Grid, x: int, y: int)
    requires
        grid.wf(),
        grid.width > 0,
        0 <= x < 16 * grid.width,
        0 <= y < 16 * grid.height,
    ensures
        ({
            let k = y * (grid.width * 16) + x;
            let mb = (y / 16) * grid.width + x / 16;
            greyed(c, grid, 0, k) == (if grid.slice[mb] is None {
                128
            } else {
                c.planes[0][k]
            })
        }),
        x < 8 * grid.width && y < 8 * grid.height ==> ({
            let k = y * (grid.width * 8) + x;
            let mb = (y / 8) * grid.width + x / 8;
            &&& greyed(c, grid, 1, k) == (if grid.slice[mb] is None {
                128
            } else {
                c.planes[1][k]
            })
            &&& greyed(c, grid, 2, k) == (if grid.slice[mb] is None {
                128
            } else {
                c.planes[2][k]
            })
        }),
{
    lemma_raster(grid.width * 16, x, y);
    lemma_raster(grid.width, x / 16, y / 16);
    super::math::lemma_rows(grid.width, y / 16, grid.height);
    assert(grid.width * grid.height == grid.height * grid.width) by (nonlinear_arith);
    if x < 8 * grid.width && y < 8 * grid.height {
        lemma_raster(grid.width * 8, x, y);
        lemma_raster(grid.width, x / 8, y / 8);
        super::math::lemma_rows(grid.width, y / 8, grid.height);
    }
}

/// The macroblocks concealed in a picture are those that no slice brought.
pub proof fn law_concealed_macroblocks_are_counted(slice: Seq<Option<u32>>)
    ensures
        unclaimed(slice, slice.len()) == slice.filter(|s: Option<u32>| s is None).len(),
{
    lemma_unclaimed(slice, slice.len());
    assert(slice.take(slice.len() as int) =~= slice);
}

proof fn lemma_unclaimed(slice: Seq<Option<u32>>, n: nat)
    requires
        n <= slice.len(),
    ensures
        unclaimed(slice, n) == slice.take(n as int).filter(|s: Option<u32>| s is None).len(),
    decreases n,
{
    reveal(Seq::filter);
    if n > 0 {
        lemma_unclaimed(slice, (n - 1) as nat);
        assert(slice.take(n as int).drop_last() =~= slice.take(n - 1));
    }
}

/// A frame shows the picture without its margins: the sample in column `x` and row
/// `y` of the frame is the one that lies that far inside the left and the upper
/// margin, which are half as wide in chroma.
pub proof fn law_frames_show_the_picture_without_its_margins(
    frame: Frame,
    c: Canvas,
    crop: Cropping,
    pts: Duration,
    concealed: nat,
    x: int,
    y: int,
)
    requires
        shows(frame, c, crop, pts, concealed),
        0 <= x,
        0 <= y,
    ensures
        crop.left + crop.right < c.width ==> frame.width == c.width - crop.left - crop.right,
        crop.top + crop.bottom < c.height ==> frame.height == c.height - crop.top - crop.bottom,
        x < frame.width && y < frame.height ==> frame.planes@[0]@[y * frame.width + x]
            == c.planes[0][(crop.top + y) * c.width + crop.left + x],
        2 * x < frame.width && 2 * y < frame.height ==> {
            let w = (frame.width as int + 1) / 2;
            let k = (crop.top as int / 2 + y) * (c.width / 2) + crop.left as int / 2 + x;
            &&& frame.planes@[1]@[y * w + x] == c.planes[1][k]
            &&& frame.planes@[2]@[y * w + x] == c.planes[2][k]
        },
{
    if x < frame.width && y < frame.height {
        lemma_raster(frame.width as int, x, y);
        super::math::lemma_rows(frame.width as int, y, frame.height as int);
        assert(frame.width * frame.height == frame.height * frame.width) by (nonlinear_arith);
    }
    if 2 * x < frame.width && 2 * y < frame.height {
        let (w, h) = ((frame.width as int + 1) / 2, (frame.height as int + 1) / 2);
        lemma_raster(w, x, y);
        super::math::lemma_rows(w, y, h);
        assert(w * h == h * w) by (nonlinear_arith);
        let one = frame.planes@[1];
        let two = frame.planes@[2];
    }
}

} // verus!
