//! Decoding a picture slice by slice.
//!
//! A macroblock becomes available to its neighbours as it is parsed, its samples
//! exist before the next one is, and the deblocking filter waits until the last
//! slice is in.
use vstd::prelude::*;
use std::time::Duration;
use super::cabac::{
    cabac, fresh_engine, initial_context, ArithDecoder, Cabac, Context, ContextState,
    ContextVariant, NUM_CONTEXTS,
};
use super::cabac_init::context_line;
use super::describe::{describe, described};
use super::loopfilter::{deblocked, filter_picture, FilterModel, FilterParams};
use super::macroblock::{decode_macroblock, macroblock, Rules, Site};
use super::mb;
use super::picture::{
    after_mmco, bad_mmco, bad_modification, cropped, enters, greyed, lemma_place_of, marks, pic_nums, picks, place_of,
    spec_list0, unclaimed, Canvas, Cropping, Dpb, MmcoOp, Picture, RefMarking,
};
use super::recon::{
    canvases, matched, reconstruct_from, same_frame, tells, usable, Recipe, ReconParams,
    ScalingLists, Tuning,
};
use super::neighbour::Grid;
use super::residual::overran;
use super::slice::{CabacSlice, Deblocking, PictureConfig, SliceInfo, SliceKind};
use super::state::{MbInfo, MbModel, PicModel, PictureState};
use crate::error::Error;
use crate::text::{decimal, put_number};
use crate::media::Frame;

verus! {

// ---- Slices -----------------------------------------------------------------

/// How the macroblocks of a slice are parsed.
pub open spec fn slice_rules(info: SliceInfo) -> Rules {
    Rules {
        kind: match info.kind {
            SliceKind::I => mb::SliceKind::I,
            SliceKind::P => mb::SliceKind::P,
        },
        allow_8x8: info.transform_8x8_enabled,
        num_ref_idx_l0: info.num_ref_idx_l0,
        constrained_intra: info.constrained_intra,
    }
}

/// The contexts a slice starts from.
pub open spec fn slice_contexts(info: SliceInfo) -> Seq<Context> {
    let variant = match info.kind {
        SliceKind::I => ContextVariant::Intra,
        SliceKind::P => ContextVariant::Inter { cabac_init_idc: info.cabac_init_idc },
    };
    Seq::new(
        NUM_CONTEXTS as nat,
        |i: int| initial_context(context_line(i, variant.spec_column()), info.slice_qp as int),
    )
}

/// A picture on the way through a slice.
#[verifier::ext_equal]
pub struct Progress {
    pub canvas: Canvas,
    pub pic: PicModel,
    pub s: Cabac,
    /// What is wrong, once something is.
    pub fault: Option<Seq<char>>,
}

/// What a slice fixes for its macroblocks.
pub struct Plan {
    pub rules: Rules,
    pub id: u32,
    pub refs: Seq<Canvas>,
    pub tuning: Tuning,
}

/// One macroblock of a slice.
pub struct Stride {
    pub after: Progress,
    /// Whether the slice goes on.
    pub more: bool,
    /// The quantiser of the macroblock.
    pub qp: u8,
}

/// The message for a macroblock that cannot be reconstructed.
pub open spec fn at_macroblock(addr: int, info: MbModel, message: Seq<char>) -> Seq<char> {
    "macroblock "@ + decimal(addr as nat) + " "@ + described(info) + ": "@ + message
}

/// The error for a macroblock that cannot be reconstructed.
fn located(addr: usize, info: &MbInfo, e: &Error) -> (r: Error)
    ensures
        r.is_decode(at_macroblock(addr as int, info@, e.text())),
{
    let mut m = "macroblock ".to_owned();
    put_number(&mut m, addr as u128);
    m.append(" ");
    m.append(describe(info).as_str());
    m.append(": ");
    m.append(e.message().as_str());
    Error::decode(m.as_str())
}

/// One macroblock of a slice: parsed, reconstructed and put on the map.
#[verifier::opaque]
pub open spec fn one_macroblock(p: Progress, plan: Plan, addr: int, qp: u8) -> Stride {
    let pic = p.pic.begun(addr, plan.id);
    let m = macroblock(p.s, Site { pic, addr }, qp, plan.rules);
    let recipe = Recipe {
        pic,
        refs: plan.refs,
        addr,
        info: m.parse.info,
        levels: m.parse.levels,
        tuning: plan.tuning,
    };
    let (canvas, fault) = recipe.apply(p.canvas);
    let (end, s) = m.parse.s.terminate();
    if m.fault is Some {
        Stride { after: Progress { pic, s: m.parse.s, fault: m.fault, ..p }, more: false, qp }
    } else if fault is Some {
        Stride {
            after: Progress {
                canvas,
                pic,
                s: m.parse.s,
                fault: Some(at_macroblock(addr, m.parse.info, fault->0)),
            },
            more: false,
            qp,
        }
    } else {
        Stride {
            after: Progress {
                canvas,
                pic: pic.with(addr, plan.id, m.parse.info),
                s,
                fault: None,
            },
            more: end != 1,
            qp: m.parse.info.qp,
        }
    }
}

/// The macroblocks of a slice from `addr` on, until the slice ends, the picture
/// of `total` macroblocks does or something is wrong.
pub open spec fn macroblocks(p: Progress, plan: Plan, addr: int, total: int, qp: u8) -> Progress
    decreases total - addr,
{
    if addr >= total {
        p
    } else {
        let one = one_macroblock(p, plan, addr, qp);
        if one.more {
            macroblocks(one.after, plan, addr + 1, total, one.qp)
        } else {
            one.after
        }
    }
}

/// A picture and its macroblocks as the executable parts hold them.
pub open spec fn progress(
    picture: Picture,
    state: PictureState,
    d: ArithDecoder<'_>,
    cx: ContextState,
) -> Progress {
    Progress { canvas: picture@, pic: state@, s: cabac(d, cx), fault: None }
}

/// One macroblock into the picture; tells whether the slice goes on, with the
/// quantiser of the macroblock.
fn decode_one(
    picture: &mut Picture,
    state: &mut PictureState,
    d: &mut ArithDecoder<'_>,
    cx: &mut ContextState,
    refs: &[&Picture],
    params: &ReconParams,
    rules: &Rules,
    id: u32,
    addr: usize,
    qp: u8,
) -> (r: Result<(bool, u8), Error>)
    requires
        old(picture).wf(),
        old(state).wf(),
        matched(old(picture)@, old(state)@, addr as int),
        cabac(*old(d), *old(cx)).wf(),
        usable(refs@),
        qp <= 51,
    ensures
        same_frame(*old(picture), *final(picture)),
        final(state).wf(),
        final(state)@.mbs.len() == old(state)@.mbs.len(),
        final(state)@.grid.width == old(state)@.grid.width,
        final(state)@.grid.height == old(state)@.grid.height,
        final(d)@.data == old(d)@.data,
        ({
            let plan = Plan { rules: *rules, id, refs: canvases(refs@), tuning: params@ };
            let before = progress(*old(picture), *old(state), *old(d), *old(cx));
            let after = progress(*final(picture), *final(state), *final(d), *final(cx));
            let one = one_macroblock(before, plan, addr as int, qp);
            match r {
                Err(e) => one.after.fault is Some && e.is_decode(one.after.fault->0) && after == (
                Progress { fault: None, ..one.after }) && !one.more,
                Ok((more, next)) => {
                    &&& next <= 51
                    &&& more ==> cabac(*final(d), *final(cx)).wf()
                    &&& one.after == after
                    &&& one.more == more
                    &&& one.qp == next
                },
            }
        }),
{
    proof {
        reveal(one_macroblock);
    }
    state.begin_macroblock(addr, id);
    let (info, residual) = match decode_macroblock(d, cx, state, addr, qp, rules) {
        Ok(v) => v,
        Err(e) => {
            return Err(e);
        },
    };
    match reconstruct_from(picture, state, refs, addr, &info, &residual, params) {
        Ok(_) => {},
        Err(e) => {
            return Err(located(addr, &info, &e));
        },
    }
    state.put(addr, id, info);
    let end: u8 = d.decode_terminate();
    Ok((end == 0, info.qp))
}

/// The macroblocks of a slice.
fn decode_macroblocks(
    picture: &mut Picture,
    state: &mut PictureState,
    d: &mut ArithDecoder<'_>,
    cx: &mut ContextState,
    refs: &[&Picture],
    params: &ReconParams,
    rules: &Rules,
    id: u32,
    first: usize,
    qp: u8,
) -> (r: Result<(), Error>)
    requires
        old(picture).wf(),
        old(state).wf(),
        matched(old(picture)@, old(state)@, 0),
        cabac(*old(d), *old(cx)).wf(),
        usable(refs@),
        qp <= 51,
    ensures
        same_frame(*old(picture), *final(picture)),
        final(state).wf(),
        final(state)@.grid.width == old(state)@.grid.width,
        final(state)@.grid.height == old(state)@.grid.height,
        final(state)@.mbs.len() == old(state)@.mbs.len(),
        final(d)@.data == old(d)@.data,
        ({
            let plan = Plan { rules: *rules, id, refs: canvases(refs@), tuning: params@ };
            let before = progress(*old(picture), *old(state), *old(d), *old(cx));
            let after = progress(*final(picture), *final(state), *final(d), *final(cx));
            let goal = macroblocks(
                before,
                plan,
                first as int,
                old(state)@.mbs.len() as int,
                qp,
            );
            &&& after == (Progress { fault: None, ..goal })
            &&& tells(r, goal.fault)
        }),
{
    let ghost plan = Plan { rules: *rules, id, refs: canvases(refs@), tuning: params@ };
    let total: usize = state.neighbours.len();
    let ghost goal = macroblocks(
        progress(*picture, *state, *d, *cx),
        plan,
        first as int,
        total as int,
        qp,
    );
    let mut addr: usize = first;
    let mut level: u8 = qp;
    let mut more: bool = true;
    while more && addr < total
        invariant
            total == state@.mbs.len(),
            state@.mbs.len() == old(state)@.mbs.len(),
            state@.grid.width == old(state)@.grid.width,
            state@.grid.height == old(state)@.grid.height,
            same_frame(*old(picture), *picture),
            state.wf(),
            matched(picture@, state@, 0),
            more ==> cabac(*d, *cx).wf(),
            usable(refs@),
            level <= 51,
            d@.data == old(d)@.data,
            plan == (Plan { rules: *rules, id, refs: canvases(refs@), tuning: params@ }),
            goal == macroblocks(
                progress(*old(picture), *old(state), *old(d), *old(cx)),
                plan,
                first as int,
                total as int,
                qp,
            ),
            goal == (if more {
                macroblocks(
                    progress(*picture, *state, *d, *cx),
                    plan,
                    addr as int,
                    total as int,
                    level,
                )
            } else {
                progress(*picture, *state, *d, *cx)
            }),
        decreases total - addr,
    {
        match decode_one(picture, state, d, cx, refs, params, rules, id, addr, level) {
            Ok((on, next)) => {
                more = on;
                level = next;
            },
            Err(e) => {
                return Err(e);
            },
        }
        addr = addr + 1;
    }
    Ok(())
}

// ---- The picture ------------------------------------------------------------

/// What a finished picture hands back, for the next one to use.
pub struct Finished {
    /// The picture cropped to its display rectangle.
    pub frame: Frame,
    pub dpb: Dpb,
    /// The macroblock state, to be reset and used again.
    pub state: PictureState,
    /// Pictures the buffer no longer needs.
    pub recycled: Vec<Picture>,
}

/// A picture being decoded, with what its slices share.
pub struct PictureDecoder {
    pub config: PictureConfig,
    pub picture: Picture,
    pub state: PictureState,
    pub dpb: Dpb,
    pub params: ReconParams,
    /// Control of the deblocking filter by slice number. The filter runs after
    /// the last slice.
    pub deblocking: Vec<Deblocking>,
}

impl PictureConfig {
    /// A picture with macroblocks, whose samples can be counted and addressed.
    pub open spec fn wf(self) -> bool {
        &&& 0 < self.width_mbs
        &&& 0 < self.height_mbs
        &&& self.width_mbs * 16 <= 0x4000_0000
        &&& self.height_mbs * 16 <= 0x4000_0000
        &&& (self.width_mbs * 16) * (self.height_mbs * 16) <= usize::MAX
    }
}

/// A picture of the size a configuration asks for.
pub open spec fn sized(picture: Picture, config: PictureConfig) -> bool {
    &&& picture.wf()
    &&& picture.width == config.width_mbs * 16
    &&& picture.height == config.height_mbs * 16
}

/// Macroblock state of the size a configuration asks for.
pub open spec fn laid_out(state: PictureState, config: PictureConfig) -> bool {
    &&& state.wf()
    &&& state@.grid.width == config.width_mbs
    &&& state@.grid.height == config.height_mbs
}

/// Pictures that can be predicted from and decoded into.
pub open spec fn sound(pictures: Seq<Picture>) -> bool {
    forall|i: int|
        0 <= i < pictures.len() ==> (#[trigger] pictures[i]).wf() && 0 < pictures[i].width
            <= 0x4000_0000 && 0 < pictures[i].height <= 0x4000_0000
}

/// A buffer whose pictures can be predicted from.
pub open spec fn readable_dpb(dpb: Dpb) -> bool {
    &&& dpb.wf()
    &&& sound(dpb.refs@)
}

impl PictureDecoder {
    /// Samples and macroblock state have the size of the configuration, and the
    /// references can be read.
    pub open spec fn wf(self) -> bool {
        &&& self.config.wf()
        &&& sized(self.picture, self.config)
        &&& laid_out(self.state, self.config)
        &&& readable_dpb(self.dpb)
        &&& forall|i: int|
            0 <= i < self.deblocking@.len() ==> (#[trigger] self.deblocking@[i]).wf()
    }

    /// No slice has been decoded into the picture.
    pub open spec fn is_new(self) -> bool {
        &&& self.params.chroma_qp_offset@ == seq![0i32, 0i32]
        &&& !self.params.constrained_intra
        &&& self.deblocking@.len() == 0
    }
}

/// The picture and the macroblock map agree.
proof fn lemma_matched(d: PictureDecoder)
    requires
        d.wf(),
    ensures
        matched(d.picture@, d.state@, 0),
        d.state@.mbs.len() == d.config.width_mbs * d.config.height_mbs,
{
    let (w, h) = (d.config.width_mbs as int, d.config.height_mbs as int);
    assert(0 < w * h) by (nonlinear_arith)
        requires
            0 < w,
            0 < h,
    ;
}

/// Controls of the filter with that of slice `id` set; slices in between that
/// never came filter as usual.
pub open spec fn with_control(controls: Seq<Deblocking>, id: int, control: Deblocking) -> Seq<
    Deblocking,
> {
    let long = if controls.len() <= id {
        controls + Seq::new((id + 1 - controls.len()) as nat, |i: int| Deblocking::standard())
    } else {
        controls
    };
    long.update(id, control)
}

/// A slice that can be decoded: its quantiser and table numbers exist, and its
/// list changes are no more than a list has entries.
pub open spec fn decodable(slice: CabacSlice) -> bool {
    &&& slice.info.slice_qp <= 51
    &&& slice.info.cabac_init_idc <= 2
    &&& slice.info.deblocking.wf()
    &&& slice.info.num_ref_idx_l0 < usize::MAX
    &&& slice.list_mods@.len() <= slice.info.num_ref_idx_l0 + 1 || slice.info.num_ref_idx_l0 == 0
        && slice.list_mods@.len() <= 2
    &&& slice.list_mods@.len() <= 0x1000_0000
}

/// The pictures a slice may refer to: none from an IDR picture on.
pub open spec fn stock(before: PictureDecoder, slice: CabacSlice) -> Seq<Picture> {
    if slice.info.idr {
        Seq::empty()
    } else {
        before.dpb.refs@
    }
}

/// What decoding a slice does to a picture before anything is parsed.
pub open spec fn prepared(
    before: PictureDecoder,
    slice: CabacSlice,
    id: u32,
    after: PictureDecoder,
) -> bool {
    &&& after.config == before.config
    &&& after.dpb.refs@ == stock(before, slice)
    &&& after.dpb.capacity == before.dpb.capacity
    &&& after.dpb.max_frame_num == before.dpb.max_frame_num
    &&& after.picture.frame_num == slice.info.frame_num
    &&& after.params.scaling == slice.scaling
    &&& after.params.chroma_qp_offset == slice.info.chroma_qp_offset
    &&& after.params.constrained_intra == slice.info.constrained_intra
    &&& after.deblocking@ == with_control(before.deblocking@, id as int, slice.info.deblocking)
}

/// The references a slice predicts from, as places in the buffer.
pub open spec fn slice_list(before: PictureDecoder, slice: CabacSlice) -> Option<Seq<int>> {
    let current = slice.info.frame_num as int;
    spec_list0(
        pic_nums(stock(before, slice), current, before.dpb.max_frame_num as int),
        current,
        before.dpb.max_frame_num as int,
        slice.list_mods@,
        slice.info.num_ref_idx_l0 as int,
    )
}

/// The message for a reference list that names a picture that is not there.
pub open spec fn bad_list(before: PictureDecoder, slice: CabacSlice) -> Seq<char> {
    let current = slice.info.frame_num as int;
    bad_modification(
        slice.list_mods@,
        pic_nums(stock(before, slice), current, before.dpb.max_frame_num as int),
        current,
        before.dpb.max_frame_num as int,
    )
}

/// The macroblocks of a slice, given its references.
pub open spec fn slice_progress(
    before: PictureDecoder,
    slice: CabacSlice,
    id: u32,
    places: Seq<int>,
) -> Progress {
    let plan = Plan {
        rules: slice_rules(slice.info),
        id,
        refs: Seq::new(places.len(), |i: int| stock(before, slice)[places[i]]@),
        tuning: Tuning {
            weights: slice.scaling@,
            chroma_qp_offset: slice.info.chroma_qp_offset@,
            constrained_intra: slice.info.constrained_intra,
        },
    };
    let start = Progress {
        canvas: before.picture@,
        pic: before.state@,
        s: Cabac {
            engine: fresh_engine(slice.data@, slice.bit_offset as nat),
            bank: slice_contexts(slice.info),
        },
        fault: None,
    };
    macroblocks(
        start,
        plan,
        slice.info.first_mb as int,
        before.state@.mbs.len() as int,
        slice.info.slice_qp,
    )
}

/// What decoding a slice leaves in the picture and answers.
pub open spec fn slice_decoded(
    before: PictureDecoder,
    slice: CabacSlice,
    id: u32,
    after: PictureDecoder,
    r: Result<(), Error>,
) -> bool {
    if slice.info.picture != before.config {
        &&& after == before
        &&& r matches Err(e)
        &&& e.is_decode("slice picture configuration changed mid-picture"@)
    } else {
        &&& prepared(before, slice, id, after)
        &&& match slice_list(before, slice) {
            None => {
                &&& after.picture@ == before.picture@
                &&& after.state@ == before.state@
                &&& r matches Err(e)
                &&& e.is_decode(bad_list(before, slice))
            },
            Some(places) => if slice.data@.len() * 8 < slice.bit_offset + 9 {
                &&& after.picture@ == before.picture@
                &&& after.state@ == before.state@
                &&& r matches Err(e)
                &&& e.is_decode("truncated CABAC slice"@)
            } else {
                let p = slice_progress(before, slice, id, places);
                &&& after.picture@ == p.canvas
                &&& after.state@ == p.pic
                &&& tells(
                    r,
                    if p.fault is Some {
                        p.fault
                    } else if overran(p.s) {
                        Some("truncated CABAC macroblock data"@)
                    } else {
                        None
                    },
                )
            },
        }
    }
}

fn set_control(controls: &mut Vec<Deblocking>, id: u32, control: Deblocking)
    requires
        id < u32::MAX,
    ensures
        final(controls)@ == with_control(old(controls)@, id as int, control),
{
    let at: usize = id as usize;
    let ghost before = controls@;
    while controls.len() <= at
        invariant
            at == id,
            id < u32::MAX,
            before == old(controls)@,
            controls@.len() >= before.len(),
            controls@.len() <= at + 1 || controls@ == before,
            controls@ == before + Seq::new(
                (controls@.len() - before.len()) as nat,
                |i: int| Deblocking::standard(),
            ),
        decreases at + 1 - controls@.len(),
    {
        controls.push(Deblocking::default());
        assert(controls@ =~= before + Seq::new(
            (controls@.len() - before.len()) as nat,
            |i: int| Deblocking::standard(),
        ));
    }
    controls[at] = control;
    assert(controls@ =~= with_control(before, id as int, control));
}

/// The references a list picks, as canvases.
proof fn lemma_picked(list: Seq<&Picture>, dpb: Dpb, places: Seq<int>)
    requires
        picks(list, dpb.refs@, places),
        readable_dpb(dpb),
    ensures
        usable(list),
        canvases(list) == Seq::new(places.len(), |i: int| dpb.refs@[places[i]]@),
{
    assert forall|i: int| 0 <= i < list.len() implies (#[trigger] list[i]).wf() && 0
        < list[i].width <= 0x4000_0000 && 0 < list[i].height <= 0x4000_0000 by {
        assert(dpb.refs@[places[i]].wf());
    }
    assert forall|i: int| 0 <= i < list.len() implies canvases(list)[i] == dpb.refs@[places[i]]@ by {
        assert(0 <= places[i] < dpb.refs@.len());
    }
    assert(canvases(list) =~= Seq::new(places.len(), |i: int| dpb.refs@[places[i]]@));
}

impl PictureDecoder {
    /// A grey picture without references.
    pub fn new(config: PictureConfig) -> (d: Self)
        requires
            config.wf(),
        ensures
            d.wf(),
            d.config == config,
            d.is_new(),
            d.dpb.refs@.len() == 0,
            d.dpb.capacity == (if config.max_refs > 1 {
                config.max_refs
            } else {
                1
            }),
            d.dpb.max_frame_num == config.max_frame_num,
            d.picture.frame_num == 0,
            forall|p: int, k: int|
                0 <= p < 3 && 0 <= k < d.picture@.planes[p].len() ==> (
                #[trigger] d.picture@.planes[p][k]) == 128,
            d.state@.is_fresh(),
    {
        proof {
            lemma_count(config);
        }
        Self::with_resources(
            config,
            Dpb::new(config.max_refs, config.max_frame_num),
            Picture::new(config.width_mbs, config.height_mbs),
            PictureState::new(config.width_mbs, config.height_mbs),
        )
    }

    /// Decodes into buffers an earlier picture finished with; they are reset and
    /// have the size of `config`.
    pub fn with_resources(
        config: PictureConfig,
        dpb: Dpb,
        picture: Picture,
        state: PictureState,
    ) -> (d: Self)
        requires
            config.wf(),
            readable_dpb(dpb),
            sized(picture, config),
            laid_out(state, config),
        ensures
            d.wf(),
            d.config == config,
            d.is_new(),
            d.dpb == dpb,
            d.picture == picture,
            d.state == state,
    {
        let offsets: [i32; 2] = [0i32, 0i32];
        assert(offsets@ =~= seq![0i32, 0i32]);
        PictureDecoder {
            config,
            picture,
            state,
            dpb,
            params: ReconParams {
                scaling: ScalingLists::default(),
                chroma_qp_offset: offsets,
                constrained_intra: false,
            },
            deblocking: Vec::new(),
        }
    }

    /// Decodes one slice into the picture. `slice_id` tells it from the other
    /// slices of the picture.
    pub fn decode_slice(&mut self, slice: &CabacSlice, slice_id: u32) -> (r: Result<(), Error>)
        requires
            old(self).wf(),
            decodable(*slice),
            slice_id < u32::MAX,
        ensures
            final(self).wf(),
            slice_decoded(*old(self), *slice, slice_id, *final(self), r),
    {
        if slice.info.picture != self.config {
            return Err(Error::decode("slice picture configuration changed mid-picture"));
        }
        let ghost before = *self;
        if slice.info.idr {
            self.dpb.clear();
        }
        self.picture.frame_num = slice.info.frame_num;
        self.params = ReconParams {
            scaling: slice.scaling,
            chroma_qp_offset: slice.info.chroma_qp_offset,
            constrained_intra: slice.info.constrained_intra,
        };
        set_control(&mut self.deblocking, slice_id, slice.info.deblocking);
        assert(self.dpb.refs@ =~= stock(before, *slice));
        assert(self.picture@ == before.picture@);
        assert(prepared(before, *slice, slice_id, *self));
        let refs: Vec<&Picture> = match self.dpb.list0(
            slice.info.frame_num,
            slice.list_mods.as_slice(),
            slice.info.num_ref_idx_l0,
        ) {
            Ok(refs) => refs,
            Err(e) => {
                return Err(e);
            },
        };
        let ghost places = slice_list(before, *slice)->0;
        let Some(decoder) = ArithDecoder::new_at_bit(
            slice.data.as_slice(),
            slice.bit_offset as usize,
        ) else {
            return Err(Error::decode("truncated CABAC slice"));
        };
        let mut d = decoder;
        let variant: ContextVariant = match slice.info.kind {
            SliceKind::I => ContextVariant::Intra,
            SliceKind::P => ContextVariant::Inter { cabac_init_idc: slice.info.cabac_init_idc },
        };
        let mut cx = ContextState::new(variant, slice.info.slice_qp as i32);
        assert(cx@ =~= slice_contexts(slice.info));
        let rules = Rules {
            kind: match slice.info.kind {
                SliceKind::I => mb::SliceKind::I,
                SliceKind::P => mb::SliceKind::P,
            },
            allow_8x8: slice.info.transform_8x8_enabled,
            num_ref_idx_l0: slice.info.num_ref_idx_l0,
            constrained_intra: slice.info.constrained_intra,
        };
        proof {
            lemma_matched(*self);
            lemma_picked(refs@, self.dpb, places);
        }
        match decode_macroblocks(
            &mut self.picture,
            &mut self.state,
            &mut d,
            &mut cx,
            refs.as_slice(),
            &self.params,
            &rules,
            slice_id,
            slice.info.first_mb,
            slice.info.slice_qp,
        ) {
            Ok(_) => {},
            Err(e) => {
                return Err(e);
            },
        }
        if d.overran() {
            return Err(Error::decode("truncated CABAC macroblock data"));
        }
        Ok(())
    }
}

/// The macroblocks and the sides of a picture can be counted.
pub proof fn lemma_count(config: PictureConfig)
    requires
        config.wf(),
    ensures
        config.width_mbs * config.height_mbs <= usize::MAX,
        config.width_mbs * 16 <= usize::MAX,
        config.height_mbs * 16 <= usize::MAX,
{
    let (w, h) = (config.width_mbs as int, config.height_mbs as int);
    assert(w * h <= (w * 16) * (h * 16)) by (nonlinear_arith)
        requires
            0 < w,
            0 < h,
    ;
}

// ---- The end of a picture ---------------------------------------------------

/// A canvas with mid-grey where no slice put a macroblock.
pub open spec fn grey_holes(c: Canvas, grid: Grid) -> Canvas {
    Canvas {
        planes: Seq::new(
            3,
            |p: int| Seq::new(c.planes[p].len(), |k: int| greyed(c, grid, p, k)),
        ),
        ..c
    }
}

/// What the finished picture holds: holes are grey, edges are smooth.
pub open spec fn finished_canvas(d: PictureDecoder) -> Canvas {
    deblocked(
        grey_holes(d.picture@, d.state@.grid),
        d.state@,
        FilterModel {
            slices: d.deblocking@,
            chroma_qp_offset: d.params.chroma_qp_offset@,
        },
        0,
    )
}

/// A frame shows the display rectangle of a canvas.
pub open spec fn shows(frame: Frame, c: Canvas, crop: Cropping, pts: Duration, concealed: nat) -> bool {
    &&& frame.pts == pts
    &&& frame.concealed_macroblocks == concealed
    &&& (frame.width as int, frame.height as int) == crop.spec_display_size(c.width, c.height)
    &&& frame.strides@[0] == frame.width
    &&& frame.strides@[1] == (frame.width as int + 1) / 2
    &&& frame.strides@[2] == (frame.width as int + 1) / 2
    &&& frame.planes@[0]@ == cropped(
        c,
        0,
        crop.left as int,
        crop.top as int,
        frame.width as int,
        frame.height as int,
    )
    &&& forall|p: int|
        1 <= p < 3 ==> (#[trigger] frame.planes@[p])@ == cropped(
            c,
            p,
            crop.left as int / 2,
            crop.top as int / 2,
            (frame.width as int + 1) / 2,
            (frame.height as int + 1) / 2,
        )
}

/// Whether the operations of a marking all find the pictures they name.
pub open spec fn marking_applies(d: PictureDecoder, marking: RefMarking) -> bool {
    marking matches RefMarking::Adaptive(ops) ==> after_mmco(
        d.dpb.refs@,
        Seq::empty(),
        ops@,
        d.picture.frame_num as int,
        d.dpb.max_frame_num as int,
    ).2
}

/// Where a finished picture goes: back at once if it is no reference, else into
/// the buffer.
pub open spec fn stored(d: PictureDecoder, picture: Picture, marking: RefMarking, f: Finished) -> bool {
    if marking is NonReference {
        &&& f.dpb == d.dpb
        &&& f.recycled@ == seq![picture]
    } else {
        marks(d.dpb, picture, marking, f.dpb, Ok(f.recycled))
    }
}

/// What finishing a picture answers.
pub open spec fn finishes(
    d: PictureDecoder,
    crop: Cropping,
    pts: Duration,
    marking: RefMarking,
    r: Result<Finished, Error>,
) -> bool {
    match r {
        Ok(f) => {
            &&& marking_applies(d, marking)
            &&& shows(
                f.frame,
                finished_canvas(d),
                crop,
                pts,
                unclaimed(d.state@.grid.slice, d.state@.grid.slice.len()),
            )
            &&& f.state == d.state
            &&& readable_dpb(f.dpb)
            &&& sound(f.recycled@)
            &&& exists|picture: Picture|
                {
                    &&& picture.wf()
                    &&& picture@ == finished_canvas(d)
                    &&& picture.frame_num == d.picture.frame_num
                    &&& #[trigger] stored(d, picture, marking, f)
                }
        },
        Err(e) => {
            &&& !marking_applies(d, marking)
            &&& marking matches RefMarking::Adaptive(ops)
            &&& e.is_decode(
                bad_mmco(
                    d.dpb.refs@,
                    ops@,
                    d.picture.frame_num as int,
                    d.dpb.max_frame_num as int,
                ),
            )
        },
    }
}

/// Operations on the buffer move pictures and make none.
proof fn lemma_mmco_sound(
    refs: Seq<Picture>,
    freed: Seq<Picture>,
    ops: Seq<MmcoOp>,
    current: int,
    max_frame_num: int,
)
    requires
        sound(refs),
        sound(freed),
    ensures
        sound(after_mmco(refs, freed, ops, current, max_frame_num).0),
        sound(after_mmco(refs, freed, ops, current, max_frame_num).1),
    decreases ops.len(),
{
    if ops.len() > 0 {
        match ops[0] {
            MmcoOp::AllUnused => {
                lemma_mmco_sound(
                    Seq::empty(),
                    freed + refs,
                    ops.drop_first(),
                    current,
                    max_frame_num,
                );
            },
            MmcoOp::ShortTermUnused { difference_of_pic_nums_minus1 } => {
                let nums = pic_nums(refs, current, max_frame_num);
                let found = place_of(nums, current - (difference_of_pic_nums_minus1 + 1));
                lemma_place_of(nums, current - (difference_of_pic_nums_minus1 + 1));
                if found < refs.len() {
                    lemma_mmco_sound(
                        refs.remove(found),
                        freed.push(refs[found]),
                        ops.drop_first(),
                        current,
                        max_frame_num,
                    );
                }
            },
        }
    }
}

/// What a finished picture hands back can be used again.
proof fn lemma_stored_sound(d: PictureDecoder, picture: Picture, marking: RefMarking, f: Finished)
    requires
        sound(d.dpb.refs@),
        sound(seq![picture]),
        stored(d, picture, marking, f),
        f.dpb.wf(),
    ensures
        sound(f.dpb.refs@),
        sound(f.recycled@),
{
    assert(seq![picture][0] == picture);
    if marking !is NonReference {
        let (refs, freed, ok) = match marking {
            RefMarking::Adaptive(ops) => after_mmco(
                d.dpb.refs@,
                Seq::empty(),
                ops@,
                picture.frame_num as int,
                d.dpb.max_frame_num as int,
            ),
            _ => (d.dpb.refs@, Seq::empty(), true),
        };
        match marking {
            RefMarking::Adaptive(ops) => {
                lemma_mmco_sound(
                    d.dpb.refs@,
                    Seq::empty(),
                    ops@,
                    picture.frame_num as int,
                    d.dpb.max_frame_num as int,
                );
            },
            _ => {},
        }
        let all = refs.insert(0, picture);
        assert forall|i: int| 0 <= i < all.len() implies (#[trigger] all[i]).wf() && 0
            < all[i].width <= 0x4000_0000 && 0 < all[i].height <= 0x4000_0000 by {
            if i > 0 {
                assert(all[i] == refs[i - 1]);
            }
        }
        assert(enters(refs, freed, picture, d.dpb, f.dpb.refs@, f.recycled@));
    }
}

impl PictureDecoder {
    /// Conceals what no slice covered, deblocks, and hands out the frame. The
    /// picture becomes a reference as `marking` says, or returns for reuse.
    pub fn finish(self, crop: Cropping, pts: Duration, marking: &RefMarking) -> (r: Result<
        Finished,
        Error,
    >)
        requires
            self.wf(),
            crop.fits(self.picture.width as int, self.picture.height as int),
        ensures
            finishes(self, crop, pts, *marking, r),
    {
        let PictureDecoder { config, mut picture, state, mut dpb, params, deblocking } = self;
        proof {
            lemma_matched(self);
        }
        let concealed: usize = picture.grey_uncovered(&state.neighbours);
        assert(picture@ =~= grey_holes(self.picture@, self.state@.grid)) by {
            let want = grey_holes(self.picture@, self.state@.grid);
            assert forall|p: int| 0 <= p < 3 implies picture@.planes[p] == want.planes[p] by {
                assert(picture@.planes[p].len() == self.picture@.planes[p].len());
                assert(picture@.planes[p] =~= want.planes[p]);
            }
            assert(picture@.planes =~= want.planes);
        }
        filter_picture(
            &mut picture,
            &state,
            &FilterParams {
                slices: deblocking.as_slice(),
                chroma_qp_offset: params.chroma_qp_offset,
            },
        );
        let mut frame: Frame = picture.to_frame(crop, pts);
        frame.concealed_macroblocks = concealed;
        let ghost done = picture;
        let recycled: Vec<Picture> = match marking {
            RefMarking::NonReference => {
                let mut only: Vec<Picture> = Vec::new();
                only.push(picture);
                assert(only@ =~= seq![done]);
                only
            },
            _ => match dpb.mark_reference(picture, marking) {
                Ok(freed) => freed,
                Err(e) => {
                    return Err(e);
                },
            },
        };
        let f = Finished { frame, dpb, state, recycled };
        assert(stored(self, done, *marking, f));
        proof {
            lemma_stored_sound(self, done, *marking, f);
        }
        Ok(f)
    }
}

} // verus!
