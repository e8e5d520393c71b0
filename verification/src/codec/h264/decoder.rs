//! From access units to frames.
//!
//! The front end keeps what outlives a picture: parameter sets, the reference
//! buffer, and buffers to decode into again.
use vstd::prelude::*;
use std::time::Duration;
use super::annexb::{nal_units, unit_bytes, views};
use super::picture::{Dpb, MmcoOp, Picture, RefMarking};
use super::picture_decode::{
    decodable, finishes, laid_out, readable_dpb, slice_decoded, sound, Finished,
    PictureDecoder,
};
use super::slice::{
    header_in, in_decoding, legal_header, nal_header, parse_cabac, parse_fault, pps_added, slice_is, sps_added,
    unit_type, CabacSlice, HeaderModel, ParameterSets, PictureConfig, Sets,
};
use super::state::PictureState;
use crate::error::{Error, Fault};
use crate::media::{Decoder, Frame, Packet};
use crate::text::{numbered, signed};

verus! {

// ---- Units ------------------------------------------------------------------

/// Whether a unit of this type can be left out without losing any of the
/// picture: supplemental information, delimiters, ends and filler.
pub open spec fn ignorable(t: u8) -> bool {
    t == 6 || 9 <= t <= 12
}

/// What a unit does: it changes the parameter sets, brings a slice, or is wrong.
pub struct UnitEffect {
    pub sets: Sets,
    pub slice: Option<HeaderModel>,
    pub fault: Option<Fault>,
}

/// The message for a unit of a type that is not supported.
pub open spec fn unsupported(t: u8) -> Seq<char> {
    "unsupported H.264 NAL unit type "@ + signed(t as int)
}

/// What a unit does.
pub open spec fn unit_effect(sets: Sets, nal: Seq<u8>) -> UnitEffect {
    if nal.len() == 0 {
        UnitEffect { sets, slice: None, fault: Some(Fault::Decode("empty NAL"@)) }
    } else if !legal_header(nal[0]) {
        UnitEffect {
            sets,
            slice: None,
            fault: Some(Fault::Decode("invalid NAL header: ForbiddenZeroBit"@)),
        }
    } else {
        let t = unit_type(nal[0]);
        if t == 7 {
            let change = sps_added(sets, nal);
            UnitEffect { sets: change.sets, slice: None, fault: in_decoding(change.fault) }
        } else if t == 8 {
            let change = pps_added(sets, nal);
            UnitEffect { sets: change.sets, slice: None, fault: in_decoding(change.fault) }
        } else if t == 1 || t == 5 {
            let fault = parse_fault(sets, nal);
            UnitEffect {
                sets,
                slice: if fault is None {
                    header_in(sets, nal).header
                } else {
                    None
                },
                fault,
            }
        } else if ignorable(t) {
            UnitEffect { sets, slice: None, fault: None }
        } else {
            UnitEffect { sets, slice: None, fault: Some(Fault::Decode(unsupported(t))) }
        }
    }
}

/// Where reading an access unit has come to.
pub struct Walk {
    pub sets: Sets,
    pub slices: Seq<HeaderModel>,
    pub fault: Option<Fault>,
}

/// An access unit read from unit `i` on, until something is wrong.
pub open spec fn walk(sets: Sets, nals: Seq<Seq<u8>>, i: int, slices: Seq<HeaderModel>) -> Walk
    decreases nals.len() - i,
{
    if i >= nals.len() {
        Walk { sets, slices, fault: None }
    } else {
        let e = unit_effect(sets, nals[i]);
        if e.fault is Some {
            Walk { sets: e.sets, slices, fault: e.fault }
        } else {
            walk(
                e.sets,
                nals,
                i + 1,
                match e.slice {
                    Some(h) => slices.push(h),
                    None => slices,
                },
            )
        }
    }
}

/// Slices as their headers describe them.
pub open spec fn slices_are(slices: Seq<CabacSlice>, headers: Seq<HeaderModel>) -> bool {
    &&& slices.len() == headers.len()
    &&& forall|i: int|
        0 <= i < slices.len() ==> slice_is(#[trigger] slices[i], headers[i]) && headers[i].fault()
            is None
}

/// A slice that was accepted can be decoded, and its picture has a size and a
/// crop that can be added up.
proof fn lemma_accepted(slice: CabacSlice, h: HeaderModel)
    requires
        slice_is(slice, h),
        h.fault() is None,
    ensures
        decodable(slice),
        slice.info.picture.wf(),
        slice.info.picture.crop.adds(),
{
}

/// What outlives a picture.
pub struct Frontend {
    pub sets: ParameterSets,
    pub dpb: Option<Dpb>,
    /// Pictures no longer referenced, to be decoded into again.
    pub spare: Vec<Picture>,
    pub state: Option<PictureState>,
    /// The configuration that `spare`, `state` and `dpb` were made for.
    pub config: Option<PictureConfig>,
}

impl Frontend {
    /// What is kept can be used again.
    pub open spec fn wf(self) -> bool {
        &&& self.dpb matches Some(dpb) ==> readable_dpb(dpb)
        &&& sound(self.spare@)
        &&& self.state matches Some(state) ==> self.config matches Some(config) && laid_out(
            state,
            config,
        )
    }

    /// Nothing but the parameter sets differs.
    pub open spec fn same_buffers(self, other: Frontend) -> bool {
        &&& self.dpb == other.dpb
        &&& self.spare == other.spare
        &&& self.state == other.state
        &&& self.config == other.config
    }

    /// A front end that has seen nothing.
    pub fn new() -> (f: Self)
        ensures
            f.wf(),
            f.sets@ == (Sets { log: Seq::empty(), sps: Seq::empty(), pps: Seq::empty() }),
            f.dpb is None,
            f.spare@.len() == 0,
            f.state is None,
            f.config is None,
    {
        Frontend {
            sets: ParameterSets::new(),
            dpb: None,
            spare: Vec::new(),
            state: None,
            config: None,
        }
    }

    /// Takes in the parameter sets of a start-coded access unit and returns its
    /// slices. Sets stay in force until one of their number replaces them.
    pub fn parse_access_unit(&mut self, access_unit: &[u8]) -> (r: Result<Vec<CabacSlice>, Error>)
        ensures
            ({
                let w = walk(old(self).sets@, unit_bytes(access_unit@), 0, Seq::empty());
                &&& final(self).sets@ == w.sets
                &&& match w.fault {
                    Some(fault) => r matches Err(e) && e@ == fault,
                    None => r matches Ok(slices) && slices_are(slices@, w.slices),
                }
            }),
            final(self).same_buffers(*old(self)),
    {
        let units: Vec<&[u8]> = nal_units(access_unit);
        let ghost nals = unit_bytes(access_unit@);
        let ghost goal = walk(self.sets@, nals, 0, Seq::empty());
        let ghost mut headers: Seq<HeaderModel> = Seq::empty();
        let mut slices: Vec<CabacSlice> = Vec::new();
        let n: usize = units.len();
        for i in 0..n
            invariant
                n == units@.len(),
                nals == views(units@),
                nals == unit_bytes(access_unit@),
                goal == walk(old(self).sets@, nals, 0, Seq::empty()),
                goal == walk(self.sets@, nals, i as int, headers),
                slices_are(slices@, headers),
                self.same_buffers(*old(self)),
        {
            let nal: &[u8] = units[i];
            assert(nals[i as int] == nal@);
            let first: u8 = match nal_header(nal) {
                Ok(first) => first,
                Err(e) => {
                    return Err(e);
                },
            };
            let t: u8 = first & 0x1f;
            if t == 7 {
                match self.sets.put_sps(nal) {
                    Ok(_) => {},
                    Err(e) => {
                        return Err(e);
                    },
                }
            } else if t == 8 {
                match self.sets.put_pps(nal) {
                    Ok(_) => {},
                    Err(e) => {
                        return Err(e);
                    },
                }
            } else if t == 1 || t == 5 {
                match parse_cabac(&self.sets, nal) {
                    Ok(slice) => {
                        slices.push(slice);
                        proof {
                            headers = headers.push(header_in(self.sets@, nal@).header->0);
                        }
                    },
                    Err(e) => {
                        return Err(e);
                    },
                }
            } else if !(t == 6 || (9 <= t && t <= 12)) {
                // Left out, such a unit would leave part of the picture out with
                // it.
                return Err(
                    Error::decode(numbered("unsupported H.264 NAL unit type ", t as i64).as_str()),
                );
            }
        }
        Ok(slices)
    }
}

// ---- Pictures ---------------------------------------------------------------

/// Two markings that say the same.
pub open spec fn same_marking(a: RefMarking, b: RefMarking) -> bool {
    match (a, b) {
        (RefMarking::NonReference, RefMarking::NonReference) => true,
        (RefMarking::SlidingWindow, RefMarking::SlidingWindow) => true,
        (RefMarking::Idr, RefMarking::Idr) => true,
        (RefMarking::Adaptive(x), RefMarking::Adaptive(y)) => x@ == y@,
        _ => false,
    }
}

/// Why slices do not make up one picture.
pub open spec fn mixed_fault(slices: Seq<CabacSlice>) -> Option<Seq<char>> {
    let first = slices[0];
    if exists|i: int|
        0 <= i < slices.len() && (#[trigger] slices[i]).info.picture != first.info.picture {
        Some("access unit mixes picture configurations"@)
    } else if exists|i: int|
        0 <= i < slices.len() && (#[trigger] slices[i]).info.nal_ref_idc
            != first.info.nal_ref_idc {
        Some("access unit mixes nal_ref_idc values"@)
    } else if exists|i: int|
        0 <= i < slices.len() && !same_marking((#[trigger] slices[i]).marking, first.marking) {
        Some("access unit mixes dec_ref_pic_marking values"@)
    } else if (first.info.nal_ref_idc == 0) != (first.marking is NonReference) {
        Some("nal_ref_idc and dec_ref_pic_marking disagree"@)
    } else {
        None
    }
}

fn equal_ops(a: &Vec<MmcoOp>, b: &Vec<MmcoOp>) -> (r: bool)
    ensures
        r == (a@ == b@),
{
    if a.len() != b.len() {
        return false;
    }
    let n: usize = a.len();
    for i in 0..n
        invariant
            n == a@.len(),
            n == b@.len(),
            forall|j: int| 0 <= j < i ==> a@[j] == b@[j],
    {
        if a[i] != b[i] {
            assert(a@[i as int] != b@[i as int]);
            return false;
        }
    }
    assert(a@ =~= b@);
    true
}

fn equal_markings(a: &RefMarking, b: &RefMarking) -> (r: bool)
    ensures
        r == same_marking(*a, *b),
{
    match (a, b) {
        (RefMarking::NonReference, RefMarking::NonReference) => true,
        (RefMarking::SlidingWindow, RefMarking::SlidingWindow) => true,
        (RefMarking::Idr, RefMarking::Idr) => true,
        (RefMarking::Adaptive(x), RefMarking::Adaptive(y)) => equal_ops(x, y),
        _ => false,
    }
}

/// Tells what keeps slices from making up one picture.
pub fn check_slices(slices: &Vec<CabacSlice>) -> (r: Result<(), Error>)
    requires
        slices@.len() > 0,
    ensures
        match mixed_fault(slices@) {
            Some(message) => r matches Err(e) && e.is_decode(message),
            None => r is Ok,
        },
{
    let n: usize = slices.len();
    let config: PictureConfig = slices[0].info.picture;
    let ref_idc: u8 = slices[0].info.nal_ref_idc;
    for i in 0..n
        invariant
            n == slices@.len(),
            n > 0,
            config == slices@[0].info.picture,
            forall|j: int| 0 <= j < i ==> (#[trigger] slices@[j]).info.picture == config,
    {
        if slices[i].info.picture != config {
            assert(slices@[i as int].info.picture != config);
            return Err(Error::decode("access unit mixes picture configurations"));
        }
    }
    for i in 0..n
        invariant
            n == slices@.len(),
            n > 0,
            ref_idc == slices@[0].info.nal_ref_idc,
            forall|j: int|
                0 <= j < n ==> (#[trigger] slices@[j]).info.picture == slices@[0].info.picture,
            forall|j: int| 0 <= j < i ==> (#[trigger] slices@[j]).info.nal_ref_idc == ref_idc,
    {
        if slices[i].info.nal_ref_idc != ref_idc {
            assert(slices@[i as int].info.nal_ref_idc != ref_idc);
            return Err(Error::decode("access unit mixes nal_ref_idc values"));
        }
    }
    for i in 0..n
        invariant
            n == slices@.len(),
            n > 0,
            forall|j: int|
                0 <= j < n ==> (#[trigger] slices@[j]).info.picture == slices@[0].info.picture,
            forall|j: int|
                0 <= j < n ==> (#[trigger] slices@[j]).info.nal_ref_idc
                    == slices@[0].info.nal_ref_idc,
            forall|j: int|
                0 <= j < i ==> same_marking((#[trigger] slices@[j]).marking, slices@[0].marking),
    {
        if !equal_markings(&slices[i].marking, &slices[0].marking) {
            assert(!same_marking(slices@[i as int].marking, slices@[0].marking));
            return Err(Error::decode("access unit mixes dec_ref_pic_marking values"));
        }
    }
    if (ref_idc == 0) != matches!(slices[0].marking, RefMarking::NonReference) {
        return Err(Error::decode("nal_ref_idc and dec_ref_pic_marking disagree"));
    }
    Ok(())
}

/// A decoder for the next picture: the references that are kept, unless the
/// configuration changed, and nothing decoded yet.
pub open spec fn starts(d: PictureDecoder, before: Frontend, config: PictureConfig) -> bool {
    &&& d.wf()
    &&& d.config == config
    &&& d.is_new()
    &&& d.picture.frame_num == 0
    &&& d.state@.is_fresh()
    &&& if before.config == Some(config) && before.dpb is Some {
        d.dpb == before.dpb->0
    } else {
        &&& d.dpb.refs@.len() == 0
        &&& d.dpb.capacity == (if config.max_refs > 1 {
            config.max_refs
        } else {
            1
        })
        &&& d.dpb.max_frame_num == config.max_frame_num
    }
}

/// Slices decoded one after the other, without fault.
pub open spec fn runs(chain: Seq<PictureDecoder>, slices: Seq<CabacSlice>) -> bool {
    &&& 0 < chain.len() <= slices.len() + 1
    &&& forall|i: int|
        0 <= i < chain.len() - 1 ==> slice_decoded(
            #[trigger] chain[i],
            slices[i],
            i as u32,
            chain[i + 1],
            Ok(()),
        )
}

/// How decoding slices into a picture ended: with a frame, at a slice that is
/// wrong, at a crop that leaves no picture, or at a marking that does not apply.
pub open spec fn picture_ends(
    chain: Seq<PictureDecoder>,
    slices: Seq<CabacSlice>,
    pts: Duration,
    after: Frontend,
    r: Result<Vec<Frame>, Error>,
) -> bool {
    let n = chain.len() - 1;
    let last = chain[n];
    let crop = slices[0].info.picture.crop;
    match r {
        Ok(frames) => {
            &&& n == slices.len()
            &&& crop.fits(last.picture.width as int, last.picture.height as int)
            &&& frames@.len() == 1
            &&& exists|f: Finished| #[trigger]
                finishes(last, crop, pts, slices[0].marking, Ok(f)) && frames@[0] == f.frame
                    && after.dpb == Some(f.dpb) && after.state == Some(f.state)
        },
        Err(e) => {
            &&& after.dpb is None
            &&& after.state is None
            &&& if n < slices.len() {
                exists|d: PictureDecoder| #[trigger]
                    slice_decoded(last, slices[n], n as u32, d, Err(e))
            } else if !crop.fits(last.picture.width as int, last.picture.height as int) {
                e.is_decode("cropping leaves no picture"@)
            } else {
                finishes(last, crop, pts, slices[0].marking, Err(e))
            }
        },
    }
}

/// What decoding an access unit answers and leaves.
pub open spec fn unit_decoded(
    before: Frontend,
    access_unit: Seq<u8>,
    pts: Duration,
    after: Frontend,
    r: Result<Vec<Frame>, Error>,
) -> bool {
    let w = walk(before.sets@, unit_bytes(access_unit), 0, Seq::empty());
    &&& after.sets@ == w.sets
    &&& if w.fault is Some {
        &&& after.same_buffers(before)
        &&& r matches Err(e)
        &&& e@ == w.fault->0
    } else if w.slices.len() == 0 {
        &&& after.same_buffers(before)
        &&& r matches Ok(frames)
        &&& frames@.len() == 0
    } else if w.slices.len() >= u32::MAX {
        &&& after.same_buffers(before)
        &&& r matches Err(e)
        &&& e.is_decode("access unit has too many slices"@)
    } else {
        exists|slices: Seq<CabacSlice>, chain: Seq<PictureDecoder>|
            {
                &&& slices_are(slices, w.slices)
                &&& picture_decoded(before, slices, chain, pts, after, r)
            }
    }
}

/// What decoding the slices of one access unit answers and leaves.
pub open spec fn picture_decoded(
    before: Frontend,
    slices: Seq<CabacSlice>,
    chain: Seq<PictureDecoder>,
    pts: Duration,
    after: Frontend,
    r: Result<Vec<Frame>, Error>,
) -> bool {
    match mixed_fault(slices) {
        Some(message) => {
            &&& after.same_buffers(before)
            &&& r matches Err(e)
            &&& e.is_decode(message)
        },
        None => {
            &&& after.config == Some(slices[0].info.picture)
            &&& runs(chain, slices)
            &&& starts(chain[0], before, slices[0].info.picture)
            &&& picture_ends(chain, slices, pts, after, r)
        },
    }
}

impl Frontend {
    /// A decoder for the next picture, out of what is kept.
    fn start_picture(&mut self, config: PictureConfig) -> (d: PictureDecoder)
        requires
            old(self).wf(),
            config.wf(),
        ensures
            starts(d, *old(self), config),
            final(self).config == Some(config),
            final(self).sets == old(self).sets,
            final(self).dpb is None,
            final(self).state is None,
            sound(final(self).spare@),
    {
        let known: bool = match self.config {
            Some(c) => c == config,
            None => false,
        };
        if !known {
            self.spare = Vec::new();
            self.state = None;
            self.dpb = None;
            self.config = Some(config);
        }
        let dpb: Dpb = match self.dpb.take() {
            Some(dpb) => dpb,
            None => Dpb::new(config.max_refs, config.max_frame_num),
        };
        let ghost old_spare = self.spare@;
        let spare: Option<Picture> = match self.spare.pop() {
            Some(picture) => {
                assert(picture == old_spare[old_spare.len() - 1]);
                if picture.is_sized(config.width_mbs, config.height_mbs) {
                    Some(picture)
                } else {
                    None
                }
            },
            None => None,
        };
        proof {
            assert forall|i: int| 0 <= i < self.spare@.len() implies (#[trigger] self.spare@[i]).wf()
                && 0 < self.spare@[i].width <= 0x4000_0000 && 0 < self.spare@[i].height
                <= 0x4000_0000 by {
                assert(self.spare@[i] == old_spare[i]);
            }
            super::picture_decode::lemma_count(config);
        }
        let mut picture: Picture = match spare {
            Some(picture) => picture,
            None => Picture::new(config.width_mbs, config.height_mbs),
        };
        picture.reset();
        let mut state: PictureState = match self.state.take() {
            Some(state) => state,
            None => PictureState::new(config.width_mbs, config.height_mbs),
        };
        state.begin_picture();
        PictureDecoder::with_resources(config, dpb, picture, state)
    }

    /// Decodes the slices of one picture.
    fn decode_picture(&mut self, slices: &Vec<CabacSlice>, pts: Duration) -> (r: Result<
        Vec<Frame>,
        Error,
    >)
        requires
            old(self).wf(),
            0 < slices@.len() < u32::MAX,
            mixed_fault(slices@) is None,
            forall|i: int| 0 <= i < slices@.len() ==> decodable(#[trigger] slices@[i]),
            slices@[0].info.picture.wf(),
            slices@[0].info.picture.crop.adds(),
        ensures
            final(self).wf(),
            final(self).sets == old(self).sets,
            exists|chain: Seq<PictureDecoder>|
                picture_decoded(*old(self), slices@, chain, pts, *final(self), r),
    {
        let config: PictureConfig = slices[0].info.picture;
        let ghost before = *self;
        let mut picture: PictureDecoder = self.start_picture(config);
        let ghost mut chain: Seq<PictureDecoder> = seq![picture];
        let n: usize = slices.len();
        for i in 0..n
            invariant
                n == slices@.len(),
                0 < n < u32::MAX,
                before == *old(self),
                mixed_fault(slices@) is None,
                forall|j: int| 0 <= j < slices@.len() ==> decodable(#[trigger] slices@[j]),
                picture.wf(),
                picture.config == config,
                config == slices@[0].info.picture,
                chain.len() == i + 1,
                chain[i as int] == picture,
                runs(chain, slices@),
                starts(chain[0], before, config),
                self.config == Some(config),
                self.sets == old(self).sets,
                self.dpb is None,
                self.state is None,
                sound(self.spare@),
        {
            let ghost held = picture;
            match picture.decode_slice(&slices[i], i as u32) {
                Ok(_) => {},
                Err(e) => {
                    assert(slice_decoded(chain[i as int], slices@[i as int], i as u32, picture, Err(e)));
                    assert(picture_decoded(before, slices@, chain, pts, *self, Err(e)));
                    return Err(e);
                },
            }
            proof {
                assert(slice_decoded(held, slices@[i as int], i as u32, picture, Ok(())));
                let longer = chain.push(picture);
                assert forall|j: int| 0 <= j < longer.len() - 1 implies slice_decoded(
                    #[trigger] longer[j],
                    slices@[j],
                    j as u32,
                    longer[j + 1],
                    Ok(()),
                ) by {
                    if j < i {
                        assert(longer[j] == chain[j]);
                        assert(longer[j + 1] == chain[j + 1]);
                    }
                }
                chain = longer;
            }
        }
        let ghost last = picture;
        if !config.crop.check(picture.picture.width, picture.picture.height) {
            let e = Error::decode("cropping leaves no picture");
            assert(picture_decoded(before, slices@, chain, pts, *self, Err(e)));
            return Err(e);
        }
        match picture.finish(config.crop, pts, &slices[0].marking) {
            Ok(finished) => {
                let ghost f = finished;
                let Finished { frame, dpb, state, recycled } = finished;
                self.dpb = Some(dpb);
                self.state = Some(state);
                let mut recycled: Vec<Picture> = recycled;
                let ghost (kept, more) = (self.spare@, recycled@);
                self.spare.append(&mut recycled);
                proof {
                    assert forall|i: int| 0 <= i < self.spare@.len() implies (
                    #[trigger] self.spare@[i]).wf() && 0 < self.spare@[i].width <= 0x4000_0000 && 0
                        < self.spare@[i].height <= 0x4000_0000 by {
                        if i < kept.len() {
                            assert(self.spare@[i] == kept[i]);
                        } else {
                            assert(self.spare@[i] == more[i - kept.len()]);
                        }
                    }
                }
                let mut frames: Vec<Frame> = Vec::new();
                frames.push(frame);
                assert(finishes(last, config.crop, pts, slices@[0].marking, Ok(f)));
                assert(picture_decoded(before, slices@, chain, pts, *self, Ok(frames)));
                Ok(frames)
            },
            Err(e) => {
                assert(picture_decoded(before, slices@, chain, pts, *self, Err(e)));
                Err(e)
            },
        }
    }

    /// Parses and decodes one access unit, which is one picture or none.
    pub fn decode_access_unit(&mut self, access_unit: &[u8], pts: Duration) -> (r: Result<
        Vec<Frame>,
        Error,
    >)
        requires
            old(self).wf(),
        ensures
            final(self).wf(),
            unit_decoded(*old(self), access_unit@, pts, *final(self), r),
    {
        let ghost before = *self;
        let slices: Vec<CabacSlice> = match self.parse_access_unit(access_unit) {
            Ok(slices) => slices,
            Err(e) => {
                return Err(e);
            },
        };
        if slices.len() == 0 {
            return Ok(Vec::new());
        }
        let ghost w = walk(before.sets@, unit_bytes(access_unit@), 0, Seq::empty());
        if slices.len() as u64 >= u32::MAX as u64 {
            return Err(Error::decode("access unit has too many slices"));
        }
        match check_slices(&slices) {
            Ok(_) => {},
            Err(e) => {
                let ghost none: Seq<PictureDecoder> = Seq::empty();
                assert(picture_decoded(before, slices@, none, pts, *self, Err(e)));
                return Err(e);
            },
        }
        proof {
            assert forall|i: int| 0 <= i < slices@.len() implies decodable(
                #[trigger] slices@[i],
            ) by {
                lemma_accepted(slices@[i], w.slices[i]);
            }
            lemma_accepted(slices@[0], w.slices[0]);
        }
        let ghost middle = *self;
        let r = self.decode_picture(&slices, pts);
        proof {
            let chain = choose|chain: Seq<PictureDecoder>|
                picture_decoded(middle, slices@, chain, pts, *self, r);
            assert(picture_decoded(before, slices@, chain, pts, *self, r));
        }
        r
    }
}

impl Decoder for Frontend {
    open spec fn ready(&self) -> bool {
        self.wf()
    }

    open spec fn decodes(&self, pkt: &Packet, after: &Self, r: Result<Vec<Frame>, Error>) -> bool {
        unit_decoded(*self, pkt.data@, pkt.pts, *after, r)
    }

    /// Every picture has been returned by then.
    open spec fn flushes(&self, after: &Self, r: Result<Vec<Frame>, Error>) -> bool {
        *after == *self && (r matches Ok(frames) && frames@.len() == 0)
    }

    fn decode(&mut self, pkt: &Packet) -> (r: Result<Vec<Frame>, Error>) {
        self.decode_access_unit(pkt.data.as_slice(), pkt.pts)
    }

    fn flush(&mut self) -> (r: Result<Vec<Frame>, Error>) {
        Ok(Vec::new())
    }
}

// ---- Laws -------------------------------------------------------------------

/// An access unit of nothing but metadata needs no parameter sets: it is read
/// without fault, brings no slice and changes nothing.
pub proof fn law_metadata_changes_nothing(
    sets: Sets,
    nals: Seq<Seq<u8>>,
    from: int,
    slices: Seq<HeaderModel>,
)
    requires
        0 <= from,
        forall|i: int|
            0 <= i < nals.len() ==> (#[trigger] nals[i]).len() > 0 && legal_header(nals[i][0])
                && ignorable(unit_type(nals[i][0])),
    ensures
        walk(sets, nals, from, slices) == (Walk { sets, slices, fault: None }),
    decreases nals.len() - from,
{
    if from < nals.len() {
        assert(nals[from].len() > 0);
        law_metadata_changes_nothing(sets, nals, from + 1, slices);
    }
}

/// A unit whose loss would show is refused rather than left out: partitions,
/// extensions, auxiliary pictures and types that mean nothing here.
pub proof fn law_unsupported_units_are_refused(sets: Sets, nal: Seq<u8>)
    requires
        nal.len() > 0,
        legal_header(nal[0]),
        ({
            let t = unit_type(nal[0]);
            t == 0 || 2 <= t <= 4 || t >= 13
        }),
    ensures
        unit_effect(sets, nal).fault == Some(Fault::Decode(unsupported(unit_type(nal[0])))),
        unit_effect(sets, nal).sets == sets,
{
}

/// A unit with the forbidden bit set is refused, whatever its type.
pub proof fn law_malformed_headers_are_refused(sets: Sets, nal: Seq<u8>)
    requires
        nal.len() > 0,
        !legal_header(nal[0]),
    ensures
        unit_effect(sets, nal).fault == Some(
            Fault::Decode("invalid NAL header: ForbiddenZeroBit"@),
        ),
{
}

} // verus!
