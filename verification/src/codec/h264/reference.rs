//! openh264 behind the decoder trait, and pictures to encode for it.
//!
//! It is what the decoder of this crate is compared with.
use vstd::prelude::*;
use std::time::Duration;
use super::annexb::{nal_unit_type, nal_units};
use super::oracle::{drain, give, open, Decoded, Oracle};
use crate::error::Error;
use crate::media::{pack, Decoder, Frame, Packet, TrackId};

verus! {

/// Half a length, rounded up.
pub open spec fn half(n: nat) -> nat {
    (n + 1) / 2
}

/// Whether every plane of a picture holds what is shown of it.
pub open spec fn complete(d: super::oracle::DecodedModel) -> bool {
    let (w, h) = (d.width as nat, d.height as nat);
    &&& d.strides.len() == 3
    &&& d.width <= u32::MAX
    &&& d.height <= u32::MAX
    &&& w <= d.strides[0]
    &&& half(w) <= d.strides[1]
    &&& half(w) <= d.strides[2]
    &&& crate::media::needed(d.strides[0] as nat, w, h) <= d.y.len()
    &&& crate::media::needed(d.strides[1] as nat, half(w), half(h)) <= d.u.len()
    &&& crate::media::needed(d.strides[2] as nat, half(w), half(h)) <= d.v.len()
}

/// Whether every plane of every picture holds what is shown of it.
pub open spec fn all_complete(list: Seq<super::oracle::DecodedModel>) -> bool {
    forall|i: int| 0 <= i < list.len() ==> complete(#[trigger] list[i])
}

/// A picture without its row padding.
pub open spec fn tight(d: super::oracle::DecodedModel) -> crate::media::FrameModel {
    let (w, h) = (d.width as nat, d.height as nat);
    crate::media::FrameModel {
        width: d.width as u32,
        height: d.height as u32,
        planes: seq![
            crate::media::packed(d.y, d.strides[0] as nat, w, h),
            crate::media::packed(d.u, d.strides[1] as nat, half(w), half(h)),
            crate::media::packed(d.v, d.strides[2] as nat, half(w), half(h)),
        ],
        strides: seq![d.width, half(w) as usize, half(w) as usize],
    }
}

/// The message for something that openh264 said.
pub open spec fn said(text: Seq<char>) -> Seq<char> {
    "openh264: "@ + text
}

/// The message for a picture that is not all there.
pub open spec fn cut_short() -> Seq<char> {
    said("a plane is shorter than its picture"@)
}

/// What is returned for openh264's answer to one access unit.
pub open spec fn answers(
    answer: Result<Option<super::oracle::DecodedModel>, Seq<char>>,
    pts: Duration,
    r: Result<Vec<Frame>, Error>,
) -> bool {
    match answer {
        Err(m) => r matches Err(e) && e.is_decode(said(m)),
        Ok(None) => r matches Ok(frames) && frames@.len() == 0,
        Ok(Some(d)) => if complete(d) {
            r matches Ok(frames) && frames@.len() == 1 && frames@[0]@ == tight(d) && frames@[0].pts
                == pts && frames@[0].concealed_macroblocks == 0
        } else {
            r matches Err(e) && e.is_decode(cut_short())
        },
    }
}

/// What is returned for the pictures that openh264 held back.
pub open spec fn gives_rest(
    rest: Result<Seq<super::oracle::DecodedModel>, Seq<char>>,
    r: Result<Vec<Frame>, Error>,
) -> bool {
    match rest {
        Err(m) => r matches Err(e) && e.is_decode(said(m)),
        Ok(list) => if all_complete(list) {
            r matches Ok(frames) && crate::media::frame_models(frames@) == Seq::new(
                list.len(),
                |i: int| tight(list[i]),
            ) && (forall|i: int|
                0 <= i < frames@.len() ==> crate::time::nanos((#[trigger] frames@[i]).pts) == 0)
        } else {
            r matches Err(e) && e.is_decode(cut_short())
        },
    }
}

/// The error for something that openh264 said.
fn decode_err(text: &str) -> (e: Error)
    ensures
        e.is_decode(said(text@)),
{
    let mut m = "openh264: ".to_owned();
    m.append(text);
    Error::decode(m.as_str())
}

/// A decoder backed by openh264.
pub struct ReferenceDecoder {
    pub oracle: Oracle,
}

impl ReferenceDecoder {
    /// A fresh decoder, if openh264 provides one.
    pub fn new() -> (r: Result<ReferenceDecoder, Error>)
        ensures
            r matches Ok(d) ==> super::oracle::history_of(d.oracle).len() == 0,
            r matches Err(e) ==> exists|text: Seq<char>| e.is_decode(#[trigger] said(text)),
    {
        match open() {
            Ok(oracle) => Ok(ReferenceDecoder { oracle }),
            Err(text) => Err(decode_err(text.as_str())),
        }
    }
}

impl Decoder for ReferenceDecoder {
    open spec fn ready(&self) -> bool {
        true
    }

    /// openh264 is given the packet, and its answer is handed on.
    open spec fn decodes(&self, pkt: &Packet, after: &Self, r: Result<Vec<Frame>, Error>) -> bool {
        let before = super::oracle::history_of(self.oracle);
        if pkt.data@.len() > 0x7fff_ffff {
            *after == *self && (r matches Err(e) && e.is_decode(
                said("access unit is too large"@),
            ))
        } else {
            exists|answer: Result<Option<super::oracle::DecodedModel>, Seq<char>>|
                super::oracle::history_of(after.oracle) == before.push(
                    super::oracle::Step::Given(pkt.data@, answer),
                ) && #[trigger] answers(answer, pkt.pts, r)
        }
    }

    /// openh264 is drained, and its answer is handed on.
    open spec fn flushes(&self, after: &Self, r: Result<Vec<Frame>, Error>) -> bool {
        let before = super::oracle::history_of(self.oracle);
        exists|rest: Result<Seq<super::oracle::DecodedModel>, Seq<char>>|
            super::oracle::history_of(after.oracle) == before.push(
                super::oracle::Step::Drained(rest),
            ) && #[trigger] gives_rest(rest, r)
    }

    /// The packet has to hold one access unit in start codes. openh264 returns
    /// at most one picture for it.
    fn decode(&mut self, pkt: &Packet) -> (r: Result<Vec<Frame>, Error>) {
        if pkt.data.len() as u64 > 0x7fff_ffff {
            return Err(decode_err("access unit is too large"));
        }
        let given = give(&mut self.oracle, pkt.data.as_slice());
        let ghost answer = super::oracle::answer_model(given);
        let r: Result<Vec<Frame>, Error> = match given {
            Err(text) => Err(decode_err(text.as_str())),
            Ok(None) => Ok(Vec::new()),
            Ok(Some(d)) => {
                if !is_complete(&d) {
                    Err(decode_err("a plane is shorter than its picture"))
                } else {
                    let mut frames: Vec<Frame> = Vec::new();
                    frames.push(to_frame(&d, pkt.pts));
                    Ok(frames)
                }
            },
        };
        assert(answers(answer, pkt.pts, r));
        r
    }

    /// openh264 gives what it held back no time of its own, so it gets none.
    fn flush(&mut self) -> (r: Result<Vec<Frame>, Error>) {
        let drained = drain(&mut self.oracle);
        let ghost rest = super::oracle::rest_model(drained);
        let r: Result<Vec<Frame>, Error> = match drained {
            Ok(list) => tighten(&list),
            Err(text) => Err(decode_err(text.as_str())),
        };
        assert(gives_rest(rest, r));
        r
    }
}

/// Pictures of our own, without a time, from openh264's.
fn tighten(list: &Vec<Decoded>) -> (r: Result<Vec<Frame>, Error>)
    ensures
        gives_rest(Ok(super::oracle::decoded_models(list@)), r),
{
    let ghost models = super::oracle::decoded_models(list@);
    let mut frames: Vec<Frame> = Vec::new();
    let n: usize = list.len();
    let mut i: usize = 0;
    while i < n
        invariant
            n == list@.len(),
            i <= n,
            models == super::oracle::decoded_models(list@),
            frames@.len() == i,
            forall|j: int| 0 <= j < i ==> complete(#[trigger] models[j]),
            forall|j: int| 0 <= j < i ==> (#[trigger] frames@[j])@ == tight(models[j]),
            forall|j: int| 0 <= j < i ==> crate::time::nanos((#[trigger] frames@[j]).pts) == 0,
        decreases n - i,
    {
        assert(models[i as int] == list@[i as int]@);
        if !is_complete(&list[i]) {
            assert(!complete(models[i as int]));
            return Err(decode_err("a plane is shorter than its picture"));
        }
        frames.push(to_frame(&list[i], Duration::from_millis(0)));
        i = i + 1;
    }
    assert(crate::media::frame_models(frames@) =~= Seq::new(
        models.len(),
        |j: int| tight(models[j]),
    ));
    Ok(frames)
}

/// Half a length, rounded up.
fn half_of(n: usize) -> (r: usize)
    ensures
        r == half(n as nat),
{
    n / 2 + n % 2
}

/// Whether a plane holds what is shown of it.
fn holds(len: usize, stride: usize, width: usize, height: usize) -> (r: bool)
    ensures
        r == (width <= stride && crate::media::needed(
            stride as nat,
            width as nat,
            height as nat,
        ) <= len),
{
    if stride < width {
        return false;
    }
    if height == 0 {
        return true;
    }
    proof {
        assert((height - 1) * stride >= 0) by (nonlinear_arith)
            requires
                height >= 1,
                stride >= 0,
        ;
    }
    match (height - 1).checked_mul(stride) {
        Some(offset) => match offset.checked_add(width) {
            Some(required) => required <= len,
            None => false,
        },
        None => false,
    }
}

/// Whether every plane of a picture holds what is shown of it.
fn is_complete(d: &Decoded) -> (r: bool)
    ensures
        r == complete(d@),
{
    let (w, h): (usize, usize) = (d.width, d.height);
    if w as u64 > u32::MAX as u64 || h as u64 > u32::MAX as u64 {
        return false;
    }
    let (cw, ch): (usize, usize) = (half_of(w), half_of(h));
    holds(d.y.len(), d.strides[0], w, h) && holds(d.u.len(), d.strides[1], cw, ch) && holds(
        d.v.len(),
        d.strides[2],
        cw,
        ch,
    )
}

/// A picture of our own from one of openh264's.
fn to_frame(d: &Decoded, pts: Duration) -> (f: Frame)
    requires
        complete(d@),
    ensures
        f@ == tight(d@),
        f.pts == pts,
        f.concealed_macroblocks == 0,
{
    let (w, h): (usize, usize) = (d.width, d.height);
    let (cw, ch): (usize, usize) = (half_of(w), half_of(h));
    let y = pack(d.y.as_slice(), d.strides[0], w, h);
    let u = pack(d.u.as_slice(), d.strides[1], cw, ch);
    let v = pack(d.v.as_slice(), d.strides[2], cw, ch);
    let f = Frame {
        pts,
        width: w as u32,
        height: h as u32,
        planes: [y, u, v],
        strides: [w, cw, cw],
        concealed_macroblocks: 0,
    };
    assert(f@.planes =~= tight(d@).planes);
    assert(f@.strides =~= tight(d@).strides);
    f
}

/// Whether an access unit holds an IDR slice.
pub open spec fn holds_idr(unit: Seq<u8>) -> bool {
    let units = super::annexb::unit_bytes(unit);
    exists|i: int|
        0 <= i < units.len() && super::annexb::spec_nal_unit_type(#[trigger] units[i]) == Some(5u8)
}

/// Whether a packet wraps the access unit of a number.
pub open spec fn wraps(pkt: Packet, unit: Seq<u8>, index: int) -> bool {
    &&& pkt.track == TrackId(0)
    &&& crate::time::nanos(pkt.pts) == index * 40_000_000
    &&& pkt.keyframe == holds_idr(unit)
    &&& pkt.data@ == unit
}

/// Wraps one access unit as a packet, at 25 pictures a second.
pub fn packet(au: &[u8], index: usize) -> (r: Packet)
    requires
        index * 40 <= u64::MAX,
    ensures
        wraps(r, au@, index as int),
{
    let units = nal_units(au);
    let ghost bytes = super::annexb::unit_bytes(au@);
    let mut keyframe: bool = false;
    let n: usize = units.len();
    for i in 0..n
        invariant
            n == units@.len(),
            super::annexb::views(units@) == bytes,
            keyframe == (exists|j: int|
                0 <= j < i && super::annexb::spec_nal_unit_type(#[trigger] bytes[j]) == Some(5u8)),
    {
        assert(bytes[i as int] == units@[i as int]@);
        let t: Option<u8> = nal_unit_type(units[i]);
        if let Some(5) = t {
            keyframe = true;
        }
    }
    let mut data: Vec<u8> = Vec::new();
    data.extend_from_slice(au);
    assert(data@ =~= au@);
    Packet { track: TrackId(0), pts: Duration::from_millis(index as u64 * 40), keyframe, data }
}

/// A stream of coded test pictures.
pub struct SyntheticStream {
    pub annexb: Vec<u8>,
    pub width: usize,
    pub height: usize,
}

/// The brightness of the test picture at a point: a gradient that moves with
/// time, and a hard-edged block that slides over its upper half.
pub open spec fn luma_at(width: nat, height: nat, frame: nat, row: nat, col: nat) -> u8 {
    let shift = (frame * 3) % width;
    if (col + shift) % width < width / 8 && row % height < height / 2 {
        235
    } else {
        ((row + col + frame) % 256) as u8
    }
}

/// The colour along one axis: a ramp around the middle.
pub open spec fn ramp(at: int, length: int) -> u8 {
    let d = at - length / 2;
    if d < -64 {
        64
    } else if d > 64 {
        192
    } else {
        (128 + d) as u8
    }
}

/// The test picture.
pub open spec fn pattern(width: nat, height: nat, frame: nat) -> (Seq<u8>, Seq<u8>, Seq<u8>) {
    let (cw, ch) = (half(width), half(height));
    (
        Seq::new(
            width * height,
            |i: int| luma_at(width, height, frame, (i / width as int) as nat, (i % width as int) as nat),
        ),
        Seq::new(cw * ch, |i: int| ramp(i % cw as int, cw as int)),
        Seq::new(cw * ch, |i: int| ramp(i / cw as int, ch as int)),
    )
}

/// Draws the test picture. The gradient gives the transform something of low
/// frequency, the edges give the loop filter something to smooth, and the
/// motion gives inter prediction a reason for vectors.
pub fn test_pattern(width: usize, height: usize, frame: usize) -> (r: (Vec<u8>, Vec<u8>, Vec<u8>))
    requires
        0 < width <= 0x7fff_ffff,
        0 < height <= 0x7fff_ffff,
        width * height <= usize::MAX,
        frame * 3 <= usize::MAX,
        width + height + frame <= usize::MAX,
    ensures
        (r.0@, r.1@, r.2@) == pattern(width as nat, height as nat, frame as nat),
{
    let (cw, ch): (usize, usize) = (half_of(width), half_of(height));
    let shift: usize = (frame * 3) % width;
    let ghost want = pattern(width as nat, height as nat, frame as nat);
    let total: usize = width * height;
    let mut y: Vec<u8> = Vec::new();
    let mut row: usize = 0;
    let mut col: usize = 0;
    for i in 0..total
        invariant
            0 < width <= 0x7fff_ffff,
            0 < height <= 0x7fff_ffff,
            total == width * height,
            width + height + frame <= usize::MAX,
            shift == (frame * 3) % width as int,
            want == pattern(width as nat, height as nat, frame as nat),
            col < width,
            i == row * width + col,
            row <= height,
            y@.len() == i,
            forall|j: int| 0 <= j < i ==> #[trigger] y@[j] == want.0[j],
    {
        proof {
            vstd::arithmetic::div_mod::lemma_fundamental_div_mod_converse(
                i as int,
                width as int,
                row as int,
                col as int,
            );
            assert(row < height) by (nonlinear_arith)
                requires
                    i == row * width + col,
                    i < width * height,
                    0 <= col,
            ;
        }
        let gradient: u8 = ((row + col + frame) % 256) as u8;
        let in_block: bool = (col + shift) % width < width / 8 && row % height < height / 2;
        y.push(
            if in_block {
                235
            } else {
                gradient
            },
        );
        col = col + 1;
        if col == width {
            assert((row + 1) * width == row * width + width) by (nonlinear_arith);
            col = 0;
            row = row + 1;
        }
    }
    assert(y@ =~= want.0);
    proof {
        assert(cw * ch <= width * height) by (nonlinear_arith)
            requires
                0 <= cw <= width,
                0 <= ch <= height,
        ;
    }
    let (u, v) = chroma_pattern(cw, ch, Ghost(want));
    (y, u, v)
}

/// Draws the colour planes of the test picture.
fn chroma_pattern(cw: usize, ch: usize, Ghost(want): Ghost<(Seq<u8>, Seq<u8>, Seq<u8>)>) -> (r: (
    Vec<u8>,
    Vec<u8>,
))
    requires
        0 < cw <= 0x7fff_ffff,
        0 < ch <= 0x7fff_ffff,
        cw * ch <= usize::MAX,
        want.1 == Seq::new((cw * ch) as nat, |i: int| ramp(i % cw as int, cw as int)),
        want.2 == Seq::new((cw * ch) as nat, |i: int| ramp(i / cw as int, ch as int)),
    ensures
        r.0@ == want.1,
        r.1@ == want.2,
{
    let mut u: Vec<u8> = Vec::new();
    let mut v: Vec<u8> = Vec::new();
    let total: usize = cw * ch;
    let mut row: usize = 0;
    let mut col: usize = 0;
    for i in 0..total
        invariant
            0 < cw <= 0x7fff_ffff,
            0 < ch <= 0x7fff_ffff,
            total == cw * ch,
            want.1 == Seq::new((cw * ch) as nat, |i: int| ramp(i % cw as int, cw as int)),
            want.2 == Seq::new((cw * ch) as nat, |i: int| ramp(i / cw as int, ch as int)),
            col < cw,
            i == row * cw + col,
            row <= ch,
            u@.len() == i,
            v@.len() == i,
            forall|j: int| 0 <= j < i ==> #[trigger] u@[j] == want.1[j],
            forall|j: int| 0 <= j < i ==> #[trigger] v@[j] == want.2[j],
    {
        proof {
            vstd::arithmetic::div_mod::lemma_fundamental_div_mod_converse(
                i as int,
                cw as int,
                row as int,
                col as int,
            );
            assert(row < ch) by (nonlinear_arith)
                requires
                    i == row * cw + col,
                    i < cw * ch,
                    0 <= col,
            ;
        }
        u.push(ramp_of(col, cw));
        v.push(ramp_of(row, ch));
        col = col + 1;
        if col == cw {
            assert((row + 1) * cw == row * cw + cw) by (nonlinear_arith);
            col = 0;
            row = row + 1;
        }
    }
    assert(u@ =~= want.1);
    assert(v@ =~= want.2);
    (u, v)
}

/// The colour along one axis.
fn ramp_of(at: usize, length: usize) -> (r: u8)
    requires
        at < length <= 0x7fff_ffff,
    ensures
        r == ramp(at as int, length as int),
{
    let d: i64 = at as i64 - (length / 2) as i64;
    if d < -64 {
        64
    } else if d > 64 {
        192
    } else {
        (128 + d) as u8
    }
}

/// The coding of test pictures, one after the other: what picture is next, and
/// what has been coded so far.
pub struct Synthesis {
    pub width: usize,
    pub height: usize,
    pub frames: usize,
    pub next: usize,
    pub annexb: Vec<u8>,
}

impl Synthesis {
    /// Whether the pictures can be drawn.
    pub open spec fn wf(self) -> bool {
        &&& 0 < self.width <= 0x7fff_ffff
        &&& 0 < self.height <= 0x7fff_ffff
        &&& self.width * self.height <= usize::MAX
        &&& self.frames * 3 <= usize::MAX
        &&& self.width + self.height + self.frames <= usize::MAX
        &&& self.next <= self.frames
    }

    /// The coding of so many pictures of this size, with none coded yet.
    pub fn new(width: usize, height: usize, frames: usize) -> (r: Synthesis)
        requires
            0 < width <= 0x7fff_ffff,
            0 < height <= 0x7fff_ffff,
            width * height <= usize::MAX,
            frames * 3 <= usize::MAX,
            width + height + frames <= usize::MAX,
        ensures
            r.wf(),
            r.width == width,
            r.height == height,
            r.frames == frames,
            r.next == 0,
            r.annexb@.len() == 0,
    {
        Synthesis { width, height, frames, next: 0, annexb: Vec::new() }
    }

    /// The planes of the picture to code next, if one is left.
    pub fn picture(&self) -> (r: Option<(Vec<u8>, Vec<u8>, Vec<u8>)>)
        requires
            self.wf(),
        ensures
            match r {
                Some(p) => self.next < self.frames && (p.0@, p.1@, p.2@) == pattern(
                    self.width as nat,
                    self.height as nat,
                    self.next as nat,
                ),
                None => self.next == self.frames,
            },
    {
        if self.next == self.frames {
            return None;
        }
        proof {
            assert(self.next * 3 <= self.frames * 3) by (nonlinear_arith)
                requires
                    self.next <= self.frames,
            ;
        }
        Some(test_pattern(self.width, self.height, self.next))
    }

    /// Takes the coded bytes of the next picture.
    pub fn accept(&mut self, coded: &[u8])
        requires
            old(self).wf(),
            old(self).next < old(self).frames,
        ensures
            final(self).wf(),
            final(self).next == old(self).next + 1,
            final(self).annexb@ == old(self).annexb@ + coded@,
            final(self).width == old(self).width,
            final(self).height == old(self).height,
            final(self).frames == old(self).frames,
    {
        self.annexb.extend_from_slice(coded);
        self.next = self.next + 1;
    }

    /// The stream of what has been coded.
    pub fn finish(self) -> (r: SyntheticStream)
        ensures
            r.annexb == self.annexb,
            r.width == self.width,
            r.height == self.height,
    {
        SyntheticStream { annexb: self.annexb, width: self.width, height: self.height }
    }
}

} // verus!
