//! What passes between the stages of the pipeline.
use vstd::prelude::*;
use std::time::Duration;
use crate::error::Error;
use crate::text::same;

verus! {

/// A decoded picture in 4:2:0 planar 8-bit, cropped to what is shown.
#[derive(Debug)]
pub struct Frame {
    pub pts: Duration,
    pub width: u32,
    pub height: u32,
    pub planes: [Vec<u8>; 3],
    pub strides: [usize; 3],
    /// How many macroblocks no slice covered and grey stands for.
    pub concealed_macroblocks: usize,
}

/// What a picture shows, without its time.
#[verifier::ext_equal]
pub struct FrameModel {
    pub width: u32,
    pub height: u32,
    pub planes: Seq<Seq<u8>>,
    pub strides: Seq<usize>,
}

impl View for Frame {
    type V = FrameModel;

    open spec fn view(&self) -> FrameModel {
        FrameModel {
            width: self.width,
            height: self.height,
            planes: seq![self.planes@[0]@, self.planes@[1]@, self.planes@[2]@],
            strides: self.strides@,
        }
    }
}

/// What some pictures show.
pub open spec fn frame_models(frames: Seq<Frame>) -> Seq<FrameModel> {
    Seq::new(frames.len(), |i: int| frames[i]@)
}

/// The shown samples of a plane, row by row, without what pads its rows.
pub open spec fn packed(plane: Seq<u8>, stride: nat, width: nat, height: nat) -> Seq<u8> {
    Seq::new(width * height, |i: int| plane[(i / width as int) * stride + i % width as int])
}

/// How many samples a plane has to hold for its shown part to lie in it.
pub open spec fn needed(stride: nat, width: nat, height: nat) -> nat {
    if height == 0 {
        0
    } else {
        ((height - 1) * stride + width) as nat
    }
}

/// Drops row padding, producing a tightly packed plane.
pub fn pack(plane: &[u8], stride: usize, width: usize, height: usize) -> (r: Vec<u8>)
    requires
        width <= stride,
        needed(stride as nat, width as nat, height as nat) <= plane@.len(),
    ensures
        r@ == packed(plane@, stride as nat, width as nat, height as nat),
{
    let total: usize = plane.len();
    let mut r: Vec<u8> = Vec::new();
    assert(r@ =~= packed(plane@, stride as nat, width as nat, 0));
    for row in 0..height
        invariant
            width <= stride,
            total == plane@.len(),
            needed(stride as nat, width as nat, height as nat) <= total,
            r@ == packed(plane@, stride as nat, width as nat, row as nat),
    {
        proof {
            lemma_row(stride as int, width as int, height as int, row as int);
            lemma_packed_row(plane@, stride as nat, width as nat, row as nat);
        }
        let start: usize = row * stride;
        r.extend_from_slice(&plane[start..start + width]);
    }
    r
}

/// A row within the needed samples ends within them.
proof fn lemma_row(stride: int, width: int, height: int, row: int)
    requires
        0 <= width <= stride,
        0 <= row < height,
    ensures
        0 <= row * stride,
        row * stride + width <= (height - 1) * stride + width,
{
    assert(0 <= row * stride <= (height - 1) * stride) by (nonlinear_arith)
        requires
            0 <= stride,
            0 <= row <= height - 1,
    ;
}

/// One more row is that row's samples behind the rows before it.
proof fn lemma_packed_row(plane: Seq<u8>, stride: nat, width: nat, row: nat)
    requires
        width <= stride,
        row * stride + width <= plane.len(),
    ensures
        packed(plane, stride, width, row + 1) == packed(plane, stride, width, row)
            + plane.subrange((row * stride) as int, (row * stride + width) as int),
{
    let a = packed(plane, stride, width, row + 1);
    let b = packed(plane, stride, width, row);
    let c = plane.subrange((row * stride) as int, (row * stride + width) as int);
    assert(width * (row + 1) == width * row + width) by (nonlinear_arith);
    assert forall|i: int| 0 <= i < a.len() implies a[i] == (b + c)[i] by {
        if i >= b.len() {
            let k = i - width * row;
            assert(i == row * width + k) by (nonlinear_arith)
                requires
                    k == i - width * row,
            ;
            vstd::arithmetic::div_mod::lemma_fundamental_div_mod_converse(
                i,
                width as int,
                row as int,
                k,
            );
        }
    }
    assert(a =~= b + c);
}

/// Which track of a file something belongs to.
#[derive(Debug, Clone, Copy, PartialEq, Eq, Structural)]
pub struct TrackId(pub u32);

/// One coded access unit.
#[derive(Debug)]
pub struct Packet {
    pub track: TrackId,
    pub pts: Duration,
    pub keyframe: bool,
    pub data: Vec<u8>,
}

/// A packet, with its bytes as a sequence.
#[verifier::ext_equal]
pub struct PacketModel {
    pub track: TrackId,
    pub pts: Duration,
    pub keyframe: bool,
    pub data: Seq<u8>,
}

impl View for Packet {
    type V = PacketModel;

    open spec fn view(&self) -> PacketModel {
        PacketModel { track: self.track, pts: self.pts, keyframe: self.keyframe, data: self.data@ }
    }
}

/// The models of some packets.
pub open spec fn packet_models(packets: Seq<Packet>) -> Seq<PacketModel> {
    Seq::new(packets.len(), |i: int| packets[i]@)
}

/// How the samples of a track are coded.
#[derive(Debug, Clone, Copy, PartialEq, Eq, Structural)]
pub enum Codec {
    H264,
    H265,
    Av1,
    Vp9,
    Vp8,
    Aac,
    Opus,
    Vorbis,
}

impl Codec {
    /// The name a codec goes by.
    pub open spec fn called(self) -> Seq<char> {
        match self {
            Codec::H264 => "h264"@,
            Codec::H265 => "h265"@,
            Codec::Av1 => "av1"@,
            Codec::Vp9 => "vp9"@,
            Codec::Vp8 => "vp8"@,
            Codec::Aac => "aac"@,
            Codec::Opus => "opus"@,
            Codec::Vorbis => "vorbis"@,
        }
    }

    /// The codec that a name means, by its own name or by the sample entry
    /// name of H.264.
    pub open spec fn named(name: Seq<char>) -> Option<Codec> {
        if name == "h264"@ || name == "avc1"@ {
            Some(Codec::H264)
        } else if name == "h265"@ {
            Some(Codec::H265)
        } else if name == "av1"@ {
            Some(Codec::Av1)
        } else if name == "vp9"@ {
            Some(Codec::Vp9)
        } else if name == "vp8"@ {
            Some(Codec::Vp8)
        } else if name == "aac"@ {
            Some(Codec::Aac)
        } else if name == "opus"@ {
            Some(Codec::Opus)
        } else if name == "vorbis"@ {
            Some(Codec::Vorbis)
        } else {
            None
        }
    }

    /// Every codec, in the order in which they are listed.
    pub open spec fn spec_all() -> Seq<Codec> {
        seq![
            Codec::H264,
            Codec::H265,
            Codec::Av1,
            Codec::Vp9,
            Codec::Vp8,
            Codec::Aac,
            Codec::Opus,
            Codec::Vorbis,
        ]
    }

    /// Every codec, in the order in which they are listed.
    pub fn all() -> (r: Vec<Codec>)
        ensures
            r@ == Codec::spec_all(),
    {
        let r = vec![
            Codec::H264,
            Codec::H265,
            Codec::Av1,
            Codec::Vp9,
            Codec::Vp8,
            Codec::Aac,
            Codec::Opus,
            Codec::Vorbis,
        ];
        assert(r@ =~= Codec::spec_all());
        r
    }

    /// The name a codec goes by.
    pub fn name(self) -> (r: &'static str)
        ensures
            r@ == self.called(),
    {
        match self {
            Codec::H264 => "h264",
            Codec::H265 => "h265",
            Codec::Av1 => "av1",
            Codec::Vp9 => "vp9",
            Codec::Vp8 => "vp8",
            Codec::Aac => "aac",
            Codec::Opus => "opus",
            Codec::Vorbis => "vorbis",
        }
    }

    /// The codec that a name means.
    pub fn from_name(name: &str) -> (r: Option<Codec>)
        ensures
            r == Codec::named(name@),
    {
        if same(name, "h264") || same(name, "avc1") {
            Some(Codec::H264)
        } else if same(name, "h265") {
            Some(Codec::H265)
        } else if same(name, "av1") {
            Some(Codec::Av1)
        } else if same(name, "vp9") {
            Some(Codec::Vp9)
        } else if same(name, "vp8") {
            Some(Codec::Vp8)
        } else if same(name, "aac") {
            Some(Codec::Aac)
        } else if same(name, "opus") {
            Some(Codec::Opus)
        } else if same(name, "vorbis") {
            Some(Codec::Vorbis)
        } else {
            None
        }
    }
}

/// Every codec is found again under its own name.
pub proof fn law_codecs_are_found_by_name(c: Codec)
    ensures
        Codec::named(c.called()) == Some(c),
{
    reveal_strlit("h264");
    reveal_strlit("avc1");
    reveal_strlit("h265");
    reveal_strlit("av1");
    reveal_strlit("vp9");
    reveal_strlit("vp8");
    reveal_strlit("aac");
    reveal_strlit("opus");
    reveal_strlit("vorbis");
    assert("h264"@.len() == 4 && "avc1"@.len() == 4 && "h265"@.len() == 4 && "opus"@.len() == 4);
    assert("av1"@.len() == 3 && "vp9"@.len() == 3 && "vp8"@.len() == 3 && "aac"@.len() == 3);
    assert("vorbis"@.len() == 6);
    assert("aac"@[0] == 'a' && "vp9"@[0] == 'v' && "vp8"@[0] == 'v');
    assert("h264"@[3] == '4' && "h265"@[3] == '5');
    assert("h264"@[0] == 'h' && "h265"@[0] == 'h' && "avc1"@[0] == 'a' && "opus"@[0] == 'o');
    assert("av1"@[1] == 'v' && "aac"@[1] == 'a' && "vp9"@[1] == 'p' && "vp8"@[1] == 'p');
    assert("av1"@[0] == 'a' && "vp9"@[2] == '9' && "vp8"@[2] == '8');
}

/// What a track carries.
#[derive(Debug, Clone, Copy, PartialEq, Eq, Structural)]
pub enum TrackKind {
    Video { width: u32, height: u32 },
    Audio { sample_rate: u32, channels: u32 },
}

/// One track of a file.
#[derive(Debug)]
pub struct Track {
    pub id: TrackId,
    pub codec: Codec,
    pub kind: TrackKind,
    /// What a decoder has to know beforehand, in the form the container keeps
    /// it in.
    pub extra_data: Vec<u8>,
}

/// A track, with its bytes as a sequence.
#[verifier::ext_equal]
pub struct TrackModel {
    pub id: TrackId,
    pub codec: Codec,
    pub kind: TrackKind,
    pub extra_data: Seq<u8>,
}

impl View for Track {
    type V = TrackModel;

    open spec fn view(&self) -> TrackModel {
        TrackModel {
            id: self.id,
            codec: self.codec,
            kind: self.kind,
            extra_data: self.extra_data@,
        }
    }
}

impl Clone for Track {
    fn clone(&self) -> (r: Track)
        ensures
            r@ == self@,
    {
        let mut extra_data: Vec<u8> = Vec::new();
        extra_data.extend_from_slice(self.extra_data.as_slice());
        assert(extra_data@ =~= self.extra_data@);
        Track { id: self.id, codec: self.codec, kind: self.kind, extra_data }
    }
}

/// What turns packets into pictures.
pub trait Decoder {
    /// Whether it is in a state to be called.
    spec fn ready(&self) -> bool;

    /// What it may return for a packet, and what it may be like after that.
    spec fn decodes(&self, pkt: &Packet, after: &Self, r: Result<Vec<Frame>, Error>) -> bool;

    /// What it may return of what it held back, and what it may be like after
    /// that.
    spec fn flushes(&self, after: &Self, r: Result<Vec<Frame>, Error>) -> bool;

    /// Takes one access unit, and returns the pictures that it completes.
    fn decode(&mut self, pkt: &Packet) -> (r: Result<Vec<Frame>, Error>)
        requires
            old(self).ready(),
        ensures
            final(self).ready(),
            old(self).decodes(pkt, &*final(self), r),
    ;

    /// Returns the pictures still held back.
    fn flush(&mut self) -> (r: Result<Vec<Frame>, Error>)
        requires
            old(self).ready(),
        ensures
            final(self).ready(),
            old(self).flushes(&*final(self), r),
    ;
}

/// The sample in column `x` and row `y` of a packed plane is the one in that column
/// and row of the plane, whatever pads its rows.
pub proof fn law_rows_are_packed(
    plane: Seq<u8>,
    stride: nat,
    width: nat,
    height: nat,
    x: int,
    y: int,
)
    requires
        0 <= x < width,
        0 <= y < height,
    ensures
        packed(plane, stride, width, height).len() == width * height,
        packed(plane, stride, width, height)[y * width + x] == plane[y * stride + x],
{
    let w = width as int;
    assert(0 <= y * w + x < w * height && (y * w + x) / w == y && (y * w + x) % w == x)
        by (nonlinear_arith)
        requires
            0 <= x < w,
            0 <= y < height,
    ;
}

} // verus!
