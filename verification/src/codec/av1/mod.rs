//! AV1 encoding with rav1e.
//!
//! The defaults are speed 10, 16 tiles and low latency.
use vstd::prelude::*;
use std::collections::HashMap;
use std::time::Duration;
use crate::codec::av1::session::{
    finish, receive, sequence_header, start, submit, CodedPacket, EncoderConfig, FrameType, Reply,
    Session,
};
use crate::error::Error;
use crate::media::{pack, Codec, Frame, Packet, PacketModel, TrackId};
use crate::text::put_number;

pub mod session;

verus! {

broadcast use vstd::std_specs::hash::group_hash_axioms;

/// The rav1e settings that decide how fast it is.
#[derive(Debug, Clone, Copy)]
pub struct Av1Settings {
    pub speed: u8,
    pub tiles: usize,
    pub low_latency: bool,
    /// Zero lets rav1e use its global thread pool.
    pub threads: usize,
}

impl Default for Av1Settings {
    fn default() -> (r: Av1Settings)
        ensures
            r.speed == 10,
            r.tiles == 16,
            r.low_latency,
            r.threads == 0,
    {
        Av1Settings { speed: 10, tiles: 16, low_latency: true, threads: 0 }
    }
}

impl Av1Settings {
    /// The configuration that these settings describe: a time base of one
    /// frame, and a key frame every two seconds.
    pub open spec fn config(self, width: u32, height: u32, fps: u32, bitrate: i32) -> EncoderConfig {
        let rate = if fps == 0 {
            1
        } else {
            fps as u64
        };
        EncoderConfig {
            width: width as usize,
            height: height as usize,
            time_base_num: 1,
            time_base_den: rate,
            speed: self.speed,
            bitrate,
            low_latency: self.low_latency,
            tiles: self.tiles,
            min_key_frame_interval: (rate * 2) as u64,
            max_key_frame_interval: (rate * 2) as u64,
            threads: self.threads,
        }
    }

    /// Builds the configuration that these settings describe. `bitrate` is in
    /// bits per second.
    pub fn encoder_config(&self, width: u32, height: u32, fps: u32, bitrate: i32) -> (r:
        EncoderConfig)
        ensures
            r == self.config(width, height, fps, bitrate),
    {
        let rate: u64 = if fps == 0 {
            1
        } else {
            fps as u64
        };
        EncoderConfig {
            width: width as usize,
            height: height as usize,
            time_base_num: 1,
            time_base_den: rate,
            speed: self.speed,
            bitrate,
            low_latency: self.low_latency,
            tiles: self.tiles,
            min_key_frame_interval: rate * 2,
            max_key_frame_interval: rate * 2,
            threads: self.threads,
        }
    }
}

/// What is wrong with a plane, if anything.
pub open spec fn plane_fault(
    name: Seq<char>,
    len: nat,
    stride: nat,
    width: nat,
    height: nat,
) -> Option<Seq<char>> {
    let required = crate::media::needed(stride, width, height);
    if stride < width {
        Some(
            name + " plane stride "@ + crate::text::decimal(stride) + " is smaller than width "@
                + crate::text::decimal(width),
        )
    } else if required > usize::MAX {
        Some(name + " plane layout overflows usize"@)
    } else if len < required {
        Some(
            name + " plane has "@ + crate::text::decimal(len) + " bytes; "@ + crate::text::decimal(
                required,
            ) + " required for "@ + crate::text::decimal(width) + "x"@ + crate::text::decimal(
                height,
            ) + " at stride "@ + crate::text::decimal(stride),
        )
    } else {
        None
    }
}

/// Half a length, rounded up.
pub open spec fn half(n: nat) -> nat {
    (n + 1) / 2
}

/// What is wrong with a picture for an encoder of this size, if anything.
pub open spec fn frame_fault(frame: Frame, width: u32, height: u32) -> Option<Seq<char>> {
    let (w, h) = (width as nat, height as nat);
    let y = plane_fault("Y"@, frame.planes@[0]@.len(), frame.strides@[0] as nat, w, h);
    let u = plane_fault("U"@, frame.planes@[1]@.len(), frame.strides@[1] as nat, half(w), half(h));
    let v = plane_fault("V"@, frame.planes@[2]@.len(), frame.strides@[2] as nat, half(w), half(h));
    if frame.width != width || frame.height != height {
        Some(
            "frame is "@ + crate::text::decimal(frame.width as nat) + "x"@ + crate::text::decimal(
                frame.height as nat,
            ) + ", encoder configured for "@ + crate::text::decimal(w) + "x"@
                + crate::text::decimal(h),
        )
    } else if y is Some {
        y
    } else if u is Some {
        u
    } else {
        v
    }
}

/// A picture as rav1e is handed it: what is shown of its planes.
pub open spec fn submission_of(frame: Frame, key: bool) -> crate::codec::av1::session::Submission {
    let (w, h) = (frame.width as nat, frame.height as nat);
    crate::codec::av1::session::Submission {
        y: crate::media::packed(frame.planes@[0]@, frame.strides@[0] as nat, w, h),
        u: crate::media::packed(frame.planes@[1]@, frame.strides@[1] as nat, half(w), half(h)),
        v: crate::media::packed(frame.planes@[2]@, frame.strides@[2] as nat, half(w), half(h)),
        key,
    }
}

/// What rav1e answered, with its bytes and text as sequences.
pub enum ReplyModel {
    Packet { number: u64, kind: FrameType, data: Seq<u8> },
    Encoded,
    NeedMoreData,
    LimitReached,
    Failed(Seq<char>),
}

impl View for Reply {
    type V = ReplyModel;

    open spec fn view(&self) -> ReplyModel {
        match self {
            Reply::Packet(p) => ReplyModel::Packet {
                number: p.input_frameno,
                kind: p.frame_type,
                data: p.data@,
            },
            Reply::Encoded => ReplyModel::Encoded,
            Reply::NeedMoreData => ReplyModel::NeedMoreData,
            Reply::LimitReached => ReplyModel::LimitReached,
            Reply::Failed(text) => ReplyModel::Failed(text@),
        }
    }
}

/// How far the taking of packets has come.
pub enum Taking {
    /// There may be more.
    Going,
    /// There are no more for now.
    Done,
    /// It ended in an error with this message.
    Broken(Seq<char>),
}

/// The packets taken so far.
#[verifier::ext_equal]
pub struct Gathering {
    /// The time of each picture whose packet has not come yet, by its number.
    pub pending: Map<u64, Duration>,
    pub packets: Seq<PacketModel>,
    /// Which picture each packet shows.
    pub numbers: Seq<u64>,
    pub taking: Taking,
}

/// Nothing taken yet.
pub open spec fn gathering(pending: Map<u64, Duration>) -> Gathering {
    Gathering { pending, packets: Seq::empty(), numbers: Seq::empty(), taking: Taking::Going }
}

/// The message of an answer that names no picture of ours.
pub open spec fn unknown_frame(number: u64) -> Seq<char> {
    "rav1e returned unknown input frame "@ + crate::text::decimal(number as nat)
}

/// The taking of packets, one answer further: a packet gets the time of the
/// picture that it shows, which is then pending no more.
pub open spec fn taken(track: TrackId, g: Gathering, reply: ReplyModel) -> Gathering {
    match (g.taking, reply) {
        (Taking::Going, ReplyModel::Packet { number, kind, data }) => if g.pending.contains_key(
            number,
        ) {
            Gathering {
                pending: g.pending.remove(number),
                packets: g.packets.push(
                    PacketModel {
                        track,
                        pts: g.pending[number],
                        keyframe: kind == FrameType::Key,
                        data,
                    },
                ),
                numbers: g.numbers.push(number),
                taking: Taking::Going,
            }
        } else {
            Gathering { taking: Taking::Broken(unknown_frame(number)), ..g }
        },
        (Taking::Going, ReplyModel::NeedMoreData) => Gathering { taking: Taking::Done, ..g },
        (Taking::Going, ReplyModel::LimitReached) => Gathering { taking: Taking::Done, ..g },
        (Taking::Going, ReplyModel::Failed(text)) => Gathering {
            taking: Taking::Broken("rav1e: "@ + text),
            ..g
        },
        _ => g,
    }
}

/// The taking of packets over some answers.
pub open spec fn gathered(track: TrackId, g: Gathering, log: Seq<ReplyModel>) -> Gathering
    decreases log.len(),
{
    if log.len() == 0 {
        g
    } else {
        taken(track, gathered(track, g, log.drop_last()), log.last())
    }
}

/// Whether rav1e was asked for as long as there might be more and not once more:
/// every answer but the last left that open, and the last did not unless there
/// was no end to them.
pub open spec fn asked_out(track: TrackId, held: Map<u64, Duration>, log: Seq<ReplyModel>) -> bool {
    &&& log.len() > 0 ==> gathered(track, gathering(held), log.drop_last()).taking is Going
    &&& gathered(track, gathering(held), log).taking is Going ==> log.len() == u64::MAX
}

/// What rav1e answered an encoder from one state of it to a later one.
pub open spec fn heard(before: Av1Encoder, after: Av1Encoder) -> Seq<ReplyModel> {
    crate::codec::av1::session::replies(after.session).skip(
        crate::codec::av1::session::replies(before.session).len() as int,
    )
}

/// Whether what rav1e answered an encoder is what it had answered before and
/// then `log`.
pub open spec fn answered(before: Av1Encoder, after: Av1Encoder, log: Seq<ReplyModel>) -> bool {
    crate::codec::av1::session::replies(after.session)
        == crate::codec::av1::session::replies(before.session) + log
}

/// What is returned when the taking ended as it did.
pub open spec fn ends_as(g: Gathering, r: Result<(), Error>) -> bool {
    match g.taking {
        Taking::Done => r is Ok,
        Taking::Broken(message) => r matches Err(e) && e.is_encode(message),
        Taking::Going => r matches Err(e) && e.is_encode("rav1e: there is no end to the packets"@),
    }
}

/// What `encode` and `encode_keyframe` do: refuse a picture that does not fit,
/// and otherwise count it, hand it over, and take the packets that are ready.
pub open spec fn encodes(
    before: Av1Encoder,
    frame: Frame,
    key: bool,
    after: Av1Encoder,
    r: Result<Vec<Packet>, Error>,
) -> bool {
    let held = before.pending@.insert(before.next_frameno, frame.pts);
    let had = crate::codec::av1::session::submitted(before.session);
    match frame_fault(frame, before.width, before.height) {
        Some(message) => after == before && (r matches Err(e) && e.is_encode(message)),
        None => {
            &&& after.same_setup(before)
            &&& after.next_frameno == before.next_frameno + 1
            &&& if crate::codec::av1::session::is_closed(before.session) {
                &&& crate::codec::av1::session::is_closed(after.session)
                &&& crate::codec::av1::session::submitted(after.session) == had
                &&& answered(before, after, Seq::empty())
                &&& after.pending@ == held
                &&& r matches Err(e) && e.is_encode("rav1e: "@ + "EnoughData"@)
            } else {
                &&& crate::codec::av1::session::submitted(after.session) == had.push(
                    submission_of(frame, key),
                )
                &&& crate::codec::av1::session::is_closed(after.session) == (had.len()
                    == 0x7fff_fffe)
                &&& answered(before, after, heard(before, after))
                &&& encode_ends(before.track, held, heard(before, after), after, r)
            }
        },
    }
}

/// What `encode` returns when the taking of packets ended as it did.
pub open spec fn encode_ends(
    track: TrackId,
    held: Map<u64, Duration>,
    log: Seq<ReplyModel>,
    after: Av1Encoder,
    r: Result<Vec<Packet>, Error>,
) -> bool {
    let g = gathered(track, gathering(held), log);
    &&& asked_out(track, held, log)
    &&& after.pending@ == g.pending
    &&& match r {
        Ok(packets) => g.taking is Done && crate::media::packet_models(packets@) == g.packets,
        Err(e) => ends_as(g, Err(e)),
    }
}

/// What `flush` returns when the taking of packets ended as it did: the
/// packets, if no picture is left without one.
pub open spec fn flush_ends(
    track: TrackId,
    held: Map<u64, Duration>,
    log: Seq<ReplyModel>,
    after: Av1Encoder,
    r: Result<Vec<Packet>, Error>,
) -> bool {
    let g = gathered(track, gathering(held), log);
    &&& asked_out(track, held, log)
    &&& after.pending@ == g.pending
    &&& match r {
        Ok(packets) => g.taking is Done && g.pending.len() == 0 && crate::media::packet_models(
            packets@,
        ) == g.packets,
        Err(e) => if g.taking is Done {
            g.pending.len() > 0 && e.is_encode(
                "rav1e flush left "@ + crate::text::decimal(g.pending.len())
                    + " frame timestamp(s) pending"@,
            )
        } else {
            ends_as(g, Err(e))
        },
    }
}

/// What `flush` does: it ends the stream and takes the packets still to come.
pub open spec fn flushes(before: Av1Encoder, after: Av1Encoder, r: Result<Vec<Packet>, Error>) -> bool {
    &&& after.same_setup(before)
    &&& after.next_frameno == before.next_frameno
    &&& crate::codec::av1::session::submitted(after.session)
        == crate::codec::av1::session::submitted(before.session)
    &&& crate::codec::av1::session::is_closed(after.session)
    &&& answered(before, after, heard(before, after))
    &&& flush_ends(before.track, before.pending@, heard(before, after), after, r)
}

/// Encodes decoded pictures to AV1.
pub struct Av1Encoder {
    pub session: Session,
    pub track: TrackId,
    pub width: u32,
    pub height: u32,
    /// The time of each picture handed over whose packet has not come yet, by
    /// its number. A packet may lag behind its picture, so its time has to
    /// travel with the number.
    pub pending: HashMap<u64, Duration>,
    pub next_frameno: u64,
}

impl Av1Encoder {
    /// The session is one for pictures of the encoder's size.
    pub open spec fn wf(self) -> bool {
        let config = crate::codec::av1::session::made_with(self.session);
        config.accepted() && config.width == self.width && config.height == self.height
    }

    /// Whether the session's settings, the track and the size are another
    /// encoder's.
    pub open spec fn same_setup(self, other: Av1Encoder) -> bool {
        &&& crate::codec::av1::session::made_with(self.session)
            == crate::codec::av1::session::made_with(other.session)
        &&& self.track == other.track
        &&& self.width == other.width
        &&& self.height == other.height
    }

    /// A fresh encoder.
    pub open spec fn is_new(self, track: TrackId, width: u32, height: u32, config: EncoderConfig) -> bool {
        &&& self.track == track
        &&& self.width == width
        &&& self.height == height
        &&& self.pending@ == Map::<u64, Duration>::empty()
        &&& self.next_frameno == 0
        &&& crate::codec::av1::session::made_with(self.session) == config
        &&& crate::codec::av1::session::submitted(self.session).len() == 0
        &&& crate::codec::av1::session::replies(self.session).len() == 0
        &&& !crate::codec::av1::session::is_closed(self.session)
    }

    /// An encoder with the default settings. `bitrate` is in bits per second.
    /// `fps` sets the key frame interval and the time base of the rate
    /// control; pictures are otherwise encoded in the order of the calls.
    pub fn new(track: TrackId, width: u32, height: u32, fps: u32, bitrate: i32) -> (r: Result<
        Av1Encoder,
        Error,
    >)
        requires
            (Av1Settings { speed: 10, tiles: 16, low_latency: true, threads: 0 }).config(
                width,
                height,
                fps,
                bitrate,
            ).in_reach(),
        ensures
            ({
                let config = (Av1Settings {
                    speed: 10,
                    tiles: 16,
                    low_latency: true,
                    threads: 0,
                }).config(width, height, fps, bitrate);
                match r {
                    Ok(e) => config.accepted() && e.wf() && e.is_new(track, width, height, config),
                    Err(e) => !config.accepted() && e.is_encode(
                        "rav1e: "@ + crate::codec::av1::session::refusal_of(config),
                    ),
                }
            }),
    {
        let settings = Av1Settings::default();
        assert(settings == Av1Settings { speed: 10, tiles: 16, low_latency: true, threads: 0 });
        Av1Encoder::with_settings(track, width, height, fps, bitrate, settings)
    }

    /// An encoder with settings of one's own.
    pub fn with_settings(
        track: TrackId,
        width: u32,
        height: u32,
        fps: u32,
        bitrate: i32,
        settings: Av1Settings,
    ) -> (r: Result<Av1Encoder, Error>)
        requires
            settings.config(width, height, fps, bitrate).in_reach(),
        ensures
            ({
                let config = settings.config(width, height, fps, bitrate);
                match r {
                    Ok(e) => config.accepted() && e.wf() && e.is_new(track, width, height, config),
                    Err(e) => !config.accepted() && e.is_encode(
                        "rav1e: "@ + crate::codec::av1::session::refusal_of(config),
                    ),
                }
            }),
    {
        let config = settings.encoder_config(width, height, fps, bitrate);
        match start(&config) {
            Ok(session) => Ok(
                Av1Encoder {
                    session,
                    track,
                    width,
                    height,
                    pending: HashMap::new(),
                    next_frameno: 0,
                },
            ),
            Err(text) => Err(rav1e_error(text.as_str())),
        }
    }

    /// The codec of the packets.
    pub fn codec(&self) -> (r: Codec)
        ensures
            r == Codec::Av1,
    {
        Codec::Av1
    }

    /// The codec configuration record: version 1, profile 0 at the highest
    /// level, 8-bit 4:2:0.
    pub fn extra_data(&self) -> (r: Vec<u8>)
        ensures
            r@ == seq![0x81u8, 0x1f, 0x0c, 0x00],
    {
        sequence_header(&self.session)
    }

    /// Our packet for one of rav1e's: it takes the time of the picture that
    /// it shows.
    pub fn packet_from(&mut self, pkt: CodedPacket) -> (r: Result<Packet, Error>)
        ensures
            final(self).session == old(self).session,
            final(self).track == old(self).track,
            final(self).width == old(self).width,
            final(self).height == old(self).height,
            final(self).next_frameno == old(self).next_frameno,
            final(self).pending@ == old(self).pending@.remove(pkt.input_frameno),
            match r {
                Ok(p) => old(self).pending@.contains_key(pkt.input_frameno) && p@ == (PacketModel {
                    track: old(self).track,
                    pts: old(self).pending@[pkt.input_frameno],
                    keyframe: pkt.frame_type == FrameType::Key,
                    data: pkt.data@,
                }),
                Err(e) => !old(self).pending@.contains_key(pkt.input_frameno) && e.is_encode(
                    unknown_frame(pkt.input_frameno),
                ),
            },
    {
        match self.pending.remove(&pkt.input_frameno) {
            Some(pts) => Ok(
                Packet {
                    track: self.track,
                    pts,
                    keyframe: pkt.frame_type == FrameType::Key,
                    data: pkt.data,
                },
            ),
            None => {
                assert(self.pending@ =~= old(self).pending@.remove(pkt.input_frameno));
                let mut m = "rav1e returned unknown input frame ".to_owned();
                put_number(&mut m, pkt.input_frameno as u128);
                Err(Error::encode(m.as_str()))
            },
        }
    }

    /// Takes one of rav1e's answers. Returns whether there may be more.
    pub fn take(&mut self, reply: Reply, out: &mut Vec<Packet>) -> (r: Result<bool, Error>)
        ensures
            final(self).session == old(self).session,
            final(self).track == old(self).track,
            final(self).width == old(self).width,
            final(self).height == old(self).height,
            final(self).next_frameno == old(self).next_frameno,
            forall|numbers: Seq<u64>|
                ({
                    let g = #[trigger] taken(
                        old(self).track,
                        Gathering {
                            pending: old(self).pending@,
                            packets: crate::media::packet_models(old(out)@),
                            numbers,
                            taking: Taking::Going,
                        },
                        reply@,
                    );
                    &&& final(self).pending@ == g.pending
                    &&& crate::media::packet_models(final(out)@) == g.packets
                    &&& match r {
                        Ok(more) => more == (g.taking is Going) && (g.taking is Going
                            || g.taking is Done),
                        Err(e) => g.taking matches Taking::Broken(m) && e.is_encode(m),
                    }
                }),
    {
        match reply {
            Reply::Packet(pkt) => {
                let ghost number = pkt.input_frameno;
                let ghost before = out@;
                match self.packet_from(pkt) {
                    Ok(packet) => {
                        out.push(packet);
                        assert(crate::media::packet_models(out@) =~= crate::media::packet_models(
                            before,
                        ).push(packet@));
                        Ok(true)
                    },
                    Err(e) => {
                        assert(self.pending@ =~= old(self).pending@);
                        Err(e)
                    },
                }
            },
            Reply::Encoded => Ok(true),
            Reply::NeedMoreData => Ok(false),
            Reply::LimitReached => Ok(false),
            Reply::Failed(text) => Err(rav1e_error(text.as_str())),
        }
    }

    /// Takes every packet that is ready, without waiting for more input.
    fn drain(&mut self, out: &mut Vec<Packet>) -> (r: Result<(), Error>)
        requires
            old(out)@.len() == 0,
        ensures
            final(self).same_setup(*old(self)),
            final(self).next_frameno == old(self).next_frameno,
            crate::codec::av1::session::submitted(final(self).session)
                == crate::codec::av1::session::submitted(old(self).session),
            crate::codec::av1::session::is_closed(final(self).session)
                == crate::codec::av1::session::is_closed(old(self).session),
            answered(*old(self), *final(self), heard(*old(self), *final(self))),
            asked_out(
                old(self).track,
                old(self).pending@,
                heard(*old(self), *final(self)),
            ),
            ({
                let g = gathered(
                    old(self).track,
                    gathering(old(self).pending@),
                    heard(*old(self), *final(self)),
                );
                &&& final(self).pending@ == g.pending
                &&& crate::media::packet_models(final(out)@) == g.packets
                &&& ends_as(g, r)
            }),
    {
        let ghost before = *self;
        let ghost mut log: Seq<ReplyModel> = Seq::empty();
        assert(crate::media::packet_models(out@) =~= Seq::<PacketModel>::empty());
        let mut asked: u64 = 0;
        proof {
            lemma_heard(before, *self, log);
        }
        while asked < u64::MAX
            invariant
                before == *old(self),
                answered(before, *self, log),
                log == heard(before, *self),
                log.len() == asked,
                log.len() > 0 ==> gathered(
                    before.track,
                    gathering(before.pending@),
                    log.drop_last(),
                ).taking is Going,
                self.same_setup(before),
                self.next_frameno == before.next_frameno,
                crate::codec::av1::session::submitted(self.session)
                    == crate::codec::av1::session::submitted(before.session),
                crate::codec::av1::session::is_closed(self.session)
                    == crate::codec::av1::session::is_closed(before.session),
                self.pending@ == gathered(before.track, gathering(before.pending@), log).pending,
                crate::media::packet_models(out@) == gathered(
                    before.track,
                    gathering(before.pending@),
                    log,
                ).packets,
                gathered(before.track, gathering(before.pending@), log).taking is Going,
            decreases u64::MAX - asked,
        {
            asked = asked + 1;
            let ghost g = gathered(before.track, gathering(before.pending@), log);
            let reply = receive(&mut self.session);
            proof {
                let was = log;
                log = log.push(reply@);
                assert(log.drop_last() =~= was);
                assert(gathered(before.track, gathering(before.pending@), log) == taken(
                    before.track,
                    g,
                    reply@,
                ));
                assert(g == Gathering { taking: Taking::Going, ..g });
                lemma_heard(before, *self, log);
            }
            match self.take(reply, out) {
                Ok(true) => {},
                Ok(false) => {
                    return Ok(());
                },
                Err(e) => {
                    return Err(e);
                },
            }
        }
        Err(Error::encode("rav1e: there is no end to the packets"))
    }

    /// Whether a picture fits the encoder.
    fn check(&self, frame: &Frame) -> (r: Result<(), Error>)
        ensures
            match frame_fault(*frame, self.width, self.height) {
                Some(message) => r matches Err(e) && e.is_encode(message),
                None => r is Ok,
            },
    {
        if frame.width != self.width || frame.height != self.height {
            let mut m = "frame is ".to_owned();
            put_number(&mut m, frame.width as u128);
            m.append("x");
            put_number(&mut m, frame.height as u128);
            m.append(", encoder configured for ");
            put_number(&mut m, self.width as u128);
            m.append("x");
            put_number(&mut m, self.height as u128);
            return Err(Error::encode(m.as_str()));
        }
        let (w, h): (usize, usize) = (frame.width as usize, frame.height as usize);
        let (cw, ch): (usize, usize) = (half_of(w), half_of(h));
        validate_plane("Y", frame.planes[0].as_slice(), frame.strides[0], w, h)?;
        validate_plane("U", frame.planes[1].as_slice(), frame.strides[1], cw, ch)?;
        validate_plane("V", frame.planes[2].as_slice(), frame.strides[2], cw, ch)
    }

    /// Hands a picture that fits to rav1e.
    fn hand_over(&mut self, frame: &Frame, key: bool) -> (r: Result<(), String>)
        requires
            old(self).wf(),
            frame_fault(*frame, old(self).width, old(self).height) is None,
        ensures
            final(self).same_setup(*old(self)),
            final(self).next_frameno == old(self).next_frameno,
            final(self).pending == old(self).pending,
            answered(*old(self), *final(self), Seq::empty()),
            r is Ok <==> !crate::codec::av1::session::is_closed(old(self).session),
            r matches Err(text) ==> text@ == "EnoughData"@
                && crate::codec::av1::session::is_closed(final(self).session)
                && crate::codec::av1::session::submitted(final(self).session)
                == crate::codec::av1::session::submitted(old(self).session),
            r is Ok ==> crate::codec::av1::session::submitted(final(self).session)
                == crate::codec::av1::session::submitted(old(self).session).push(
                submission_of(*frame, key),
            ) && crate::codec::av1::session::is_closed(final(self).session) == (
            crate::codec::av1::session::submitted(old(self).session).len() == 0x7fff_fffe),
    {
        let (w, h): (usize, usize) = (frame.width as usize, frame.height as usize);
        let (cw, ch): (usize, usize) = (half_of(w), half_of(h));
        let y = pack(frame.planes[0].as_slice(), frame.strides[0], w, h);
        let u = pack(frame.planes[1].as_slice(), frame.strides[1], cw, ch);
        let v = pack(frame.planes[2].as_slice(), frame.strides[2], cw, ch);
        let planes: [&[u8]; 3] = [y.as_slice(), u.as_slice(), v.as_slice()];
        submit(&mut self.session, planes, w, cw, key)
    }

    /// Encodes a picture, as a key frame where one is asked for.
    fn push(&mut self, frame: &Frame, key: bool) -> (r: Result<Vec<Packet>, Error>)
        requires
            old(self).wf(),
            old(self).next_frameno < u64::MAX,
        ensures
            final(self).wf(),
            encodes(*old(self), *frame, key, *final(self), r),
    {
        if let Err(e) = self.check(frame) {
            return Err(e);
        }
        self.pending.insert(self.next_frameno, frame.pts);
        self.next_frameno = self.next_frameno + 1;
        if let Err(text) = self.hand_over(frame, key) {
            return Err(rav1e_error(text.as_str()));
        }
        let ghost handed = *self;
        let mut out: Vec<Packet> = Vec::new();
        let ended = self.drain(&mut out);
        assert(heard(handed, *self) == heard(*old(self), *self));
        if let Err(e) = ended {
            return Err(e);
        }
        Ok(out)
    }

    /// Encodes a picture. The packets returned may be those of earlier ones.
    pub fn encode(&mut self, frame: &Frame) -> (r: Result<Vec<Packet>, Error>)
        requires
            old(self).wf(),
            old(self).next_frameno < u64::MAX,
        ensures
            final(self).wf(),
            encodes(*old(self), *frame, false, *final(self), r),
    {
        self.push(frame, false)
    }

    /// Encodes a picture as a key frame.
    pub fn encode_keyframe(&mut self, frame: &Frame) -> (r: Result<Vec<Packet>, Error>)
        requires
            old(self).wf(),
            old(self).next_frameno < u64::MAX,
        ensures
            final(self).wf(),
            encodes(*old(self), *frame, true, *final(self), r),
    {
        self.push(frame, true)
    }

    /// Ends the stream and returns the packets still to come. That a picture
    /// is left without a packet is an error.
    pub fn flush(&mut self) -> (r: Result<Vec<Packet>, Error>)
        requires
            old(self).wf(),
        ensures
            final(self).wf(),
            flushes(*old(self), *final(self), r),
    {
        finish(&mut self.session);
        let ghost closed = *self;
        let mut out: Vec<Packet> = Vec::new();
        let ended = self.drain(&mut out);
        assert(heard(closed, *self) == heard(*old(self), *self));
        if let Err(e) = ended {
            return Err(e);
        }
        let left: usize = self.pending.len();
        if left > 0 {
            let mut m = "rav1e flush left ".to_owned();
            put_number(&mut m, left as u128);
            m.append(" frame timestamp(s) pending");
            let e = Error::encode(m.as_str());
            return Err(e);
        }
        Ok(out)
    }
}

/// What was heard is what was answered beyond what had been.
proof fn lemma_heard(before: Av1Encoder, after: Av1Encoder, log: Seq<ReplyModel>)
    requires
        crate::codec::av1::session::replies(after.session)
            =~= crate::codec::av1::session::replies(before.session) + log,
    ensures
        answered(before, after, log),
        heard(before, after) == log,
{
    assert(heard(before, after) =~= log);
}

/// The error for something that rav1e said.
fn rav1e_error(text: &str) -> (e: Error)
    ensures
        e.is_encode("rav1e: "@ + text@),
{
    let mut m = "rav1e: ".to_owned();
    m.append(text);
    Error::encode(m.as_str())
}

/// Half a length, rounded up.
fn half_of(n: usize) -> (r: usize)
    ensures
        r == half(n as nat),
{
    n / 2 + n % 2
}

/// Whether a plane holds its shown samples.
pub fn validate_plane(name: &str, data: &[u8], stride: usize, width: usize, height: usize) -> (r:
    Result<(), Error>)
    ensures
        match plane_fault(name@, data@.len(), stride as nat, width as nat, height as nat) {
            Some(message) => r matches Err(e) && e.is_encode(message),
            None => r is Ok,
        },
{
    let mut m = name.to_owned();
    if stride < width {
        m.append(" plane stride ");
        put_number(&mut m, stride as u128);
        m.append(" is smaller than width ");
        put_number(&mut m, width as u128);
        return Err(Error::encode(m.as_str()));
    }
    let required: usize = if height == 0 {
        0
    } else {
        let rows: Option<usize> = (height - 1).checked_mul(stride);
        proof {
            assert((height - 1) * stride >= 0) by (nonlinear_arith)
                requires
                    height >= 1,
                    stride >= 0,
            ;
        }
        match rows {
            Some(offset) => match offset.checked_add(width) {
                Some(n) => n,
                None => {
                    m.append(" plane layout overflows usize");
                    return Err(Error::encode(m.as_str()));
                },
            },
            None => {
                m.append(" plane layout overflows usize");
                return Err(Error::encode(m.as_str()));
            },
        }
    };
    if data.len() < required {
        m.append(" plane has ");
        put_number(&mut m, data.len() as u128);
        m.append(" bytes; ");
        put_number(&mut m, required as u128);
        m.append(" required for ");
        put_number(&mut m, width as u128);
        m.append("x");
        put_number(&mut m, height as u128);
        m.append(" at stride ");
        put_number(&mut m, stride as u128);
        return Err(Error::encode(m.as_str()));
    }
    Ok(())
}

/// Whatever rav1e answers, each packet carries the time of a picture that was
/// pending, no picture gets two, and the pictures that got none are those
/// still pending.
pub proof fn law_each_time_leaves_once(
    track: TrackId,
    pending: Map<u64, Duration>,
    log: Seq<ReplyModel>,
)
    ensures
        ({
            let g = gathered(track, gathering(pending), log);
            &&& g.numbers.len() == g.packets.len()
            &&& g.numbers.no_duplicates()
            &&& forall|i: int|
                0 <= i < g.numbers.len() ==> pending.contains_key(#[trigger] g.numbers[i])
                    && g.packets[i].pts == pending[g.numbers[i]] && g.packets[i].track == track
            &&& forall|n: u64| #[trigger]
                g.pending.contains_key(n) <==> pending.contains_key(n) && !g.numbers.contains(n)
            &&& forall|n: u64| #[trigger]
                g.pending.contains_key(n) ==> g.pending[n] == pending[n]
        }),
    decreases log.len(),
{
    if log.len() > 0 {
        law_each_time_leaves_once(track, pending, log.drop_last());
        let g = gathered(track, gathering(pending), log.drop_last());
        let h = gathered(track, gathering(pending), log);
        if h.numbers.len() > g.numbers.len() {
            let number = h.numbers.last();
            assert(h.numbers == g.numbers.push(number));
            assert(h.numbers[g.numbers.len() as int] == number);
            assert(h.numbers.contains(number));
            assert forall|n: u64| #[trigger]
                h.pending.contains_key(n) <==> pending.contains_key(n) && !h.numbers.contains(n) by {
                if g.numbers.contains(n) {
                    let i = choose|i: int| 0 <= i < g.numbers.len() && g.numbers[i] == n;
                    assert(h.numbers[i] == n);
                }
            }
        }
    }
}

/// A flush that succeeds returns the time of every picture that was pending,
/// each exactly once.
pub proof fn law_flush_returns_every_time(
    track: TrackId,
    pending: Map<u64, Duration>,
    log: Seq<ReplyModel>,
    number: u64,
)
    requires
        pending.contains_key(number),
        gathered(track, gathering(pending), log).pending == Map::<u64, Duration>::empty(),
    ensures
        ({
            let g = gathered(track, gathering(pending), log);
            exists|i: int|
                0 <= i < g.packets.len() && #[trigger] g.numbers[i] == number && g.packets[i].pts
                    == pending[number]
        }),
{
    law_each_time_leaves_once(track, pending, log);
    let g = gathered(track, gathering(pending), log);
    assert(!g.pending.contains_key(number));
    assert(g.numbers.contains(number));
    let i = choose|i: int| 0 <= i < g.numbers.len() && g.numbers[i] == number;
    assert(g.numbers[i] == number);
}

/// A picture is taken exactly where it has the size of the encoder and every plane
/// has rows of at least its width and holds the last of them; chroma planes are
/// half as wide and as high, rounded up.
pub proof fn law_pictures_of_the_right_shape_are_taken(frame: Frame, width: u32, height: u32)
    requires
        height > 0,
    ensures
        frame_fault(frame, width, height) is None <==> {
            &&& frame.width == width
            &&& frame.height == height
            &&& forall|p: int|
                0 <= p < 3 ==> {
                    let w = if p == 0 {
                        width as int
                    } else {
                        (width as int + 1) / 2
                    };
                    let h = if p == 0 {
                        height as int
                    } else {
                        (height as int + 1) / 2
                    };
                    let stride = frame.strides@[p] as int;
                    &&& stride >= w
                    &&& (h - 1) * stride + w <= usize::MAX
                    &&& (h - 1) * stride + w <= (#[trigger] frame.planes@[p])@.len()
                }
        },
{
    let (y, u, v) = (frame.planes@[0], frame.planes@[1], frame.planes@[2]);
}

/// The time base is one frame, and a key frame comes every two seconds: after as
/// many frames as two seconds hold.
pub proof fn law_key_frames_come_every_two_seconds(
    settings: Av1Settings,
    width: u32,
    height: u32,
    fps: u32,
    bitrate: i32,
)
    ensures
        ({
            let c = settings.config(width, height, fps, bitrate);
            &&& c.width == width && c.height == height && c.bitrate == bitrate
            &&& fps > 0 ==> c.time_base_num * fps == c.time_base_den
            &&& c.min_key_frame_interval == c.max_key_frame_interval
            &&& c.max_key_frame_interval * c.time_base_num == 2 * c.time_base_den
            &&& c.speed == settings.speed && c.tiles == settings.tiles && c.threads
                == settings.threads && c.low_latency == settings.low_latency
        }),
{
}

/// A packet carries the time of the picture that it shows, under the track of the
/// encoder, and says whether it is a key frame; that picture is then settled, and
/// no other.
pub proof fn law_packets_carry_the_time_of_their_picture(
    track: TrackId,
    g: Gathering,
    number: u64,
    kind: FrameType,
    data: Seq<u8>,
    other: u64,
)
    requires
        g.taking is Going,
        g.pending.contains_key(number),
        other != number,
    ensures
        ({
            let after = taken(track, g, ReplyModel::Packet { number, kind, data });
            let pkt = after.packets.last();
            &&& after.taking is Going
            &&& after.packets.len() == g.packets.len() + 1
            &&& pkt.track == track && pkt.pts == g.pending[number] && pkt.data == data
            &&& pkt.keyframe <==> kind == FrameType::Key
            &&& !after.pending.contains_key(number)
            &&& after.pending.contains_key(other) == g.pending.contains_key(other)
            &&& g.pending.contains_key(other) ==> after.pending[other] == g.pending[other]
        }),
{
}

} // verus!
