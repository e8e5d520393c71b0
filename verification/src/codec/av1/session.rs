//! rav1e, as the encoder uses it.
use vstd::prelude::*;

verus! {

/// How rav1e is set up. Pictures are 8-bit 4:2:0, which is what rav1e's own
/// defaults say.
#[derive(Debug, Clone, Copy, PartialEq, Eq, Structural)]
pub struct EncoderConfig {
    pub width: usize,
    pub height: usize,
    pub time_base_num: u64,
    pub time_base_den: u64,
    pub speed: u8,
    /// In bits per second.
    pub bitrate: i32,
    pub low_latency: bool,
    pub tiles: usize,
    pub min_key_frame_interval: u64,
    pub max_key_frame_interval: u64,
    /// Zero lets rav1e use its global thread pool.
    pub threads: usize,
}

/// The smallest power of two from `at` on that reaches `n`.
pub open spec fn power_reaching(n: nat, at: nat) -> nat
    decreases if at >= n { 0int } else { n - at },
{
    if at == 0 || at >= n {
        at
    } else {
        power_reaching(n, at * 2)
    }
}

/// A length rounded up to blocks of 8 samples.
pub open spec fn padded(n: nat) -> nat {
    (n + 7) / 8 * 8
}

/// A length in superblocks of 64 samples.
pub open spec fn superblocks(n: nat) -> nat {
    (n + 63) / 64
}

impl EncoderConfig {
    /// Whether rav1e takes the settings: both sides from 16 to 65535, a key
    /// frame interval of at most a third of the largest `i32`, and a time
    /// base in 32 bits without a zero.
    pub open spec fn accepted(self) -> bool {
        &&& 16 <= self.width <= 65535
        &&& 16 <= self.height <= 65535
        &&& self.max_key_frame_interval <= 715_827_882
        &&& 1 <= self.time_base_num <= 0xffff_ffff
        &&& 1 <= self.time_base_den <= 0xffff_ffff
    }

    /// Whether the samples to code in a second, those of the padded picture,
    /// can be spread over as many tiles as it has room for.
    pub open spec fn spreads(self) -> bool {
        let rows = superblocks(self.height as nat);
        let most = power_reaching(if rows < 64 { rows } else { 64 }, 1);
        let least = power_reaching(superblocks(superblocks(self.width as nat)), 1);
        padded(self.width as nat) * padded(self.height as nat) * self.time_base_den < 588_251_136
            * most * least
    }

    /// Whether rav1e answers at all: either it refuses the settings, or it
    /// can spread the work.
    pub open spec fn in_reach(self) -> bool {
        self.accepted() ==> self.spreads()
    }

    /// Whether rav1e answers at all: a caller that cannot be sure asks this
    /// first.
    pub fn is_in_reach(&self) -> (r: bool)
        ensures
            r == self.in_reach(),
    {
        if !(16 <= self.width && self.width <= 65535 && 16 <= self.height && self.height <= 65535
            && self.max_key_frame_interval <= 715_827_882 && 1 <= self.time_base_num
            && self.time_base_num <= 0xffff_ffff && 1 <= self.time_base_den && self.time_base_den
            <= 0xffff_ffff) {
            return true;
        }
        let rows: usize = (self.height + 63) / 64;
        let most: usize = power_from(if rows < 64 {
            rows
        } else {
            64
        });
        let columns: usize = (self.width + 63) / 64;
        let least: usize = power_from((columns + 63) / 64);
        let (w, h, den): (u128, u128, u128) = (
            ((self.width + 7) / 8 * 8) as u128,
            ((self.height + 7) / 8 * 8) as u128,
            self.time_base_den as u128,
        );
        proof {
            assert(w * h <= 65536 * 65536) by (nonlinear_arith)
                requires
                    w <= 65536,
                    h <= 65536,
            ;
            assert((w * h) * den <= 65536 * 65536 * 0xffff_ffff) by (nonlinear_arith)
                requires
                    w * h <= 65536 * 65536,
                    den <= 0xffff_ffff,
            ;
            assert(588_251_136 * most <= 588_251_136 * 0x1_0000);
            assert((588_251_136 * most) * least <= 588_251_136 * 0x1_0000 * 0x1_0000)
                by (nonlinear_arith)
                requires
                    588_251_136 * most <= 588_251_136 * 0x1_0000,
                    least <= 0x1_0000,
            ;
        }
        w * h * den < 588_251_136 * (most as u128) * (least as u128)
    }
}

/// The smallest power of two that reaches `n`.
fn power_from(n: usize) -> (r: usize)
    requires
        n <= 0x8000,
    ensures
        r == power_reaching(n as nat, 1),
        r <= 0x1_0000,
{
    let mut at: usize = 1;
    while at < n
        invariant
            1 <= at <= 0x1_0000,
            n <= 0x8000,
            power_reaching(n as nat, 1) == power_reaching(n as nat, at as nat),
        decreases 0x2_0000 - at,
    {
        at = at * 2;
    }
    at
}

/// A picture as it is handed over, its planes tightly packed.
#[verifier::ext_equal]
pub struct Submission {
    pub y: Seq<u8>,
    pub u: Seq<u8>,
    pub v: Seq<u8>,
    /// Whether it has to become a key frame.
    pub key: bool,
}

/// What kind of frame a packet shows.
#[derive(Debug, Clone, Copy, PartialEq, Eq, Structural)]
pub enum FrameType {
    Key,
    Inter,
    IntraOnly,
    Switch,
}

/// One packet as rav1e returns it.
#[derive(Debug)]
pub struct CodedPacket {
    /// The number, in the order of submission, of the picture that it shows.
    pub input_frameno: u64,
    pub frame_type: FrameType,
    pub data: Vec<u8>,
}

/// What rav1e answers when it is asked for a packet.
#[derive(Debug)]
pub enum Reply {
    Packet(CodedPacket),
    /// A frame was coded, and nothing is shown yet.
    Encoded,
    NeedMoreData,
    LimitReached,
    /// Anything else, as text.
    Failed(String),
}

/// An encoding in progress: rav1e's `Context<u8>`.
#[verifier::external_body]
pub struct Session {
    inner: rav1e::prelude::Context<u8>,
}

/// The pictures that a session has been handed.
pub uninterp spec fn submitted(session: Session) -> Seq<Submission>;

/// The settings that a session was made with.
pub uninterp spec fn made_with(session: Session) -> EncoderConfig;

/// Whether a session takes no more pictures.
pub uninterp spec fn is_closed(session: Session) -> bool;

/// What a session has answered when it was asked for packets, in order.
pub uninterp spec fn replies(session: Session) -> Seq<crate::codec::av1::ReplyModel>;

/// What rav1e says of settings that it does not take.
pub uninterp spec fn refusal_of(config: EncoderConfig) -> Seq<char>;

/// rav1e's `Config::new_context`, on `Config::new` with an encoder
/// configuration that holds `SpeedSettings::from_preset` of the speed and
/// rav1e's defaults beside what is given. It answers a context exactly where
/// `Config::validate` finds nothing; the context has been handed nothing yet.
/// What it says otherwise, in its `Debug` form, depends on the settings alone.
/// It stops the program where the sample rate asks for more tiles than the
/// picture has room for, or where the threads cannot be started.
#[verifier::external_body]
pub(crate) fn start(config: &EncoderConfig) -> (r: Result<Session, String>)
    requires
        config.time_base_num == 1,
        config.in_reach(),
    ensures
        r is Ok <==> config.accepted(),
        r matches Ok(s) ==> made_with(s) == *config && submitted(s) == Seq::<Submission>::empty()
            && replies(s) == Seq::<crate::codec::av1::ReplyModel>::empty() && !is_closed(s),
        r matches Err(text) ==> text@ == refusal_of(*config),
{
    let EncoderConfig { width, height, bitrate, low_latency, tiles, .. } = *config;
    let enc = rav1e::prelude::EncoderConfig {
        width, height, bitrate, low_latency, tiles,
        time_base: rav1e::prelude::Rational::new(config.time_base_num, config.time_base_den),
        speed_settings: rav1e::config::SpeedSettings::from_preset(config.speed),
        min_key_frame_interval: config.min_key_frame_interval,
        max_key_frame_interval: config.max_key_frame_interval,
        ..Default::default()
    };
    let built = rav1e::prelude::Config::new().with_encoder_config(enc).with_threads(config.threads);
    match built.new_context() {
        Ok(inner) => Ok(Session { inner }),
        Err(e) => Err(format!("{e:?}")),
    }
}

/// rav1e's `Context::container_sequence_header`. Of the sequence header it
/// holds the profile, the bit depth and the chroma sampling, which are the
/// same for every 8-bit 4:2:0 session.
#[verifier::external_body]
pub(crate) fn sequence_header(session: &Session) -> (r: Vec<u8>)
    ensures
        r@ == seq![0x81u8, 0x1f, 0x0c, 0x00],
{
    session.inner.container_sequence_header()
}

/// rav1e's `Context::send_frame`, with a frame from `Context::new_frame` that
/// `Plane::copy_from_raw_u8` filled, and a key frame override where one is
/// asked for. A session that is closed answers `EnoughData`. Another takes the
/// picture, and closes itself behind the last one that its rate control can
/// count.
#[verifier::external_body]
pub(crate) fn submit(
    session: &mut Session,
    planes: [&[u8]; 3],
    width: usize,
    chroma_width: usize,
    key: bool,
) -> (r: Result<(), String>)
    requires
        made_with(*old(session)).accepted(),
        width == made_with(*old(session)).width,
        chroma_width == (width + 1) / 2,
        planes@[0]@.len() == width * made_with(*old(session)).height,
        planes@[1]@.len() == chroma_width * ((made_with(*old(session)).height + 1) / 2),
        planes@[2]@.len() == chroma_width * ((made_with(*old(session)).height + 1) / 2),
    ensures
        made_with(*final(session)) == made_with(*old(session)),
        replies(*final(session)) == replies(*old(session)),
        r is Ok <==> !is_closed(*old(session)),
        r matches Err(text) ==> text@ == "EnoughData"@ && is_closed(*final(session))
            && submitted(*final(session)) == submitted(*old(session)),
        r is Ok ==> submitted(*final(session)) == submitted(*old(session)).push(
            Submission { y: planes@[0]@, u: planes@[1]@, v: planes@[2]@, key },
        ) && is_closed(*final(session)) == (submitted(*old(session)).len() == 0x7fff_fffe),
{
    let mut frame = session.inner.new_frame();
    frame.planes[0].copy_from_raw_u8(planes[0], width, 1);
    frame.planes[1].copy_from_raw_u8(planes[1], chroma_width, 1);
    frame.planes[2].copy_from_raw_u8(planes[2], chroma_width, 1);
    let forced = key.then_some(rav1e::prelude::FrameParameters {
        frame_type_override: rav1e::prelude::FrameTypeOverride::Key,
        ..Default::default()
    });
    session.inner.send_frame((frame, forced)).map_err(|e| format!("{e:?}"))
}

/// rav1e's `Context::receive_packet`. It codes what it has been handed and
/// takes nothing new. What it answers is the encoder's own affair: nothing is
/// said of it here but that it is remembered.
#[verifier::external_body]
pub(crate) fn receive(session: &mut Session) -> (r: Reply)
    ensures
        replies(*final(session)) == replies(*old(session)).push(r@),
        made_with(*final(session)) == made_with(*old(session)),
        submitted(*final(session)) == submitted(*old(session)),
        is_closed(*final(session)) == is_closed(*old(session)),
{
    match session.inner.receive_packet() {
        Ok(p) => {
            let frame_type = match p.frame_type {
                rav1e::prelude::FrameType::KEY => FrameType::Key,
                rav1e::prelude::FrameType::INTER => FrameType::Inter,
                rav1e::prelude::FrameType::INTRA_ONLY => FrameType::IntraOnly,
                rav1e::prelude::FrameType::SWITCH => FrameType::Switch,
            };
            Reply::Packet(CodedPacket { input_frameno: p.input_frameno, frame_type, data: p.data })
        }
        Err(rav1e::prelude::EncoderStatus::Encoded) => Reply::Encoded,
        Err(rav1e::prelude::EncoderStatus::NeedMoreData) => Reply::NeedMoreData,
        Err(rav1e::prelude::EncoderStatus::LimitReached) => Reply::LimitReached,
        Err(e) => Reply::Failed(format!("{e:?}")),
    }
}

/// rav1e's `Context::flush`. It ends the submissions and keeps those made.
#[verifier::external_body]
pub(crate) fn finish(session: &mut Session)
    ensures
        made_with(*final(session)) == made_with(*old(session)),
        replies(*final(session)) == replies(*old(session)),
        submitted(*final(session)) == submitted(*old(session)),
        is_closed(*final(session)),
{
    session.inner.flush();
}

} // verus!
