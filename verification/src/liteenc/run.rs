//! What `liteenc` decides, and the text that it prints.
use vstd::prelude::*;
use std::time::Duration;
use super::args::{CodecSpec, TranscodeArgs};
use crate::codec::av1::Av1Encoder;
use crate::codec::h264::avcc::{
    access_unit_to_annexb, access_unit_to_avcc, annexb_parameter_sets, is_avcc_record,
    nal_length_size, parameter_set_record,
};
use crate::codec::h264::decoder::Frontend;
use crate::error::Error;
use crate::media::{Codec, Frame, Packet, Track, TrackId, TrackKind};
use crate::probe::{container_from_path, Container};
use crate::registry::{can_read, can_write};
use crate::text::{put_left, put_number, put_padded};
use crate::time::longer;

verus! {

pub const EXIT_OK: i32 = 0;

pub const EXIT_ERROR: i32 = 1;

pub const EXIT_USAGE: i32 = 2;

pub const EXIT_UNSUPPORTED: i32 = 3;

pub const EXIT_OUTPUT_EXISTS: i32 = 4;

/// A failed run: the message to print and the status to exit with. The status
/// is what scripts read, so it is chosen where the failure is found.
#[derive(Debug)]
pub struct Failure {
    pub code: i32,
    pub message: String,
}

impl Failure {
    /// Whether this is a failure with this status and message.
    pub open spec fn says(self, code: i32, message: Seq<char>) -> bool {
        self.code == code && self.message@ == message
    }

    /// A failure.
    pub fn new(code: i32, message: &str) -> (f: Failure)
        ensures
            f.says(code, message@),
    {
        Failure { code, message: message.to_owned() }
    }

    /// What this build cannot do, as against a file that is broken.
    pub fn unsupported(message: &str) -> (f: Failure)
        ensures
            f.says(EXIT_UNSUPPORTED, message@),
    {
        Failure::new(EXIT_UNSUPPORTED, message)
    }
}

impl From<Error> for Failure {
    fn from(e: Error) -> (f: Failure) {
        match e {
            Error::Decode(message) => Failure { code: EXIT_ERROR, message },
            Error::Encode(message) => Failure { code: EXIT_ERROR, message },
            Error::Demux(message) => Failure { code: EXIT_ERROR, message },
            Error::Mux(message) => Failure { code: EXIT_ERROR, message },
            Error::Io(message) => Failure { code: EXIT_ERROR, message },
        }
    }
}

impl vstd::std_specs::convert::FromSpecImpl<Error> for Failure {
    open spec fn obeys_from_spec() -> bool {
        true
    }

    open spec fn from_spec(e: Error) -> Failure {
        match e {
            Error::Decode(message) => Failure { code: EXIT_ERROR, message },
            Error::Encode(message) => Failure { code: EXIT_ERROR, message },
            Error::Demux(message) => Failure { code: EXIT_ERROR, message },
            Error::Mux(message) => Failure { code: EXIT_ERROR, message },
            Error::Io(message) => Failure { code: EXIT_ERROR, message },
        }
    }
}

/// The failure for an error of the library.
fn failed(e: Error) -> (f: Failure)
    ensures
        f.says(EXIT_ERROR, e.text()),
{
    Failure::from(e)
}

// ---- Formats ------------------------------------------------------------------

/// The encoders in this build.
pub fn encoders_in_this_build() -> (r: &'static str)
    ensures
        r@ == "av1"@,
{
    "av1"
}

/// The codecs of a list that a container holds in a direction, one behind the
/// other.
pub open spec fn listed(container: Container, read: bool, codecs: Seq<Codec>) -> Seq<char>
    decreases codecs.len(),
{
    if codecs.len() == 0 {
        Seq::empty()
    } else {
        let before = listed(container, read, codecs.drop_last());
        let c = codecs.last();
        let holds = if read {
            crate::registry::readable(container, c)
        } else {
            crate::registry::writable(container, c)
        };
        if !holds {
            before
        } else if before.len() == 0 {
            c.called()
        } else {
            before + " "@ + c.called()
        }
    }
}

/// A line of the table of formats.
pub open spec fn format_row(container: Container, read: bool, codecs: Seq<Codec>) -> Seq<char> {
    let list = listed(container, read, codecs);
    crate::text::left(container.called(), 10) + " "@ + crate::text::left(
        if read {
            "read"@
        } else {
            "write"@
        },
        10,
    ) + " "@ + if list.len() == 0 {
        "-"@
    } else {
        list
    }
}

/// Writes a line of the table of formats.
pub fn describe_format(container: Container, read: bool, codecs: &Vec<Codec>) -> (r: String)
    ensures
        r@ == format_row(container, read, codecs@),
{
    let mut list = String::new();
    let n: usize = codecs.len();
    assert(codecs@.take(0) =~= Seq::<Codec>::empty());
    for i in 0..n
        invariant
            n == codecs@.len(),
            list@ == listed(container, read, codecs@.take(i as int)),
    {
        let c: Codec = codecs[i];
        assert(codecs@.take(i + 1).drop_last() =~= codecs@.take(i as int));
        let holds: bool = if read {
            can_read(container, c)
        } else {
            can_write(container, c)
        };
        if holds {
            if list.as_str().unicode_len() > 0 {
                list.append(" ");
                list.append(c.name());
            } else {
                list = c.name().to_owned();
            }
        }
    }
    assert(codecs@.take(n as int) =~= codecs@);
    let mut r = String::new();
    put_left(&mut r, container.name(), 10);
    r.append(" ");
    put_left(
        &mut r,
        if read {
            "read"
        } else {
            "write"
        },
        10,
    );
    r.append(" ");
    if list.as_str().unicode_len() == 0 {
        r.append("-");
    } else {
        r.append(list.as_str());
    }
    assert(r@ =~= format_row(container, read, codecs@));
    r
}

// ---- Probing ------------------------------------------------------------------

/// What has been seen of one stream.
#[derive(Debug, Clone, Copy)]
pub struct StreamStats {
    pub packets: u64,
    pub bytes: u64,
    pub last_pts: Duration,
}

impl Default for StreamStats {
    fn default() -> (r: StreamStats)
        ensures
            r.packets == 0,
            r.bytes == 0,
            crate::time::nanos(r.last_pts) == 0,
    {
        StreamStats { packets: 0, bytes: 0, last_pts: Duration::from_millis(0) }
    }
}

impl StreamStats {
    /// What has been seen with one packet more.
    pub open spec fn with(self, pkt: crate::media::PacketModel) -> StreamStats {
        StreamStats {
            packets: (self.packets + 1) as u64,
            bytes: (self.bytes + pkt.data.len()) as u64,
            last_pts: crate::time::spec_longer(self.last_pts, pkt.pts),
        }
    }

    /// Whether a packet can still be counted.
    pub open spec fn counts(self, pkt: crate::media::PacketModel) -> bool {
        self.packets < u64::MAX && self.bytes + pkt.data.len() <= u64::MAX
    }

    /// Counts a packet.
    pub fn add(&mut self, pkt: &Packet)
        requires
            old(self).counts(pkt@),
        ensures
            *final(self) == old(self).with(pkt@),
    {
        self.packets = self.packets + 1;
        self.bytes = self.bytes + pkt.data.len() as u64;
        self.last_pts = longer(self.last_pts, pkt.pts);
    }

    /// The average frame rate as so many frames in a span of time, where there
    /// is a span. The packets span one interval less than there are packets,
    /// and the last one's time is where the last interval ends.
    pub fn average_rate(&self) -> (r: Option<(u64, Duration)>)
        ensures
            r == (if self.packets < 2 || crate::time::nanos(self.last_pts) == 0 {
                None
            } else {
                Some(((self.packets - 1) as u64, self.last_pts))
            }),
    {
        if self.packets < 2 || self.last_pts.as_nanos() == 0 {
            return None;
        }
        Some((self.packets - 1, self.last_pts))
    }
}

/// Which track a packet belongs to, if it was declared.
pub open spec fn index_from(tracks: Seq<Track>, id: TrackId, at: int) -> Option<int>
    decreases tracks.len() - at,
{
    if at >= tracks.len() {
        None
    } else if tracks[at].id == id {
        Some(at)
    } else {
        index_from(tracks, id, at + 1)
    }
}

/// Which track a packet belongs to, if it was declared: the first with its
/// number.
pub fn track_index(tracks: &Vec<Track>, id: TrackId) -> (r: Option<usize>)
    ensures
        match (r, index_from(tracks@, id, 0)) {
            (Some(i), Some(j)) => i == j && i < tracks@.len() && tracks@[i as int].id == id,
            (None, None) => true,
            _ => false,
        },
{
    let n: usize = tracks.len();
    let mut i: usize = 0;
    while i < n
        invariant
            n == tracks@.len(),
            i <= n,
            index_from(tracks@, id, 0) == index_from(tracks@, id, i as int),
        decreases n - i,
    {
        if tracks[i].id == id {
            return Some(i);
        }
        i = i + 1;
    }
    None
}

/// A packet for a track that was never declared.
pub open spec fn stray_packet(container: Container, id: TrackId) -> Seq<char> {
    container.called() + " demuxer emitted a packet for unknown TrackId("@ + crate::text::decimal(
        id.0 as nat,
    ) + ")"@
}

/// Counts a packet with its track. A packet for a track that was never declared
/// is the reader's defect, not the file's.
pub fn tally(container: Container, tracks: &Vec<Track>, stats: &mut Vec<StreamStats>, pkt: &Packet) -> (r:
    Result<(), Failure>)
    requires
        tracks@.len() == old(stats)@.len(),
        forall|i: int| 0 <= i < old(stats)@.len() ==> (#[trigger] old(stats)@[i]).counts(pkt@),
    ensures
        match index_from(tracks@, pkt.track, 0) {
            Some(i) => r is Ok && final(stats)@ == old(stats)@.update(i, old(stats)@[i].with(pkt@)),
            None => final(stats)@ == old(stats)@ && (r matches Err(f) && f.says(
                EXIT_ERROR,
                stray_packet(container, pkt.track),
            )),
        },
{
    match track_index(tracks, pkt.track) {
        Some(i) => {
            let mut s: StreamStats = stats[i];
            s.add(pkt);
            stats.set(i, s);
            Ok(())
        },
        None => {
            let mut m = container.name().to_owned();
            m.append(" demuxer emitted a packet for unknown TrackId(");
            put_number(&mut m, pkt.track.0 as u128);
            m.append(")");
            Err(Failure::new(EXIT_ERROR, m.as_str()))
        },
    }
}

/// The latest time in some statistics.
pub open spec fn latest(stats: Seq<StreamStats>, from: Duration) -> Duration
    decreases stats.len(),
{
    if stats.len() == 0 {
        from
    } else {
        crate::time::spec_longer(latest(stats.drop_last(), from), stats.last().last_pts)
    }
}

/// The packets in some statistics.
pub open spec fn total_packets(stats: Seq<StreamStats>) -> nat
    decreases stats.len(),
{
    if stats.len() == 0 {
        0
    } else {
        total_packets(stats.drop_last()) + stats.last().packets as nat
    }
}

/// The line that sums a file up.
pub open spec fn summary_line(stats: Seq<StreamStats>, duration: Duration, size: u64) -> Seq<char> {
    "  Duration: "@ + timestamp(duration) + ", streams: "@ + crate::text::decimal(stats.len())
        + ", packets: "@ + crate::text::decimal(total_packets(stats)) + ", size: "@ + size_text(size)
}

/// Sums a file up: how long it lasts, which is its latest time, how many streams
/// and packets it has, and its size.
pub fn describe_file(stats: &Vec<StreamStats>, size: u64) -> (r: String)
    ensures
        exists|zero: Duration|
            crate::time::nanos(zero) == 0 && r@ == #[trigger] summary_line(
                stats@,
                latest(stats@, zero),
                size,
            ),
{
    let zero: Duration = Duration::from_millis(0);
    let mut duration: Duration = zero;
    let mut total: u128 = 0;
    let n: usize = stats.len();
    assert(stats@.take(0) =~= Seq::<StreamStats>::empty());
    for i in 0..n
        invariant
            n == stats@.len(),
            duration == latest(stats@.take(i as int), zero),
            total == total_packets(stats@.take(i as int)),
            total <= i * 0xffff_ffff_ffff_ffff,
    {
        assert(stats@.take(i + 1).drop_last() =~= stats@.take(i as int));
        duration = longer(duration, stats[i].last_pts);
        assert(i * 0xffff_ffff_ffff_ffff <= 0xffff_ffff_ffff_ffff * 0xffff_ffff_ffff_ffff)
            by (nonlinear_arith)
            requires
                0 <= i <= 0xffff_ffff_ffff_ffff,
        ;
        total = total + stats[i].packets as u128;
    }
    assert(stats@.take(n as int) =~= stats@);
    let mut r = "  Duration: ".to_owned();
    let t = format_timestamp(duration);
    r.append(t.as_str());
    r.append(", streams: ");
    put_number(&mut r, n as u128);
    r.append(", packets: ");
    put_number(&mut r, total);
    r.append(", size: ");
    let s = format_size(size);
    r.append(s.as_str());
    assert(r@ =~= summary_line(stats@, latest(stats@, zero), size));
    r
}

/// A stream in words, with its average frame rate where there is one.
pub open spec fn stream_line(
    index: nat,
    track: crate::media::TrackModel,
    stat: StreamStats,
    rate: Option<Seq<char>>,
) -> Seq<char> {
    let head = "Stream #0:"@ + crate::text::decimal(index) + "(track "@ + crate::text::decimal(
        track.id.0 as nat,
    ) + "): "@ + (match track.kind {
        TrackKind::Video { .. } => "Video"@,
        TrackKind::Audio { .. } => "Audio"@,
    }) + ": "@ + track.codec.called() + ", "@;
    let shape = match track.kind {
        TrackKind::Video { width, height } => crate::text::decimal(width as nat) + "x"@
            + crate::text::decimal(height as nat),
        TrackKind::Audio { sample_rate, channels } => crate::text::decimal(sample_rate as nat)
            + " Hz, "@ + crate::text::decimal(channels as nat) + " ch"@,
    };
    head + shape + ", "@ + crate::text::decimal(stat.packets as nat) + " packets, "@ + size_text(
        stat.bytes,
    ) + (match rate {
        Some(text) => ", avg "@ + text + " fps"@,
        None => Seq::empty(),
    })
}

/// Describes a stream. `rate` is its average frame rate as text.
pub fn describe_stream(index: usize, track: &Track, stat: &StreamStats, rate: Option<&str>) -> (r:
    String)
    ensures
        r@ == stream_line(
            index as nat,
            track@,
            *stat,
            match rate {
                Some(text) => Some(text@),
                None => None,
            },
        ),
{
    let mut r = "Stream #0:".to_owned();
    put_number(&mut r, index as u128);
    r.append("(track ");
    put_number(&mut r, track.id.0 as u128);
    r.append("): ");
    match track.kind {
        TrackKind::Video { width: _, height: _ } => r.append("Video"),
        TrackKind::Audio { sample_rate: _, channels: _ } => r.append("Audio"),
    }
    r.append(": ");
    r.append(track.codec.name());
    r.append(", ");
    let ghost head = r@;
    let mut shape = String::new();
    match track.kind {
        TrackKind::Video { width, height } => {
            put_number(&mut shape, width as u128);
            shape.append("x");
            put_number(&mut shape, height as u128);
            assert(shape@ =~= crate::text::decimal(width as nat) + "x"@ + crate::text::decimal(
                height as nat,
            ));
        },
        TrackKind::Audio { sample_rate, channels } => {
            put_number(&mut shape, sample_rate as u128);
            shape.append(" Hz, ");
            put_number(&mut shape, channels as u128);
            shape.append(" ch");
            assert(shape@ =~= crate::text::decimal(sample_rate as nat) + " Hz, "@
                + crate::text::decimal(channels as nat) + " ch"@);
        },
    }
    r.append(shape.as_str());
    r.append(", ");
    put_number(&mut r, stat.packets as u128);
    r.append(" packets, ");
    let s = format_size(stat.bytes);
    r.append(s.as_str());
    if let Some(text) = rate {
        r.append(", avg ");
        r.append(text);
        r.append(" fps");
    }
    assert(r@ =~= stream_line(
        index as nat,
        track@,
        *stat,
        match rate {
            Some(text) => Some(text@),
            None => None,
        },
    ));
    r
}

/// A time in hours, minutes, seconds and milliseconds.
pub open spec fn timestamp(d: Duration) -> Seq<char> {
    let ms = crate::time::nanos(d) / 1_000_000;
    crate::text::padded(ms / 3_600_000, 2) + ":"@ + crate::text::padded((ms / 60_000) % 60, 2)
        + ":"@ + crate::text::padded((ms / 1_000) % 60, 2) + "."@ + crate::text::padded(
        ms % 1_000,
        3,
    )
}

/// A time in hours, minutes, seconds and milliseconds.
pub fn format_timestamp(d: Duration) -> (r: String)
    ensures
        r@ == timestamp(d),
{
    let ms: u128 = d.as_millis();
    let mut r = String::new();
    put_padded(&mut r, ms / 3_600_000, 2);
    r.append(":");
    put_padded(&mut r, (ms / 60_000) % 60, 2);
    r.append(":");
    put_padded(&mut r, (ms / 1_000) % 60, 2);
    r.append(".");
    put_padded(&mut r, ms % 1_000, 3);
    assert(r@ =~= timestamp(d));
    r
}

/// The whole number nearest to a fraction, the even one of two.
pub open spec fn nearest(n: nat, d: nat) -> nat {
    let (q, r) = (n / d, n % d);
    if 2 * r < d || (2 * r == d && q % 2 == 0) {
        q
    } else {
        q + 1
    }
}

/// How many of its low bits a number has beyond the 53 that a double holds, as
/// the power of two that they count to.
pub open spec fn spare_unit(n: nat, unit: nat) -> nat
    decreases
            if unit == 0 || n < 0x20_0000_0000_0000 * unit {
                0
            } else {
                n - unit + 1
            },
{
    if unit == 0 || n < 0x20_0000_0000_0000 * unit {
        unit
    } else {
        spare_unit(n, unit * 2)
    }
}

/// The nearest number that a double holds.
pub open spec fn in_double(n: u64) -> nat {
    let unit = spare_unit(n as nat, 1);
    nearest(n as nat, unit) * unit
}

/// A number of units to a tenth.
pub open spec fn tenths_text(bytes: u64, unit: nat) -> Seq<char> {
    let tenths = nearest(in_double(bytes) * 10, unit);
    crate::text::decimal(tenths / 10) + "."@ + crate::text::decimal(tenths % 10)
}

/// A size in bytes, kibibytes or mebibytes.
pub open spec fn size_text(bytes: u64) -> Seq<char> {
    if bytes >= 0x10_0000 {
        tenths_text(bytes, 0x10_0000) + " MiB"@
    } else if bytes >= 0x400 {
        tenths_text(bytes, 0x400) + " KiB"@
    } else {
        crate::text::decimal(bytes as nat) + " B"@
    }
}

/// The whole number nearest to a fraction, the even one of two.
fn nearest_to(n: u128, d: u128) -> (r: u128)
    requires
        0 < d <= 0x10_0000,
        n <= 0x1_0000_0000_0000_0000_0000,
    ensures
        r == nearest(n as nat, d as nat),
        r <= n / d + 1,
{
    let (q, r): (u128, u128) = (n / d, n % d);
    if 2 * r < d || (2 * r == d && q % 2 == 0) {
        q
    } else {
        q + 1
    }
}

/// The nearest number that a double holds.
fn rounded(n: u64) -> (r: u128)
    ensures
        r == in_double(n),
        r <= 0x1_0000_0000_0000_0000 + 0x1000,
{
    let mut unit: u128 = 1;
    let mut limit: u128 = 0x20_0000_0000_0000;
    while n as u128 >= limit
        invariant
            0 < unit <= 0x1000,
            limit == 0x20_0000_0000_0000 * unit,
            spare_unit(n as nat, 1) == spare_unit(n as nat, unit as nat),
        decreases 0x4_0000_0000_0000_0000 - limit,
    {
        unit = unit * 2;
        limit = limit * 2;
    }
    let q: u128 = nearest_to(n as u128, unit);
    proof {
        assert(q * unit <= (n / unit as u64 + 1) * unit) by (nonlinear_arith)
            requires
                q <= n as u128 / unit + 1,
                unit > 0,
                unit <= 0x1000,
                n / unit as u64 == n as u128 / unit,
        ;
        assert((n as u128 / unit) * unit <= n as u128) by (nonlinear_arith)
            requires
                unit > 0,
        ;
        assert((n as u128 / unit + 1) * unit == (n as u128 / unit) * unit + unit)
            by (nonlinear_arith);
    }
    q * unit
}

/// Writes a number of units to a tenth.
fn put_tenths(text: &mut String, bytes: u64, unit: u128)
    requires
        0 < unit <= 0x10_0000,
    ensures
        final(text)@ == old(text)@ + tenths_text(bytes, unit as nat),
{
    let tenths: u128 = nearest_to(rounded(bytes) * 10, unit);
    let ghost before = text@;
    put_number(text, tenths / 10);
    text.append(".");
    put_number(text, tenths % 10);
    assert(text@ =~= before + tenths_text(bytes, unit as nat));
}

/// A size in bytes, kibibytes or mebibytes.
pub fn format_size(bytes: u64) -> (r: String)
    ensures
        r@ == size_text(bytes),
{
    let mut r = String::new();
    if bytes >= 0x10_0000 {
        put_tenths(&mut r, bytes, 0x10_0000);
        r.append(" MiB");
    } else if bytes >= 0x400 {
        put_tenths(&mut r, bytes, 0x400);
        r.append(" KiB");
    } else {
        put_number(&mut r, bytes as u128);
        r.append(" B");
    }
    assert(r@ =~= size_text(bytes));
    r
}

// ---- Containers ---------------------------------------------------------------

/// The container of the input: the one named, or the one that its bytes look
/// like.
pub fn input_container(forced: Option<Container>, sniffed: Option<Container>, path: &str) -> (r:
    Result<Container, Failure>)
    ensures
        match (forced, sniffed) {
            (Some(c), _) => r matches Ok(d) && d == c,
            (None, Some(c)) => r matches Ok(d) && d == c,
            (None, None) => r matches Err(f) && f.says(
                EXIT_ERROR,
                "could not identify the container in '"@ + path@ + "'; force it with -f FORMAT"@,
            ),
        },
{
    if let Some(c) = forced {
        return Ok(c);
    }
    if let Some(c) = sniffed {
        return Ok(c);
    }
    let mut m = "could not identify the container in '".to_owned();
    m.append(path);
    m.append("'; force it with -f FORMAT");
    Err(Failure::new(EXIT_ERROR, m.as_str()))
}

/// The container of the output: the one named, or the one that its extension
/// means.
pub fn output_container(args: &TranscodeArgs) -> (r: Result<Container, Failure>)
    ensures
        match (args.output_format, Container::at(args.output@)) {
            (Some(c), _) => r matches Ok(d) && d == c,
            (None, Some(c)) => r matches Ok(d) && d == c,
            (None, None) => r matches Err(f) && f.says(
                EXIT_USAGE,
                "'"@ + args.output@ + "' has no recognised extension; name the format with -f"@,
            ),
        },
{
    if let Some(c) = args.output_format {
        return Ok(c);
    }
    if let Some(c) = container_from_path(args.output.as_str()) {
        return Ok(c);
    }
    let mut m = "'".to_owned();
    m.append(args.output.as_str());
    m.append("' has no recognised extension; name the format with -f");
    Err(Failure::new(EXIT_USAGE, m.as_str()))
}

/// Refuses to overwrite an output that exists, unless that was asked for.
pub fn check_output_free(args: &TranscodeArgs, present: bool) -> (r: Result<(), Failure>)
    ensures
        if !args.overwrite && present {
            r matches Err(f) && f.says(
                EXIT_OUTPUT_EXISTS,
                "'"@ + args.output@ + "' already exists; pass -y to overwrite it"@,
            )
        } else {
            r is Ok
        },
{
    if !args.overwrite && present {
        let mut m = "'".to_owned();
        m.append(args.output.as_str());
        m.append("' already exists; pass -y to overwrite it");
        return Err(Failure::new(EXIT_OUTPUT_EXISTS, m.as_str()));
    }
    Ok(())
}

/// A codec that cannot be written.
pub open spec fn cannot_write(container: Container, codec: Codec) -> Seq<char> {
    "this build cannot write "@ + codec.called() + " into "@ + container.called()
        + "; run `liteenc formats`"@
}

/// Whether a codec can be written into a container.
pub fn check_writable(container: Container, codec: Codec) -> (r: Result<(), Failure>)
    ensures
        if crate::registry::writable(container, codec) {
            r is Ok
        } else {
            r matches Err(f) && f.says(EXIT_UNSUPPORTED, cannot_write(container, codec))
        },
{
    if can_write(container, codec) {
        return Ok(());
    }
    let mut m = "this build cannot write ".to_owned();
    m.append(codec.name());
    m.append(" into ");
    m.append(container.name());
    m.append("; run `liteenc formats`");
    Err(Failure::unsupported(m.as_str()))
}

/// A codec that cannot be read.
pub open spec fn cannot_read(container: Container, codec: Codec) -> Seq<char> {
    "this build cannot read "@ + codec.called() + " from "@ + container.called()
}

/// The first track from one on that cannot be read, by its codec.
pub open spec fn unreadable_from(container: Container, tracks: Seq<Track>, at: int) -> Option<Codec>
    decreases tracks.len() - at,
{
    if at >= tracks.len() {
        None
    } else if !crate::registry::readable(container, tracks[at].codec) {
        Some(tracks[at].codec)
    } else {
        unreadable_from(container, tracks, at + 1)
    }
}

/// Whether every track can be read from a container.
pub fn check_readable(container: Container, tracks: &Vec<Track>) -> (r: Result<(), Failure>)
    ensures
        match unreadable_from(container, tracks@, 0) {
            None => r is Ok,
            Some(codec) => r matches Err(f) && f.says(EXIT_UNSUPPORTED, cannot_read(container, codec)),
        },
{
    let n: usize = tracks.len();
    let mut i: usize = 0;
    while i < n
        invariant
            n == tracks@.len(),
            i <= n,
            unreadable_from(container, tracks@, 0) == unreadable_from(container, tracks@, i as int),
        decreases n - i,
    {
        let codec: Codec = tracks[i].codec;
        if !can_read(container, codec) {
            let mut m = "this build cannot read ".to_owned();
            m.append(codec.name());
            m.append(" from ");
            m.append(container.name());
            return Err(Failure::unsupported(m.as_str()));
        }
        i = i + 1;
    }
    Ok(())
}

/// The way that a transcode goes.
#[derive(Debug, Clone, Copy, PartialEq, Eq, Structural)]
pub enum Route {
    /// Every stream is copied.
    Copy,
    /// The video is encoded to AV1, and the rest is copied.
    ToAv1,
}

/// Which way a transcode goes. There is one encoder, for video.
pub fn route(video: CodecSpec, audio: CodecSpec) -> (r: Result<Route, Failure>)
    ensures
        match (video, audio) {
            (CodecSpec::Copy, CodecSpec::Copy) => r matches Ok(w) && w == Route::Copy,
            (CodecSpec::To(Codec::Av1), CodecSpec::Copy) => r matches Ok(w) && w == Route::ToAv1,
            (CodecSpec::To(codec), _) => r matches Err(f) && f.says(
                EXIT_UNSUPPORTED,
                "no "@ + codec.called() + " encoder in this build; encoders: "@ + "av1"@,
            ),
            (_, CodecSpec::To(codec)) => r matches Err(f) && f.says(
                EXIT_UNSUPPORTED,
                "no "@ + codec.called()
                    + " encoder in this build; audio streams can only be copied"@,
            ),
        },
{
    match (video, audio) {
        (CodecSpec::Copy, CodecSpec::Copy) => Ok(Route::Copy),
        (CodecSpec::To(Codec::Av1), CodecSpec::Copy) => Ok(Route::ToAv1),
        (CodecSpec::To(codec), _) => {
            let mut m = "no ".to_owned();
            m.append(codec.name());
            m.append(" encoder in this build; encoders: ");
            m.append(encoders_in_this_build());
            Err(Failure::unsupported(m.as_str()))
        },
        (_, CodecSpec::To(codec)) => {
            let mut m = "no ".to_owned();
            m.append(codec.name());
            m.append(" encoder in this build; audio streams can only be copied");
            Err(Failure::unsupported(m.as_str()))
        },
    }
}

// ---- Copying ------------------------------------------------------------------

/// How the packets of a track have to be reframed for the output.
#[derive(Debug, Clone, Copy, PartialEq, Eq, Structural)]
pub enum Reframe {
    /// Not at all.
    Keep,
    /// From start codes to the length prefixes that MP4 and Matroska want.
    ToAvcc,
}

/// What a packet becomes.
pub open spec fn applied(reframe: Reframe, pkt: crate::media::PacketModel) -> crate::media::PacketModel {
    match reframe {
        Reframe::Keep => pkt,
        Reframe::ToAvcc => {
            let units = crate::codec::h264::annexb::unit_bytes(pkt.data);
            crate::media::PacketModel {
                data: crate::codec::h264::avcc::as_sample(
                    crate::codec::h264::avcc::sample_units(units, units.len() as int),
                ),
                ..pkt
            }
        },
    }
}

/// Reframes a packet.
pub fn apply(reframe: Reframe, pkt: Packet) -> (r: Packet)
    ensures
        r@ == applied(reframe, pkt@),
{
    match reframe {
        Reframe::Keep => pkt,
        Reframe::ToAvcc => {
            let data = access_unit_to_avcc(pkt.data.as_slice());
            Packet { track: pkt.track, pts: pkt.pts, keyframe: pkt.keyframe, data }
        },
    }
}

/// Whether a track has to be reframed: H.264 in start codes, for a container
/// that wants it length-prefixed.
pub open spec fn reframes(track: crate::media::TrackModel, out: Container) -> bool {
    &&& track.codec == Codec::H264
    &&& out == Container::Mp4 || out == Container::Matroska || out == Container::WebM
    &&& !crate::codec::h264::avcc::spec_is_avcc_record(track.extra_data)
}

/// A status and a message.
pub struct Refusal {
    pub code: i32,
    pub message: Seq<char>,
}

/// What a track becomes in a container and how its packets have to be reframed,
/// or why it cannot be adapted. One that is reframed takes its first parameter
/// sets along in a record.
pub open spec fn retargeted(track: crate::media::TrackModel, out: Container) -> Result<
    (crate::media::TrackModel, Reframe),
    Refusal,
> {
    let units = crate::codec::h264::annexb::unit_bytes(track.extra_data);
    let sps = crate::codec::h264::avcc::first_of_type(units, 7, units.len() as int);
    let pps = crate::codec::h264::avcc::first_of_type(units, 8, units.len() as int);
    if !reframes(track, out) {
        Ok((track, Reframe::Keep))
    } else if sps is None {
        Err(Refusal { code: EXIT_ERROR, message: "no SPS in H.264 extra_data"@ })
    } else if pps is None {
        Err(Refusal { code: EXIT_ERROR, message: "no PPS in H.264 extra_data"@ })
    } else if sps->0.len() < 4 {
        Err(Refusal { code: EXIT_ERROR, message: "SPS too short to carry profile/level"@ })
    } else {
        Ok(
            (
                crate::media::TrackModel {
                    extra_data: crate::codec::h264::avcc::record_of(sps->0, pps->0),
                    ..track
                },
                Reframe::ToAvcc,
            ),
        )
    }
}

/// Adapts a track to what a container needs, and says how its packets have to
/// be reframed. A track that is length-prefixed already passes untouched.
pub fn retarget(track: Track, out_container: Container) -> (r: Result<(Track, Reframe), Failure>)
    ensures
        match retargeted(track@, out_container) {
            Ok((to, reframe)) => r matches Ok(t) && t.0@ == to && t.1 == reframe,
            Err(x) => r matches Err(f) && f.says(x.code, x.message),
        },
{
    if track.codec != Codec::H264 {
        return Ok((track, Reframe::Keep));
    }
    match out_container {
        Container::Mp4 | Container::Matroska | Container::WebM => {
            if is_avcc_record(track.extra_data.as_slice()) {
                return Ok((track, Reframe::Keep));
            }
            match parameter_set_record(track.extra_data.as_slice()) {
                Ok(extra_data) => Ok(
                    (
                        Track { id: track.id, codec: track.codec, kind: track.kind, extra_data },
                        Reframe::ToAvcc,
                    ),
                ),
                Err(e) => Err(failed(e)),
            }
        },
        Container::AnnexB | Container::MpegTs => Ok((track, Reframe::Keep)),
    }
}

/// What is done with the packets of each track, one way for each.
pub struct CopyPlan {
    pub tracks: Vec<Track>,
    pub reframes: Vec<Reframe>,
}

/// What a track becomes in a container, or why it cannot be copied into it.
pub open spec fn copied(track: crate::media::TrackModel, out: Container) -> Result<
    (crate::media::TrackModel, Reframe),
    Refusal,
> {
    if crate::registry::writable(out, track.codec) {
        retargeted(track, out)
    } else {
        Err(Refusal { code: EXIT_UNSUPPORTED, message: cannot_write(out, track.codec) })
    }
}

/// Why the first track from one on that cannot be copied cannot.
pub open spec fn refused_from(tracks: Seq<Track>, out: Container, at: int) -> Option<Refusal>
    decreases tracks.len() - at,
{
    if at >= tracks.len() {
        None
    } else {
        match copied(tracks[at]@, out) {
            Ok(_) => refused_from(tracks, out, at + 1),
            Err(x) => Some(x),
        }
    }
}

/// Plans a copy: each track is adapted to the output, or the first that cannot
/// be copied is refused before a byte is written.
pub fn plan_copy(tracks: Vec<Track>, out_container: Container) -> (r: Result<CopyPlan, Failure>)
    ensures
        match refused_from(tracks@, out_container, 0) {
            Some(x) => r matches Err(f) && f.says(x.code, x.message),
            None => {
                &&& r matches Ok(plan)
                &&& plan.tracks@.len() == tracks@.len()
                &&& plan.reframes@.len() == tracks@.len()
                &&& forall|i: int|
                    0 <= i < tracks@.len() ==> copied((#[trigger] tracks@[i])@, out_container)
                        == Ok::<_, Refusal>((plan.tracks@[i]@, plan.reframes@[i]))
            },
        },
{
    let mut plan = CopyPlan { tracks: Vec::new(), reframes: Vec::new() };
    let n: usize = tracks.len();
    let mut i: usize = 0;
    while i < n
        invariant
            n == tracks@.len(),
            i <= n,
            plan.tracks@.len() == i,
            plan.reframes@.len() == i,
            refused_from(tracks@, out_container, 0) == refused_from(
                tracks@,
                out_container,
                i as int,
            ),
            forall|j: int|
                0 <= j < i ==> copied((#[trigger] tracks@[j])@, out_container) == Ok::<_, Refusal>(
                    (plan.tracks@[j]@, plan.reframes@[j]),
                ),
        decreases n - i,
    {
        let track = tracks[i].clone();
        assert(track@ == tracks@[i as int]@);
        assert(track@.codec == tracks@[i as int].codec);
        if let Err(f) = check_writable(out_container, track.codec) {
            return Err(f);
        }
        match retarget(track, out_container) {
            Ok((to, reframe)) => {
                plan.tracks.push(to);
                plan.reframes.push(reframe);
            },
            Err(f) => {
                return Err(f);
            },
        }
        i = i + 1;
    }
    Ok(plan)
}

impl CopyPlan {
    /// How a packet of a track is reframed: not at all, where the track was
    /// never declared.
    pub open spec fn reframe_of(self, id: TrackId) -> Reframe {
        match index_from(self.tracks@, id, 0) {
            Some(i) => self.reframes@[i],
            None => Reframe::Keep,
        }
    }

    /// Copies a packet.
    pub fn copy(&self, pkt: Packet) -> (r: Packet)
        requires
            self.tracks@.len() == self.reframes@.len(),
        ensures
            r@ == applied(self.reframe_of(pkt.track), pkt@),
    {
        match track_index(&self.tracks, pkt.track) {
            Some(i) => apply(self.reframes[i], pkt),
            None => pkt,
        }
    }
}

// ---- Encoding -----------------------------------------------------------------

/// Length-prefixed H.264: how long the prefixes are, and the parameter sets
/// that stand apart.
pub struct AvccSource {
    pub length_size: usize,
    pub parameter_sets: Vec<u8>,
}

/// How the H.264 packets of a track are framed, and how to get the start codes
/// that the decoder wants.
pub struct SourceFraming {
    /// None where the packets have start codes already.
    pub avcc: Option<AvccSource>,
}

/// An access unit with start codes. A length-prefixed source keeps its
/// parameter sets apart, so they go in front of every key frame.
pub open spec fn framed(source: SourceFraming, pkt: crate::media::PacketModel) -> Result<
    Seq<u8>,
    Seq<char>,
> {
    match source.avcc {
        None => Ok(pkt.data),
        Some(a) => {
            let sets = if pkt.keyframe {
                a.parameter_sets@
            } else {
                Seq::empty()
            };
            if a.length_size != 1 && a.length_size != 2 && a.length_size != 4 {
                Err("unsupported avcC NAL length size "@ + crate::text::decimal(a.length_size as nat))
            } else {
                let c = crate::codec::h264::avcc::unprefixed(
                    pkt.data,
                    0,
                    a.length_size as int,
                    Seq::empty(),
                );
                match c.fault {
                    Some(m) => Err(m),
                    None => Ok(sets + c.out),
                }
            }
        },
    }
}

impl SourceFraming {
    /// How the packets of a track are framed.
    pub fn of(track: &Track) -> (r: Result<SourceFraming, Failure>)
        ensures
            ({
                let data = track.extra_data@;
                let sets = crate::codec::h264::avcc::record_sets(data);
                if !crate::codec::h264::avcc::spec_is_avcc_record(data) {
                    r matches Ok(s) && s.avcc is None
                } else {
                    match sets.fault {
                        Some(m) => r matches Err(f) && f.says(EXIT_ERROR, m),
                        None => r matches Ok(s) && (s.avcc matches Some(a) && a.length_size
                            == crate::codec::h264::avcc::length_size(data) && a.parameter_sets@
                            == sets.out),
                    }
                }
            }),
    {
        let data = track.extra_data.as_slice();
        if !is_avcc_record(data) {
            return Ok(SourceFraming { avcc: None });
        }
        let length_size: usize = match nal_length_size(data) {
            Ok(n) => n,
            Err(e) => {
                return Err(failed(e));
            },
        };
        match annexb_parameter_sets(data) {
            Ok(parameter_sets) => Ok(
                SourceFraming { avcc: Some(AvccSource { length_size, parameter_sets }) },
            ),
            Err(e) => Err(failed(e)),
        }
    }

    /// The access unit of a packet, with start codes.
    pub fn to_annexb(&self, pkt: &Packet) -> (r: Result<Vec<u8>, Failure>)
        ensures
            match framed(*self, pkt@) {
                Ok(unit) => r matches Ok(v) && v@ == unit,
                Err(m) => r matches Err(f) && f.says(EXIT_ERROR, m),
            },
    {
        let mut unit: Vec<u8> = Vec::new();
        match &self.avcc {
            None => {
                unit.extend_from_slice(pkt.data.as_slice());
                assert(unit@ =~= pkt.data@);
                Ok(unit)
            },
            Some(source) => {
                if pkt.keyframe {
                    unit.extend_from_slice(source.parameter_sets.as_slice());
                }
                let ghost sets = unit@;
                assert(sets =~= (if pkt.keyframe {
                    source.parameter_sets@
                } else {
                    Seq::empty()
                }));
                match access_unit_to_annexb(pkt.data.as_slice(), source.length_size) {
                    Ok(rest) => {
                        unit.extend_from_slice(rest.as_slice());
                        assert(unit@ =~= sets + rest@);
                        Ok(unit)
                    },
                    Err(e) => Err(failed(e)),
                }
            },
        }
    }
}

/// The first video track from one on.
pub open spec fn video_from(tracks: Seq<Track>, at: int) -> Option<int>
    decreases tracks.len() - at,
{
    if at >= tracks.len() {
        None
    } else if tracks[at].kind is Video {
        Some(at)
    } else {
        video_from(tracks, at + 1)
    }
}

/// The track to encode, and its size.
#[derive(Debug, Clone, Copy)]
pub struct Selected {
    pub index: usize,
    pub width: u32,
    pub height: u32,
}

/// Picks the track to encode: the first video track, which has to be H.264.
pub fn select_video(tracks: &Vec<Track>) -> (r: Result<Selected, Failure>)
    ensures
        match video_from(tracks@, 0) {
            None => r matches Err(f) && f.says(EXIT_UNSUPPORTED, "no video stream to encode"@),
            Some(i) => if tracks@[i].codec != Codec::H264 {
                r matches Err(f) && f.says(
                    EXIT_UNSUPPORTED,
                    "cannot decode "@ + tracks@[i].codec.called()
                        + "; this build decodes h264 only"@,
                )
            } else {
                r matches Ok(s) && s.index == i && 0 <= i < tracks@.len() && tracks@[i].kind
                    == (TrackKind::Video { width: s.width, height: s.height })
            },
        },
{
    let n: usize = tracks.len();
    let mut i: usize = 0;
    while i < n
        invariant
            n == tracks@.len(),
            i <= n,
            video_from(tracks@, 0) == video_from(tracks@, i as int),
        decreases n - i,
    {
        if let TrackKind::Video { width, height } = tracks[i].kind {
            if tracks[i].codec != Codec::H264 {
                let mut m = "cannot decode ".to_owned();
                m.append(tracks[i].codec.name());
                m.append("; this build decodes h264 only");
                return Err(Failure::unsupported(m.as_str()));
            }
            return Ok(Selected { index: i, width, height });
        }
        i = i + 1;
    }
    Err(Failure::unsupported("no video stream to encode"))
}

/// The other tracks behind the encoded one, in order.
pub open spec fn others(tracks: Seq<Track>, video: TrackId, n: int) -> Seq<crate::media::TrackModel>
    decreases n,
{
    if n <= 0 {
        Seq::empty()
    } else if tracks[n - 1].id != video {
        others(tracks, video, n - 1).push(tracks[n - 1]@)
    } else {
        others(tracks, video, n - 1)
    }
}

/// The first track from one on that would ride along and cannot be written, by
/// its codec.
pub open spec fn unwritable_from(tracks: Seq<Track>, video: TrackId, out: Container, at: int) -> Option<Codec>
    decreases tracks.len() - at,
{
    if at >= tracks.len() {
        None
    } else if tracks[at].id != video && !crate::registry::writable(out, tracks[at].codec) {
        Some(tracks[at].codec)
    } else {
        unwritable_from(tracks, video, out, at + 1)
    }
}

/// The models of some tracks.
pub open spec fn track_models(tracks: Seq<Track>) -> Seq<crate::media::TrackModel> {
    Seq::new(tracks.len(), |i: int| tracks[i]@)
}

/// The tracks of the output: the encoded one first, then the others, which are
/// copied.
pub fn plan_encode(
    tracks: &Vec<Track>,
    selected: &Selected,
    extra_data: Vec<u8>,
    out_container: Container,
) -> (r: Result<Vec<Track>, Failure>)
    requires
        selected.index < tracks@.len(),
    ensures
        ({
            let video = tracks@[selected.index as int];
            match unwritable_from(tracks@, video.id, out_container, 0) {
                Some(codec) => r matches Err(f) && f.says(
                    EXIT_UNSUPPORTED,
                    cannot_write(out_container, codec),
                ),
                None => r matches Ok(out) && track_models(out@) == seq![
                    crate::media::TrackModel {
                        codec: Codec::Av1,
                        extra_data: extra_data@,
                        ..video@
                    },
                ] + others(tracks@, video.id, tracks@.len() as int),
            }
        }),
{
    let video: TrackId = tracks[selected.index].id;
    let first = Track {
        id: video,
        codec: Codec::Av1,
        kind: tracks[selected.index].kind,
        extra_data,
    };
    let ghost head = first@;
    let mut out: Vec<Track> = Vec::new();
    out.push(first);
    assert(track_models(out@) =~= seq![head] + others(tracks@, video, 0));
    let n: usize = tracks.len();
    let mut i: usize = 0;
    while i < n
        invariant
            n == tracks@.len(),
            i <= n,
            selected.index < n,
            video == tracks@[selected.index as int].id,
            track_models(out@) == seq![head] + others(tracks@, video, i as int),
            unwritable_from(tracks@, video, out_container, 0) == unwritable_from(
                tracks@,
                video,
                out_container,
                i as int,
            ),
        decreases n - i,
    {
        if tracks[i].id != video {
            if let Err(f) = check_writable(out_container, tracks[i].codec) {
                return Err(f);
            }
            let ghost before = out@;
            let t = tracks[i].clone();
            out.push(t);
            assert(track_models(out@) =~= track_models(before).push(t@));
            assert(track_models(out@) =~= seq![head] + others(tracks@, video, i + 1));
        } else {
            assert(others(tracks@, video, i + 1) == others(tracks@, video, i as int));
        }
        i = i + 1;
    }
    Ok(out)
}

/// The encoding of one video track: where its packets come from, and the
/// decoder and the encoder that they go through.
pub struct Transcoder {
    pub source: SourceFraming,
    pub decoder: Frontend,
    pub encoder: Av1Encoder,
    pub video: TrackId,
}

/// What is returned for one access unit of the video: the failure of the decoder
/// or of the encoder, or the packets of the picture that it completes.
pub open spec fn transcodes(
    before: Transcoder,
    unit: Seq<u8>,
    pts: Duration,
    after: Transcoder,
    decoded: Result<Vec<Frame>, Error>,
    encoded: Result<Vec<Packet>, Error>,
    r: Result<Vec<Packet>, Failure>,
) -> bool {
    &&& crate::codec::h264::decoder::unit_decoded(
        before.decoder,
        unit,
        pts,
        after.decoder,
        decoded,
    )
    &&& match decoded {
        Err(e) => after.encoder == before.encoder && (r matches Err(f) && f.says(
            EXIT_ERROR,
            e.text(),
        )),
        Ok(frames) => if frames@.len() == 0 {
            after.encoder == before.encoder && (r matches Ok(out) && out@.len() == 0)
        } else {
            &&& crate::codec::av1::encodes(
                before.encoder,
                frames@[0],
                false,
                after.encoder,
                encoded,
            )
            &&& match encoded {
                Ok(packets) => r matches Ok(out) && out == packets,
                Err(e) => r matches Err(f) && f.says(EXIT_ERROR, e.text()),
            }
        },
    }
}

impl Transcoder {
    /// The decoder and the encoder are sound.
    pub open spec fn wf(self) -> bool {
        self.decoder.wf() && self.encoder.wf()
    }

    /// Takes a packet, and returns those to write: the packet itself for any
    /// other track, and what the encoder has ready for the video.
    pub fn take(&mut self, pkt: Packet) -> (r: Result<Vec<Packet>, Failure>)
        requires
            old(self).wf(),
            old(self).encoder.next_frameno < u64::MAX,
        ensures
            final(self).wf(),
            final(self).source == old(self).source,
            final(self).video == old(self).video,
            if pkt.track != old(self).video {
                &&& *final(self) == *old(self)
                &&& r matches Ok(out)
                &&& out@ == seq![pkt]
            } else {
                match framed(old(self).source, pkt@) {
                    Err(m) => *final(self) == *old(self) && (r matches Err(f) && f.says(
                        EXIT_ERROR,
                        m,
                    )),
                    Ok(unit) => exists|
                        decoded: Result<Vec<Frame>, Error>,
                        encoded: Result<Vec<Packet>, Error>,
                    | #[trigger]
                        transcodes(*old(self), unit, pkt.pts, *final(self), decoded, encoded, r),
                }
            },
    {
        if pkt.track != self.video {
            let mut out: Vec<Packet> = Vec::new();
            out.push(pkt);
            return Ok(out);
        }
        let unit: Vec<u8> = match self.source.to_annexb(&pkt) {
            Ok(unit) => unit,
            Err(f) => {
                return Err(f);
            },
        };
        let decoded = self.decoder.decode_access_unit(unit.as_slice(), pkt.pts);
        let ghost was = decoded;
        let ghost none: Result<Vec<Packet>, Error> = Err(Error::Encode(arbitrary()));
        let frames: Vec<Frame> = match decoded {
            Ok(frames) => frames,
            Err(e) => {
                let f = failed(e);
                assert(transcodes(*old(self), unit@, pkt.pts, *self, was, none, Err(f)));
                return Err(f);
            },
        };
        if frames.len() == 0 {
            let out: Vec<Packet> = Vec::new();
            assert(transcodes(*old(self), unit@, pkt.pts, *self, was, none, Ok(out)));
            return Ok(out);
        }
        let encoded = self.encoder.encode(&frames[0]);
        let ghost coded = encoded;
        match encoded {
            Ok(packets) => {
                assert(transcodes(*old(self), unit@, pkt.pts, *self, was, coded, Ok(packets)));
                Ok(packets)
            },
            Err(e) => {
                let f = failed(e);
                assert(transcodes(*old(self), unit@, pkt.pts, *self, was, coded, Err(f)));
                Err(f)
            },
        }
    }

    /// Ends the video, and returns the packets still to write.
    pub fn finish(&mut self) -> (r: Result<Vec<Packet>, Failure>)
        requires
            old(self).wf(),
        ensures
            final(self).wf(),
            final(self).source == old(self).source,
            final(self).video == old(self).video,
            final(self).decoder == old(self).decoder,
            exists|flushed: Result<Vec<Packet>, Error>|
                crate::codec::av1::flushes(old(self).encoder, final(self).encoder, flushed)
                    && #[trigger] returned(flushed, r),
    {
        let flushed = self.encoder.flush();
        let ghost was = flushed;
        match flushed {
            Ok(packets) => {
                assert(returned(was, Ok(packets)));
                Ok(packets)
            },
            Err(e) => {
                let f = failed(e);
                assert(returned(was, Err(f)));
                Err(f)
            },
        }
    }
}

/// What is returned for what the encoder returned.
pub open spec fn returned(
    encoded: Result<Vec<Packet>, Error>,
    r: Result<Vec<Packet>, Failure>,
) -> bool {
    match encoded {
        Ok(packets) => r matches Ok(out) && out == packets,
        Err(e) => r matches Err(f) && f.says(EXIT_ERROR, e.text()),
    }
}

// ---- Reporting ----------------------------------------------------------------

/// The line that reports a finished run.
pub open spec fn report_line(container: Container, output: Seq<char>, packets: u64, bytes: u64) -> Seq<char> {
    "Output #0, "@ + container.called() + ", to '"@ + output + "': "@ + crate::text::decimal(
        packets as nat,
    ) + " packets, "@ + size_text(bytes)
}

/// Reports a finished run.
pub fn report(container: Container, output: &str, packets: u64, bytes: u64) -> (r: String)
    ensures
        r@ == report_line(container, output@, packets, bytes),
{
    let mut r = "Output #0, ".to_owned();
    r.append(container.name());
    r.append(", to '");
    r.append(output);
    r.append("': ");
    put_number(&mut r, packets as u128);
    r.append(" packets, ");
    let s = format_size(bytes);
    r.append(s.as_str());
    assert(r@ =~= report_line(container, output@, packets, bytes));
    r
}

// ---- Laws ---------------------------------------------------------------------

/// A track that has been adapted to a container needs no adapting to it again.
pub proof fn law_retargeting_is_done_once(
    track: crate::media::TrackModel,
    out: Container,
    to: crate::media::TrackModel,
    reframe: Reframe,
)
    requires
        retargeted(track, out) == Ok::<_, Refusal>((to, reframe)),
    ensures
        retargeted(to, out) == Ok::<_, Refusal>((to, Reframe::Keep)),
{
}

/// Only H.264 is ever reframed.
pub proof fn law_other_codecs_are_left_alone(track: crate::media::TrackModel, out: Container)
    requires
        track.codec != Codec::H264,
    ensures
        retargeted(track, out) == Ok::<_, Refusal>((track, Reframe::Keep)),
{
}

/// Reframing changes nothing but the bytes of a packet.
pub proof fn law_reframing_keeps_the_rest(reframe: Reframe, pkt: crate::media::PacketModel)
    ensures
        applied(reframe, pkt).track == pkt.track,
        applied(reframe, pkt).pts == pkt.pts,
        applied(reframe, pkt).keyframe == pkt.keyframe,
        reframe == Reframe::Keep ==> applied(reframe, pkt) == pkt,
{
}

/// Matroska holds every codec, in either direction.
pub proof fn law_matroska_takes_everything(codec: Codec)
    ensures
        crate::registry::readable(Container::Matroska, codec),
        crate::registry::writable(Container::Matroska, codec),
{
}

/// Counting packets one by one adds up.
pub proof fn law_counting_adds_up(
    s: StreamStats,
    a: crate::media::PacketModel,
    b: crate::media::PacketModel,
)
    requires
        s.packets + 2 <= u64::MAX,
        s.bytes + a.data.len() + b.data.len() <= u64::MAX,
    ensures
        s.with(a).with(b).packets == s.packets + 2,
        s.with(a).with(b).bytes == s.bytes + a.data.len() + b.data.len(),
        crate::time::nanos(s.with(a).with(b).last_pts) >= crate::time::nanos(s.last_pts),
        crate::time::nanos(s.with(a).with(b).last_pts) >= crate::time::nanos(a.pts),
        crate::time::nanos(s.with(a).with(b).last_pts) >= crate::time::nanos(b.pts),
{
}

/// A time of `h` hours, `m` minutes, `s` seconds and `r` milliseconds is written so.
pub proof fn law_times_are_written_in_their_parts(d: Duration, h: nat, m: nat, s: nat, r: nat)
    requires
        m < 60,
        s < 60,
        r < 1000,
        crate::time::nanos(d) / 1_000_000 == ((h * 60 + m) * 60 + s) * 1000 + r,
    ensures
        timestamp(d) == crate::text::padded(h, 2) + ":"@ + crate::text::padded(m, 2) + ":"@
            + crate::text::padded(s, 2) + "."@ + crate::text::padded(r, 3),
{
    lemma_parts_of_time(crate::time::nanos(d) / 1_000_000, h, m, s, r);
}

proof fn lemma_parts_of_time(ms: nat, h: nat, m: nat, s: nat, r: nat)
    requires
        m < 60,
        s < 60,
        r < 1000,
        ms == ((h * 60 + m) * 60 + s) * 1000 + r,
    ensures
        ms / 3_600_000 == h,
        (ms / 60_000) % 60 == m,
        (ms / 1_000) % 60 == s,
        ms % 1_000 == r,
{
    let seconds = (h * 60 + m) * 60 + s;
    let minutes = h * 60 + m;
    assert(ms == 1000 * seconds + r);
    assert(ms / 1_000 == seconds && ms % 1_000 == r);
    assert(ms == 60_000 * minutes + (1000 * s + r));
    assert(ms / 60_000 == minutes);
    assert(ms == 3_600_000 * h + (60_000 * m + 1000 * s + r));
    assert(ms / 3_600_000 == h);
    assert(minutes % 60 == m && seconds % 60 == s);
}

/// The nearest whole number is no more than half away, and even where two are as
/// near.
pub proof fn law_nearest_is_within_a_half(n: nat, d: nat)
    requires
        d > 0,
    ensures
        2 * n <= 2 * d * nearest(n, d) + d,
        2 * d * nearest(n, d) <= 2 * n + d,
        2 * n == 2 * d * nearest(n, d) + d || 2 * d * nearest(n, d) == 2 * n + d ==> nearest(n, d)
            % 2 == 0,
{
    let (q, r) = ((n / d) as int, (n % d) as int);
    vstd::arithmetic::div_mod::lemma_fundamental_div_mod(n as int, d as int);
    let m = nearest(n, d) as int;
    assert(d * (q + 1) == d * q + d) by (nonlinear_arith);
    assert(2 * d * m == 2 * (d * m)) by (nonlinear_arith);
}

} // verus!
