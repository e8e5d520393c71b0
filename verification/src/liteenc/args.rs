//! The arguments of `liteenc`.
//!
//! An option belongs to the next file on the command line: before `-i` it
//! means the input, behind it the output.
use vstd::prelude::*;
use crate::media::Codec;
use crate::probe::Container;
use crate::text::{number_up_to, same, same_ignoring_case};

verus! {

/// The frame rate assumed for an elementary stream, which carries no times of
/// its own.
pub const DEFAULT_FRAME_RATE: u32 = 25;

/// The video bitrate aimed at by default, in bits per second.
pub const DEFAULT_VIDEO_BITRATE: i32 = 1_000_000;

pub const USAGE: &'static str = "\
usage:
  liteenc [INPUT OPTIONS] -i INPUT [OUTPUT OPTIONS] OUTPUT
  liteenc probe [-f FORMAT] INPUT
  liteenc formats
  liteenc --help | --version

A Rust-native ffmpeg alternative: demux, decode, encode, mux.

transcode options:
  -i PATH      input file (required)
  -o PATH      output file; a trailing positional argument means the same
  -f FORMAT    container format. Before -i it forces the input's, after -i the
               output's. By default the input is sniffed from its bytes and
               the output taken from its file extension.
  -r FPS       frame rate. Before -i, the rate used to synthesize timestamps
               for an elementary Annex B input (default 25). After -i, the
               rate the encoder is configured with (default: the input's).
  -c SPEC      codec for every stream; `-c copy` remuxes without decoding
  -c:v SPEC    video codec: `copy`, or `av1` on a build with --features av1
  -c:a SPEC    audio codec: `copy`
  -b:v RATE    target video bitrate, e.g. `1M`, `800k` (default 1M)
  -y           overwrite OUTPUT if it already exists
  -n           never overwrite OUTPUT (the default)
  -v           log to stderr

Streams are copied unless a codec is named, so `-i in.mp4 out.mkv` and
`-i in.mp4 -c copy out.mkv` do the same thing. `liteenc formats` lists what
this build can read and write.

exit codes:
  0  success
  1  the input could not be read, or processing failed
  2  bad usage
  3  this build cannot do what was asked (unsupported container or codec)
  4  OUTPUT exists and -y was not given

examples:
  liteenc -i clip.h264 -c copy clip.mkv
  liteenc -i clip.mp4 -c:v av1 -b:v 800k clip.webm
  liteenc probe clip.mkv";

/// What was asked for.
#[derive(Debug, PartialEq)]
pub enum Command {
    Help,
    Version,
    Formats,
    Probe(ProbeArgs),
    Transcode(TranscodeArgs),
}

/// What to probe.
#[derive(Debug, PartialEq)]
pub struct ProbeArgs {
    pub input: String,
    pub input_format: Option<Container>,
    pub verbose: bool,
}

/// What to do with one stream: pass its packets through untouched, or decode
/// and encode them anew.
#[derive(Debug, Clone, Copy, PartialEq, Eq, Structural)]
pub enum CodecSpec {
    Copy,
    To(Codec),
}

/// What to transcode, and how.
#[derive(Debug, PartialEq)]
pub struct TranscodeArgs {
    pub input: String,
    pub output: String,
    pub input_format: Option<Container>,
    pub output_format: Option<Container>,
    pub video: CodecSpec,
    pub audio: CodecSpec,
    pub input_frame_rate: u32,
    /// Without one, the input's.
    pub output_frame_rate: Option<u32>,
    pub video_bitrate: i32,
    pub overwrite: bool,
    pub verbose: bool,
}

/// What to transcode, and how, with its paths as sequences.
pub struct TranscodeModel {
    pub input: Seq<char>,
    pub output: Seq<char>,
    pub input_format: Option<Container>,
    pub output_format: Option<Container>,
    pub video: CodecSpec,
    pub audio: CodecSpec,
    pub input_frame_rate: u32,
    pub output_frame_rate: Option<u32>,
    pub video_bitrate: i32,
    pub overwrite: bool,
    pub verbose: bool,
}

impl View for TranscodeArgs {
    type V = TranscodeModel;

    open spec fn view(&self) -> TranscodeModel {
        TranscodeModel {
            input: self.input@,
            output: self.output@,
            input_format: self.input_format,
            output_format: self.output_format,
            video: self.video,
            audio: self.audio,
            input_frame_rate: self.input_frame_rate,
            output_frame_rate: self.output_frame_rate,
            video_bitrate: self.video_bitrate,
            overwrite: self.overwrite,
            verbose: self.verbose,
        }
    }
}

impl TranscodeArgs {
    /// The frame rate that the encoder is set up with.
    pub fn encoder_frame_rate(&self) -> (r: u32)
        ensures
            r == (match self.output_frame_rate {
                Some(fps) => fps,
                None => self.input_frame_rate,
            }),
    {
        match self.output_frame_rate {
            Some(fps) => fps,
            None => self.input_frame_rate,
        }
    }
}

/// A usage error, in words.
#[derive(Debug, PartialEq)]
pub struct UsageError(pub String);

impl UsageError {
    /// The error in words.
    pub fn message(&self) -> (m: &String)
        ensures
            m@ == self.0@,
    {
        &self.0
    }
}

/// The texts of some arguments.
pub open spec fn words(argv: Seq<String>) -> Seq<Seq<char>> {
    Seq::new(argv.len(), |i: int| argv[i]@)
}

// ---- What an argument is ------------------------------------------------------

/// What an argument of a transcode is.
#[derive(Debug, Clone, Copy, PartialEq, Eq, Structural)]
pub enum Word {
    Input,
    Output,
    Format,
    Rate,
    AnyCodec,
    VideoCodec,
    AudioCodec,
    Bitrate,
    Overwrite,
    Keep,
    Verbose,
    Unknown,
    Path,
}

/// Whether an argument looks like an option.
pub open spec fn dashed(arg: Seq<char>) -> bool {
    arg.len() > 0 && arg[0] == '-'
}

impl Word {
    /// What an argument is.
    pub open spec fn of(arg: Seq<char>) -> Word {
        if arg == "-i"@ {
            Word::Input
        } else if arg == "-o"@ {
            Word::Output
        } else if arg == "-f"@ {
            Word::Format
        } else if arg == "-r"@ {
            Word::Rate
        } else if arg == "-c"@ || arg == "-codec"@ {
            Word::AnyCodec
        } else if arg == "-c:v"@ || arg == "-vcodec"@ {
            Word::VideoCodec
        } else if arg == "-c:a"@ || arg == "-acodec"@ {
            Word::AudioCodec
        } else if arg == "-b:v"@ {
            Word::Bitrate
        } else if arg == "-y"@ {
            Word::Overwrite
        } else if arg == "-n"@ {
            Word::Keep
        } else if arg == "-v"@ || arg == "--verbose"@ {
            Word::Verbose
        } else if dashed(arg) {
            Word::Unknown
        } else {
            Word::Path
        }
    }

    /// Whether the next argument is its value.
    pub open spec fn takes_value(self) -> bool {
        match self {
            Word::Input | Word::Output | Word::Format | Word::Rate | Word::AnyCodec
            | Word::VideoCodec | Word::AudioCodec | Word::Bitrate => true,
            _ => false,
        }
    }

    /// What an argument is.
    fn read(arg: &str) -> (w: Word)
        ensures
            w == Word::of(arg@),
    {
        if same(arg, "-i") {
            Word::Input
        } else if same(arg, "-o") {
            Word::Output
        } else if same(arg, "-f") {
            Word::Format
        } else if same(arg, "-r") {
            Word::Rate
        } else if same(arg, "-c") || same(arg, "-codec") {
            Word::AnyCodec
        } else if same(arg, "-c:v") || same(arg, "-vcodec") {
            Word::VideoCodec
        } else if same(arg, "-c:a") || same(arg, "-acodec") {
            Word::AudioCodec
        } else if same(arg, "-b:v") {
            Word::Bitrate
        } else if same(arg, "-y") {
            Word::Overwrite
        } else if same(arg, "-n") {
            Word::Keep
        } else if same(arg, "-v") || same(arg, "--verbose") {
            Word::Verbose
        } else if is_dashed(arg) {
            Word::Unknown
        } else {
            Word::Path
        }
    }

    /// Whether the next argument is its value.
    fn has_value(self) -> (r: bool)
        ensures
            r == self.takes_value(),
    {
        match self {
            Word::Input | Word::Output | Word::Format | Word::Rate | Word::AnyCodec
            | Word::VideoCodec | Word::AudioCodec | Word::Bitrate => true,
            _ => false,
        }
    }
}

/// Whether an argument looks like an option.
fn is_dashed(arg: &str) -> (r: bool)
    ensures
        r == dashed(arg@),
{
    arg.unicode_len() > 0 && arg.get_char(0) == '-'
}

// ---- What goes wrong ----------------------------------------------------------

/// An option stands last that needs a value.
pub open spec fn needs_value(flag: Seq<char>) -> Seq<char> {
    "`"@ + flag + "` needs a value"@
}

/// An option that there is not.
pub open spec fn unknown_option(arg: Seq<char>) -> Seq<char> {
    "unknown option `"@ + arg + "`"@
}

/// A format that there is not.
pub open spec fn unknown_format(name: Seq<char>) -> Seq<char> {
    "unknown format `"@ + name + "`; run `liteenc formats` for the list"@
}

/// A codec that there is not.
pub open spec fn unknown_codec(name: Seq<char>) -> Seq<char> {
    "unknown codec `"@ + name + "`; run `liteenc formats` for the list"@
}

/// A second output.
pub open spec fn two_outputs(first: Seq<char>, second: Seq<char>) -> Seq<char> {
    "two outputs given (`"@ + first + "` and `"@ + second + "`); liteenc writes one file"@
}

/// A frame rate that is none.
pub open spec fn bad_rate(value: Seq<char>) -> Seq<char> {
    "`-r` needs a positive whole frame rate, got `"@ + value + "`"@
}

/// A bitrate that is none.
pub open spec fn bad_bitrate(value: Seq<char>) -> Seq<char> {
    "`-b:v` needs a positive bitrate like `800k` or `1M`, got `"@ + value + "`"@
}

/// A bitrate that does not fit.
pub open spec fn large_bitrate(value: Seq<char>) -> Seq<char> {
    "bitrate `"@ + value + "` is too large"@
}

/// A second file to probe.
pub open spec fn unexpected(arg: Seq<char>) -> Seq<char> {
    "unexpected argument `"@ + arg + "`; probe takes one file"@
}

/// A usage error of some text between two others.
fn err(before: &str, text: &str, after: &str) -> (e: UsageError)
    ensures
        e.0@ == before@ + text@ + after@,
{
    let mut m = before.to_owned();
    m.append(text);
    m.append(after);
    UsageError(m)
}

/// A usage error of fixed words.
fn plain(text: &str) -> (e: UsageError)
    ensures
        e.0@ == text@,
{
    UsageError(text.to_owned())
}

// ---- Single values ------------------------------------------------------------

/// What is told of a value: the value, or a message.
pub open spec fn tells<T>(r: Result<T, UsageError>, told: Result<T, Seq<char>>) -> bool {
    match (r, told) {
        (Ok(a), Ok(b)) => a == b,
        (Err(e), Err(m)) => e.0@ == m,
        _ => false,
    }
}

/// The container that a name means.
pub open spec fn container_told(name: Seq<char>) -> Result<Container, Seq<char>> {
    match Container::named(name) {
        Some(c) => Ok(c),
        None => Err(unknown_format(name)),
    }
}

/// The container that a name means.
pub fn container(name: &str) -> (r: Result<Container, UsageError>)
    ensures
        tells(r, container_told(name@)),
{
    match Container::from_name(name) {
        Some(c) => Ok(c),
        None => Err(err("unknown format `", name, "`; run `liteenc formats` for the list")),
    }
}

/// What to do with a stream, by a codec's name or `copy` in any case.
pub open spec fn codec_told(name: Seq<char>) -> Result<CodecSpec, Seq<char>> {
    if crate::text::lower(name) == crate::text::lower("copy"@) {
        Ok(CodecSpec::Copy)
    } else {
        match Codec::named(name) {
            Some(c) => Ok(CodecSpec::To(c)),
            None => Err(unknown_codec(name)),
        }
    }
}

/// What to do with a stream.
pub fn codec_spec(name: &str) -> (r: Result<CodecSpec, UsageError>)
    ensures
        tells(r, codec_told(name@)),
{
    if same_ignoring_case(name, "copy") {
        return Ok(CodecSpec::Copy);
    }
    match Codec::from_name(name) {
        Some(c) => Ok(CodecSpec::To(c)),
        None => Err(err("unknown codec `", name, "`; run `liteenc formats` for the list")),
    }
}

/// The frame rate that text spells: a positive whole number of 32 bits.
pub open spec fn rate_told(value: Seq<char>) -> Result<u32, Seq<char>> {
    match crate::text::whole_number(value) {
        Some(n) => if 0 < n <= u32::MAX {
            Ok(n as u32)
        } else {
            Err(bad_rate(value))
        },
        None => Err(bad_rate(value)),
    }
}

/// The frame rate that text spells.
pub fn frame_rate(value: &str) -> (r: Result<u32, UsageError>)
    ensures
        tells(r, rate_told(value@)),
{
    match number_up_to(value, u32::MAX as u64) {
        Some(fps) if fps > 0 => Ok(fps as u32),
        _ => Err(err("`-r` needs a positive whole frame rate, got `", value, "`")),
    }
}

/// What the last letter of a bitrate multiplies it by: powers of ten, not of
/// two.
pub open spec fn bitrate_scale(value: Seq<char>) -> nat {
    if value.len() > 0 && (value.last() == 'k' || value.last() == 'K') {
        1_000
    } else if value.len() > 0 && (value.last() == 'm' || value.last() == 'M') {
        1_000_000
    } else {
        1
    }
}

/// The bitrate that text spells: a positive whole number with `k` or `M` behind
/// it at most, of 31 bits with and without it.
pub open spec fn bitrate_told(value: Seq<char>) -> Result<i32, Seq<char>> {
    let scale = bitrate_scale(value);
    let digits = if scale == 1 {
        value
    } else {
        value.drop_last()
    };
    match crate::text::whole_number(digits) {
        Some(n) => if !(0 < n <= i32::MAX) {
            Err(bad_bitrate(value))
        } else if n * scale <= i32::MAX {
            Ok((n * scale) as i32)
        } else {
            Err(large_bitrate(value))
        },
        None => Err(bad_bitrate(value)),
    }
}

/// The bitrate that text spells.
pub fn bitrate(value: &str) -> (r: Result<i32, UsageError>)
    ensures
        tells(r, bitrate_told(value@)),
{
    let n: usize = value.unicode_len();
    let scale: u64 = if n == 0 {
        1
    } else {
        let last: char = value.get_char(n - 1);
        if last == 'k' || last == 'K' {
            1_000
        } else if last == 'm' || last == 'M' {
            1_000_000
        } else {
            1
        }
    };
    let digits: &str = if scale == 1 {
        value
    } else {
        value.substring_char(0, n - 1)
    };
    assert(scale != 1 ==> digits@ =~= value@.drop_last());
    match number_up_to(digits, i32::MAX as u64) {
        Some(count) if count > 0 => {
            let rate: u64 = count * scale;
            if rate <= i32::MAX as u64 {
                Ok(rate as i32)
            } else {
                Err(err("bitrate `", value, "` is too large"))
            }
        },
        _ => Err(
            err("`-b:v` needs a positive bitrate like `800k` or `1M`, got `", value, "`"),
        ),
    }
}

/// The argument behind an option, which is its value.
pub open spec fn value_told(argv: Seq<Seq<char>>, at: int, flag: Seq<char>) -> Result<
    Seq<char>,
    Seq<char>,
> {
    if at < argv.len() {
        Ok(argv[at])
    } else {
        Err(needs_value(flag))
    }
}

/// The argument behind an option, which is its value.
pub fn value<'a>(argv: &'a [String], at: usize, flag: &str) -> (r: Result<&'a str, UsageError>)
    ensures
        match (r, value_told(words(argv@), at as int, flag@)) {
            (Ok(v), Ok(w)) => v@ == w,
            (Err(e), Err(m)) => e.0@ == m,
            _ => false,
        },
{
    if at < argv.len() {
        Ok(argv[at].as_str())
    } else {
        Err(err("`", flag, "` needs a value"))
    }
}

/// Names the output, which may be named once.
pub fn set_output(slot: &mut Option<String>, path: &str) -> (r: Result<(), UsageError>)
    ensures
        match *old(slot) {
            Some(first) => *final(slot) == *old(slot) && (r matches Err(e) && e.0@ == two_outputs(
                first@,
                path@,
            )),
            None => r is Ok && (*final(slot) matches Some(s) && s@ == path@),
        },
{
    if let Some(first) = &*slot {
        let mut m = "two outputs given (`".to_owned();
        m.append(first.as_str());
        m.append("` and `");
        m.append(path);
        m.append("`); liteenc writes one file");
        return Err(UsageError(m));
    }
    *slot = Some(path.to_owned());
    Ok(())
}

// ---- Paths --------------------------------------------------------------------

/// A part of a path, where it counts: not an empty one, and not one of a single
/// dot but at the start.
pub open spec fn part(path: Seq<char>, start: int, end: int) -> Seq<Seq<char>> {
    let p = path.subrange(start, end);
    if p.len() == 0 || (p == "."@ && start > 0) {
        Seq::empty()
    } else {
        seq![p]
    }
}

/// The parts of a path from a point on, the first of them begun at `start`.
pub open spec fn parts_from(path: Seq<char>, start: int, at: int) -> Seq<Seq<char>>
    decreases path.len() - at,
{
    if at >= path.len() {
        part(path, start, path.len() as int)
    } else if path[at] == '/' {
        part(path, start, at) + parts_from(path, at + 1, at + 1)
    } else {
        parts_from(path, start, at + 1)
    }
}

/// Whether a path starts at the root.
pub open spec fn rooted(path: Seq<char>) -> bool {
    path.len() > 0 && path[0] == '/'
}

/// Whether two paths have the same parts.
pub open spec fn same_path(a: Seq<char>, b: Seq<char>) -> bool {
    rooted(a) == rooted(b) && parts_from(a, 0, 0) == parts_from(b, 0, 0)
}

/// The texts of some strings.
pub open spec fn texts(list: Seq<String>) -> Seq<Seq<char>> {
    Seq::new(list.len(), |i: int| list[i]@)
}

/// The parts of a path.
fn parts(path: &str) -> (r: Vec<String>)
    ensures
        texts(r@) == parts_from(path@, 0, 0),
{
    let n: usize = path.unicode_len();
    let mut r: Vec<String> = Vec::new();
    let mut start: usize = 0;
    let mut at: usize = 0;
    assert(texts(r@) =~= Seq::<Seq<char>>::empty());
    assert(parts_from(path@, 0, 0) =~= texts(r@) + parts_from(path@, 0, 0));
    while at < n
        invariant
            n == path@.len(),
            start <= at <= n,
            parts_from(path@, 0, 0) == texts(r@) + parts_from(path@, start as int, at as int),
        decreases n - at,
    {
        if path.get_char(at) == '/' {
            let ghost before = texts(r@);
            push_part(&mut r, path, start, at);
            assert(parts_from(path@, 0, 0) =~= before + part(path@, start as int, at as int)
                + parts_from(path@, at + 1, at + 1));
            start = at + 1;
        }
        at = at + 1;
    }
    push_part(&mut r, path, start, n);
    r
}

/// Takes a part of a path, where it counts.
fn push_part(r: &mut Vec<String>, path: &str, start: usize, end: usize)
    requires
        start <= end <= path@.len(),
    ensures
        texts(final(r)@) == texts(old(r)@) + part(path@, start as int, end as int),
{
    let p = path.substring_char(start, end);
    let ghost before = r@;
    if start == end || (start > 0 && same(p, ".")) {
        assert(texts(r@) =~= texts(before) + part(path@, start as int, end as int));
        return;
    }
    r.push(p.to_owned());
    assert(texts(r@) =~= texts(before) + part(path@, start as int, end as int));
}

/// Whether two paths have the same parts.
pub fn is_same_path(a: &str, b: &str) -> (r: bool)
    ensures
        r == same_path(a@, b@),
{
    let root_a: bool = a.unicode_len() > 0 && a.get_char(0) == '/';
    let root_b: bool = b.unicode_len() > 0 && b.get_char(0) == '/';
    if root_a != root_b {
        return false;
    }
    let x = parts(a);
    let y = parts(b);
    let n: usize = x.len();
    if n != y.len() {
        assert(texts(x@).len() != texts(y@).len());
        return false;
    }
    let mut i: usize = 0;
    while i < n
        invariant
            n == x@.len() == y@.len(),
            i <= n,
            rooted(a@) == rooted(b@),
            texts(x@) == parts_from(a@, 0, 0),
            texts(y@) == parts_from(b@, 0, 0),
            forall|j: int| 0 <= j < i ==> #[trigger] texts(x@)[j] == texts(y@)[j],
        decreases n - i,
    {
        if !same(x[i].as_str(), y[i].as_str()) {
            assert(texts(x@)[i as int] != texts(y@)[i as int]);
            return false;
        }
        assert(texts(x@)[i as int] == texts(y@)[i as int]);
        i = i + 1;
    }
    assert(texts(x@) =~= texts(y@));
    true
}

// ---- Transcoding --------------------------------------------------------------

/// What has been said of a transcode so far.
pub struct Draft {
    pub input: Option<Seq<char>>,
    pub output: Option<Seq<char>>,
    pub input_format: Option<Container>,
    pub output_format: Option<Container>,
    pub video: Option<CodecSpec>,
    pub audio: Option<CodecSpec>,
    pub input_frame_rate: Option<u32>,
    pub output_frame_rate: Option<u32>,
    pub video_bitrate: i32,
    pub overwrite: bool,
    pub verbose: bool,
}

/// Nothing said yet.
pub open spec fn blank() -> Draft {
    Draft {
        input: None,
        output: None,
        input_format: None,
        output_format: None,
        video: None,
        audio: None,
        input_frame_rate: None,
        output_frame_rate: None,
        video_bitrate: DEFAULT_VIDEO_BITRATE,
        overwrite: false,
        verbose: false,
    }
}

/// What is said with the output named.
pub open spec fn with_output(d: Draft, path: Seq<char>) -> Result<Draft, Seq<char>> {
    match d.output {
        Some(first) => Err(two_outputs(first, path)),
        None => Ok(Draft { output: Some(path), ..d }),
    }
}

/// What is said with one more argument, and its value where it takes one.
pub open spec fn said(d: Draft, word: Word, arg: Seq<char>, value: Result<Seq<char>, Seq<char>>) -> Result<
    Draft,
    Seq<char>,
> {
    match (word, value) {
        (Word::Overwrite, _) => Ok(Draft { overwrite: true, ..d }),
        (Word::Keep, _) => Ok(Draft { overwrite: false, ..d }),
        (Word::Verbose, _) => Ok(Draft { verbose: true, ..d }),
        (Word::Unknown, _) => Err(unknown_option(arg)),
        (Word::Path, _) => with_output(d, arg),
        (Word::Input, v) => if d.input is Some {
            Err("only one input (-i) is supported"@)
        } else {
            match v {
                Ok(path) => Ok(Draft { input: Some(path), ..d }),
                Err(m) => Err(m),
            }
        },
        (_, Err(m)) => Err(m),
        (Word::Output, Ok(v)) => with_output(d, v),
        (Word::Format, Ok(v)) => match container_told(v) {
            Ok(c) => if d.input is Some {
                Ok(Draft { output_format: Some(c), ..d })
            } else {
                Ok(Draft { input_format: Some(c), ..d })
            },
            Err(m) => Err(m),
        },
        (Word::Rate, Ok(v)) => match rate_told(v) {
            Ok(fps) => if d.input is Some {
                Ok(Draft { output_frame_rate: Some(fps), ..d })
            } else {
                Ok(Draft { input_frame_rate: Some(fps), ..d })
            },
            Err(m) => Err(m),
        },
        (Word::AnyCodec, Ok(v)) => match codec_told(v) {
            Ok(c) => Ok(Draft { video: Some(c), audio: Some(c), ..d }),
            Err(m) => Err(m),
        },
        (Word::VideoCodec, Ok(v)) => match codec_told(v) {
            Ok(c) => Ok(Draft { video: Some(c), ..d }),
            Err(m) => Err(m),
        },
        (Word::AudioCodec, Ok(v)) => match codec_told(v) {
            Ok(c) => Ok(Draft { audio: Some(c), ..d }),
            Err(m) => Err(m),
        },
        (Word::Bitrate, Ok(v)) => match bitrate_told(v) {
            Ok(rate) => Ok(Draft { video_bitrate: rate, ..d }),
            Err(m) => Err(m),
        },
    }
}

/// What is said with all the arguments from one on.
pub open spec fn drafted(d: Draft, argv: Seq<Seq<char>>, at: int) -> Result<Draft, Seq<char>>
    decreases argv.len() - at,
{
    if at >= argv.len() {
        Ok(d)
    } else {
        let word = Word::of(argv[at]);
        match said(d, word, argv[at], value_told(argv, at + 1, argv[at])) {
            Ok(next) => drafted(
                next,
                argv,
                at + if word.takes_value() {
                    2int
                } else {
                    1
                },
            ),
            Err(m) => Err(m),
        }
    }
}

/// What to transcode, once all is said: copying is the default, since every
/// pair of containers can do that much.
pub open spec fn settled(d: Draft) -> Result<TranscodeModel, Seq<char>> {
    match (d.input, d.output) {
        (None, _) => Err("no input given; use -i PATH"@),
        (_, None) => Err("no output given; pass a path, or -o PATH"@),
        (Some(input), Some(output)) => if same_path(input, output) {
            Err("input and output are the same file"@)
        } else {
            Ok(
                TranscodeModel {
                    input,
                    output,
                    input_format: d.input_format,
                    output_format: d.output_format,
                    video: match d.video {
                        Some(c) => c,
                        None => CodecSpec::Copy,
                    },
                    audio: match d.audio {
                        Some(c) => c,
                        None => CodecSpec::Copy,
                    },
                    input_frame_rate: match d.input_frame_rate {
                        Some(fps) => fps,
                        None => DEFAULT_FRAME_RATE,
                    },
                    output_frame_rate: d.output_frame_rate,
                    video_bitrate: d.video_bitrate,
                    overwrite: d.overwrite,
                    verbose: d.verbose,
                },
            )
        },
    }
}

/// What to transcode, by all the arguments.
pub open spec fn transcode_told(argv: Seq<Seq<char>>) -> Result<TranscodeModel, Seq<char>> {
    match drafted(blank(), argv, 0) {
        Ok(d) => settled(d),
        Err(m) => Err(m),
    }
}

/// What has been said of a transcode so far.
struct Partial {
    input: Option<String>,
    output: Option<String>,
    input_format: Option<Container>,
    output_format: Option<Container>,
    video: Option<CodecSpec>,
    audio: Option<CodecSpec>,
    input_frame_rate: Option<u32>,
    output_frame_rate: Option<u32>,
    video_bitrate: i32,
    overwrite: bool,
    verbose: bool,
}

/// The text of a path, where there is one.
spec fn path_text(path: Option<String>) -> Option<Seq<char>> {
    match path {
        Some(s) => Some(s@),
        None => None,
    }
}

impl Partial {
    spec fn draft(self) -> Draft {
        Draft {
            input: path_text(self.input),
            output: path_text(self.output),
            input_format: self.input_format,
            output_format: self.output_format,
            video: self.video,
            audio: self.audio,
            input_frame_rate: self.input_frame_rate,
            output_frame_rate: self.output_frame_rate,
            video_bitrate: self.video_bitrate,
            overwrite: self.overwrite,
            verbose: self.verbose,
        }
    }

    /// Takes an option that stands alone, or a path.
    fn take_alone(&mut self, word: Word, arg: &str) -> (r: Result<(), UsageError>)
        requires
            !word.takes_value(),
        ensures
            forall|v: Result<Seq<char>, Seq<char>>|
                match (r, #[trigger] said(old(self).draft(), word, arg@, v)) {
                    (Ok(_), Ok(d)) => final(self).draft() == d,
                    (Err(e), Err(m)) => e.0@ == m,
                    _ => false,
                },
    {
        match word {
            Word::Overwrite => {
                self.overwrite = true;
                Ok(())
            },
            Word::Keep => {
                self.overwrite = false;
                Ok(())
            },
            Word::Verbose => {
                self.verbose = true;
                Ok(())
            },
            Word::Unknown => Err(err("unknown option `", arg, "`")),
            _ => set_output(&mut self.output, arg),
        }
    }

    /// Takes an option with its value.
    fn take_valued(&mut self, word: Word, arg: &str, v: &str) -> (r: Result<(), UsageError>)
        requires
            word.takes_value(),
        ensures
            match (r, said(old(self).draft(), word, arg@, Ok(v@))) {
                (Ok(_), Ok(d)) => final(self).draft() == d,
                (Err(e), Err(m)) => e.0@ == m,
                _ => false,
            },
    {
        let for_output: bool = self.input.is_some();
        match word {
            Word::Input => {
                if for_output {
                    return Err(plain("only one input (-i) is supported"));
                }
                self.input = Some(v.to_owned());
            },
            Word::Output => {
                return set_output(&mut self.output, v);
            },
            Word::Format => match container(v) {
                Ok(c) => {
                    if for_output {
                        self.output_format = Some(c);
                    } else {
                        self.input_format = Some(c);
                    }
                },
                Err(e) => {
                    return Err(e);
                },
            },
            Word::Rate => match frame_rate(v) {
                Ok(fps) => {
                    if for_output {
                        self.output_frame_rate = Some(fps);
                    } else {
                        self.input_frame_rate = Some(fps);
                    }
                },
                Err(e) => {
                    return Err(e);
                },
            },
            Word::Bitrate => match bitrate(v) {
                Ok(rate) => {
                    self.video_bitrate = rate;
                },
                Err(e) => {
                    return Err(e);
                },
            },
            _ => match codec_spec(v) {
                Ok(spec) => match word {
                    Word::AnyCodec => {
                        self.video = Some(spec);
                        self.audio = Some(spec);
                    },
                    Word::VideoCodec => {
                        self.video = Some(spec);
                    },
                    _ => {
                        self.audio = Some(spec);
                    },
                },
                Err(e) => {
                    return Err(e);
                },
            },
        }
        Ok(())
    }

    /// What to transcode, once all is said.
    fn settle(self) -> (r: Result<TranscodeArgs, UsageError>)
        ensures
            match (r, settled(self.draft())) {
                (Ok(a), Ok(m)) => a@ == m,
                (Err(e), Err(m)) => e.0@ == m,
                _ => false,
            },
    {
        let Some(input) = self.input else {
            return Err(plain("no input given; use -i PATH"));
        };
        let Some(output) = self.output else {
            return Err(plain("no output given; pass a path, or -o PATH"));
        };
        if is_same_path(input.as_str(), output.as_str()) {
            return Err(plain("input and output are the same file"));
        }
        Ok(
            TranscodeArgs {
                input,
                output,
                input_format: self.input_format,
                output_format: self.output_format,
                video: match self.video {
                    Some(spec) => spec,
                    None => CodecSpec::Copy,
                },
                audio: match self.audio {
                    Some(spec) => spec,
                    None => CodecSpec::Copy,
                },
                input_frame_rate: match self.input_frame_rate {
                    Some(fps) => fps,
                    None => DEFAULT_FRAME_RATE,
                },
                output_frame_rate: self.output_frame_rate,
                video_bitrate: self.video_bitrate,
                overwrite: self.overwrite,
                verbose: self.verbose,
            },
        )
    }
}

/// Reads the arguments of a transcode.
pub fn parse_transcode(argv: &[String]) -> (r: Result<TranscodeArgs, UsageError>)
    ensures
        match (r, transcode_told(words(argv@))) {
            (Ok(a), Ok(m)) => a@ == m,
            (Err(e), Err(m)) => e.0@ == m,
            _ => false,
        },
{
    let mut partial = Partial {
        input: None,
        output: None,
        input_format: None,
        output_format: None,
        video: None,
        audio: None,
        input_frame_rate: None,
        output_frame_rate: None,
        video_bitrate: DEFAULT_VIDEO_BITRATE,
        overwrite: false,
        verbose: false,
    };
    let ghost all = words(argv@);
    let ghost goal = drafted(blank(), all, 0);
    assert(partial.draft() == blank());
    let n: usize = argv.len();
    let mut at: usize = 0;
    while at < n
        invariant
            n == argv@.len(),
            at <= n,
            all == words(argv@),
            goal == drafted(blank(), all, 0),
            goal == drafted(partial.draft(), all, at as int),
        decreases n - at,
    {
        let arg: &str = argv[at].as_str();
        assert(all[at as int] == arg@);
        let word = Word::read(arg);
        if word.has_value() {
            if let Word::Input = word {
                if partial.input.is_some() {
                    return Err(plain("only one input (-i) is supported"));
                }
            }
            let v: &str = match value(argv, at + 1, arg) {
                Ok(v) => v,
                Err(e) => {
                    return Err(e);
                },
            };
            if let Err(e) = partial.take_valued(word, arg, v) {
                return Err(e);
            }
            at = at + 2;
        } else {
            let ghost v = value_told(all, at + 1, all[at as int]);
            let ghost before = partial.draft();
            let taken = partial.take_alone(word, arg);
            assert(said(before, word, arg@, v) == said(before, word, arg@, v));
            if let Err(e) = taken {
                return Err(e);
            }
            at = at + 1;
        }
    }
    partial.settle()
}

// ---- Probing ------------------------------------------------------------------

/// What to probe, with its path as a sequence.
pub struct ProbeModel {
    pub input: Seq<char>,
    pub input_format: Option<Container>,
    pub verbose: bool,
}

impl View for ProbeArgs {
    type V = ProbeModel;

    open spec fn view(&self) -> ProbeModel {
        ProbeModel { input: self.input@, input_format: self.input_format, verbose: self.verbose }
    }
}

/// What to probe, by the arguments from one on. The file may be named by `-i`
/// too, where the last one counts.
pub open spec fn probe_from(
    input: Option<Seq<char>>,
    format: Option<Container>,
    verbose: bool,
    argv: Seq<Seq<char>>,
    at: int,
) -> Result<ProbeModel, Seq<char>>
    decreases argv.len() - at,
{
    if at >= argv.len() {
        match input {
            Some(path) => Ok(ProbeModel { input: path, input_format: format, verbose }),
            None => Err("probe needs an input file"@),
        }
    } else {
        let arg = argv[at];
        if arg == "-i"@ {
            match value_told(argv, at + 1, arg) {
                Ok(path) => probe_from(Some(path), format, verbose, argv, at + 2),
                Err(m) => Err(m),
            }
        } else if arg == "-f"@ {
            match value_told(argv, at + 1, arg) {
                Ok(name) => match container_told(name) {
                    Ok(c) => probe_from(input, Some(c), verbose, argv, at + 2),
                    Err(m) => Err(m),
                },
                Err(m) => Err(m),
            }
        } else if arg == "-v"@ || arg == "--verbose"@ {
            probe_from(input, format, true, argv, at + 1)
        } else if dashed(arg) {
            Err(unknown_option(arg))
        } else if input is None {
            probe_from(Some(arg), format, verbose, argv, at + 1)
        } else {
            Err(unexpected(arg))
        }
    }
}

/// Reads the arguments of a probe from one on.
fn probe_rest(argv: &[String], from: usize) -> (r: Result<ProbeArgs, UsageError>)
    requires
        from <= argv@.len(),
    ensures
        match (r, probe_from(None, None, false, words(argv@), from as int)) {
            (Ok(a), Ok(m)) => a@ == m,
            (Err(e), Err(m)) => e.0@ == m,
            _ => false,
        },
{
    let mut input: Option<String> = None;
    let mut input_format: Option<Container> = None;
    let mut verbose: bool = false;
    let ghost all = words(argv@);
    let ghost goal = probe_from(None, None, false, all, from as int);
    let n: usize = argv.len();
    let mut at: usize = from;
    while at < n
        invariant
            n == argv@.len(),
            at <= n,
            all == words(argv@),
            goal == probe_from(None, None, false, all, from as int),
            goal == probe_from(path_text(input), input_format, verbose, all, at as int),
        decreases n - at,
    {
        let arg: &str = argv[at].as_str();
        assert(all[at as int] == arg@);
        if same(arg, "-i") || same(arg, "-f") {
            let v: &str = match value(argv, at + 1, arg) {
                Ok(v) => v,
                Err(e) => {
                    return Err(e);
                },
            };
            if same(arg, "-i") {
                input = Some(v.to_owned());
            } else {
                match container(v) {
                    Ok(c) => {
                        input_format = Some(c);
                    },
                    Err(e) => {
                        return Err(e);
                    },
                }
            }
            at = at + 2;
        } else {
            if same(arg, "-v") || same(arg, "--verbose") {
                verbose = true;
            } else if is_dashed(arg) {
                return Err(err("unknown option `", arg, "`"));
            } else if input.is_none() {
                input = Some(arg.to_owned());
            } else {
                return Err(err("unexpected argument `", arg, "`; probe takes one file"));
            }
            at = at + 1;
        }
    }
    match input {
        Some(path) => Ok(ProbeArgs { input: path, input_format, verbose }),
        None => Err(plain("probe needs an input file")),
    }
}

/// Reads the arguments of a probe.
pub fn parse_probe(argv: &[String]) -> (r: Result<ProbeArgs, UsageError>)
    ensures
        match (r, probe_from(None, None, false, words(argv@), 0)) {
            (Ok(a), Ok(m)) => a@ == m,
            (Err(e), Err(m)) => e.0@ == m,
            _ => false,
        },
{
    probe_rest(argv, 0)
}

// ---- Everything ---------------------------------------------------------------

/// What was asked for, with its paths as sequences.
pub enum CommandModel {
    Help,
    Version,
    Formats,
    Probe(ProbeModel),
    Transcode(TranscodeModel),
}

impl View for Command {
    type V = CommandModel;

    open spec fn view(&self) -> CommandModel {
        match self {
            Command::Help => CommandModel::Help,
            Command::Version => CommandModel::Version,
            Command::Formats => CommandModel::Formats,
            Command::Probe(a) => CommandModel::Probe(a@),
            Command::Transcode(a) => CommandModel::Transcode(a@),
        }
    }
}

/// What was asked for, by all the arguments without the program's name.
pub open spec fn command_told(argv: Seq<Seq<char>>) -> Result<CommandModel, Seq<char>> {
    if argv.len() == 0 {
        Err("no arguments given"@)
    } else {
        let first = argv[0];
        if first == "-h"@ || first == "--help"@ || first == "help"@ {
            Ok(CommandModel::Help)
        } else if first == "-V"@ || first == "--version"@ || first == "version"@ {
            Ok(CommandModel::Version)
        } else if first == "formats"@ {
            if argv.len() > 1 {
                Err("`formats` takes no arguments"@)
            } else {
                Ok(CommandModel::Formats)
            }
        } else if first == "probe"@ {
            match probe_from(None, None, false, argv, 1) {
                Ok(m) => Ok(CommandModel::Probe(m)),
                Err(m) => Err(m),
            }
        } else {
            match transcode_told(argv) {
                Ok(m) => Ok(CommandModel::Transcode(m)),
                Err(m) => Err(m),
            }
        }
    }
}

/// Reads the arguments, without the program's name.
pub fn parse(argv: &[String]) -> (r: Result<Command, UsageError>)
    ensures
        match (r, command_told(words(argv@))) {
            (Ok(c), Ok(m)) => c@ == m,
            (Err(e), Err(m)) => e.0@ == m,
            _ => false,
        },
{
    if argv.len() == 0 {
        return Err(plain("no arguments given"));
    }
    let first: &str = argv[0].as_str();
    assert(words(argv@)[0] == first@);
    if same(first, "-h") || same(first, "--help") || same(first, "help") {
        Ok(Command::Help)
    } else if same(first, "-V") || same(first, "--version") || same(first, "version") {
        Ok(Command::Version)
    } else if same(first, "formats") {
        if argv.len() > 1 {
            return Err(plain("`formats` takes no arguments"));
        }
        Ok(Command::Formats)
    } else if same(first, "probe") {
        match probe_rest(argv, 1) {
            Ok(a) => Ok(Command::Probe(a)),
            Err(e) => Err(e),
        }
    } else {
        match parse_transcode(argv) {
            Ok(a) => Ok(Command::Transcode(a)),
            Err(e) => Err(e),
        }
    }
}

/// Whether the command asks for a log.
pub fn verbose(command: &Command) -> (r: bool)
    ensures
        r == (match command@ {
            CommandModel::Probe(a) => a.verbose,
            CommandModel::Transcode(a) => a.verbose,
            _ => false,
        }),
{
    match command {
        Command::Probe(a) => a.verbose,
        Command::Transcode(a) => a.verbose,
        _ => false,
    }
}

// ---- Laws ---------------------------------------------------------------------

/// Of `-y` and `-n` the last one counts, whatever stands between them.
pub proof fn law_last_overwrite_flag_counts(
    d: Draft,
    word: Word,
    arg: Seq<char>,
    value: Result<Seq<char>, Seq<char>>,
)
    ensures
        said(d, Word::Overwrite, arg, value) matches Ok(n) && n.overwrite,
        said(d, Word::Keep, arg, value) matches Ok(n) && !n.overwrite,
        word != Word::Overwrite && word != Word::Keep ==> match said(d, word, arg, value) {
            Ok(n) => n.overwrite == d.overwrite,
            Err(_) => true,
        },
{
}

/// A format or a rate means the input as long as the input is not named, and
/// the output from there on.
pub proof fn law_options_belong_to_the_next_file(
    d: Draft,
    word: Word,
    arg: Seq<char>,
    value: Result<Seq<char>, Seq<char>>,
)
    requires
        word == Word::Format || word == Word::Rate,
    ensures
        match said(d, word, arg, value) {
            Ok(n) => {
                &&& d.input is None ==> n.output_format == d.output_format && n.output_frame_rate
                    == d.output_frame_rate
                &&& d.input is Some ==> n.input_format == d.input_format && n.input_frame_rate
                    == d.input_frame_rate
            },
            Err(_) => true,
        },
{
}

/// What is not said has its default: streams are copied, at 25 frames a second
/// and a million bits a second, and nothing is overwritten.
pub proof fn law_defaults(input: Seq<char>, output: Seq<char>)
    requires
        !same_path(input, output),
    ensures
        settled(Draft { input: Some(input), output: Some(output), ..blank() }) == Ok::<
            TranscodeModel,
            Seq<char>,
        >(
            TranscodeModel {
                input,
                output,
                input_format: None,
                output_format: None,
                video: CodecSpec::Copy,
                audio: CodecSpec::Copy,
                input_frame_rate: 25,
                output_frame_rate: None,
                video_bitrate: 1_000_000,
                overwrite: false,
                verbose: false,
            },
        ),
{
}

/// A transcode never reads and writes the same path, and every rate that it
/// is given is positive.
pub proof fn law_transcodes_are_sane(argv: Seq<Seq<char>>)
    ensures
        transcode_told(argv) matches Ok(m) ==> !same_path(m.input, m.output) && m.input_frame_rate
            > 0 && m.video_bitrate > 0 && (m.output_frame_rate matches Some(fps) ==> fps > 0),
{
    lemma_drafts_are_sane(blank(), argv, 0);
}

/// Whether what has been said of rates is positive.
spec fn sane(d: Draft) -> bool {
    &&& d.video_bitrate > 0
    &&& d.input_frame_rate matches Some(fps) ==> fps > 0
    &&& d.output_frame_rate matches Some(fps) ==> fps > 0
}

proof fn lemma_drafts_are_sane(d: Draft, argv: Seq<Seq<char>>, at: int)
    requires
        sane(d),
    ensures
        drafted(d, argv, at) matches Ok(n) ==> sane(n),
    decreases argv.len() - at,
{
    if at < argv.len() {
        let word = Word::of(argv[at]);
        match said(d, word, argv[at], value_told(argv, at + 1, argv[at])) {
            Ok(next) => {
                lemma_bitrates_are_positive(value_told(argv, at + 1, argv[at]));
                assert(sane(next));
                lemma_drafts_are_sane(
                    next,
                    argv,
                    at + if word.takes_value() {
                        2int
                    } else {
                        1
                    },
                );
            },
            Err(_) => {},
        }
    }
}

proof fn lemma_bitrates_are_positive(v: Result<Seq<char>, Seq<char>>)
    ensures
        v matches Ok(text) ==> (bitrate_told(text) matches Ok(rate) ==> rate > 0),
{
    if let Ok(text) = v {
        if let Ok(rate) = bitrate_told(text) {
            let scale = bitrate_scale(text);
            let digits = if scale == 1 {
                text
            } else {
                text.drop_last()
            };
            let n = crate::text::whole_number(digits)->0;
            assert(n * scale > 0) by (nonlinear_arith)
                requires
                    n > 0,
                    scale > 0,
            ;
        }
    }
}

/// Being the same path is an equivalence.
pub proof fn law_same_path_is_an_equivalence(a: Seq<char>, b: Seq<char>, c: Seq<char>)
    ensures
        same_path(a, a),
        same_path(a, b) ==> same_path(b, a),
        same_path(a, b) && same_path(b, c) ==> same_path(a, c),
{
}

/// A bitrate is written plainly, in thousands or in millions.
pub proof fn law_bitrates_are_read_in_their_unit(n: nat)
    requires
        n > 0,
    ensures
        ({
            let digits = crate::text::decimal(n);
            &&& n <= i32::MAX ==> bitrate_told(digits) == Ok::<i32, Seq<char>>(n as i32)
            &&& n * 1000 <= i32::MAX ==> bitrate_told(digits.push('k')) == Ok::<i32, Seq<char>>(
                (n * 1000) as i32,
            ) && bitrate_told(digits.push('K')) == bitrate_told(digits.push('k'))
            &&& n * 1_000_000 <= i32::MAX ==> bitrate_told(digits.push('M')) == Ok::<
                i32,
                Seq<char>,
            >((n * 1_000_000) as i32) && bitrate_told(digits.push('m')) == bitrate_told(
                digits.push('M'),
            )
            &&& n > i32::MAX ==> bitrate_told(digits) is Err
            &&& n * 1000 > i32::MAX ==> bitrate_told(digits.push('k')) is Err
            &&& n * 1_000_000 > i32::MAX ==> bitrate_told(digits.push('M')) is Err
        }),
{
    let digits = crate::text::decimal(n);
    crate::text::law_decimal_reads_back(n);
    assert(digits.push('k').drop_last() =~= digits);
    assert(digits.push('K').drop_last() =~= digits);
    assert(digits.push('m').drop_last() =~= digits);
    assert(digits.push('M').drop_last() =~= digits);
    let d = crate::text::unsigned(digits);
    assert(crate::text::is_digit(d[d.len() - 1]));
    assert(d.last() == digits.last());
}

} // verus!
