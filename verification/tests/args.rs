use lite_encoder::liteenc::args::{
    bitrate, codec_spec, container, frame_rate, is_same_path, parse, parse_probe, verbose, CodecSpec, Command,
    TranscodeArgs, UsageError, DEFAULT_FRAME_RATE, DEFAULT_VIDEO_BITRATE, USAGE,
};
use lite_encoder::media::Codec;
use lite_encoder::probe::Container;

fn parse_args(args: &[&str]) -> Result<Command, UsageError> {
    let owned: Vec<String> = args.iter().map(|s| s.to_string()).collect();
    parse(&owned)
}

fn transcode(args: &[&str]) -> TranscodeArgs {
    match parse_args(args).unwrap() {
        Command::Transcode(t) => t,
        other => panic!("expected a transcode, got {other:?}"),
    }
}

#[test]
fn output_is_positional_or_dash_o() {
    let positional = transcode(&["-i", "in.h264", "out.mkv"]);
    let flagged = transcode(&["-i", "in.h264", "-o", "out.mkv"]);
    assert_eq!(positional.output, "out.mkv");
    assert_eq!(flagged.output, positional.output);
}

#[test]
fn streams_are_copied_when_no_codec_is_named() {
    let t = transcode(&["-i", "in.h264", "out.mkv"]);
    assert_eq!(t.video, CodecSpec::Copy);
    assert_eq!(t.audio, CodecSpec::Copy);
}

#[test]
fn dash_c_sets_both_streams_and_per_stream_flags_override_it() {
    let t = transcode(&["-i", "in.mp4", "-c", "copy", "-c:v", "av1", "out.webm"]);
    assert_eq!(t.video, CodecSpec::To(Codec::Av1));
    assert_eq!(t.audio, CodecSpec::Copy);
}

#[test]
fn format_and_rate_are_scoped_by_where_they_sit_relative_to_input() {
    let t = transcode(&[
        "-f", "annexb", "-r", "30", "-i", "in.bin", "-f", "mkv", "-r", "15", "out.bin",
    ]);
    assert_eq!(t.input_format, Some(Container::AnnexB));
    assert_eq!(t.output_format, Some(Container::Matroska));
    assert_eq!(t.input_frame_rate, 30);
    assert_eq!(t.output_frame_rate, Some(15));
    assert_eq!(t.encoder_frame_rate(), 15);
}

#[test]
fn encoder_frame_rate_falls_back_to_the_input_rate() {
    let t = transcode(&["-r", "30", "-i", "in.h264", "-c:v", "av1", "out.webm"]);
    assert_eq!(t.output_frame_rate, None);
    assert_eq!(t.encoder_frame_rate(), 30);
}

#[test]
fn defaults_match_the_documented_ones() {
    let t = transcode(&["-i", "in.h264", "out.mkv"]);
    assert_eq!(t.input_frame_rate, DEFAULT_FRAME_RATE);
    assert_eq!(t.video_bitrate, DEFAULT_VIDEO_BITRATE);
    assert!(!t.overwrite);
    assert!(!t.verbose);
}

#[test]
fn bitrate_suffixes_are_powers_of_ten() {
    assert_eq!(bitrate("1000").unwrap(), 1_000);
    assert_eq!(bitrate("800k").unwrap(), 800_000);
    assert_eq!(bitrate("2M").unwrap(), 2_000_000);
    assert!(bitrate("0").is_err());
    assert!(bitrate("-5").is_err());
    assert!(bitrate("fast").is_err());
    assert!(bitrate("9999M").is_err(), "must not wrap around i32");
}

#[test]
fn overwrite_flags_take_the_last_one_given() {
    assert!(transcode(&["-i", "a.h264", "-n", "-y", "b.mkv"]).overwrite);
    assert!(!transcode(&["-i", "a.h264", "-y", "-n", "b.mkv"]).overwrite);
}

#[test]
fn probe_takes_one_bare_path() {
    let Command::Probe(p) = parse_args(&["probe", "clip.mkv"]).unwrap() else {
        panic!("expected a probe");
    };
    assert_eq!(p.input, "clip.mkv");
    assert_eq!(p.input_format, None);

    let Command::Probe(p) = parse_args(&["probe", "-f", "ts", "-i", "clip.bin"]).unwrap()
    else {
        panic!("expected a probe");
    };
    assert_eq!(p.input_format, Some(Container::MpegTs));
}

#[test]
fn help_version_and_formats_are_recognised() {
    for flag in ["-h", "--help", "help"] {
        assert_eq!(parse_args(&[flag]).unwrap(), Command::Help);
    }
    for flag in ["-V", "--version", "version"] {
        assert_eq!(parse_args(&[flag]).unwrap(), Command::Version);
    }
    assert_eq!(parse_args(&["formats"]).unwrap(), Command::Formats);
    assert!(parse_args(&["formats", "mp4"]).is_err());
}

#[test]
fn bad_usage_is_rejected_rather_than_guessed_at() {
    assert!(parse_args(&[]).is_err(), "no arguments");
    assert!(parse_args(&["-i", "in.h264"]).is_err(), "no output");
    assert!(parse_args(&["out.mkv"]).is_err(), "no input");
    assert!(parse_args(&["-i"]).is_err(), "-i with no value");
    assert!(parse_args(&["-i", "a.h264", "-b:v"]).is_err(), "-b:v alone");
    assert!(parse_args(&["-i", "a.h264", "--turbo", "b.mkv"]).is_err());
    assert!(parse_args(&["-i", "a.h264", "b.mkv", "c.mkv"]).is_err());
    assert!(parse_args(&["-i", "a.h264", "-i", "b.h264", "c.mkv"]).is_err());
    assert!(parse_args(&["-i", "a.mkv", "a.mkv"]).is_err(), "in == out");
    assert!(parse_args(&["-i", "a.h264", "-c", "mp3", "b.mkv"]).is_err());
    assert!(parse_args(&["-i", "a.h264", "-f", "ogg", "b.mkv"]).is_err());
    assert!(parse_args(&["-i", "a.h264", "-r", "0", "b.mkv"]).is_err());
}

#[test]
fn codec_and_format_names_accept_the_usual_aliases() {
    assert_eq!(codec_spec("COPY").unwrap(), CodecSpec::Copy);
    assert_eq!(codec_spec("avc1").unwrap(), CodecSpec::To(Codec::H264));
    assert_eq!(container("mkv").unwrap(), Container::Matroska);
}

fn refused(args: &[&str]) -> String {
    parse_args(args).unwrap_err().message().clone()
}

#[test]
fn each_refusal_is_told_in_its_own_words() {
    assert_eq!(refused(&[]), "no arguments given");
    assert_eq!(refused(&["formats", "mp4"]), "`formats` takes no arguments");
    assert_eq!(refused(&["-i"]), "`-i` needs a value");
    assert_eq!(refused(&["-i", "a", "-codec"]), "`-codec` needs a value");
    assert_eq!(
        refused(&["-i", "a", "-i", "b"]),
        "only one input (-i) is supported"
    );
    assert_eq!(refused(&["-i", "a", "--turbo"]), "unknown option `--turbo`");
    assert_eq!(
        refused(&["-i", "a", "b", "c"]),
        "two outputs given (`b` and `c`); liteenc writes one file"
    );
    assert_eq!(refused(&["b"]), "no input given; use -i PATH");
    assert_eq!(
        refused(&["-i", "a"]),
        "no output given; pass a path, or -o PATH"
    );
    assert_eq!(
        refused(&["-i", "a", "a"]),
        "input and output are the same file"
    );
    assert_eq!(
        refused(&["-f", "ogg"]),
        "unknown format `ogg`; run `liteenc formats` for the list"
    );
    assert_eq!(
        refused(&["-c", "mp3"]),
        "unknown codec `mp3`; run `liteenc formats` for the list"
    );
    assert_eq!(
        refused(&["-r", "2.5"]),
        "`-r` needs a positive whole frame rate, got `2.5`"
    );
    assert_eq!(
        refused(&["-b:v", "fast"]),
        "`-b:v` needs a positive bitrate like `800k` or `1M`, got `fast`"
    );
    assert_eq!(refused(&["-b:v", "9999M"]), "bitrate `9999M` is too large");
    assert_eq!(refused(&["probe"]), "probe needs an input file");
    assert_eq!(
        refused(&["probe", "a", "b"]),
        "unexpected argument `b`; probe takes one file"
    );
    assert_eq!(refused(&["probe", "-x"]), "unknown option `-x`");
}

#[test]
fn numbers_may_carry_a_plus_sign_and_nothing_else() {
    assert_eq!(frame_rate("+30").unwrap(), 30);
    assert_eq!(frame_rate("4294967295").unwrap(), u32::MAX);
    assert!(frame_rate("4294967296").is_err());
    assert!(frame_rate("+").is_err());
    assert!(frame_rate("").is_err());
    assert!(frame_rate("0x10").is_err());
    assert_eq!(bitrate("+5K").unwrap(), 5_000);
    assert_eq!(bitrate("2147483647").unwrap(), i32::MAX);
    assert!(bitrate("2147483648").is_err());
    assert!(bitrate("k").is_err());
    assert!(bitrate("").is_err());
}

#[test]
fn paths_are_compared_by_their_parts() {
    assert!(is_same_path("a/b.mkv", "a//b.mkv"));
    assert!(is_same_path("a/./b.mkv", "a/b.mkv"));
    assert!(is_same_path("a/", "a"));
    assert!(!is_same_path("/a", "a"));
    assert!(!is_same_path("./a", "a"));
    assert!(!is_same_path("a/b", "a/c"));
    assert!(!is_same_path("a/b", "a"));
}

#[test]
fn probes_take_the_last_file_named_by_the_flag() {
    let argv: Vec<String> = ["-v", "-i", "a", "-i", "b"]
        .iter()
        .map(|s| s.to_string())
        .collect();
    let p = parse_probe(&argv).unwrap();
    assert_eq!(p.input, "b");
    assert!(p.verbose);
    assert!(verbose(&Command::Probe(p)));
    assert!(!verbose(&Command::Help));
    assert!(USAGE.starts_with("usage:"));
}
