use lite_encoder::codec::av1::Av1Encoder;
use lite_encoder::codec::h264::avcc::is_avcc_record;
use lite_encoder::codec::h264::decoder::Frontend;
use lite_encoder::error::Error;
use lite_encoder::liteenc::args::{CodecSpec, TranscodeArgs};
use lite_encoder::liteenc::run::{
    apply, check_output_free, check_readable, check_writable, describe_file, describe_format,
    describe_stream, format_size, format_timestamp, input_container, output_container, plan_copy,
    plan_encode, report, retarget, route, select_video, tally, track_index, Failure, Reframe, Route,
    SourceFraming, StreamStats, Transcoder, EXIT_ERROR, EXIT_OK, EXIT_OUTPUT_EXISTS,
    EXIT_UNSUPPORTED, EXIT_USAGE,
};
use lite_encoder::media::{Codec, Packet, Track, TrackId, TrackKind};
use lite_encoder::probe::Container;
use std::time::Duration;


#[test]
fn timestamps_are_formatted_like_ffprobe() {
    assert_eq!(format_timestamp(Duration::ZERO), "00:00:00.000");
    assert_eq!(format_timestamp(Duration::from_millis(136)), "00:00:00.136");
    assert_eq!(format_timestamp(Duration::from_secs(3_723)), "01:02:03.000");
}

#[test]
fn sizes_step_through_binary_units() {
    assert_eq!(format_size(512), "512 B");
    assert_eq!(format_size(2048), "2.0 KiB");
    assert_eq!(format_size(3 << 20), "3.0 MiB");
}

#[test]
fn average_fps_needs_at_least_two_packets_and_a_span() {
    let mut stats = StreamStats::default();
    assert_eq!(stats.average_rate(), None);

    for i in 0..4u64 {
        stats.add(&Packet {
            track: TrackId(1),
            pts: Duration::from_millis(i * 1000 / 22),
            keyframe: i == 0,
            data: vec![0; 10],
        });
    }
    assert_eq!(stats.packets, 4);
    assert_eq!(stats.bytes, 40);
    let (frames, span) = stats.average_rate().unwrap();
    assert_eq!(frames, 3);
    let fps = frames as f64 / span.as_secs_f64();
    assert!((fps - 22.0).abs() < 0.5, "expected ~22 fps, got {fps}");
}

#[test]
fn annexb_h264_is_reframed_for_avcc_containers_only() {
    let track = Track {
        id: TrackId(1),
        codec: Codec::H264,
        kind: TrackKind::Video {
            width: 16,
            height: 16,
        },
        extra_data: vec![0, 0, 0, 1, 0x67, 0x42, 0x00, 0x0a, 0, 0, 0, 1, 0x68, 0xce],
    };

    for container in [Container::Mp4, Container::Matroska, Container::WebM] {
        let (out, reframe) = retarget(track.clone(), container).unwrap();
        assert!(reframe == Reframe::ToAvcc, "{container:?} wants AVCC");
        assert!(is_avcc_record(&out.extra_data));

        let (again, reframe) = retarget(out, container).unwrap();
        assert!(reframe == Reframe::Keep, "{container:?} double-reframed");
        assert!(is_avcc_record(&again.extra_data));
    }
}

#[test]
fn non_h264_tracks_are_left_alone() {
    let track = Track {
        id: TrackId(2),
        codec: Codec::Opus,
        kind: TrackKind::Audio {
            sample_rate: 48_000,
            channels: 2,
        },
        extra_data: b"OpusHead".to_vec(),
    };
    let (out, reframe) = retarget(track, Container::WebM).unwrap();
    assert!(reframe == Reframe::Keep);
    assert_eq!(out.extra_data, b"OpusHead");
}

#[test]
fn unsupported_write_targets_get_the_unsupported_exit_code() {
    let failure = check_writable(Container::MpegTs, Codec::H264).unwrap_err();
    assert_eq!(failure.code, EXIT_UNSUPPORTED);
    assert!(failure.message.contains("mpegts"), "{}", failure.message);

    assert!(check_writable(Container::Matroska, Codec::H264).is_ok());
}

fn args(output: &str, format: Option<Container>, overwrite: bool) -> TranscodeArgs {
    TranscodeArgs {
        input: "in.h264".to_string(),
        output: output.to_string(),
        input_format: None,
        output_format: format,
        video: CodecSpec::Copy,
        audio: CodecSpec::Copy,
        input_frame_rate: 25,
        output_frame_rate: None,
        video_bitrate: 1_000_000,
        overwrite,
        verbose: false,
    }
}

fn track(id: u32, codec: Codec, video: bool) -> Track {
    Track {
        id: TrackId(id),
        codec,
        kind: if video {
            TrackKind::Video {
                width: 16,
                height: 16,
            }
        } else {
            TrackKind::Audio {
                sample_rate: 48_000,
                channels: 2,
            }
        },
        extra_data: vec![0, 0, 0, 1, 0x67, 0x42, 0x00, 0x0a, 0, 0, 0, 1, 0x68, 0xce],
    }
}

fn pkt(track: u32, millis: u64, data: &[u8]) -> Packet {
    Packet {
        track: TrackId(track),
        pts: Duration::from_millis(millis),
        keyframe: true,
        data: data.to_vec(),
    }
}

#[test]
fn sizes_round_to_even_tenths() {
    assert_eq!(format_size(0), "0 B");
    assert_eq!(format_size(1023), "1023 B");
    assert_eq!(format_size(1024), "1.0 KiB");
    assert_eq!(format_size(1280), "1.2 KiB");
    assert_eq!(format_size(1792), "1.8 KiB");
    assert_eq!(format_size(1_048_575), "1024.0 KiB");
    for b in [1500u64, 99_999, 5_000_000, 123_456_789_012, u64::MAX, 1 << 60] {
        let (unit, name) = if b >= 1 << 20 {
            ((1u64 << 20) as f64, "MiB")
        } else {
            (1024.0, "KiB")
        };
        assert_eq!(format_size(b), format!("{:.1} {name}", b as f64 / unit));
    }
}

#[test]
fn long_timestamps_keep_their_hours() {
    assert_eq!(
        format_timestamp(Duration::from_secs(360_000 + 61)),
        "100:01:01.000"
    );
    assert_eq!(format_timestamp(Duration::from_nanos(1_999_999)), "00:00:00.001");
}

#[test]
fn failures_carry_their_status() {
    let f = Failure::from(Error::mux("no room"));
    assert_eq!((f.code, f.message.as_str()), (EXIT_ERROR, "no room"));
    let f = Failure::unsupported("not this");
    assert_eq!(f.code, EXIT_UNSUPPORTED);
    assert_eq!(Failure::new(EXIT_USAGE, "x").code, 2);
    assert_eq!(EXIT_OK, 0);
}

#[test]
fn the_table_of_formats_lists_the_registry() {
    let codecs = Codec::all();
    assert_eq!(
        describe_format(Container::Mp4, false, &codecs),
        "mp4        write      h264"
    );
    assert_eq!(
        describe_format(Container::WebM, false, &codecs),
        "webm       write      av1 vp9 vp8 opus vorbis"
    );
    assert_eq!(
        describe_format(Container::MpegTs, false, &codecs),
        "mpegts     write      -"
    );
    assert_eq!(
        describe_format(Container::AnnexB, true, &codecs),
        "annexb     read       h264"
    );
}

#[test]
fn containers_come_from_the_flag_first() {
    assert_eq!(
        output_container(&args("out.mkv", None, false)).unwrap(),
        Container::Matroska
    );
    assert_eq!(
        output_container(&args("out.mkv", Some(Container::Mp4), false)).unwrap(),
        Container::Mp4
    );
    let f = output_container(&args("out.bin", None, false)).unwrap_err();
    assert_eq!(f.code, EXIT_USAGE);
    assert_eq!(
        f.message,
        "'out.bin' has no recognised extension; name the format with -f"
    );
    let forced = input_container(Some(Container::MpegTs), Some(Container::Mp4), "a");
    assert_eq!(forced.unwrap(), Container::MpegTs);
    let sniffed = input_container(None, Some(Container::Mp4), "a");
    assert_eq!(sniffed.unwrap(), Container::Mp4);
    let f = input_container(None, None, "a").unwrap_err();
    assert_eq!(f.code, EXIT_ERROR);
    assert_eq!(
        f.message,
        "could not identify the container in 'a'; force it with -f FORMAT"
    );
}

#[test]
fn an_existing_output_is_kept_unless_told_otherwise() {
    assert!(check_output_free(&args("o.mkv", None, false), false).is_ok());
    assert!(check_output_free(&args("o.mkv", None, true), true).is_ok());
    let f = check_output_free(&args("o.mkv", None, false), true).unwrap_err();
    assert_eq!(f.code, EXIT_OUTPUT_EXISTS);
    assert_eq!(f.message, "'o.mkv' already exists; pass -y to overwrite it");
}

#[test]
fn routes_follow_the_encoders_there_are() {
    assert_eq!(route(CodecSpec::Copy, CodecSpec::Copy).unwrap(), Route::Copy);
    assert_eq!(
        route(CodecSpec::To(Codec::Av1), CodecSpec::Copy).unwrap(),
        Route::ToAv1
    );
    let f = route(CodecSpec::To(Codec::Vp9), CodecSpec::Copy).unwrap_err();
    assert_eq!(f.message, "no vp9 encoder in this build; encoders: av1");
    let f = route(CodecSpec::Copy, CodecSpec::To(Codec::Aac)).unwrap_err();
    assert_eq!(
        f.message,
        "no aac encoder in this build; audio streams can only be copied"
    );
    assert_eq!(f.code, EXIT_UNSUPPORTED);
}

#[test]
fn tracks_that_cannot_be_read_are_named() {
    let tracks = vec![track(1, Codec::H264, true), track(2, Codec::Opus, false)];
    assert!(check_readable(Container::Matroska, &tracks).is_ok());
    let f = check_readable(Container::Mp4, &tracks).unwrap_err();
    assert_eq!(f.message, "this build cannot read opus from mp4");
    assert_eq!(track_index(&tracks, TrackId(2)), Some(1));
    assert_eq!(track_index(&tracks, TrackId(3)), None);
}

#[test]
fn a_copy_is_planned_track_by_track() {
    let tracks = vec![track(1, Codec::H264, true), track(2, Codec::Opus, false)];
    let plan = plan_copy(tracks, Container::Matroska).unwrap();
    assert_eq!(plan.reframes, vec![Reframe::ToAvcc, Reframe::Keep]);
    assert!(is_avcc_record(&plan.tracks[0].extra_data));
    let unit = [0, 0, 1, 0x65, 0x88, 0x84];
    let copied = plan.copy(pkt(1, 0, &unit));
    assert_eq!(copied.data, vec![0, 0, 0, 3, 0x65, 0x88, 0x84]);
    assert_eq!(plan.copy(pkt(2, 0, &unit)).data, unit.to_vec());
    assert_eq!(plan.copy(pkt(9, 0, &unit)).data, unit.to_vec());
    assert_eq!(apply(Reframe::Keep, pkt(1, 5, &unit)).data, unit.to_vec());

    let refused = plan_copy(vec![track(2, Codec::Opus, false)], Container::Mp4);
    let f = match refused {
        Ok(_) => panic!("opus went into mp4"),
        Err(f) => f,
    };
    assert_eq!(f.code, EXIT_UNSUPPORTED);
    assert_eq!(
        f.message,
        "this build cannot write opus into mp4; run `liteenc formats`"
    );
}

#[test]
fn a_track_without_parameter_sets_cannot_be_reframed() {
    let mut t = track(1, Codec::H264, true);
    t.extra_data = Vec::new();
    let f = match retarget(t, Container::Mp4) {
        Ok(_) => panic!("nothing to make a record of"),
        Err(f) => f,
    };
    assert_eq!((f.code, f.message.as_str()), (EXIT_ERROR, "no SPS in H.264 extra_data"));
}

#[test]
fn packets_are_tallied_with_their_track() {
    let tracks = vec![track(1, Codec::H264, true), track(2, Codec::Opus, false)];
    let mut stats = vec![StreamStats::default(); 2];
    tally(Container::Mp4, &tracks, &mut stats, &pkt(2, 40, &[1, 2, 3])).unwrap();
    tally(Container::Mp4, &tracks, &mut stats, &pkt(2, 20, &[4])).unwrap();
    assert_eq!((stats[1].packets, stats[1].bytes), (2, 4));
    assert_eq!(stats[1].last_pts, Duration::from_millis(40));
    assert_eq!(stats[0].packets, 0);
    let f = tally(Container::Mp4, &tracks, &mut stats, &pkt(5, 0, &[])).unwrap_err();
    assert_eq!(
        f.message,
        "mp4 demuxer emitted a packet for unknown TrackId(5)"
    );
    assert_eq!(
        describe_file(&stats, 2048),
        "  Duration: 00:00:00.040, streams: 2, packets: 2, size: 2.0 KiB"
    );
    assert_eq!(
        describe_stream(1, &tracks[1], &stats[1], Some("25.00")),
        "Stream #0:1(track 2): Audio: opus, 48000 Hz, 2 ch, 2 packets, 4 B, avg 25.00 fps"
    );
    assert_eq!(
        describe_stream(0, &tracks[0], &stats[0], None),
        "Stream #0:0(track 1): Video: h264, 16x16, 0 packets, 0 B"
    );
    assert_eq!(
        report(Container::WebM, "o.webm", 12, 512),
        "Output #0, webm, to 'o.webm': 12 packets, 512 B"
    );
}

#[test]
fn sources_are_framed_back_to_start_codes() {
    let plain = SourceFraming::of(&track(1, Codec::H264, true)).unwrap();
    assert_eq!(plain.to_annexb(&pkt(1, 0, &[9, 8])).unwrap(), vec![9, 8]);

    let (mp4, _) = retarget(track(1, Codec::H264, true), Container::Mp4).unwrap();
    let source = SourceFraming::of(&mp4).unwrap();
    let mut p = pkt(1, 0, &[0, 0, 0, 2, 0x65, 0x88]);
    let unit = source.to_annexb(&p).unwrap();
    assert_eq!(
        unit,
        vec![
            0, 0, 0, 1, 0x67, 0x42, 0x00, 0x0a, 0, 0, 0, 1, 0x68, 0xce, 0, 0, 0, 1, 0x65, 0x88
        ]
    );
    p.keyframe = false;
    assert_eq!(source.to_annexb(&p).unwrap(), vec![0, 0, 0, 1, 0x65, 0x88]);
    p.data = vec![0, 0];
    assert_eq!(source.to_annexb(&p).unwrap_err().code, EXIT_ERROR);
}

#[test]
fn the_first_video_track_is_encoded() {
    let tracks = vec![track(2, Codec::Opus, false), track(1, Codec::H264, true)];
    let selected = select_video(&tracks).unwrap();
    assert_eq!((selected.index, selected.width, selected.height), (1, 16, 16));
    let out = plan_encode(&tracks, &selected, vec![1, 2], Container::WebM).unwrap();
    assert_eq!((out[0].id, out[0].codec), (TrackId(1), Codec::Av1));
    assert_eq!(out[0].extra_data, vec![1, 2]);
    assert_eq!((out[1].id, out[1].codec), (TrackId(2), Codec::Opus));

    let f = select_video(&vec![track(2, Codec::Opus, false)]).unwrap_err();
    assert_eq!(f.message, "no video stream to encode");
    let f = select_video(&vec![track(2, Codec::Vp9, true)]).unwrap_err();
    assert_eq!(
        f.message,
        "cannot decode vp9; this build decodes h264 only"
    );
    let aac = vec![track(1, Codec::H264, true), track(2, Codec::Aac, false)];
    let selected = select_video(&aac).unwrap();
    let f = plan_encode(&aac, &selected, Vec::new(), Container::WebM).unwrap_err();
    assert_eq!(f.code, EXIT_UNSUPPORTED);
}

#[test]
fn other_tracks_ride_along_and_broken_video_fails() {
    let mut t = Transcoder {
        source: SourceFraming { avcc: None },
        decoder: Frontend::new(),
        encoder: Av1Encoder::new(TrackId(1), 16, 16, 25, 60_000).unwrap(),
        video: TrackId(1),
    };
    let out = t.take(pkt(2, 3, &[5, 6])).unwrap();
    assert_eq!((out.len(), out[0].track), (1, TrackId(2)));
    assert_eq!(out[0].data, vec![5, 6]);
    // A delimiter holds no picture.
    assert!(t.take(pkt(1, 0, &[0, 0, 1, 9, 0xf0])).unwrap().is_empty());
    let f = t.take(pkt(1, 0, &[0, 0, 1, 0x80])).unwrap_err();
    assert_eq!(f.code, EXIT_ERROR);
    assert!(t.finish().unwrap().is_empty());
}

#[test]
fn the_first_track_that_cannot_be_copied_is_named() {
    let bare = Track { extra_data: Vec::new(), ..track(1, Codec::H264, true) };
    let refused = |tracks| match plan_copy(tracks, Container::Mp4) {
        Ok(_) => panic!("copied"),
        Err(f) => (f.code, f.message),
    };
    let opus = (
        EXIT_UNSUPPORTED,
        "this build cannot write opus into mp4; run `liteenc formats`".to_string(),
    );
    let record = (EXIT_ERROR, "no SPS in H.264 extra_data".to_string());
    assert_eq!(refused(vec![bare.clone(), track(2, Codec::Opus, false)]), record);
    assert_eq!(refused(vec![track(2, Codec::Opus, false), bare]), opus);

    let plan = plan_copy(vec![track(1, Codec::H264, true)], Container::Mp4).unwrap();
    assert_eq!(
        plan.tracks[0].extra_data,
        vec![1, 0x42, 0, 0x0a, 0xff, 0xe1, 0, 4, 0x67, 0x42, 0, 0x0a, 1, 0, 2, 0x68, 0xce]
    );
}

#[test]
fn the_first_track_that_cannot_ride_along_is_named() {
    let tracks = vec![
        track(1, Codec::H264, true),
        track(2, Codec::Opus, false),
        track(3, Codec::Vp9, true),
    ];
    let selected = select_video(&tracks).unwrap();
    let f = plan_encode(&tracks, &selected, Vec::new(), Container::Mp4).unwrap_err();
    assert_eq!(
        f.message,
        "this build cannot write opus into mp4; run `liteenc formats`"
    );
}
