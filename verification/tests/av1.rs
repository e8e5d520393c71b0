use lite_encoder::codec::av1::session::{CodedPacket, FrameType, Reply};
use lite_encoder::codec::av1::{validate_plane, Av1Encoder, Av1Settings};
use lite_encoder::media::{Codec, Frame, TrackId};
use std::time::Duration;

fn synthetic_frame(width: u32, height: u32, pts: Duration, n: u8) -> Frame {
    let (w, h) = (width as usize, height as usize);
    let (cw, ch) = (w.div_ceil(2), h.div_ceil(2));
    let y = vec![n; w * h];
    let u = vec![128u8.wrapping_add(n); cw * ch];
    let v = vec![128u8.wrapping_sub(n); cw * ch];
    Frame {
        pts,
        width,
        height,
        planes: [y, u, v],
        strides: [w, cw, cw],
        concealed_macroblocks: 0,
    }
}

#[test]
fn first_frame_produces_a_keyframe_with_its_pts() {
    let mut enc = Av1Encoder::new(TrackId(0), 16, 16, 25, 60_000).unwrap();
    let frame = synthetic_frame(16, 16, Duration::from_millis(40), 10);
    let mut packets = enc.encode(&frame).unwrap();
    packets.extend(enc.flush().unwrap());
    assert!(!packets.is_empty());
    assert!(packets[0].keyframe);
    assert_eq!(packets[0].pts, Duration::from_millis(40));
    assert_eq!(packets[0].track, TrackId(0));
}

#[test]
fn requested_keyframe_is_exposed_on_the_output_packet() {
    let mut enc = Av1Encoder::new(TrackId(0), 16, 16, 25, 60_000).unwrap();
    let first = synthetic_frame(16, 16, Duration::ZERO, 10);
    let forced = synthetic_frame(16, 16, Duration::from_millis(40), 20);
    let mut packets = enc.encode(&first).unwrap();
    packets.extend(enc.encode_keyframe(&forced).unwrap());
    packets.extend(enc.flush().unwrap());

    let packet = packets
        .iter()
        .find(|packet| packet.pts == forced.pts)
        .expect("forced frame packet");
    assert!(packet.keyframe);
}

#[test]
fn mismatched_frame_size_is_rejected() {
    let mut enc = Av1Encoder::new(TrackId(0), 16, 16, 25, 60_000).unwrap();
    let frame = synthetic_frame(32, 32, Duration::ZERO, 0);
    let error = enc.encode(&frame).unwrap_err();
    assert_eq!(
        error.message(),
        "frame is 32x32, encoder configured for 16x16"
    );
}

#[test]
fn undersized_plane_stride_is_rejected() {
    let mut enc = Av1Encoder::new(TrackId(0), 16, 16, 25, 60_000).unwrap();
    let mut frame = synthetic_frame(16, 16, Duration::ZERO, 0);
    frame.strides[0] = 15;
    let error = enc.encode(&frame).unwrap_err();
    assert!(error.message().contains("Y plane stride 15"));
}

#[test]
fn truncated_plane_is_rejected() {
    let mut enc = Av1Encoder::new(TrackId(0), 16, 16, 25, 60_000).unwrap();
    let mut frame = synthetic_frame(16, 16, Duration::ZERO, 0);
    frame.planes[1].pop();
    let error = enc.encode(&frame).unwrap_err();
    assert!(error
        .message()
        .contains("U plane has 63 bytes; 64 required"));
}

#[test]
fn extra_data_is_a_non_empty_av1_codec_configuration_record() {
    let enc = Av1Encoder::new(TrackId(0), 16, 16, 25, 60_000).unwrap();
    assert!(!enc.extra_data().is_empty());
    assert_eq!(enc.extra_data(), vec![0x81, 0x1f, 0x0c, 0x00]);
    assert_eq!(enc.codec(), Codec::Av1);
}

#[test]
fn flush_drains_every_frame_sent_before_it() {
    let mut enc = Av1Encoder::new(TrackId(0), 16, 16, 25, 60_000).unwrap();
    let mut sent = Vec::new();
    for n in 0..5u8 {
        let pts = Duration::from_millis(40 * u64::from(n));
        sent.push(pts);
        enc.encode(&synthetic_frame(16, 16, pts, n * 20)).unwrap();
    }
    let packets = enc.flush().unwrap();
    let mut seen: Vec<_> = packets.iter().map(|p| p.pts).collect();
    seen.sort();
    let mut expected = sent;
    expected.sort();
    assert_eq!(seen, expected);
    assert!(enc.pending.is_empty());
}

#[test]
fn odd_width_encodes_and_flushes() {
    let mut enc = Av1Encoder::new(TrackId(0), 17, 16, 25, 60_000).unwrap();
    let frame = synthetic_frame(17, 16, Duration::from_millis(40), 42);
    enc.encode(&frame).unwrap();
    let packets = enc.flush().unwrap();
    assert!(!packets.is_empty());
    assert_eq!(packets[0].pts, Duration::from_millis(40));
}

#[test]
fn odd_height_encodes_and_flushes() {
    let mut enc = Av1Encoder::new(TrackId(0), 16, 17, 25, 60_000).unwrap();
    let frame = synthetic_frame(16, 17, Duration::from_millis(40), 42);
    enc.encode(&frame).unwrap();
    let packets = enc.flush().unwrap();
    assert!(!packets.is_empty());
    assert_eq!(packets[0].pts, Duration::from_millis(40));
}

#[test]
fn realistic_resolution_encodes_without_panic() {
    let mut enc = Av1Encoder::new(TrackId(0), 640, 360, 25, 60_000).unwrap();
    let frame = synthetic_frame(640, 360, Duration::from_millis(40), 7);
    enc.encode(&frame).unwrap();
    let packets = enc.flush().unwrap();
    assert!(!packets.is_empty());
    assert_eq!(packets[0].pts, Duration::from_millis(40));
}

fn coded(input_frameno: u64, frame_type: FrameType) -> CodedPacket {
    CodedPacket {
        input_frameno,
        frame_type,
        data: vec![1, 2, 3],
    }
}

#[test]
fn packet_for_unknown_frame_number_is_rejected() {
    let mut enc = Av1Encoder::new(TrackId(0), 16, 16, 25, 60_000).unwrap();
    let error = enc.packet_from(coded(99, FrameType::Inter)).unwrap_err();
    assert!(error.message().contains("unknown input frame 99"));
}

#[test]
fn a_packet_takes_the_time_of_its_picture_once() {
    let mut enc = Av1Encoder::new(TrackId(7), 16, 16, 25, 60_000).unwrap();
    enc.pending.insert(4, Duration::from_millis(160));
    let packet = enc.packet_from(coded(4, FrameType::Key)).unwrap();
    assert_eq!(packet.track, TrackId(7));
    assert_eq!(packet.pts, Duration::from_millis(160));
    assert!(packet.keyframe);
    assert_eq!(packet.data, vec![1, 2, 3]);
    assert!(enc.packet_from(coded(4, FrameType::Key)).is_err());
    for kind in [FrameType::Inter, FrameType::IntraOnly, FrameType::Switch] {
        enc.pending.insert(5, Duration::ZERO);
        assert!(!enc.packet_from(coded(5, kind)).unwrap().keyframe);
    }
}

#[test]
fn answers_are_taken_until_there_are_no_more() {
    let mut enc = Av1Encoder::new(TrackId(0), 16, 16, 25, 60_000).unwrap();
    enc.pending.insert(0, Duration::ZERO);
    let mut out = Vec::new();
    assert!(enc.take(Reply::Encoded, &mut out).unwrap());
    assert!(enc
        .take(Reply::Packet(coded(0, FrameType::Key)), &mut out)
        .unwrap());
    assert_eq!(out.len(), 1);
    assert!(!enc.take(Reply::NeedMoreData, &mut out).unwrap());
    assert!(!enc.take(Reply::LimitReached, &mut out).unwrap());
    let failed = enc.take(Reply::Failed("Failure".to_string()), &mut out);
    assert_eq!(failed.unwrap_err().message(), "rav1e: Failure");
}

#[test]
fn a_frame_behind_the_flush_is_refused_and_stays_pending() {
    let mut enc = Av1Encoder::new(TrackId(0), 16, 16, 25, 60_000).unwrap();
    assert!(enc.flush().unwrap().is_empty());
    let late = enc.encode(&synthetic_frame(16, 16, Duration::ZERO, 1));
    assert_eq!(late.unwrap_err().message(), "rav1e: EnoughData");
    let left = enc.flush().unwrap_err();
    assert_eq!(
        left.message(),
        "rav1e flush left 1 frame timestamp(s) pending"
    );
}

#[test]
fn sizes_that_rav1e_refuses_are_errors() {
    for (w, h) in [(15, 16), (16, 8), (65536, 16), (0, 0)] {
        let refused = Av1Encoder::new(TrackId(0), w, h, 25, 60_000);
        let error = match refused {
            Ok(_) => panic!("{w}x{h} was accepted"),
            Err(e) => e,
        };
        assert!(error.message().starts_with("rav1e: Invalid"), "{error:?}");
    }
}

#[test]
fn a_different_picture_gives_different_bytes() {
    let mut bytes = Vec::new();
    for n in [10u8, 200] {
        let mut enc = Av1Encoder::new(TrackId(0), 32, 32, 25, 60_000).unwrap();
        let mut frame = synthetic_frame(32, 32, Duration::ZERO, 0);
        for (i, s) in frame.planes[0].iter_mut().enumerate() {
            *s = (i as u8).wrapping_mul(n);
        }
        let mut packets = enc.encode(&frame).unwrap();
        packets.extend(enc.flush().unwrap());
        bytes.push(packets[0].data.clone());
    }
    assert_ne!(bytes[0], bytes[1]);
}

#[test]
fn row_padding_is_not_encoded() {
    let mut bytes = Vec::new();
    for padding in [0usize, 9] {
        let mut enc = Av1Encoder::new(TrackId(0), 32, 32, 25, 60_000).unwrap();
        let mut frame = synthetic_frame(32, 32, Duration::ZERO, 0);
        let stride = 32 + padding;
        let mut y = vec![77u8; stride * 32];
        for row in 0..32 {
            for col in 0..32 {
                y[row * stride + col] = (row * 5 + col * 3) as u8;
            }
        }
        frame.planes[0] = y;
        frame.strides[0] = stride;
        let mut packets = enc.encode(&frame).unwrap();
        packets.extend(enc.flush().unwrap());
        bytes.push(packets[0].data.clone());
    }
    assert_eq!(bytes[0], bytes[1]);
}

#[test]
fn the_configuration_follows_the_settings() {
    let s = Av1Settings::default();
    assert_eq!((s.speed, s.tiles, s.low_latency, s.threads), (10, 16, true, 0));
    let c = s.encoder_config(640, 360, 30, 800_000);
    assert_eq!((c.width, c.height, c.bitrate), (640, 360, 800_000));
    assert_eq!((c.time_base_num, c.time_base_den), (1, 30));
    assert_eq!((c.min_key_frame_interval, c.max_key_frame_interval), (60, 60));
    assert_eq!(s.encoder_config(640, 360, 0, 1).time_base_den, 1);
    let custom = Av1Settings {
        speed: 9,
        tiles: 1,
        low_latency: false,
        threads: 1,
    };
    let mut enc =
        Av1Encoder::with_settings(TrackId(3), 16, 16, 25, 60_000, custom).expect("encoder");
    enc.encode(&synthetic_frame(16, 16, Duration::ZERO, 3)).unwrap();
    assert_eq!(enc.flush().unwrap().len(), 1);
}

#[test]
fn planes_are_validated_to_the_byte() {
    assert!(validate_plane("Y", &[0; 10], 6, 4, 2).is_ok());
    assert!(validate_plane("Y", &[], 4, 4, 0).is_ok());
    let short = validate_plane("Y", &[0; 9], 6, 4, 2).unwrap_err();
    assert_eq!(
        short.message(),
        "Y plane has 9 bytes; 10 required for 4x2 at stride 6"
    );
    let narrow = validate_plane("V", &[0; 9], 3, 4, 2).unwrap_err();
    assert_eq!(
        narrow.message(),
        "V plane stride 3 is smaller than width 4"
    );
    let huge = validate_plane("U", &[], usize::MAX, 4, 3).unwrap_err();
    assert_eq!(huge.message(), "U plane layout overflows usize");
}

#[test]
fn sample_rates_without_enough_tiles_are_out_of_reach() {
    let settings = Av1Settings::default();
    assert!(settings.encoder_config(1280, 720, 25, 1_000_000).is_in_reach());
    assert!(settings.encoder_config(65535, 65535, 25, 1_000_000).is_in_reach());
    assert!(!settings.encoder_config(65535, 65535, 200, 1_000_000).is_in_reach());
    // Sizes that rav1e refuses anyway are answered.
    assert!(settings.encoder_config(8, 8, 4_000_000, 1_000_000).is_in_reach());
}

#[test]
fn sample_rates_count_the_padded_picture() {
    let settings = Av1Settings::default();
    // 17x17 is coded as 24x24.
    assert!(!settings.encoder_config(17, 17, 2_000_000, 1_000_000).is_in_reach());
    assert!(settings.encoder_config(17, 17, 1_000_000, 1_000_000).is_in_reach());
    assert!(settings.encoder_config(16, 16, 2_000_000, 1_000_000).is_in_reach());
    let encoder = Av1Encoder::new(TrackId(1), 17, 17, 1_000_000, 1_000_000);
    assert!(encoder.is_ok());
}
