use lite_encoder::error::Error;
use lite_encoder::media::{pack, Codec, Track, TrackId, TrackKind};
use lite_encoder::probe::{container_from_path, Container};
use lite_encoder::registry::{can_read, can_write};
use lite_encoder::text::{
    number_up_to, put_left, put_number, put_padded, same, same_ignoring_case,
};
use lite_encoder::time::longer;
use std::time::Duration;

#[test]
fn packing_drops_the_row_padding() {
    let plane: Vec<u8> = (0..20).collect();
    assert_eq!(pack(&plane, 6, 4, 3), vec![0, 1, 2, 3, 6, 7, 8, 9, 12, 13, 14, 15]);
    assert!(pack(&plane, 6, 4, 0).is_empty());
    assert!(pack(&plane, 6, 0, 3).is_empty());
}

#[test]
fn names_lead_back_to_what_they_name() {
    for c in Codec::all() {
        assert_eq!(Codec::from_name(c.name()), Some(c));
    }
    for c in Container::all() {
        assert_eq!(Container::from_name(c.name()), Some(c));
    }
    assert_eq!(Codec::from_name("avc1"), Some(Codec::H264));
    assert_eq!(Codec::from_name("mp3"), None);
    assert_eq!(Container::from_name("mkv"), Some(Container::Matroska));
    assert_eq!(Container::from_name("ts"), Some(Container::MpegTs));
    assert_eq!(Container::from_name("ogg"), None);
}

#[test]
fn extensions_name_containers() {
    for (path, expected) in [
        ("clip.h264", Some(Container::AnnexB)),
        ("dir.mp4/clip", None),
        ("dir/clip.MKV", Some(Container::Matroska)),
        ("a.b.webm", Some(Container::WebM)),
        ("clip.ts", Some(Container::MpegTs)),
        ("clip.mp4", Some(Container::Mp4)),
        (".mp4", None),
        ("dir/.mp4", None),
        ("clip.", None),
        ("", None),
    ] {
        assert_eq!(container_from_path(path), expected, "{path}");
    }
}

#[test]
fn the_registry_follows_the_matrix() {
    for codec in Codec::all() {
        assert!(can_read(Container::Matroska, codec));
        assert!(can_write(Container::Matroska, codec));
        assert!(!can_write(Container::MpegTs, codec));
        assert!(!can_write(Container::AnnexB, codec));
        assert_eq!(can_write(Container::Mp4, codec), codec == Codec::H264);
        assert_eq!(can_read(Container::MpegTs, codec), codec == Codec::H264);
    }
    assert!(can_write(Container::WebM, Codec::Av1));
    assert!(!can_write(Container::WebM, Codec::H264));
}

#[test]
fn tracks_are_cloned_whole() {
    let t = Track {
        id: TrackId(3),
        codec: Codec::Vp9,
        kind: TrackKind::Video {
            width: 2,
            height: 4,
        },
        extra_data: vec![1, 2, 3],
    };
    let c = t.clone();
    assert_eq!((c.id, c.codec, c.kind), (t.id, t.codec, t.kind));
    assert_eq!(c.extra_data, t.extra_data);
}

#[test]
fn numbers_are_written_and_read_in_decimal() {
    for n in [0u128, 9, 10, 99, 100, 4_294_967_295, u128::MAX] {
        let mut s = String::from("n=");
        put_number(&mut s, n);
        assert_eq!(s, format!("n={n}"));
    }
    let mut s = String::new();
    put_padded(&mut s, 7, 3);
    put_padded(&mut s, 1234, 3);
    assert_eq!(s, "0071234");
    let mut s = String::new();
    put_left(&mut s, "ab", 4);
    put_left(&mut s, "abcde", 4);
    assert_eq!(s, "ab  abcde");
    assert_eq!(number_up_to("0042", 42), Some(42));
    assert_eq!(number_up_to("43", 42), None);
    assert_eq!(number_up_to("4x", 42), None);
    assert_eq!(number_up_to("99999999999999999999999999", 42), None);
}

#[test]
fn text_is_compared_with_and_without_case() {
    assert!(same("copy", "copy"));
    assert!(!same("copy", "Copy"));
    assert!(same_ignoring_case("CoPy", "copy"));
    assert!(!same_ignoring_case("copy", "copyy"));
    assert!(!same_ignoring_case("\u{c4}", "\u{e4}"));
}

#[test]
fn the_longer_span_is_kept() {
    let (a, b) = (Duration::from_millis(3), Duration::from_micros(3001));
    assert_eq!(longer(a, b), b);
    assert_eq!(longer(b, a), b);
    assert_eq!(longer(a, a), a);
}

#[test]
fn errors_keep_their_message() {
    assert_eq!(Error::decode("d").message(), "d");
    assert_eq!(Error::encode("e").message(), "e");
    assert_eq!(Error::demux("x").message(), "x");
    assert_eq!(Error::mux("m").message(), "m");
    assert!(matches!(Error::demux("x"), Error::Demux(_)));
}

#[test]
fn codecs_and_containers_are_listed_in_order() {
    let names: Vec<&str> = Codec::all().into_iter().map(|c| c.name()).collect();
    assert_eq!(names, vec!["h264", "h265", "av1", "vp9", "vp8", "aac", "opus", "vorbis"]);
    assert_eq!(
        Container::all(),
        vec![
            Container::AnnexB,
            Container::WebM,
            Container::Matroska,
            Container::Mp4,
            Container::MpegTs,
        ]
    );
}

#[test]
fn every_error_carries_its_message() {
    for e in [
        Error::Decode("m".into()),
        Error::Encode("m".into()),
        Error::Demux("m".into()),
        Error::Mux("m".into()),
        Error::Io("m".into()),
    ] {
        assert_eq!(e.message(), "m");
    }
}
