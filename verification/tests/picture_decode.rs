use std::time::Duration;

use lite_encoder::codec::h264::picture::{Cropping, MmcoOp, Picture, RefMarking};
use lite_encoder::codec::h264::picture_decode::{PictureDecoder};
use lite_encoder::codec::h264::slice::{PictureConfig};

fn config() -> PictureConfig {
    PictureConfig {
        width_mbs: 1,
        height_mbs: 1,
        max_refs: 1,
        max_frame_num: 16,
        crop: Cropping::default(),
    }
}

#[test]
fn finish_reports_concealed_macroblock_count() {
    let config = PictureConfig {
        width_mbs: 2,
        height_mbs: 2,
        max_refs: 1,
        max_frame_num: 16,
        crop: Cropping::default(),
    };
    let mut decoder = PictureDecoder::new(config);
    decoder.state.begin_macroblock(0, 0);
    decoder.state.begin_macroblock(3, 0);

    let finished = decoder
        .finish(
            Cropping::default(),
            Duration::from_millis(40),
            &RefMarking::SlidingWindow,
        )
        .expect("finish");

    assert_eq!(finished.frame.concealed_macroblocks, 2);
    assert_eq!(finished.frame.pts, Duration::from_millis(40));
}

#[test]
fn reference_picture_enters_the_dpb() {
    let finished = PictureDecoder::new(config())
        .finish(
            Cropping::default(),
            Duration::ZERO,
            &RefMarking::SlidingWindow,
        )
        .expect("finish");
    assert_eq!(finished.dpb.len(), 1);
    assert!(finished.recycled.is_empty());
}

#[test]
fn disposable_picture_is_recycled_without_displacing_a_reference() {
    let mut decoder = PictureDecoder::new(config());
    let mut reference = Picture::new(1, 1);
    reference.frame_num = 7;
    let _ = decoder.dpb.push(reference);
    decoder.picture.frame_num = 8;

    let finished = decoder
        .finish(Cropping::default(), Duration::ZERO, &RefMarking::NonReference)
        .expect("finish");

    assert_eq!(finished.dpb.len(), 1);
    assert_eq!(finished.dpb.get(0).unwrap().frame_num, 7);
    assert_eq!(finished.recycled[0].frame_num, 8);
}

#[test]
fn adaptive_mmco_marks_prior_reference_unused() {
    let mut decoder = PictureDecoder::new(config());
    let mut prior = Picture::new(1, 1);
    prior.frame_num = 0;
    let _ = decoder.dpb.push(prior);
    decoder.picture.frame_num = 1;

    let marking = RefMarking::Adaptive(vec![MmcoOp::ShortTermUnused {
        difference_of_pic_nums_minus1: 0,
    }]);
    let finished = decoder
        .finish(Cropping::default(), Duration::ZERO, &marking)
        .expect("finish");

    assert_eq!(finished.dpb.len(), 1);
    assert_eq!(finished.dpb.get(0).unwrap().frame_num, 1);
    assert_eq!(finished.recycled.len(), 1);
    assert_eq!(finished.recycled[0].frame_num, 0);
}
