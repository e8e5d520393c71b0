use std::time::Duration;

use lite_encoder::codec::h264::neighbour::{Neighbourhood};
use lite_encoder::codec::h264::picture::{
    frame_num_wrap, Cropping, Dpb, MmcoOp, Picture, RefListMod, RefMarking,
};

fn picture_numbered(frame_num: u16) -> Picture {
    let mut p = Picture::new(2, 2);
    p.frame_num = frame_num;
    p
}

#[test]
fn a_new_picture_is_sized_in_whole_macroblocks_and_is_grey() {
    let p = Picture::new(4, 3);
    assert_eq!((p.width, p.height), (64, 48));
    assert_eq!(p.planes[0].len(), 64 * 48);
    assert_eq!(p.planes[1].len(), 32 * 24);
    assert_eq!(p.strides, [64, 32, 32]);
    assert!(p.planes.iter().all(|plane| plane.iter().all(|&s| s == 128)));
}

#[test]
fn grey_uncovered_paints_only_unclaimed_macroblocks() {
    let mut p = Picture::new(2, 2);
    for plane in &mut p.planes {
        plane.fill(40);
    }
    p.reset();
    assert!(
        p.planes.iter().all(|plane| plane.iter().all(|&s| s == 40)),
        "reset must not wipe the planes"
    );

    let mut neighbourhood = Neighbourhood::new(2, 2);
    neighbourhood.begin_macroblock(0, 0);
    neighbourhood.begin_macroblock(3, 0);
    p.grey_uncovered(&neighbourhood);

    assert_eq!(p.planes[0][0], 40);
    assert_eq!(p.planes[1][0], 40);
    assert_eq!(p.planes[0][16], 128);
    assert_eq!(p.planes[1][8], 128);
    assert_eq!(p.planes[0][16 * 32], 128);
    assert_eq!(p.planes[0][16 * 32 + 16], 40);
    assert_eq!(p.planes[2][8 * 16 + 8], 40);
}

#[test]
fn the_planes_report_their_own_dimensions_for_edge_clamping() {
    let p = Picture::new(4, 3);
    let luma = p.luma();
    assert_eq!((luma.width, luma.height, luma.stride), (64, 48, 64));
    let chroma = p.chroma(1);
    assert_eq!((chroma.width, chroma.height, chroma.stride), (32, 24, 32));
}

#[test]
fn cropping_removes_the_padding_rows_of_a_1080_picture() {
    let crop = Cropping::from_sps_offsets(0, 0, 0, 4);
    assert_eq!(crop.bottom, 8);
    assert_eq!(crop.display_size(1920, 1088), (1920, 1080));
}

#[test]
fn cropping_copies_the_right_rectangle() {
    let mut p = Picture::new(2, 2);
    p.planes[0][6 * 32 + 4] = 200;
    let crop = Cropping::from_sps_offsets(2, 0, 3, 0);
    let frame = p.to_frame(crop, Duration::ZERO);

    assert_eq!((frame.width, frame.height), (28, 26));
    assert_eq!(frame.planes[0].len(), 28 * 26);
    assert_eq!(frame.planes[0][0], 200);
    assert_eq!(frame.planes[1].len(), 14 * 13);
}

#[test]
fn an_uncropped_picture_comes_out_whole() {
    let p = Picture::new(2, 2);
    let frame = p.to_frame(Cropping::default(), Duration::from_millis(40));
    assert_eq!((frame.width, frame.height), (32, 32));
    assert_eq!(frame.planes[0].len(), 32 * 32);
    assert_eq!(frame.pts, Duration::from_millis(40));
}

#[test]
fn the_most_recently_pushed_picture_is_reference_zero() {
    let mut dpb = Dpb::new(4, 16);
    let _ = dpb.push(picture_numbered(1));
    let _ = dpb.push(picture_numbered(2));
    assert_eq!(dpb.get(0).unwrap().frame_num, 2);
    assert_eq!(dpb.get(1).unwrap().frame_num, 1);
    assert_eq!(dpb.len(), 2);
}

#[test]
fn list0_subtract_reorders_short_term_references() {
    let mut dpb = Dpb::new(4, 16);
    let _ = dpb.push(picture_numbered(1));
    let _ = dpb.push(picture_numbered(2));
    let _ = dpb.push(picture_numbered(3));
    let list = dpb.list0(4, &[RefListMod::Subtract(1)], 3).expect("list0");
    assert_eq!(
        list.iter().map(|p| p.frame_num).collect::<Vec<_>>(),
        vec![2, 3, 1]
    );
}

#[test]
fn mmco_short_term_unused_removes_the_named_pic_num() {
    let mut dpb = Dpb::new(4, 16);
    let _ = dpb.push(picture_numbered(0));
    let _ = dpb.push(picture_numbered(1));
    let recycled = dpb
        .apply_mmco(
            2,
            &[MmcoOp::ShortTermUnused {
                difference_of_pic_nums_minus1: 0,
            }],
        )
        .expect("mmco");
    assert_eq!(recycled.len(), 1);
    assert_eq!(recycled[0].frame_num, 1);
    assert_eq!(dpb.len(), 1);
    assert_eq!(dpb.get(0).unwrap().frame_num, 0);
}

#[test]
fn the_buffer_never_grows_past_its_capacity() {
    let mut dpb = Dpb::new(2, 16);
    for frame_num in 0..6 {
        let _ = dpb.push(picture_numbered(frame_num));
    }
    assert_eq!(dpb.len(), 2);
    assert_eq!(dpb.get(0).unwrap().frame_num, 5);
    assert_eq!(dpb.get(1).unwrap().frame_num, 4);
}

#[test]
fn eviction_survives_the_frame_number_wrapping() {
    let mut dpb = Dpb::new(2, 16);
    let _ = dpb.push(picture_numbered(14));
    let _ = dpb.push(picture_numbered(15));
    let _ = dpb.push(picture_numbered(0));

    assert_eq!(dpb.len(), 2);
    assert_eq!(dpb.get(0).unwrap().frame_num, 0);
    assert_eq!(dpb.get(1).unwrap().frame_num, 15);
}

#[test]
fn an_idr_empties_the_buffer() {
    let mut dpb = Dpb::new(4, 16);
    let _ = dpb.push(picture_numbered(1));
    dpb.clear();
    assert!(dpb.is_empty());
    assert!(dpb.get(0).is_none());
}

#[test]
fn a_zero_capacity_buffer_still_holds_one_reference() {
    let mut dpb = Dpb::new(0, 16);
    let _ = dpb.push(picture_numbered(1));
    assert_eq!(dpb.len(), 1);
}

#[test]
fn frame_numbers_order_correctly_across_the_wrap() {
    assert!(frame_num_wrap(15, 1, 16) < frame_num_wrap(0, 1, 16));
    assert!(frame_num_wrap(1, 1, 16) > frame_num_wrap(0, 1, 16));
}

#[test]
fn commands_on_missing_pictures_name_them() {
    let mut dpb = Dpb::new(4, 16);
    let _ = dpb.push(picture_numbered(0));
    let missing = dpb
        .apply_mmco(
            2,
            &[MmcoOp::ShortTermUnused {
                difference_of_pic_nums_minus1: 4,
            }],
        )
        .unwrap_err();
    assert_eq!(missing.message(), "MMCO targets missing PicNum -3");
    let missing = dpb.list0(2, &[RefListMod::Subtract(0)], 1).unwrap_err();
    assert_eq!(
        missing.message(),
        "ref_pic_list_modification targets missing PicNum 1"
    );
}

#[test]
fn marking_loses_no_picture_and_doubles_none() {
    let numbers = |dpb: &Dpb, freed: &[Picture]| {
        let mut all: Vec<u16> = freed.iter().map(|p| p.frame_num).collect();
        all.extend((0..dpb.len()).map(|i| dpb.get(i).unwrap().frame_num));
        all.sort();
        all
    };
    let mut dpb = Dpb::new(2, 16);
    for frame_num in [1, 2] {
        let freed = dpb
            .mark_reference(picture_numbered(frame_num), &RefMarking::SlidingWindow)
            .unwrap();
        assert!(freed.is_empty());
    }
    let freed = dpb.mark_reference(picture_numbered(3), &RefMarking::Idr).unwrap();
    assert_eq!(freed.len(), 1);
    assert_eq!(numbers(&dpb, &freed), vec![1, 2, 3]);

    let refused = dpb.mark_reference(picture_numbered(4), &RefMarking::NonReference);
    assert!(refused.is_err());
    assert_eq!(numbers(&dpb, &[]), vec![2, 3]);

    let all = RefMarking::Adaptive(vec![MmcoOp::AllUnused]);
    let freed = dpb.mark_reference(picture_numbered(5), &all).unwrap();
    assert_eq!(freed.len(), 2);
    assert_eq!(dpb.len(), 1);
    assert_eq!(numbers(&dpb, &freed), vec![2, 3, 5]);
}

#[test]
fn many_list_commands_name_the_first_missing_picture() {
    let mut dpb = Dpb::new(4, 16);
    let _ = dpb.push(picture_numbered(1));
    let _ = dpb.push(picture_numbered(2));
    // Down to 2, up to 3 and so on: every other one is missing.
    let mods = vec![RefListMod::Subtract(0), RefListMod::Add(0), RefListMod::Subtract(0)];
    let missing = dpb.list0(3, &mods, 4).unwrap_err();
    assert_eq!(
        missing.message(),
        "ref_pic_list_modification targets missing PicNum 3"
    );
}

#[test]
fn a_full_buffer_lets_the_new_picture_go_where_it_is_the_oldest() {
    let mut dpb = Dpb::new(2, 16);
    assert!(dpb.push(picture_numbered(5)).is_none());
    assert!(dpb.push(picture_numbered(6)).is_none());
    let evicted = dpb.push(picture_numbered(7)).expect("one leaves");
    assert_eq!(evicted.frame_num, 5);
    // Behind the wrap every stored picture is older.
    let evicted = dpb.push(picture_numbered(1)).expect("one leaves");
    assert_eq!(evicted.frame_num, 6);
    assert_eq!(dpb.len(), 2);
    assert_eq!(dpb.get(0).unwrap().frame_num, 1);
    // Of equal ones the first is taken: the new picture itself.
    let mut dpb = Dpb::new(1, 16);
    assert!(dpb.push(picture_numbered(3)).is_none());
    let mut same = picture_numbered(3);
    same.planes[0][0] = 7;
    let evicted = dpb.push(same).expect("one leaves");
    assert_eq!(evicted.planes[0][0], 7);
}

#[test]
fn a_rectangle_behind_the_right_edge_runs_into_the_next_row() {
    let mut p = Picture::new(2, 2);
    p.planes[0][32 + 2] = 200;
    let crop = Cropping::from_sps_offsets(17, 0, 0, 2);
    let frame = p.to_frame(crop, Duration::ZERO);
    assert_eq!((frame.width, frame.height), (1, 28));
    assert_eq!(frame.planes[0][0], 200);
    assert_eq!(frame.planes[0][1], 128);
}
