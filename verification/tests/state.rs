use lite_encoder::codec::h264::describe::describe;
use lite_encoder::codec::h264::intra::{Intra16x16Mode};
use lite_encoder::codec::h264::mb::{MbType, Partitioning};
use lite_encoder::codec::h264::inter::Neighbour;
use lite_encoder::codec::h264::neighbour::{luma_4x4_index, luma_4x4_origin, BlockRef};
use lite_encoder::codec::h264::state::{DC_PRED_MODE, MbInfo, NO_REF, PictureState, partition_block};

fn inter_mb() -> MbInfo {
    MbInfo::new(MbType::Inter(Partitioning::P16x16), 26)
}

fn intra_mb() -> MbInfo {
    MbInfo::new(
        MbType::Intra16x16 {
            mode: Intra16x16Mode::Dc,
            cbp_luma: 0,
            cbp_chroma: 0,
        },
        26,
    )
}

#[test]
fn an_intra_macroblock_has_no_reference_and_an_inter_one_has_reference_zero() {
    assert_eq!(intra_mb().ref_idx, [NO_REF; 4]);
    assert_eq!(inter_mb().ref_idx, [0; 4]);
    assert!(intra_mb().is_intra());
    assert!(!inter_mb().is_intra());
}

#[test]
fn a_skipped_macroblock_carries_no_residual_and_no_intra_mode() {
    let mb = MbInfo::skipped();
    assert!(mb.is_skipped());
    assert_eq!(mb.cbp_luma, 0);
    assert_eq!(mb.cbp_chroma, 0);
    assert_eq!(mb.cbf_luma, 0);
    assert_eq!(mb.intra_modes, [DC_PRED_MODE; 16]);
    assert!(!mb.is_intra());
    assert_eq!(mb.ref_idx, [0; 4]);
}

#[test]
fn coded_block_flags_round_trip_per_block() {
    let mut mb = inter_mb();
    for blk in 0..16 {
        assert!(!mb.luma_cbf(blk));
        mb.set_luma_cbf(blk, true);
        assert!(mb.luma_cbf(blk));
    }
    assert_eq!(mb.cbf_luma, u16::MAX);
    mb.set_luma_cbf(7, false);
    assert!(!mb.luma_cbf(7));
    assert!(mb.luma_cbf(6) && mb.luma_cbf(8));

    for comp in 0..2 {
        for blk in 0..4 {
            mb.set_chroma_cbf(comp, blk, true);
            assert!(mb.chroma_cbf(comp, blk));
        }
    }
    assert_eq!(mb.cbf_chroma_ac, [0b1111; 2]);
}

#[test]
fn a_blocks_reference_index_comes_from_its_partition() {
    let mut mb = MbInfo::new(MbType::Inter(Partitioning::P8x8), 26);
    mb.ref_idx = [0, 1, 2, 3];
    for blk in 0..16u8 {
        assert_eq!(mb.ref_idx_of_block(blk), (blk / 4) as i8);
    }
    assert_eq!(luma_4x4_index(8, 0) / 4, 1);
    assert_eq!(luma_4x4_index(0, 8) / 4, 2);
}

#[test]
fn filling_motion_covers_exactly_the_partition() {
    let mut mb = inter_mb();
    mb.fill_motion(0, 0, 8, 16, [4, -8]);
    for blk in 0..16u8 {
        let (x, _) = luma_4x4_origin(blk);
        let expected = if x < 8 { [4, -8] } else { [0, 0] };
        assert_eq!(mb.mv[blk as usize], expected, "block {blk}");
    }
}

#[test]
fn filling_a_reference_index_covers_the_partitions_it_spans() {
    let mut mb = MbInfo::new(MbType::Inter(Partitioning::P16x8), 26);
    mb.fill_ref_idx(0, 0, 16, 8, 2);
    assert_eq!(mb.ref_idx, [2, 2, 0, 0]);
}

#[test]
fn a_four_by_four_sub_partition_fills_only_its_own_block() {
    let mut mb = inter_mb();
    mb.fill_mvd(4, 4, 4, 4, [1, 2]);
    let blk = luma_4x4_index(4, 4);
    for i in 0..16 {
        let expected = if i == blk as usize { [1, 2] } else { [0, 0] };
        assert_eq!(mb.mvd[i], expected, "block {i}");
    }
}

#[test]
fn partition_corners_map_to_the_right_block_index() {
    assert_eq!(partition_block(Partitioning::P16x16, 0), 0);
    assert_eq!(partition_block(Partitioning::P16x8, 1), 8);
    assert_eq!(partition_block(Partitioning::P8x16, 1), 4);
    let corners: Vec<u8> = (0..4)
        .map(|p| partition_block(Partitioning::P8x8, p))
        .collect();
    assert_eq!(corners, vec![0, 4, 8, 12]);
}

#[test]
fn state_is_unreadable_until_the_macroblock_is_decoded() {
    let mut state = PictureState::new(4, 3);
    state.put(0, 0, intra_mb());
    state.put(1, 0, inter_mb());
    assert!(state.available(0, 1).is_some());
    assert!(state.available(2, 1).is_none());
}

#[test]
fn an_intra_neighbour_offers_no_motion() {
    let mut state = PictureState::new(4, 3);
    let mut inter = inter_mb();
    inter.fill_motion(0, 0, 16, 16, [12, -4]);
    state.put(0, 0, intra_mb());
    state.put(1, 0, inter);

    let decoding = MbInfo::skipped();
    let intra_block = BlockRef { mb: 0, blk: 5 };
    assert_eq!(
        state.motion(Some(intra_block), 2, &decoding),
        Neighbour::unavailable()
    );
    assert_eq!(
        state.motion(None, 2, &decoding),
        Neighbour::unavailable()
    );

    let inter_block = BlockRef { mb: 1, blk: 5 };
    let motion = state.motion(Some(inter_block), 2, &decoding);
    assert_eq!(motion.mv, (12, -4));
    assert_eq!(motion.ref_idx, 0);
}

#[test]
fn the_macroblock_being_decoded_is_read_from_its_own_state() {
    let state = PictureState::new(4, 3);
    let mut decoding = inter_mb();
    decoding.fill_motion(0, 0, 8, 16, [-7, 3]);

    let own_block = BlockRef { mb: 1, blk: 1 };
    let motion = state.motion(Some(own_block), 1, &decoding);
    assert_eq!(motion.mv, (-7, 3));
}

#[test]
fn constrained_intra_prediction_substitutes_dc_for_inter_neighbours() {
    let mut state = PictureState::new(4, 3);
    let mut nxn = MbInfo::new(MbType::IntraNxN, 26);
    nxn.intra_modes = [7; 16];
    state.put(0, 0, nxn);
    state.put(1, 0, inter_mb());

    let from_intra = Some(BlockRef { mb: 0, blk: 0 });
    let from_inter = Some(BlockRef { mb: 1, blk: 0 });
    assert_eq!(state.intra_mode(from_intra, true), Some(7));
    assert_eq!(state.intra_mode(from_inter, true), Some(DC_PRED_MODE));
    assert_eq!(state.intra_mode(from_inter, false), Some(DC_PRED_MODE));
    assert_eq!(state.intra_mode(None, false), None);
}

#[test]
fn a_new_picture_makes_every_macroblock_unavailable_again() {
    let mut state = PictureState::new(4, 3);
    state.put(0, 0, intra_mb());
    state.begin_picture();
    state.put(1, 0, inter_mb());
    assert!(state.available(0, 1).is_none());
}

#[test]
fn a_macroblock_is_described_field_by_field() {
    let mut busy = inter_mb();
    busy.transform_8x8 = true;
    busy.cbp_luma = 15;
    busy.cbp_chroma = 2;
    busy.chroma_mode = 3;
    busy.qp_delta_nonzero = true;
    for i in 0..16 {
        busy.intra_modes[i] = i as u8;
        busy.mv[i] = [i as i16 - 8, -300 * i as i16];
        busy.mvd[i] = [i16::MIN, i16::MAX];
    }
    busy.ref_idx = [0, -1, 31, -128];
    busy.cbf_luma = 0xa5f0;
    busy.cbf_luma_dc = true;
    busy.cbf_chroma_dc = [false, true];
    busy.cbf_chroma_ac = [9, 15];
    let mut all = vec![busy, inter_mb(), intra_mb(), MbInfo::skipped()];
    for p in [
        Partitioning::P16x8,
        Partitioning::P8x16,
        Partitioning::P8x8,
        Partitioning::P8x8Ref0,
    ] {
        all.push(MbInfo::new(MbType::Inter(p), 51));
    }
    all.push(MbInfo::new(MbType::IntraNxN, 0));
    all.push(MbInfo::new(MbType::IPcm, 0));
    for mode in [
        Intra16x16Mode::Vertical,
        Intra16x16Mode::Horizontal,
        Intra16x16Mode::Plane,
    ] {
        let t = MbType::Intra16x16 { mode, cbp_luma: 15, cbp_chroma: 1 };
        all.push(MbInfo::new(t, 30));
    }
    for info in all {
        assert_eq!(describe(&info), format!("{info:?}"));
    }
}
