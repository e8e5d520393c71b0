use lite_encoder::codec::h264::intra::{Intra16x16Mode};
use lite_encoder::codec::h264::mb::{MbType, Partitioning};
use lite_encoder::codec::h264::picture::{Dpb, Picture};
use lite_encoder::codec::h264::recon::{ReconParams, Residual, ScalingLists, dc_index, dezigzag_4x4, dezigzag_8x8, reconstruct};
use lite_encoder::codec::h264::state::{MbInfo, PictureState};

fn params() -> ReconParams {
    ReconParams {
        scaling: ScalingLists::default(),
        chroma_qp_offset: [0; 2],
        constrained_intra: false,
    }
}

#[test]
fn dezigzagging_places_every_level_at_its_scan_position() {
    let levels: [i32; 16] = std::array::from_fn(|i| i as i32 + 1);
    let block = dezigzag_4x4(&levels);
    assert_eq!(block.iter().filter(|&&v| v != 0).count(), 16);
    assert_eq!(block[0], 1);

    let mut ac = levels;
    ac[0] = 0;
    let ac = dezigzag_4x4(&ac);
    assert_eq!(ac[0], 0, "an AC block must not write the DC position");
    assert_eq!(ac.iter().filter(|&&v| v != 0).count(), 15);
    assert_eq!(ac[1], 2);

    let levels: [i32; 64] = std::array::from_fn(|i| i as i32 + 1);
    assert_eq!(dezigzag_8x8(&levels).iter().filter(|&&v| v != 0).count(), 64);
}

#[test]
fn the_luma_dc_index_is_a_permutation_of_the_block_scan() {
    let indices: Vec<usize> = (0..16u8).map(dc_index).collect();
    let mut sorted = indices.clone();
    sorted.sort_unstable();
    sorted.dedup();
    assert_eq!(sorted.len(), 16);
    assert_eq!(indices[0], 0);
    assert_eq!(indices[1], 1);
    assert_eq!(indices[2], 4);
    assert_eq!(indices[4], 2);
}

#[test]
fn the_first_macroblock_predicts_dc_from_nothing() {
    let mut picture = Picture::new(2, 2);
    let mut state = PictureState::new(2, 2);
    state.begin_macroblock(0, 0);

    let info = MbInfo::new(
        MbType::Intra16x16 {
            mode: Intra16x16Mode::Dc,
            cbp_luma: 0,
            cbp_chroma: 0,
        },
        26,
    );
    let dpb = Dpb::new(1, 16);
    reconstruct(
        &mut picture,
        &state,
        &dpb,
        0,
        &info,
        &Residual::default(),
        &params(),
    )
    .expect("reconstruct");

    for y in 0..16 {
        for x in 0..16 {
            assert_eq!(picture.planes[0][y * picture.strides[0] + x], 128);
        }
    }
}

#[test]
fn a_mode_without_its_neighbours_is_rejected() {
    let mut picture = Picture::new(2, 2);
    let mut state = PictureState::new(2, 2);
    state.begin_macroblock(0, 0);

    let info = MbInfo::new(
        MbType::Intra16x16 {
            mode: Intra16x16Mode::Vertical,
            cbp_luma: 0,
            cbp_chroma: 0,
        },
        26,
    );
    let dpb = Dpb::new(1, 16);
    let err = reconstruct(
        &mut picture,
        &state,
        &dpb,
        0,
        &info,
        &Residual::default(),
        &params(),
    )
    .expect_err("vertical prediction cannot work at the top edge");
    assert!(err.message().contains("not available"), "{err:?}");
}

#[test]
fn a_zero_vector_copies_the_reference_exactly() {
    let mut reference = Picture::new(2, 2);
    for (i, sample) in reference.planes[0].iter_mut().enumerate() {
        *sample = (i % 251) as u8;
    }
    let expected = reference.planes[0].clone();
    let mut dpb = Dpb::new(1, 16);
    let _ = dpb.push(reference);

    let mut picture = Picture::new(2, 2);
    let mut state = PictureState::new(2, 2);
    state.begin_macroblock(1, 0);

    let info = MbInfo::new(MbType::Inter(Partitioning::P16x16), 26);
    reconstruct(
        &mut picture,
        &state,
        &dpb,
        1,
        &info,
        &Residual::default(),
        &params(),
    )
    .expect("reconstruct");

    let stride = picture.strides[0];
    for y in 0..16 {
        for x in 16..32 {
            assert_eq!(
                picture.planes[0][y * stride + x],
                expected[y * stride + x],
                "sample ({x}, {y})"
            );
        }
    }
}

#[test]
fn inter_prediction_without_a_reference_is_an_error() {
    let mut picture = Picture::new(2, 2);
    let mut state = PictureState::new(2, 2);
    state.begin_macroblock(0, 0);
    let dpb = Dpb::new(1, 16);
    let info = MbInfo::new(MbType::Inter(Partitioning::P16x16), 26);

    let err = reconstruct(
        &mut picture,
        &state,
        &dpb,
        0,
        &info,
        &Residual::default(),
        &params(),
    )
    .expect_err("there is no reference picture");
    assert!(err.message().contains("not in the buffer"), "{err:?}");
}

#[test]
fn scaling_lists_are_selected_by_prediction_mode_and_plane() {
    let mut scaling = ScalingLists::default();
    for (i, list) in scaling.weight_4x4.iter_mut().enumerate() {
        list[0] = i as u8;
    }
    assert_eq!(scaling.list_4x4(true, 0)[0], 0);
    assert_eq!(scaling.list_4x4(true, 2)[0], 2);
    assert_eq!(scaling.list_4x4(false, 0)[0], 3);
    assert_eq!(scaling.list_4x4(false, 2)[0], 5);

    scaling.weight_8x8[1][0] = 9;
    assert_eq!(scaling.list_8x8(true)[0], 16);
    assert_eq!(scaling.list_8x8(false)[0], 9);
}

#[test]
fn reconstruction_errors_say_what_is_missing() {
    let mut picture = Picture::new(2, 2);
    let mut state = PictureState::new(2, 2);
    state.begin_macroblock(0, 0);
    let dpb = Dpb::new(1, 16);
    let mut attempt = |info: &MbInfo| {
        reconstruct(&mut picture, &state, &dpb, 0, info, &Residual::default(), &params())
            .unwrap_err()
            .message()
            .clone()
    };

    let mode = Intra16x16Mode::Plane;
    let info = MbInfo::new(MbType::Intra16x16 { mode, cbp_luma: 0, cbp_chroma: 0 }, 26);
    assert_eq!(
        attempt(&info),
        "intra mode Plane needs neighbouring samples that are not available"
    );

    let mut info = MbInfo::new(MbType::IntraNxN, 26);
    info.intra_modes[0] = 9;
    assert_eq!(attempt(&info), "intra mode 9 is not defined");

    let mode = Intra16x16Mode::Dc;
    let mut info = MbInfo::new(MbType::Intra16x16 { mode, cbp_luma: 0, cbp_chroma: 0 }, 26);
    info.chroma_mode = 2;
    assert_eq!(
        attempt(&info),
        "chroma mode Vertical needs neighbours that macroblock 0 does not have"
    );
    info.chroma_mode = 7;
    assert_eq!(attempt(&info), "chroma mode 7");

    let info = MbInfo::new(MbType::Inter(Partitioning::P16x16), 26);
    assert_eq!(
        attempt(&info),
        "macroblock 0 references picture 0, which is not in the buffer"
    );
}
