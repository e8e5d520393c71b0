use lite_encoder::codec::h264::inter::Partition as P;
use lite_encoder::codec::h264::intra::{Intra16x16Mode};
use lite_encoder::codec::h264::mb::{MbType, Partitioning, SliceKind, SubMbType, chroma_qp, mb_type, next_qp};

#[test]
fn the_i_slice_table_ends_are_the_two_special_cases() {
    assert_eq!(mb_type(SliceKind::I, 0), Some(MbType::IntraNxN));
    assert_eq!(mb_type(SliceKind::I, 25), Some(MbType::IPcm));
    assert_eq!(mb_type(SliceKind::I, 26), None);
}

#[test]
fn the_intra_16x16_types_unpack_mode_and_pattern() {
    assert_eq!(
        mb_type(SliceKind::I, 1),
        Some(MbType::Intra16x16 {
            mode: Intra16x16Mode::Vertical,
            cbp_luma: 0,
            cbp_chroma: 0,
        })
    );
    assert_eq!(
        mb_type(SliceKind::I, 4),
        Some(MbType::Intra16x16 {
            mode: Intra16x16Mode::Plane,
            cbp_luma: 0,
            cbp_chroma: 0,
        })
    );
    assert_eq!(
        mb_type(SliceKind::I, 5),
        Some(MbType::Intra16x16 {
            mode: Intra16x16Mode::Vertical,
            cbp_luma: 0,
            cbp_chroma: 1,
        })
    );
    assert_eq!(
        mb_type(SliceKind::I, 13),
        Some(MbType::Intra16x16 {
            mode: Intra16x16Mode::Vertical,
            cbp_luma: 15,
            cbp_chroma: 0,
        })
    );
    assert_eq!(
        mb_type(SliceKind::I, 24),
        Some(MbType::Intra16x16 {
            mode: Intra16x16Mode::Plane,
            cbp_luma: 15,
            cbp_chroma: 2,
        })
    );
}

#[test]
fn every_intra_16x16_type_has_a_legal_chroma_pattern() {
    for value in 1..=24 {
        let Some(MbType::Intra16x16 { cbp_chroma, .. }) = mb_type(SliceKind::I, value) else {
            panic!("value {value} is not an I_16x16 type");
        };
        assert!(cbp_chroma <= 2, "value {value} gave chroma {cbp_chroma}");
    }
}

#[test]
fn p_slice_values_below_five_are_the_inter_shapes() {
    let shapes = [
        Partitioning::P16x16,
        Partitioning::P16x8,
        Partitioning::P8x16,
        Partitioning::P8x8,
        Partitioning::P8x8Ref0,
    ];
    for (value, shape) in shapes.into_iter().enumerate() {
        assert_eq!(
            mb_type(SliceKind::P, value as u32),
            Some(MbType::Inter(shape))
        );
    }
}

#[test]
fn p_slice_values_from_five_up_are_the_intra_table_shifted() {
    for value in 0..=25 {
        assert_eq!(
            mb_type(SliceKind::P, value + 5),
            mb_type(SliceKind::I, value),
            "intra type {value}"
        );
    }
    assert_eq!(mb_type(SliceKind::P, 31), None);
}

#[test]
fn partitions_tile_the_macroblock_exactly() {
    for shape in [
        Partitioning::P16x16,
        Partitioning::P16x8,
        Partitioning::P8x16,
        Partitioning::P8x8,
    ] {
        let covered: usize = shape.parts().iter().map(|p| p.width * p.height).sum();
        assert_eq!(covered, 256, "{shape:?} does not cover the macroblock");
        for part in shape.parts() {
            assert!(
                part.x + part.width <= 16 && part.y + part.height <= 16,
                "{part:?}"
            );
        }
    }
}

#[test]
fn sub_partitions_tile_their_eight_by_eight_partition_exactly() {
    for sub in [
        SubMbType::S8x8,
        SubMbType::S8x4,
        SubMbType::S4x8,
        SubMbType::S4x4,
    ] {
        let covered: usize = sub.parts().iter().map(|p| p.width * p.height).sum();
        assert_eq!(covered, 64, "{sub:?} does not cover the partition");
        for part in sub.parts() {
            assert!(
                part.x + part.width <= 8 && part.y + part.height <= 8,
                "{part:?}"
            );
        }
    }
}

#[test]
fn only_the_split_shapes_use_directional_vector_prediction() {
    assert_eq!(Partitioning::P16x8.mv_prediction(0), P::Top16x8);
    assert_eq!(Partitioning::P16x8.mv_prediction(1), P::Bottom16x8);
    assert_eq!(Partitioning::P8x16.mv_prediction(0), P::Left8x16);
    assert_eq!(Partitioning::P8x16.mv_prediction(1), P::Right8x16);
    assert_eq!(Partitioning::P16x16.mv_prediction(0), P::Other);
    for part in 0..4 {
        assert_eq!(Partitioning::P8x8.mv_prediction(part), P::Other);
    }
}

#[test]
fn ref_zero_partitioning_codes_no_reference_index() {
    assert!(!Partitioning::P8x8Ref0.codes_ref_idx());
    assert!(Partitioning::P8x8.codes_ref_idx());
    assert!(Partitioning::P8x8Ref0.has_sub_partitions());
}

#[test]
fn only_i_nxn_and_inter_macroblocks_code_a_block_pattern() {
    assert!(MbType::IntraNxN.has_coded_block_pattern());
    assert!(MbType::Inter(Partitioning::P16x16).has_coded_block_pattern());
    assert!(!MbType::IPcm.has_coded_block_pattern());
    assert!(!MbType::PSkip.has_coded_block_pattern());
    let i16 = mb_type(SliceKind::I, 13).unwrap();
    assert!(!i16.has_coded_block_pattern());
}

#[test]
fn intra_and_inter_classification_covers_every_type() {
    for value in 0..=25 {
        assert!(mb_type(SliceKind::I, value).unwrap().is_intra());
    }
    for value in 0..5 {
        assert!(mb_type(SliceKind::P, value).unwrap().is_inter());
    }
    assert!(MbType::PSkip.is_inter());
}

#[test]
fn the_quantiser_delta_wraps_modulo_fifty_two() {
    assert_eq!(next_qp(26, 0), 26);
    assert_eq!(next_qp(26, 5), 31);
    assert_eq!(next_qp(26, -5), 21);
    assert_eq!(next_qp(50, 4), 2);
    assert_eq!(next_qp(2, -4), 50);
    for prev in 0..52u8 {
        for delta in -26..=25 {
            assert!(next_qp(prev, delta) < 52);
        }
    }
}

#[test]
fn chroma_tracks_luma_below_thirty_and_flattens_above_it() {
    for qp in 0..30u8 {
        assert_eq!(chroma_qp(qp, 0), qp);
    }
    assert_eq!(chroma_qp(30, 0), 29);
    assert_eq!(chroma_qp(39, 0), 35);
    assert_eq!(chroma_qp(51, 0), 39);
    let mut prev = 0;
    for qp in 0..52u8 {
        let c = chroma_qp(qp, 0);
        assert!(c >= prev && c <= qp, "qp {qp} gave {c}");
        prev = c;
    }
}

#[test]
fn the_chroma_offset_is_applied_before_the_table_and_clamped() {
    assert_eq!(chroma_qp(30, -2), 28);
    assert_eq!(chroma_qp(28, 2), 29);
    for qp in 0..52u8 {
        for offset in -12..=12 {
            assert!(chroma_qp(qp, offset) < 52);
        }
    }
}
