use lite_encoder::codec::h264::intra::{Intra16x16Mode, IntraChromaMode, IntraNxNMode, Neighbours, predict_16x16, predict_4x4, predict_8x8, predict_chroma_8x8};

const ALL_NXN: [IntraNxNMode; 9] = [
    IntraNxNMode::Vertical,
    IntraNxNMode::Horizontal,
    IntraNxNMode::Dc,
    IntraNxNMode::DiagonalDownLeft,
    IntraNxNMode::DiagonalDownRight,
    IntraNxNMode::VerticalRight,
    IntraNxNMode::HorizontalDown,
    IntraNxNMode::VerticalLeft,
    IntraNxNMode::HorizontalUp,
];

#[test]
fn flat_neighbours_give_flat_prediction() {
    for v in [0u8, 1, 17, 128, 200, 255] {
        let top = [v; 16];
        let left = [v; 16];
        let n = Neighbours {
            top: Some(&top),
            left: Some(&left),
            top_left: Some(v),
        };

        for mode in ALL_NXN {
            let mut out4 = [0u8; 16];
            assert!(predict_4x4(mode, &n, &mut out4), "{mode:?} 4x4 refused");
            assert!(
                out4.iter().all(|&s| s == v),
                "4x4 {mode:?} on flat {v} gave {out4:?}"
            );

            let mut out8 = [0u8; 64];
            assert!(predict_8x8(mode, &n, &mut out8), "{mode:?} 8x8 refused");
            assert!(
                out8.iter().all(|&s| s == v),
                "8x8 {mode:?} on flat {v} was not flat"
            );
        }

        for mode in [
            Intra16x16Mode::Vertical,
            Intra16x16Mode::Horizontal,
            Intra16x16Mode::Dc,
            Intra16x16Mode::Plane,
        ] {
            let mut out = [0u8; 256];
            assert!(predict_16x16(mode, &n, &mut out));
            assert!(
                out.iter().all(|&s| s == v),
                "16x16 {mode:?} on flat {v} was not flat"
            );
        }

        for mode in [
            IntraChromaMode::Dc,
            IntraChromaMode::Horizontal,
            IntraChromaMode::Vertical,
            IntraChromaMode::Plane,
        ] {
            let mut out = [0u8; 64];
            assert!(predict_chroma_8x8(mode, &n, &mut out));
            assert!(
                out.iter().all(|&s| s == v),
                "chroma {mode:?} on flat {v} was not flat"
            );
        }
    }
}

#[test]
fn vertical_copies_top_row_and_horizontal_copies_left() {
    let top: Vec<u8> = (10..26).collect();
    let left: Vec<u8> = (100..116).collect();
    let n = Neighbours {
        top: Some(&top),
        left: Some(&left),
        top_left: Some(7),
    };

    let mut out = [0u8; 16];
    predict_4x4(IntraNxNMode::Vertical, &n, &mut out);
    for y in 0..4 {
        assert_eq!(&out[y * 4..y * 4 + 4], &top[..4], "row {y}");
    }

    predict_4x4(IntraNxNMode::Horizontal, &n, &mut out);
    for y in 0..4 {
        assert!(out[y * 4..y * 4 + 4].iter().all(|&s| s == left[y]));
    }
}

#[test]
fn dc_with_no_neighbours_is_mid_grey() {
    let n = Neighbours::default();

    let mut out4 = [0u8; 16];
    assert!(predict_4x4(IntraNxNMode::Dc, &n, &mut out4));
    assert!(out4.iter().all(|&s| s == 128));

    let mut out16 = [0u8; 256];
    assert!(predict_16x16(Intra16x16Mode::Dc, &n, &mut out16));
    assert!(out16.iter().all(|&s| s == 128));

    let mut outc = [0u8; 64];
    assert!(predict_chroma_8x8(IntraChromaMode::Dc, &n, &mut outc));
    assert!(outc.iter().all(|&s| s == 128));
}

#[test]
fn dc_averages_available_edges() {
    let top = [40u8; 16];
    let left = [80u8; 16];

    let both = Neighbours {
        top: Some(&top),
        left: Some(&left),
        top_left: None,
    };
    let mut out = [0u8; 16];
    predict_4x4(IntraNxNMode::Dc, &both, &mut out);
    assert!(out.iter().all(|&s| s == 60), "expected mean of 40 and 80");

    let top_only = Neighbours {
        top: Some(&top),
        left: None,
        top_left: None,
    };
    predict_4x4(IntraNxNMode::Dc, &top_only, &mut out);
    assert!(out.iter().all(|&s| s == 40));

    let left_only = Neighbours {
        top: None,
        left: Some(&left),
        top_left: None,
    };
    predict_4x4(IntraNxNMode::Dc, &left_only, &mut out);
    assert!(out.iter().all(|&s| s == 80));
}

#[test]
fn modes_refuse_missing_neighbours() {
    let empty = Neighbours::default();
    let mut out = [0u8; 16];
    for mode in ALL_NXN {
        let accepted = predict_4x4(mode, &empty, &mut out);
        assert_eq!(
            accepted,
            mode == IntraNxNMode::Dc,
            "{mode:?} availability handling"
        );
    }

    let top = [5u8; 16];
    let left = [5u8; 16];
    let no_corner = Neighbours {
        top: Some(&top),
        left: Some(&left),
        top_left: None,
    };
    let mut out16 = [0u8; 256];
    assert!(!predict_16x16(
        Intra16x16Mode::Plane,
        &no_corner,
        &mut out16
    ));
}

#[test]
fn plane_extends_a_linear_ramp() {
    let top: Vec<u8> = (0..16).map(|x| 60 + x as u8).collect();
    let left: Vec<u8> = (0..16).map(|y| 60 + y as u8).collect();
    let n = Neighbours {
        top: Some(&top),
        left: Some(&left),
        top_left: Some(59),
    };

    let mut out = [0u8; 256];
    assert!(predict_16x16(Intra16x16Mode::Plane, &n, &mut out));
    for y in 0..16usize {
        for x in 0..16usize {
            let expected = 60 + x as i32 + y as i32;
            let got = out[y * 16 + x] as i32;
            assert!(
                (got - expected).abs() <= 1,
                "at ({x},{y}): got {got}, expected about {expected}"
            );
        }
    }
}

#[test]
fn missing_top_right_is_replicated() {
    let short = [10u8, 20, 30, 40];
    let padded = [10u8, 20, 30, 40, 40, 40, 40, 40];

    for mode in [IntraNxNMode::DiagonalDownLeft, IntraNxNMode::VerticalLeft] {
        let mut a = [0u8; 16];
        let mut b = [0u8; 16];
        predict_4x4(
            mode,
            &Neighbours {
                top: Some(&short),
                left: None,
                top_left: None,
            },
            &mut a,
        );
        predict_4x4(
            mode,
            &Neighbours {
                top: Some(&padded),
                left: None,
                top_left: None,
            },
            &mut b,
        );
        assert_eq!(a, b, "{mode:?} disagreed on replicated top-right");
    }
}

#[test]
fn present_top_right_changes_diagonal_prediction() {
    let short = [10u8, 20, 30, 40];
    let with_tr = [10u8, 20, 30, 40, 200, 200, 200, 200];

    let mut a = [0u8; 16];
    let mut b = [0u8; 16];
    predict_4x4(
        IntraNxNMode::DiagonalDownLeft,
        &Neighbours {
            top: Some(&short),
            left: None,
            top_left: None,
        },
        &mut a,
    );
    predict_4x4(
        IntraNxNMode::DiagonalDownLeft,
        &Neighbours {
            top: Some(&with_tr),
            left: None,
            top_left: None,
        },
        &mut b,
    );
    assert_ne!(a, b);
}

#[test]
fn intra_8x8_filters_reference_samples() {
    let mut top = [0u8; 16];
    top[8..].fill(255);
    let n = Neighbours {
        top: Some(&top),
        left: None,
        top_left: None,
    };

    let mut out = [0u8; 64];
    assert!(predict_8x8(IntraNxNMode::Vertical, &n, &mut out));

    assert!(
        out[7] > 0 && out[7] < 255,
        "expected a filtered transition, got {}",
        out[7]
    );
}

#[test]
fn chroma_dc_is_per_sub_block() {
    let top = [40u8; 16];
    let left = [200u8; 16];
    let n = Neighbours {
        top: Some(&top),
        left: Some(&left),
        top_left: None,
    };

    let mut out = [0u8; 64];
    assert!(predict_chroma_8x8(IntraChromaMode::Dc, &n, &mut out));

    let at = |x: usize, y: usize| out[y * 8 + x];
    assert_eq!(at(0, 0), 120);
    assert_eq!(at(4, 4), 120);
    assert_eq!(at(4, 0), 40);
    assert_eq!(at(0, 4), 200);
}

#[test]
fn chroma_mode_ids_do_not_match_luma_ids() {
    assert_eq!(IntraChromaMode::from_id(0), Some(IntraChromaMode::Dc));
    assert_eq!(IntraNxNMode::from_id(0), Some(IntraNxNMode::Vertical));
    assert_eq!(IntraChromaMode::from_id(4), None);
    assert_eq!(IntraNxNMode::from_id(9), None);
}
