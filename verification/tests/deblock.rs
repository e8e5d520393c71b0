use lite_encoder::codec::h264::deblock::{Edge, EdgeBlock, EdgeKind, Thresholds, boundary_strength, filter_chroma_edge, filter_luma_edge};
use lite_encoder::codec::h264::deblock_tables::{ALPHA, BETA, TC0};

#[test]
fn thresholds_are_monotonic_and_start_at_zero() {
    for i in 0..16 {
        assert_eq!(ALPHA[i], 0, "alpha {i}");
        assert_eq!(BETA[i], 0, "beta {i}");
    }
    for w in ALPHA.windows(2) {
        assert!(w[1] >= w[0], "alpha is not monotonic");
    }
    for w in BETA.windows(2) {
        assert!(w[1] >= w[0], "beta is not monotonic");
    }
    assert_eq!(ALPHA[51], 255);
    assert_eq!(BETA[51], 18);
}

#[test]
fn tc0_is_monotonic_in_both_axes() {
    for (i, row) in TC0.iter().enumerate() {
        for w in row.windows(2) {
            assert!(w[1] >= w[0], "tc0 row {i} not monotonic in strength");
        }
    }
    for w in TC0.windows(2) {
        for (k, (&lo, &hi)) in w[0].iter().zip(w[1].iter()).enumerate() {
            assert!(hi >= lo, "tc0 column {k} not monotonic in qP");
        }
    }
}

#[test]
fn threshold_index_is_clipped() {
    let low = Thresholds::new(-30, 0, 0);
    assert_eq!(low, Thresholds::new(0, 0, 0));
    let high = Thresholds::new(90, 0, 0);
    assert_eq!(high, Thresholds::new(51, 0, 0));
    assert_eq!(Thresholds::new(30, 6, 0).alpha, ALPHA[36] as i32);
    assert_eq!(Thresholds::new(30, 0, -6).beta, BETA[24] as i32);
}

#[test]
fn intra_content_always_filters_hardest() {
    let intra = EdgeBlock {
        intra: true,
        has_coeffs: false,
        mv: (0, 0),
        ref_idx: -1,
    };
    let inter = EdgeBlock {
        intra: false,
        has_coeffs: false,
        mv: (0, 0),
        ref_idx: 0,
    };
    assert_eq!(boundary_strength(intra, inter, true), 4);
    assert_eq!(boundary_strength(inter, intra, true), 4);
    assert_eq!(boundary_strength(intra, inter, false), 3);
}

#[test]
fn coefficients_outrank_motion_differences() {
    let coded = EdgeBlock {
        intra: false,
        has_coeffs: true,
        mv: (0, 0),
        ref_idx: 0,
    };
    let clean = EdgeBlock {
        intra: false,
        has_coeffs: false,
        mv: (0, 0),
        ref_idx: 0,
    };
    assert_eq!(boundary_strength(coded, clean, false), 2);
    assert_eq!(boundary_strength(clean, coded, false), 2);
}

#[test]
fn motion_discontinuity_triggers_the_weakest_filter() {
    let base = EdgeBlock {
        intra: false,
        has_coeffs: false,
        mv: (0, 0),
        ref_idx: 0,
    };

    assert_eq!(boundary_strength(base, base, false), 0);

    let near = EdgeBlock { mv: (3, 0), ..base };
    assert_eq!(boundary_strength(base, near, false), 0);

    let far = EdgeBlock { mv: (4, 0), ..base };
    assert_eq!(boundary_strength(base, far, false), 1);
    let far_y = EdgeBlock {
        mv: (0, -4),
        ..base
    };
    assert_eq!(boundary_strength(base, far_y, false), 1);

    let other_ref = EdgeBlock { ref_idx: 1, ..base };
    assert_eq!(boundary_strength(base, other_ref, false), 1);
}

fn step_plane(left: u8, right: u8) -> Vec<u8> {
    let mut p = vec![0u8; 16 * 16];
    for y in 0..16 {
        for x in 0..16 {
            p[y * 16 + x] = if x < 8 { left } else { right };
        }
    }
    p
}

#[test]
fn a_large_step_is_left_alone() {
    let mut plane = step_plane(20, 200);
    let before = plane.clone();
    let t = Thresholds::new(30, 0, 0);
    filter_luma_edge(
        &mut plane,
        16,
        &Edge {
            kind: EdgeKind::Vertical,
            x: 8,
            y: 0,
            length: 16,
            bs: &[3],
        },
        &t,
    );
    assert_eq!(plane, before, "a 180-level step must exceed alpha");
}

#[test]
fn a_small_step_is_smoothed() {
    let mut plane = step_plane(100, 108);
    let t = Thresholds::new(40, 0, 0);
    filter_luma_edge(
        &mut plane,
        16,
        &Edge {
            kind: EdgeKind::Vertical,
            x: 8,
            y: 0,
            length: 16,
            bs: &[2],
        },
        &t,
    );

    for y in 0..16 {
        let p0 = plane[y * 16 + 7];
        let q0 = plane[y * 16 + 8];
        assert!(p0 > 100, "row {y}: p0 {p0} should have risen");
        assert!(q0 < 108, "row {y}: q0 {q0} should have fallen");
        assert!(p0 <= q0, "row {y}: filter must not invert the step");
    }
}

#[test]
fn strength_zero_filters_nothing() {
    let mut plane = step_plane(100, 106);
    let before = plane.clone();
    let t = Thresholds::new(40, 0, 0);
    filter_luma_edge(
        &mut plane,
        16,
        &Edge {
            kind: EdgeKind::Vertical,
            x: 8,
            y: 0,
            length: 16,
            bs: &[0],
        },
        &t,
    );
    assert_eq!(plane, before);
}

#[test]
fn a_flat_plane_survives_every_strength() {
    for bs in 1..=4u8 {
        for value in [0u8, 1, 128, 254, 255] {
            let mut plane = vec![value; 16 * 16];
            let before = plane.clone();
            let t = Thresholds::new(45, 0, 0);
            filter_luma_edge(
                &mut plane,
                16,
                &Edge {
                    kind: EdgeKind::Vertical,
                    x: 8,
                    y: 0,
                    length: 16,
                    bs: &[bs],
                },
                &t,
            );
            assert_eq!(plane, before, "bs {bs} on flat {value}");

            let mut chroma = vec![value; 16 * 16];
            filter_chroma_edge(
                &mut chroma,
                16,
                &Edge {
                    kind: EdgeKind::Vertical,
                    x: 8,
                    y: 0,
                    length: 8,
                    bs: &[bs],
                },
                &t,
            );
            assert_eq!(chroma, before, "chroma bs {bs} on flat {value}");
        }
    }
}

#[test]
fn horizontal_edges_match_transposed_vertical_edges() {
    let vertical_in = step_plane(100, 112);
    let mut horizontal_in = vec![0u8; 16 * 16];
    for y in 0..16 {
        for x in 0..16 {
            horizontal_in[x * 16 + y] = vertical_in[y * 16 + x];
        }
    }

    let t = Thresholds::new(40, 0, 0);
    let mut v = vertical_in.clone();
    filter_luma_edge(
        &mut v,
        16,
        &Edge {
            kind: EdgeKind::Vertical,
            x: 8,
            y: 0,
            length: 16,
            bs: &[3],
        },
        &t,
    );

    let mut h = horizontal_in.clone();
    filter_luma_edge(
        &mut h,
        16,
        &Edge {
            kind: EdgeKind::Horizontal,
            x: 0,
            y: 8,
            length: 16,
            bs: &[3],
        },
        &t,
    );

    for y in 0..16 {
        for x in 0..16 {
            assert_eq!(v[y * 16 + x], h[x * 16 + y], "mismatch at ({x},{y})");
        }
    }
}

#[test]
fn strong_filter_reaches_further_than_the_normal_one() {
    let t = Thresholds::new(45, 0, 0);

    let mut normal = step_plane(100, 110);
    filter_luma_edge(
        &mut normal,
        16,
        &Edge {
            kind: EdgeKind::Vertical,
            x: 8,
            y: 0,
            length: 16,
            bs: &[3],
        },
        &t,
    );

    let mut strong = step_plane(100, 110);
    filter_luma_edge(
        &mut strong,
        16,
        &Edge {
            kind: EdgeKind::Vertical,
            x: 8,
            y: 0,
            length: 16,
            bs: &[4],
        },
        &t,
    );

    assert_eq!(normal[5], 100, "normal filter must not touch p2");
    assert_ne!(strong[5], 100, "strong filter must touch p2");
}

#[test]
fn chroma_touches_only_the_nearest_samples() {
    let mut plane = step_plane(100, 110);
    let t = Thresholds::new(45, 0, 0);
    filter_chroma_edge(
        &mut plane,
        16,
        &Edge {
            kind: EdgeKind::Vertical,
            x: 8,
            y: 0,
            length: 8,
            bs: &[4],
        },
        &t,
    );

    for y in 0..8 {
        assert_eq!(plane[y * 16 + 6], 100, "p1 must be untouched");
        assert_ne!(plane[y * 16 + 7], 100, "p0 must be filtered");
        assert_ne!(plane[y * 16 + 8], 110, "q0 must be filtered");
        assert_eq!(plane[y * 16 + 9], 110, "q1 must be untouched");
    }
}

#[test]
fn per_group_strengths_apply_to_their_own_lines() {
    let mut plane = step_plane(100, 108);
    let t = Thresholds::new(40, 0, 0);
    filter_luma_edge(
        &mut plane,
        16,
        &Edge {
            kind: EdgeKind::Vertical,
            x: 8,
            y: 0,
            length: 16,
            bs: &[2, 0, 2, 0],
        },
        &t,
    );

    for y in 0..4 {
        assert_ne!(plane[y * 16 + 7], 100, "group 0 should be filtered");
    }
    for y in 4..8 {
        assert_eq!(plane[y * 16 + 7], 100, "group 1 should be untouched");
    }
    for y in 8..12 {
        assert_ne!(plane[y * 16 + 7], 100, "group 2 should be filtered");
    }
    for y in 12..16 {
        assert_eq!(plane[y * 16 + 7], 100, "group 3 should be untouched");
    }
}

#[test]
fn low_qp_disables_filtering() {
    let mut plane = step_plane(100, 104);
    let before = plane.clone();
    let t = Thresholds::new(10, 0, 0);
    assert_eq!(t.alpha, 0);
    filter_luma_edge(
        &mut plane,
        16,
        &Edge {
            kind: EdgeKind::Vertical,
            x: 8,
            y: 0,
            length: 16,
            bs: &[4],
        },
        &t,
    );
    assert_eq!(plane, before);
}

#[test]
fn only_lines_with_a_strength_change_and_only_near_the_edge() {
    let t = Thresholds::new(40, 0, 0);
    let ramp = |x: usize| if x < 8 { 100 } else { 106 };
    for bs in [1u8, 3, 4] {
        let mut plane: Vec<u8> = (0..256).map(|i| ramp(i % 16)).collect();
        let before = plane.clone();
        filter_luma_edge(
            &mut plane,
            16,
            &Edge {
                kind: EdgeKind::Vertical,
                x: 8,
                y: 4,
                length: 8,
                bs: &[bs, 0],
            },
            &t,
        );
        let reach = if bs < 4 { 2 } else { 3 };
        for (i, (a, b)) in before.iter().zip(&plane).enumerate() {
            let (x, y) = (i % 16, i / 16);
            let inside = (4..8).contains(&y) && (8 - reach..8 + reach).contains(&x);
            assert!(inside || a == b, "bs {bs} at ({x}, {y})");
        }
        assert_ne!(before, plane, "bs {bs}");
        if bs == 4 {
            assert_ne!(before[4 * 16 + 5], plane[4 * 16 + 5]);
        }
    }
}
