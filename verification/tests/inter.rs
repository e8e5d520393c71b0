use lite_encoder::codec::h264::inter::{Neighbour, Partition, Plane, predict_chroma, predict_luma, predict_mv, predict_skip_mv};

fn clip1(v: i32) -> u8 {
    v.clamp(0, 255) as u8
}

fn tap6(a: i32, b: i32, c: i32, d: i32, e: i32, f: i32) -> i32 {
    a - 5 * b + 20 * c + 20 * d - 5 * e + f
}

fn at(p: &Plane, x: i32, y: i32) -> i32 {
    p.at(x, y) as i32
}

fn half_h(p: &Plane, x: i32, y: i32) -> i32 {
    tap6(
        at(p, x - 2, y),
        at(p, x - 1, y),
        at(p, x, y),
        at(p, x + 1, y),
        at(p, x + 2, y),
        at(p, x + 3, y),
    )
}

fn half_v(p: &Plane, x: i32, y: i32) -> i32 {
    tap6(
        at(p, x, y - 2),
        at(p, x, y - 1),
        at(p, x, y),
        at(p, x, y + 1),
        at(p, x, y + 2),
        at(p, x, y + 3),
    )
}

fn centre(p: &Plane, x: i32, y: i32) -> i32 {
    tap6(
        half_h(p, x, y - 2),
        half_h(p, x, y - 1),
        half_h(p, x, y),
        half_h(p, x, y + 1),
        half_h(p, x, y + 2),
        half_h(p, x, y + 3),
    )
}

fn round_half(v: i32) -> i32 {
    clip1((v + 16) >> 5) as i32
}

fn round_centre(v: i32) -> i32 {
    clip1((v + 512) >> 10) as i32
}

fn flat_plane(v: u8, w: usize, h: usize) -> Vec<u8> {
    vec![v; w * h]
}

fn plane<'a>(data: &'a [u8], w: usize, h: usize) -> Plane<'a> {
    Plane {
        data,
        width: w,
        height: h,
        stride: w,
    }
}

fn per_sample(p: &Plane, x: i32, y: i32, xfrac: usize, yfrac: usize) -> u8 {
    let v = match (xfrac, yfrac) {
        (0, 0) => at(p, x, y),

        (2, 0) => round_half(half_h(p, x, y)),
        (1, 0) => (at(p, x, y) + round_half(half_h(p, x, y)) + 1) >> 1,
        (3, 0) => (at(p, x + 1, y) + round_half(half_h(p, x, y)) + 1) >> 1,

        (0, 2) => round_half(half_v(p, x, y)),
        (0, 1) => (at(p, x, y) + round_half(half_v(p, x, y)) + 1) >> 1,
        (0, 3) => (at(p, x, y + 1) + round_half(half_v(p, x, y)) + 1) >> 1,

        (2, 2) => round_centre(centre(p, x, y)),
        (1, 2) => (round_half(half_v(p, x, y)) + round_centre(centre(p, x, y)) + 1) >> 1,
        (3, 2) => (round_centre(centre(p, x, y)) + round_half(half_v(p, x + 1, y)) + 1) >> 1,
        (2, 1) => (round_half(half_h(p, x, y)) + round_centre(centre(p, x, y)) + 1) >> 1,
        (2, 3) => (round_centre(centre(p, x, y)) + round_half(half_h(p, x, y + 1)) + 1) >> 1,

        (1, 1) => (round_half(half_h(p, x, y)) + round_half(half_v(p, x, y)) + 1) >> 1,
        (3, 1) => (round_half(half_h(p, x, y)) + round_half(half_v(p, x + 1, y)) + 1) >> 1,
        (1, 3) => (round_half(half_v(p, x, y)) + round_half(half_h(p, x, y + 1)) + 1) >> 1,
        (3, 3) => (round_half(half_v(p, x + 1, y)) + round_half(half_h(p, x, y + 1)) + 1) >> 1,

        _ => unreachable!(),
    };
    clip1(v)
}

#[test]
fn block_interpolation_matches_the_per_sample_definition() {
    let (w, h) = (48usize, 40usize);
    let mut data = vec![0u8; w * h];
    let mut seed = 0x2545_f491_4f6c_dd1du64;
    for v in &mut data {
        seed ^= seed << 13;
        seed ^= seed >> 7;
        seed ^= seed << 17;
        *v = (seed >> 33) as u8;
    }
    let p = plane(&data, w, h);

    for (bw, bh) in [(16, 16), (16, 8), (8, 16), (8, 8), (8, 4), (4, 8), (4, 4)] {
        for (x0, y0) in [
            (8, 8),
            (0, 0),
            (w as i32 - bw as i32, h as i32 - bh as i32),
            (-3, 6),
            (6, -3),
            (w as i32 - 2, h as i32 - 2),
        ] {
            for mvy in -6..=6 {
                for mvx in -6..=6 {
                    let mut out = vec![0u8; bw * bh];
                    predict_luma(&p, x0, y0, (mvx, mvy), bw, bh, &mut out);
                    for j in 0..bh {
                        for i in 0..bw {
                            let x = x0 + (mvx >> 2) + i as i32;
                            let y = y0 + (mvy >> 2) + j as i32;
                            let want =
                                per_sample(&p, x, y, (mvx & 3) as usize, (mvy & 3) as usize);
                            assert_eq!(
                                out[j * bw + i],
                                want,
                                "{bw}x{bh} at ({x0}, {y0}) mv ({mvx}, {mvy}) sample ({i}, {j})"
                            );
                        }
                    }
                }
            }
        }
    }
}

fn per_sample_chroma(p: &Plane, x: i32, y: i32, xfrac: i32, yfrac: i32) -> u8 {
    let a = at(p, x, y);
    let b = at(p, x + 1, y);
    let c = at(p, x, y + 1);
    let d = at(p, x + 1, y + 1);
    let v = ((8 - xfrac) * (8 - yfrac) * a
        + xfrac * (8 - yfrac) * b
        + (8 - xfrac) * yfrac * c
        + xfrac * yfrac * d
        + 32)
        >> 6;
    clip1(v)
}

#[test]
fn chroma_block_interpolation_matches_the_per_sample_definition() {
    let (w, h) = (40usize, 32usize);
    let mut data = vec![0u8; w * h];
    let mut seed = 0x9e37_79b9_7f4a_7c15u64;
    for v in &mut data {
        seed ^= seed << 13;
        seed ^= seed >> 7;
        seed ^= seed << 17;
        *v = (seed >> 33) as u8;
    }
    let p = plane(&data, w, h);

    for (bw, bh) in [(8, 8), (8, 4), (4, 8), (4, 4)] {
        for (x0, y0) in [
            (4, 4),
            (0, 0),
            (w as i32 - bw as i32, h as i32 - bh as i32),
            (-2, 3),
            (3, -2),
            (w as i32 - 1, h as i32 - 1),
        ] {
            for mvy in -14..=14 {
                for mvx in -14..=14 {
                    let mut out = vec![0u8; bw * bh];
                    predict_chroma(&p, x0, y0, (mvx, mvy), bw, bh, &mut out);
                    for j in 0..bh {
                        for i in 0..bw {
                            let x = x0 + (mvx >> 3) + i as i32;
                            let y = y0 + (mvy >> 3) + j as i32;
                            let want = per_sample_chroma(&p, x, y, mvx & 7, mvy & 7);
                            assert_eq!(
                                out[j * bw + i],
                                want,
                                "{bw}x{bh} at ({x0}, {y0}) mv ({mvx}, {mvy}) sample ({i}, {j})"
                            );
                        }
                    }
                }
            }
        }
    }
}

#[test]
fn constant_reference_predicts_the_constant() {
    for v in [0u8, 1, 37, 128, 254, 255] {
        let data = flat_plane(v, 32, 32);
        let p = plane(&data, 32, 32);
        for mvy in 0..4 {
            for mvx in 0..4 {
                let mut out = [0u8; 64];
                predict_luma(&p, 8, 8, (mvx, mvy), 8, 8, &mut out);
                assert!(
                    out.iter().all(|&s| s == v),
                    "luma frac ({mvx},{mvy}) on constant {v} gave {:?}",
                    &out[..8]
                );
            }
        }
        for mvy in 0..8 {
            for mvx in 0..8 {
                let mut out = [0u8; 16];
                predict_chroma(&p, 4, 4, (mvx, mvy), 4, 4, &mut out);
                assert!(
                    out.iter().all(|&s| s == v),
                    "chroma frac ({mvx},{mvy}) on constant {v} was not constant"
                );
            }
        }
    }
}

#[test]
fn full_sample_position_copies_the_reference() {
    let mut data = vec![0u8; 32 * 32];
    for y in 0..32 {
        for x in 0..32 {
            data[y * 32 + x] = (x * 3 + y * 7) as u8;
        }
    }
    let p = plane(&data, 32, 32);

    let mut out = [0u8; 64];
    predict_luma(&p, 8, 8, (8, 4), 8, 8, &mut out);
    for j in 0..8 {
        for i in 0..8 {
            assert_eq!(
                out[j * 8 + i],
                data[(9 + j) * 32 + (10 + i)],
                "at ({i},{j})"
            );
        }
    }
}

#[test]
fn half_sample_on_a_ramp_hits_the_midpoint() {
    let w = 40;
    let mut data = vec![0u8; w * w];
    for y in 0..w {
        for x in 0..w {
            data[y * w + x] = (4 * x + 20) as u8;
        }
    }
    let p = plane(&data, w, w);

    let mut out = [0u8; 16];
    predict_luma(&p, 10, 10, (2, 0), 4, 4, &mut out);
    for j in 0..4 {
        for i in 0..4 {
            let left = 4 * (10 + i) + 20;
            let expected = left + 2;
            assert_eq!(out[j * 4 + i] as usize, expected, "at ({i},{j})");
        }
    }
}

#[test]
fn centre_is_order_independent() {
    let w = 40;
    let mut data = vec![0u8; w * w];
    let mut seed = 7u32;
    for s in data.iter_mut() {
        seed = seed.wrapping_mul(1664525).wrapping_add(1013904223);
        *s = (seed >> 24) as u8;
    }
    let p = plane(&data, w, w);

    for y in 6..12 {
        for x in 6..12 {
            let vertical_of_horizontal = centre(&p, x, y);
            let horizontal_of_vertical = tap6(
                half_v(&p, x - 2, y),
                half_v(&p, x - 1, y),
                half_v(&p, x, y),
                half_v(&p, x + 1, y),
                half_v(&p, x + 2, y),
                half_v(&p, x + 3, y),
            );
            assert_eq!(
                vertical_of_horizontal, horizontal_of_vertical,
                "centre disagreed at ({x},{y})"
            );
        }
    }
}

#[test]
fn out_of_bounds_motion_clamps_to_the_edge() {
    let mut data = vec![0u8; 16 * 16];
    for y in 0..16 {
        for x in 0..16 {
            data[y * 16 + x] = (x + y) as u8;
        }
    }
    let p = plane(&data, 16, 16);

    let mut out = [0u8; 16];
    predict_luma(&p, 0, 0, (-400, -400), 4, 4, &mut out);
    assert!(out.iter().all(|&s| s == data[0]), "got {out:?}");

    predict_luma(&p, 15, 15, (400, 400), 4, 4, &mut out);
    let corner = data[15 * 16 + 15];
    assert!(out.iter().all(|&s| s == corner), "got {out:?}");

    let mut chroma = [0u8; 64];
    predict_chroma(&p, 0, 0, (-3, -3), 8, 8, &mut chroma);
    assert_eq!(chroma[0], data[0], "corner sample should be repeated");
}

#[test]
fn negative_vectors_floor_rather_than_truncate() {
    let w = 32;
    let mut data = vec![0u8; w * w];
    for y in 0..w {
        for x in 0..w {
            data[y * w + x] = (x * 4) as u8;
        }
    }
    let p = plane(&data, w, w);

    let mut whole = [0u8; 16];
    predict_luma(&p, 10, 10, (-4, 0), 4, 4, &mut whole);
    for (i, &got) in whole.iter().take(4).enumerate() {
        assert_eq!(got as usize, (9 + i) * 4);
    }

    let mut frac = [0u8; 16];
    predict_luma(&p, 10, 10, (-1, 0), 4, 4, &mut frac);
    let mut at_ten = [0u8; 16];
    predict_luma(&p, 10, 10, (0, 0), 4, 4, &mut at_ten);
    assert_ne!(frac, whole);
    assert_ne!(frac, at_ten);
}

#[test]
fn chroma_bilinear_interpolates_linearly() {
    let w = 16;
    let mut data = vec![0u8; w * w];
    for y in 0..w {
        for x in 0..w {
            data[y * w + x] = (8 * x) as u8;
        }
    }
    let p = plane(&data, w, w);

    let mut out = [0u8; 16];
    predict_chroma(&p, 4, 4, (4, 0), 4, 4, &mut out);
    for (i, &got) in out.iter().take(4).enumerate() {
        assert_eq!(got as usize, 8 * (4 + i) + 4, "at {i}");
    }
}

fn n(mv: (i32, i32), ref_idx: i8) -> Neighbour {
    Neighbour { mv, ref_idx }
}

#[test]
fn median_is_used_when_several_neighbours_match() {
    let p = predict_mv(
        n((10, -4), 0),
        n((2, 8), 0),
        n((6, 0), 0),
        0,
        Partition::Other,
    );
    assert_eq!(p, (6, 0));
}

#[test]
fn a_lone_matching_reference_wins_over_the_median() {
    let p = predict_mv(
        n((100, 100), 0),
        n((2, 2), 1),
        n((4, 4), 1),
        0,
        Partition::Other,
    );
    assert_eq!(p, (100, 100));
}

#[test]
fn directional_rules_apply_to_split_partitions() {
    let a = n((10, 10), 0);
    let b = n((20, 20), 0);
    let c = n((30, 30), 0);

    assert_eq!(predict_mv(a, b, c, 0, Partition::Top16x8), (20, 20));
    assert_eq!(predict_mv(a, b, c, 0, Partition::Bottom16x8), (10, 10));
    assert_eq!(predict_mv(a, b, c, 0, Partition::Left8x16), (10, 10));
    assert_eq!(predict_mv(a, b, c, 0, Partition::Right8x16), (30, 30));

    let p = predict_mv(
        n((10, 10), 1),
        n((20, 20), 1),
        n((30, 30), 1),
        0,
        Partition::Top16x8,
    );
    assert_eq!(p, (20, 20), "median of the three");
}

#[test]
fn missing_upper_neighbours_fall_back_to_the_left() {
    let a = n((7, -3), 0);
    let p = predict_mv(
        a,
        Neighbour::unavailable(),
        Neighbour::unavailable(),
        0,
        Partition::Other,
    );
    assert_eq!(p, (7, -3));
}

#[test]
fn all_neighbours_missing_predicts_zero() {
    let p = predict_mv(
        Neighbour::unavailable(),
        Neighbour::unavailable(),
        Neighbour::unavailable(),
        0,
        Partition::Other,
    );
    assert_eq!(p, (0, 0));
}

#[test]
fn skip_collapses_to_zero_next_to_a_stationary_neighbour() {
    let moving = n((40, 40), 0);

    assert_eq!(
        predict_skip_mv(n((0, 0), 0), moving, moving, true, true),
        (0, 0),
        "stationary left neighbour"
    );
    assert_eq!(
        predict_skip_mv(moving, n((0, 0), 0), moving, true, true),
        (0, 0),
        "stationary neighbour above"
    );
    assert_eq!(
        predict_skip_mv(Neighbour::unavailable(), moving, moving, false, true),
        (0, 0),
        "absent left neighbour"
    );
}

#[test]
fn an_intra_neighbour_does_not_force_a_zero_skip_vector() {
    let moving = n((40, 40), 0);
    assert_eq!(
        predict_skip_mv(Neighbour::unavailable(), moving, moving, true, true),
        (40, 40),
    );
}

#[test]
fn skip_uses_the_predictor_when_neighbours_are_moving() {
    let p = predict_skip_mv(n((8, 4), 0), n((8, 4), 0), n((8, 4), 0), true, true);
    assert_eq!(p, (8, 4));
}
