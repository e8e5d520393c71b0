use lite_encoder::codec::h264::transform::{FLAT_WEIGHT_SCALE_4X4, FLAT_WEIGHT_SCALE_8X8, add_residual_4x4, dequant_4x4, dequant_8x8, hadamard_4x4, inverse_4x4, inverse_8x8, pos_class_8x8};

#[test]
fn dc_only_block_is_flat() {
    for dc in [-512, -64, -1, 0, 1, 64, 512] {
        let mut block = [0i32; 16];
        block[0] = dc;
        inverse_4x4(&mut block);

        let expected = (dc + 32) >> 6;
        assert!(
            block.iter().all(|&v| v == expected),
            "dc {dc} gave {block:?}, expected all {expected}"
        );
    }
}

#[test]
fn even_coefficients_superpose() {
    let a: [i32; 16] = [
        80, -16, 32, 4, -8, 24, 0, -12, 16, 8, -4, 20, 0, -28, 12, 36,
    ];
    let b: [i32; 16] = [
        -24, 40, -8, 16, 12, -20, 28, 4, -32, 0, 24, -8, 20, 16, -12, 8,
    ];

    let mut ta = a;
    inverse_4x4(&mut ta);
    let mut tb = b;
    inverse_4x4(&mut tb);

    let mut sum = [0i32; 16];
    for i in 0..16 {
        sum[i] = a[i] + b[i];
    }
    inverse_4x4(&mut sum);

    for i in 0..16 {
        let combined = ta[i] + tb[i];
        assert!(
            (sum[i] - combined).abs() <= 1,
            "position {i}: sum {} vs separate {combined}",
            sum[i]
        );
    }
}

#[test]
fn hadamard_4x4_is_involutive_up_to_scale() {
    let original: [i32; 16] = [5, -3, 8, 1, 0, 7, -2, 4, 9, -6, 3, -1, 2, 5, -8, 6];
    let mut block = original;
    hadamard_4x4(&mut block);
    hadamard_4x4(&mut block);

    for i in 0..16 {
        assert_eq!(block[i], original[i] * 16, "position {i}");
    }
}

#[test]
fn dequant_step_grows_with_qp() {
    let mut previous = 0;
    for qp in 0..=51u8 {
        let mut block = [0i32; 16];
        block[0] = 1;
        dequant_4x4(&mut block, qp, &FLAT_WEIGHT_SCALE_4X4, false);
        assert!(
            block[0] >= previous,
            "qp {qp} produced step {} after {previous}",
            block[0]
        );
        previous = block[0];
    }
}

#[test]
fn dequant_doubles_every_six_qp() {
    for qp in 24..=45u8 {
        let mut low = [0i32; 16];
        low[5] = 3;
        dequant_4x4(&mut low, qp, &FLAT_WEIGHT_SCALE_4X4, false);

        let mut high = [0i32; 16];
        high[5] = 3;
        dequant_4x4(&mut high, qp + 6, &FLAT_WEIGHT_SCALE_4X4, false);

        assert_eq!(high[5], low[5] * 2, "qp {qp} to {}", qp + 6);
    }
}

#[test]
fn dequant_skip_dc_leaves_position_zero_alone() {
    let mut block = [7i32; 16];
    dequant_4x4(&mut block, 30, &FLAT_WEIGHT_SCALE_4X4, true);
    assert_eq!(block[0], 7);
    assert_ne!(block[1], 7);
}

#[test]
fn dc_only_8x8_block_is_flat() {
    for dc in [-512, -64, -1, 0, 1, 64, 512] {
        let mut block = [0i32; 64];
        block[0] = dc;
        inverse_8x8(&mut block);

        let expected = (dc + 32) >> 6;
        assert!(
            block.iter().all(|&v| v == expected),
            "dc {dc} did not give a flat {expected}"
        );
    }
}

#[test]
fn even_coefficients_superpose_8x8() {
    let mut a = [0i32; 64];
    let mut b = [0i32; 64];
    for i in 0..64 {
        a[i] = ((i as i32 % 7) - 3) * 8;
        b[i] = ((i as i32 % 5) - 2) * 16;
    }

    let mut ta = a;
    inverse_8x8(&mut ta);
    let mut tb = b;
    inverse_8x8(&mut tb);

    let mut sum = [0i32; 64];
    for i in 0..64 {
        sum[i] = a[i] + b[i];
    }
    inverse_8x8(&mut sum);

    for i in 0..64 {
        let combined = ta[i] + tb[i];
        assert!(
            (sum[i] - combined).abs() <= 1,
            "position {i}: sum {} vs separate {combined}",
            sum[i]
        );
    }
}

#[test]
fn pos_class_8x8_covers_all_six_classes() {
    let mut seen = [0u32; 6];
    for pos in 0..64 {
        seen[pos_class_8x8(pos)] += 1;
    }
    assert!(
        seen.iter().all(|&n| n > 0),
        "unreachable position class: {seen:?}"
    );
    assert_eq!(seen.iter().sum::<u32>(), 64);
    assert_eq!(seen[0], 4);
}

#[test]
fn dequant_8x8_doubles_every_six_qp() {
    for qp in 36..=45u8 {
        let mut low = [0i32; 64];
        low[9] = 3;
        dequant_8x8(&mut low, qp, &FLAT_WEIGHT_SCALE_8X8);

        let mut high = [0i32; 64];
        high[9] = 3;
        dequant_8x8(&mut high, qp + 6, &FLAT_WEIGHT_SCALE_8X8);

        assert_eq!(high[9], low[9] * 2, "qp {qp} to {}", qp + 6);
    }
}

#[test]
fn dequant_8x8_step_grows_with_qp() {
    let mut previous = 0;
    for qp in 0..=51u8 {
        let mut block = [0i32; 64];
        block[0] = 1;
        dequant_8x8(&mut block, qp, &FLAT_WEIGHT_SCALE_8X8);
        assert!(
            block[0] >= previous,
            "qp {qp} gave {} after {previous}",
            block[0]
        );
        previous = block[0];
    }
}

#[test]
fn add_residual_clips_both_ends() {
    let mut plane = vec![250u8; 32];
    let mut block = [20i32; 16];
    block[0] = -300;
    add_residual_4x4(&mut plane, 0, 8, &block);

    assert_eq!(plane[0], 0, "large negative residual must clamp to 0");
    assert_eq!(plane[1], 255, "250 + 20 must clamp to 255");
    assert_eq!(plane[4], 250);
}

/// The truncations of odd coefficients stay within the rounding as well.
#[test]
fn any_coefficients_superpose_within_one() {
    let mut a = [0i32; 64];
    let mut b = [0i32; 64];
    for i in 0..64 {
        a[i] = (i as i32 * 37) % 101 - 50;
        b[i] = (i as i32 * 53) % 89 - 44;
    }
    let mut sum = [0i32; 64];
    for i in 0..64 {
        sum[i] = a[i] + b[i];
    }
    let mut a4: [i32; 16] = core::array::from_fn(|i| a[i]);
    let mut b4: [i32; 16] = core::array::from_fn(|i| b[i]);
    let mut sum4: [i32; 16] = core::array::from_fn(|i| sum[i]);
    inverse_4x4(&mut a4);
    inverse_4x4(&mut b4);
    inverse_4x4(&mut sum4);
    for i in 0..16 {
        assert!((sum4[i] - (a4[i] + b4[i])).abs() <= 1, "position {i}");
    }
    inverse_8x8(&mut a);
    inverse_8x8(&mut b);
    inverse_8x8(&mut sum);
    for i in 0..64 {
        assert!((sum[i] - (a[i] + b[i])).abs() <= 1, "position {i}");
    }
}
