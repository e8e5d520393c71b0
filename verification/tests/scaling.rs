use lite_encoder::codec::h264::recon::ScalingLists;
use lite_encoder::codec::h264::residual::{ZIGZAG_4X4, ZIGZAG_8X8};
use lite_encoder::codec::h264::scaling::ScalingListSyntax;
use lite_encoder::codec::h264::slice::{convert_list, take_six_4x4, take_two_8x8};
use lite_encoder::codec::h264::transform::{
    DEFAULT_SCALING_LIST_4X4_INTER, DEFAULT_SCALING_LIST_4X4_INTRA, DEFAULT_SCALING_LIST_8X8_INTER,
    DEFAULT_SCALING_LIST_8X8_INTRA,
};

fn in_scan_order_4x4(weights: &[u8; 16]) -> [u8; 16] {
    core::array::from_fn(|i| weights[ZIGZAG_4X4[i]])
}

fn in_scan_order_8x8(weights: &[u8; 64]) -> [u8; 64] {
    core::array::from_fn(|i| weights[ZIGZAG_8X8[i]])
}

#[test]
fn no_lists_mean_flat_weights() {
    let w = ScalingLists::from_syntax(None, None);
    assert_eq!(w.weight_4x4, [[16; 16]; 6]);
    assert_eq!(w.weight_8x8, [[16; 64]; 2]);
}

#[test]
fn lists_left_out_of_a_sequence_parameter_set_take_the_defaults() {
    let small = take_six_4x4(&[None; 6]);
    let large = take_two_8x8(&[None; 2]);
    let w = ScalingLists::from_syntax(Some((&small, &large)), None);
    for i in 0..3 {
        assert_eq!(in_scan_order_4x4(&w.weight_4x4[i]), DEFAULT_SCALING_LIST_4X4_INTRA);
        assert_eq!(in_scan_order_4x4(&w.weight_4x4[3 + i]), DEFAULT_SCALING_LIST_4X4_INTER);
    }
    assert_eq!(in_scan_order_8x8(&w.weight_8x8[0]), DEFAULT_SCALING_LIST_8X8_INTRA);
    assert_eq!(in_scan_order_8x8(&w.weight_8x8[1]), DEFAULT_SCALING_LIST_8X8_INTER);
    // In raster order the defaults are symmetric about the diagonal.
    assert_eq!(w.weight_4x4[0][..8], [6, 13, 20, 28, 13, 20, 28, 32]);
}

#[test]
fn a_list_left_out_repeats_the_one_before_it() {
    let second: [u8; 16] = core::array::from_fn(|i| 20 + i as u8);
    let small = take_six_4x4(&[None, Some(second), None, None, None, Some([0; 16])]);
    let large = take_two_8x8(&[None; 2]);
    let w = ScalingLists::from_syntax(Some((&small, &large)), None);
    assert_eq!(in_scan_order_4x4(&w.weight_4x4[0]), DEFAULT_SCALING_LIST_4X4_INTRA);
    assert_eq!(in_scan_order_4x4(&w.weight_4x4[1]), second);
    assert_eq!(in_scan_order_4x4(&w.weight_4x4[2]), second);
    assert_eq!(in_scan_order_4x4(&w.weight_4x4[3]), DEFAULT_SCALING_LIST_4X4_INTER);
    assert_eq!(in_scan_order_4x4(&w.weight_4x4[5]), DEFAULT_SCALING_LIST_4X4_INTER);
}

#[test]
fn a_picture_parameter_set_falls_back_on_the_sequence_parameter_set() {
    let flat = [30u8; 16];
    let below = take_six_4x4(&[Some(flat), None, None, Some([40; 16]), None, None]);
    let below_large = take_two_8x8(&[Some([50; 64]), None]);
    let above = take_six_4x4(&[None, Some([7; 16]), None, None, None, None]);
    let above_large = take_two_8x8(&[None, Some([9; 64])]);

    let w = ScalingLists::from_syntax(
        Some((&below, &below_large)),
        Some((&above, Some(&above_large))),
    );
    assert_eq!(w.weight_4x4[0], flat);
    assert_eq!(w.weight_4x4[1], [7; 16]);
    assert_eq!(w.weight_4x4[2], [7; 16]);
    assert_eq!(w.weight_4x4[5], [40; 16]);
    assert_eq!(w.weight_8x8[0], [50; 64]);
    assert_eq!(w.weight_8x8[1], [9; 64]);

    // Without 8x8 lists of its own it leaves those below in force.
    let w = ScalingLists::from_syntax(Some((&below, &below_large)), Some((&above, None)));
    assert_eq!(w.weight_8x8[0], [50; 64]);

    // Without lists below it falls back on the defaults.
    let w = ScalingLists::from_syntax(None, Some((&above, Some(&above_large))));
    assert_eq!(in_scan_order_4x4(&w.weight_4x4[0]), DEFAULT_SCALING_LIST_4X4_INTRA);
    assert_eq!(in_scan_order_8x8(&w.weight_8x8[0]), DEFAULT_SCALING_LIST_8X8_INTRA);
}

#[test]
fn a_list_that_stops_repeats_its_last_number() {
    let mut numbers = [0u8; 16];
    numbers[..3].copy_from_slice(&[8, 9, 10]);
    match convert_list(&Some(numbers)) {
        ScalingListSyntax::Scan(list) => {
            assert_eq!(list[..3], [8, 9, 10]);
            assert!(list[3..].iter().all(|&v| v == 10));
        }
        other => panic!("{other:?}"),
    }
    assert!(matches!(convert_list(&Some([0u8; 16])), ScalingListSyntax::UseDefault));
    assert!(matches!(convert_list::<64>(&None), ScalingListSyntax::NotPresent));
}
