use lite_encoder::codec::h264::lookahead::check_runs;
use lite_encoder::codec::h264::slice::{skip_cabac_alignment};

#[test]
fn cabac_alignment_uses_one_bits_to_reach_the_next_byte() {
    assert_eq!(
        skip_cabac_alignment(&[0, 0, 0, 0b0011_1111], 29).unwrap(),
        32
    );
    assert!(skip_cabac_alignment(&[0, 0, 0, 0b0011_1011], 29).is_err());
}

#[test]
fn short_runs_of_zeros_can_be_counted() {
    assert!(check_runs(&[]));
    assert!(check_runs(&[0; 1000]));
    assert!(check_runs(&[0, 0, 3, 0, 0, 3, 1, 0]));
}
