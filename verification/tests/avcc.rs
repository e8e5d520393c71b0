use lite_encoder::codec::h264::annexb::{access_units, nal_units};
use lite_encoder::codec::h264::avcc::{
    access_unit_to_annexb, access_unit_to_avcc, annexb_parameter_sets, is_avcc_record,
    nal_length_size, parameter_set_record, START_CODE,
};

/// A delimiter, both parameter sets, and the only slice of an IDR picture.
fn stream() -> Vec<u8> {
    let mut s = vec![0, 0, 0, 1, 0x09, 0xf0];
    s.extend_from_slice(&fixture_parameter_sets());
    s.extend_from_slice(&[0, 0, 0, 1, 0x65, 0x88, 0x84, 0x21, 0xa0]);
    s
}

fn fixture_parameter_sets() -> Vec<u8> {
    let mut s = vec![0, 0, 0, 1, 0x67, 0x64, 0x00, 0x28, 0xac, 0xd9];
    s.extend_from_slice(&[0, 0, 0, 1, 0x68, 0xee, 0x3c, 0xb0]);
    s
}

fn fixture_record() -> Vec<u8> {
    parameter_set_record(&fixture_parameter_sets()).unwrap()
}

#[test]
fn access_unit_carries_no_start_codes_or_parameter_sets() {
    let fixture = stream();
    let au = access_units(&fixture)[0];
    let avcc = access_unit_to_avcc(au);
    assert!(!avcc.is_empty());
    // The first four bytes are a length, not a start code.
    let len = u32::from_be_bytes(avcc[..4].try_into().unwrap()) as usize;
    assert_eq!(len + 4, avcc.len(), "single-NAL first access unit");
    let kind = avcc[4] & 0x1f;
    assert_eq!(kind, 5, "IDR slice, not SPS/PPS/AUD");
}

#[test]
fn parameter_set_record_has_the_avcc_header_shape() {
    let record = parameter_set_record(&fixture_parameter_sets()).unwrap();
    assert_eq!(record[0], 1, "configurationVersion");
    assert_eq!(record[4] & 0x03, 3, "4-byte NAL length field");
    assert_eq!(record[5] & 0x1F, 1, "exactly one SPS");
}

#[test]
fn rejects_extra_data_missing_a_parameter_set() {
    assert!(parameter_set_record(&[]).is_err());
}

#[test]
fn parameter_sets_survive_a_round_trip_through_avcc() {
    let annexb = fixture_parameter_sets();
    let back = annexb_parameter_sets(&parameter_set_record(&annexb).unwrap()).unwrap();
    assert_eq!(back, annexb);
}

#[test]
fn access_units_survive_a_round_trip_through_avcc() {
    let fixture = stream();
    let au = access_units(&fixture)[0];
    let back = access_unit_to_annexb(&access_unit_to_avcc(au), 4).unwrap();

    // The trip drops parameter sets and delimiters, so compare with the units
    // that it keeps.
    let mut expected = Vec::new();
    for nal in nal_units(au) {
        if matches!(nal[0] & 0x1f, 1 | 5 | 6) {
            expected.extend_from_slice(&START_CODE);
            expected.extend_from_slice(nal);
        }
    }
    assert_eq!(back, expected);
}

#[test]
fn avcc_records_are_told_apart_from_annexb_extra_data() {
    assert!(is_avcc_record(&fixture_record()));
    assert!(!is_avcc_record(&fixture_parameter_sets()));
    assert!(!is_avcc_record(&[]));
    assert!(!is_avcc_record(&[1, 2, 3]));
}

#[test]
fn nal_length_size_comes_from_the_record() {
    assert_eq!(nal_length_size(&fixture_record()).unwrap(), 4);
    let mut two_byte = fixture_record();
    two_byte[4] = 0xFD; // lengthSizeMinusOne = 1
    assert_eq!(nal_length_size(&two_byte).unwrap(), 2);
    assert!(nal_length_size(&[0, 0, 0, 1, 0x67]).is_err());
}

#[test]
fn truncated_avcc_input_is_an_error_not_a_panic() {
    let fixture = stream();
    let avcc = access_unit_to_avcc(access_units(&fixture)[0]);
    assert!(access_unit_to_annexb(&avcc[..avcc.len() - 1], 4).is_err());
    assert!(access_unit_to_annexb(&avcc[..2], 4).is_err());
    assert!(access_unit_to_annexb(&[0, 0, 0, 0], 4).is_err());
    assert!(access_unit_to_annexb(&avcc, 3).is_err());

    let record = fixture_record();
    assert!(annexb_parameter_sets(&record[..record.len() - 1]).is_err());
}

#[test]
fn a_record_is_laid_out_to_the_byte() {
    assert_eq!(
        fixture_record(),
        vec![
            1, 0x64, 0x00, 0x28, 0xff, 0xe1, 0, 6, 0x67, 0x64, 0x00, 0x28, 0xac, 0xd9, 1, 0, 4,
            0x68, 0xee, 0x3c, 0xb0,
        ]
    );
}

#[test]
fn each_refusal_says_what_is_missing() {
    let no_sps = parameter_set_record(&[0, 0, 1, 0x68, 0xce]).unwrap_err();
    assert_eq!(no_sps.message(), "no SPS in H.264 extra_data");
    let no_pps = parameter_set_record(&[0, 0, 1, 0x67, 0x42, 0, 10]).unwrap_err();
    assert_eq!(no_pps.message(), "no PPS in H.264 extra_data");
    let short = parameter_set_record(&[0, 0, 1, 0x67, 0x42, 0, 0, 1, 0x68, 0xce]).unwrap_err();
    assert_eq!(short.message(), "SPS too short to carry profile/level");
    let cut = access_unit_to_annexb(&[0, 0], 4).unwrap_err();
    assert_eq!(cut.message(), "AVCC sample ends inside a NAL length");
    let size = access_unit_to_annexb(&[0, 0], 3).unwrap_err();
    assert_eq!(size.message(), "unsupported avcC NAL length size 3");
}

#[test]
fn a_record_that_is_cut_off_is_refused() {
    let record = fixture_record();
    assert!(annexb_parameter_sets(&record).is_ok());
    for n in 0..record.len() {
        assert!(annexb_parameter_sets(&record[..n]).is_err(), "cut to {n}");
    }
}
