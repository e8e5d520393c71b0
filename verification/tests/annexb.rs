use lite_encoder::codec::h264::annexb::{
    access_units, is_vcl, located_nal_units, nal_unit_type, nal_units, starts_access_unit,
};

/// Builds a stream from `(nal_type, four_byte_start_code)` pairs. The second
/// payload byte is 0x80, which marks `first_mb_in_slice = 0`.
fn stream(nals: &[(u8, bool)]) -> Vec<u8> {
    let mut out = Vec::new();
    for &(kind, long) in nals {
        let code: &[u8] = if long { &[0, 0, 0, 1] } else { &[0, 0, 1] };
        out.extend_from_slice(code);
        out.extend_from_slice(&[kind, 0x80]);
    }
    out
}

#[test]
fn both_start_code_lengths_split_the_same_way() {
    let short = stream(&[(7, false), (8, false), (5, false)]);
    let long = stream(&[(7, true), (8, true), (5, true)]);
    assert_eq!(nal_units(&short).len(), 3);
    assert_eq!(nal_units(&long).len(), 3);
    assert!(nal_units(&long).iter().all(|n| n.len() == 2));
}

#[test]
fn leading_garbage_before_the_first_start_code_is_skipped() {
    let mut s = vec![0xde, 0xad, 0xbe, 0xef];
    s.extend_from_slice(&stream(&[(5, true)]));
    let nals = nal_units(&s);
    assert_eq!(nals, vec![&[5u8, 0x80][..]]);
}

#[test]
fn parameter_sets_attach_to_the_slice_that_follows_them() {
    let s = stream(&[(7, true), (8, true), (5, true), (1, true)]);
    let units = access_units(&s);
    // The parameter sets and the IDR slice are one access unit; the slice
    // behind them is another.
    assert_eq!(units.len(), 2);
    assert_eq!(nal_units(units[0]).len(), 3);
    assert_eq!(nal_units(units[1]).len(), 1);
}

#[test]
fn a_slice_continuing_a_picture_does_not_open_an_access_unit() {
    let mut s = stream(&[(5, true)]);
    // A second slice of the same picture: the leading bit of the payload is
    // clear.
    s.extend_from_slice(&[0, 0, 0, 1, 5, 0x40]);
    assert_eq!(access_units(&s).len(), 1);
}

#[test]
fn access_units_partition_the_stream_without_loss() {
    let s = stream(&[(7, true), (5, true), (1, false), (1, true)]);
    let units = access_units(&s);
    assert_eq!(units.concat(), s);
}

#[test]
fn an_empty_stream_yields_nothing() {
    assert_eq!(access_units(&[]).len(), 0);
    assert_eq!(nal_units(&[]).len(), 0);
}

#[test]
fn zeros_between_units_belong_to_the_start_code() {
    let s = [0u8, 0, 1, 9, 0xf0, 0, 0, 0, 0, 0, 1, 5, 0x88, 1];
    let units = nal_units(&s);
    assert_eq!(units, vec![&[9u8, 0xf0][..], &[5u8, 0x88, 1][..]]);
    let located = located_nal_units(&s);
    assert_eq!((located[0].start, located[0].end), (3, 5));
    assert_eq!((located[1].start, located[1].end), (11, 14));
}

#[test]
fn unit_types_are_the_low_five_bits() {
    assert_eq!(nal_unit_type(&[0x67, 1]), Some(7));
    assert_eq!(nal_unit_type(&[0x65]), Some(5));
    assert_eq!(nal_unit_type(&[]), None);
    assert!(is_vcl(&[0x65, 0x88]));
    assert!(is_vcl(&[0x41, 0x9a]));
    assert!(!is_vcl(&[0x68, 0xce]));
}

#[test]
fn only_the_first_slice_of_a_picture_starts_an_access_unit() {
    assert!(starts_access_unit(&[0x41, 0x9a], true));
    assert!(!starts_access_unit(&[0x41, 0x1a], true));
    assert!(starts_access_unit(&[0x67, 0x42], true));
    assert!(!starts_access_unit(&[0x67, 0x42], false));
}

#[test]
fn every_unit_is_paired_with_its_own_start_code() {
    let s = [0u8, 0, 0, 1, 5, 0x80, 0, 0, 0, 1, 1, 0x80];
    let located = located_nal_units(&s);
    let codes: Vec<usize> = located.iter().map(|u| u.code).collect();
    assert_eq!(codes, vec![0, 6]);
    assert_eq!(nal_units(&s), vec![&[5u8, 0x80][..], &[1u8, 0x80][..]]);

    // Each picture begins with the whole of its start code.
    let units = access_units(&s);
    assert_eq!(units, vec![&s[..6], &s[6..]]);

    // A short code has no byte to spare, and further zeros are padding.
    let s = [0u8, 0, 1, 9, 0xf0, 0, 0, 0, 0, 0, 1, 5, 0x88, 1, 0, 0, 1, 1, 0x9a];
    let codes: Vec<usize> = located_nal_units(&s).iter().map(|u| u.code).collect();
    assert_eq!(codes, vec![0, 7, 14]);

    // An empty unit takes no byte of the next start code.
    let s = [0u8, 0, 1, 0, 0, 1, 7];
    let codes: Vec<usize> = located_nal_units(&s).iter().map(|u| u.code).collect();
    assert_eq!(codes, vec![0, 3]);
}

#[test]
fn framing_makes_no_difference_to_the_units() {
    let units: [&[u8]; 3] = [&[0x67, 0, 0, 3, 1], &[0x68, 0xce], &[0x65, 0x88, 0, 1]];
    for framing in 0..64usize {
        let mut s: Vec<u8> = if framing & 1 != 0 { vec![0xde, 0, 0] } else { Vec::new() };
        for (i, unit) in units.iter().enumerate() {
            let bits = framing >> (i + 1);
            let code: &[u8] = if bits & 1 != 0 { &[0, 0, 0, 1] } else { &[0, 0, 1] };
            s.extend_from_slice(code);
            s.extend_from_slice(unit);
            s.extend(std::iter::repeat(0).take((bits >> 1) & 3));
        }
        assert_eq!(nal_units(&s), units.to_vec(), "framing {framing}");
    }
}
