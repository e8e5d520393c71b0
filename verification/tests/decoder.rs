use lite_encoder::codec::h264::annexb::{access_units, nal_units};
use lite_encoder::codec::h264::cabac::{ContextState, ContextVariant};
use lite_encoder::codec::h264::cabac_tables::{RANGE_TAB_LPS, TRANS_IDX_LPS, TRANS_IDX_MPS};
use lite_encoder::codec::h264::decoder::Frontend;
use lite_encoder::codec::h264::headers::{Pps, Sps};
use lite_encoder::codec::h264::slice::{
    parse_cabac, validate_pps, validate_sps, ParameterSets, SliceKind,
};
use lite_encoder::codec::h264::state::MbInfo;
use lite_encoder::error::Error;
use std::time::Duration;

/// Bits, the most significant first.
struct Bits {
    out: Vec<u8>,
    cur: u8,
    n: u8,
}

impl Bits {
    fn new() -> Bits {
        Bits {
            out: Vec::new(),
            cur: 0,
            n: 0,
        }
    }

    fn bit(&mut self, b: u32) {
        self.cur = (self.cur << 1) | (b & 1) as u8;
        self.n += 1;
        if self.n == 8 {
            self.out.push(self.cur);
            self.cur = 0;
            self.n = 0;
        }
    }

    fn put(&mut self, value: u32, count: u32) {
        for i in (0..count).rev() {
            self.bit(value >> i);
        }
    }

    fn ue(&mut self, value: u32) {
        let code = value + 1;
        let len = 32 - code.leading_zeros();
        self.put(0, len - 1);
        self.put(code, len);
    }

    fn se(&mut self, value: i32) {
        let code = if value > 0 {
            2 * value - 1
        } else {
            -2 * value
        };
        self.ue(code as u32);
    }

    fn trail(mut self) -> Vec<u8> {
        self.bit(1);
        while self.n != 0 {
            self.bit(0);
        }
        self.out
    }

    fn align_with_ones(&mut self) {
        while self.n != 0 {
            self.bit(1);
        }
    }
}

/// A start code, the header byte, and the payload with its start code
/// emulations broken up.
fn nal(header: u8, payload: &[u8]) -> Vec<u8> {
    let mut out = vec![0, 0, 0, 1, header];
    let mut zeros = 0;
    for &b in payload {
        if zeros >= 2 && b <= 3 {
            out.push(3);
            zeros = 0;
        }
        out.push(b);
        zeros = if b == 0 { zeros + 1 } else { 0 };
    }
    out
}

fn sps(width_mbs: u32, height_mbs: u32) -> Vec<u8> {
    let mut b = Bits::new();
    b.put(77, 8);
    b.put(0, 8);
    b.put(30, 8);
    b.ue(0);
    b.ue(0);
    b.ue(2);
    b.ue(1);
    b.put(0, 1);
    b.ue(width_mbs - 1);
    b.ue(height_mbs - 1);
    b.put(1, 1);
    b.put(1, 1);
    b.put(0, 1);
    b.put(0, 1);
    nal(0x67, &b.trail())
}

fn pps(cabac: bool) -> Vec<u8> {
    let mut b = Bits::new();
    b.ue(0);
    b.ue(0);
    b.put(u32::from(cabac), 1);
    b.put(0, 1);
    b.ue(0);
    b.ue(0);
    b.ue(0);
    b.put(0, 1);
    b.put(0, 2);
    b.se(0);
    b.se(0);
    b.se(0);
    b.put(1, 1);
    b.put(0, 1);
    b.put(0, 1);
    nal(0x68, &b.trail())
}

/// The arithmetic encoder.
struct Coder {
    low: u32,
    range: u32,
    outstanding: u32,
    first: bool,
    bits: Bits,
}

impl Coder {
    fn new() -> Coder {
        Coder {
            low: 0,
            range: 510,
            outstanding: 0,
            first: true,
            bits: Bits::new(),
        }
    }

    fn put_bit(&mut self, b: u32) {
        if self.first {
            self.first = false;
        } else {
            self.bits.bit(b);
        }
        while self.outstanding > 0 {
            self.bits.bit(1 - b);
            self.outstanding -= 1;
        }
    }

    fn renorm(&mut self) {
        while self.range < 256 {
            if self.low < 256 {
                self.put_bit(0);
            } else if self.low >= 512 {
                self.low -= 512;
                self.put_bit(1);
            } else {
                self.low -= 256;
                self.outstanding += 1;
            }
            self.range <<= 1;
            self.low <<= 1;
        }
    }

    fn decide(&mut self, cx: &mut ContextState, idx: usize, bin: u8) {
        let ctx = cx.get_mut(idx);
        let lps = RANGE_TAB_LPS[ctx.state as usize][((self.range >> 6) & 3) as usize] as u32;
        self.range -= lps;
        if bin != ctx.mps {
            self.low += self.range;
            self.range = lps;
            if ctx.state == 0 {
                ctx.mps = 1 - ctx.mps;
            }
            ctx.state = TRANS_IDX_LPS[ctx.state as usize];
        } else {
            ctx.state = TRANS_IDX_MPS[ctx.state as usize];
        }
        self.renorm();
    }

    fn bypass(&mut self, bin: u32) {
        self.low <<= 1;
        if bin != 0 {
            self.low += self.range;
        }
        if self.low >= 1024 {
            self.put_bit(1);
            self.low -= 1024;
        } else if self.low < 512 {
            self.put_bit(0);
        } else {
            self.low -= 512;
            self.outstanding += 1;
        }
    }

    fn terminate(&mut self, bin: u32) {
        self.range -= 2;
        if bin != 0 {
            self.low += self.range;
            self.range = 2;
        }
        self.renorm();
    }

    /// Ends the slice: the last bit written is the stop bit.
    fn finish(mut self) -> Vec<u8> {
        self.put_bit((self.low >> 9) & 1);
        let b = ((self.low >> 7) & 3) | 1;
        self.bits.bit(b >> 1);
        self.bits.bit(b);
        while self.bits.n != 0 {
            self.bits.bit(0);
        }
        self.bits.out
    }
}

/// An IDR picture of whole macroblocks predicted from their mean, each with one
/// coefficient for its brightness.
fn intra_picture(width: usize, height: usize, levels: &[i32], idr_id: u32) -> Vec<u8> {
    let mut h = Bits::new();
    h.ue(0);
    h.ue(7);
    h.ue(0);
    h.put(0, 4);
    h.ue(idr_id);
    h.put(0, 2);
    h.se(0);
    h.ue(0);
    h.se(0);
    h.se(0);
    h.align_with_ones();

    let mut cx = ContextState::new(ContextVariant::Intra, 26);
    let mut c = Coder::new();
    for addr in 0..width * height {
        let left = addr % width > 0;
        let above = addr >= width;
        let inc = usize::from(left) + usize::from(above);
        c.decide(&mut cx, 3 + inc, 1);
        c.terminate(0);
        // No luma beyond the means, no chroma, mode 2.
        c.decide(&mut cx, 3 + 3, 0);
        c.decide(&mut cx, 3 + 4, 0);
        c.decide(&mut cx, 3 + 6, 1);
        c.decide(&mut cx, 3 + 7, 0);
        c.decide(&mut cx, 64, 0);
        c.decide(&mut cx, 60, 0);

        let coded_left = if left { levels[addr - 1] != 0 } else { true };
        let coded_above = if above { levels[addr - width] != 0 } else { true };
        let flag = 85 + usize::from(coded_left) + 2 * usize::from(coded_above);
        let level = levels[addr];
        c.decide(&mut cx, flag, u8::from(level != 0));
        if level != 0 {
            c.decide(&mut cx, 105, 1);
            c.decide(&mut cx, 166, 1);
            let size = level.unsigned_abs() - 1;
            for i in 0..size.min(14) {
                c.decide(&mut cx, if i == 0 { 228 } else { 227 + 5 }, 1);
            }
            if size < 14 {
                c.decide(&mut cx, if size == 0 { 228 } else { 227 + 5 }, 0);
            } else {
                let mut rest = size - 14;
                let mut k = 0;
                while rest >= 1 << k {
                    c.bypass(1);
                    rest -= 1 << k;
                    k += 1;
                }
                c.bypass(0);
                for i in (0..k).rev() {
                    c.bypass((rest >> i) & 1);
                }
            }
            c.bypass(u32::from(level < 0));
        }
        c.terminate(u32::from(addr + 1 == width * height));
    }
    h.out.extend_from_slice(&c.finish());
    nal(0x65, &h.out)
}

/// A picture that repeats the one before it, but for one macroblock that moves
/// by a vector of up to eight quarter samples a side.
fn inter_picture(width: usize, height: usize, frame_num: u32, moved: usize, mv: (i32, i32)) -> Vec<u8> {
    let mut h = Bits::new();
    h.ue(0);
    h.ue(5);
    h.ue(0);
    h.put(frame_num, 4);
    h.put(0, 1);
    h.put(0, 1);
    h.put(0, 1);
    h.ue(0);
    h.se(0);
    h.ue(0);
    h.se(0);
    h.se(0);
    h.align_with_ones();

    let mut cx = ContextState::new(ContextVariant::Inter { cabac_init_idc: 0 }, 26);
    let mut c = Coder::new();
    for addr in 0..width * height {
        let left = addr % width > 0;
        let above = addr >= width;
        let inc = usize::from(left && addr - 1 == moved) + usize::from(above && addr - width == moved);
        let skipped = addr != moved;
        c.decide(&mut cx, 11 + inc, u8::from(skipped));
        if !skipped {
            c.decide(&mut cx, 14, 0);
            c.decide(&mut cx, 15, 0);
            c.decide(&mut cx, 16, 0);
            for (base, v) in [(40, mv.0), (47, mv.1)] {
                let size = v.unsigned_abs();
                assert!(size < 9);
                let steps = [0, 3, 4, 5, 6, 6, 6, 6, 6, 6];
                for i in 0..size {
                    c.decide(&mut cx, base + steps[i as usize], 1);
                }
                c.decide(&mut cx, base + steps[size as usize], 0);
                if v != 0 {
                    c.bypass(u32::from(v < 0));
                }
            }
            // No coefficients. A neighbour without them raises the context,
            // and so does a block of this macroblock without them.
            let (a, b) = (usize::from(left), usize::from(above));
            c.decide(&mut cx, 73 + a + 2 * b, 0);
            c.decide(&mut cx, 73 + 1 + 2 * b, 0);
            c.decide(&mut cx, 73 + a + 2, 0);
            c.decide(&mut cx, 73 + 3, 0);
            c.decide(&mut cx, 77, 0);
        }
        c.terminate(u32::from(addr + 1 == width * height));
    }
    h.out.extend_from_slice(&c.finish());
    nal(0x41, &h.out)
}

/// Brightnesses that step both ways, small and large.
fn levels(width: usize, height: usize) -> Vec<i32> {
    (0..width * height)
        .map(|i| ((i * 7) % 23) as i32 - 9)
        .collect()
}

fn intra_stream(width: usize, height: usize, pictures: u32) -> Vec<u8> {
    let mut s = sps(width as u32, height as u32);
    s.extend_from_slice(&pps(true));
    for i in 0..pictures {
        let mut l = levels(width, height);
        l.rotate_left(i as usize);
        s.extend_from_slice(&intra_picture(width, height, &l, i % 2));
    }
    s
}

fn inter_stream(width: usize, height: usize, pictures: u32) -> Vec<u8> {
    let mut s = intra_stream(width, height, 1);
    for i in 1..pictures {
        let mv = (i as i32 * 3 - 8, 5 - 2 * i as i32);
        s.extend_from_slice(&inter_picture(width, height, i, 5, mv));
    }
    s
}

/// The parameter sets of a stream, as they are read.
fn stored() -> (Sps, Pps) {
    let mut sets = ParameterSets::new();
    let (s, p) = (sps(4, 3), pps(true));
    sets.put_sps(&s[4..]).expect("sps");
    sets.put_pps(&p[4..]).expect("pps");
    let sps = sets.sps.pop().expect("an sps").sps;
    let pps = sets.pps.pop().expect("a pps").pps;
    (sps, pps)
}

#[test]
fn metadata_only_access_units_need_no_parameter_sets() {
    let mut frontend = Frontend::new();
    let access_unit = [0, 0, 1, 9, 0xf0, 0, 0, 1, 6, 0x80];
    assert!(frontend.parse_access_unit(&access_unit).unwrap().is_empty());
}

#[test]
fn malformed_nal_header_is_rejected() {
    let mut frontend = Frontend::new();
    let access_unit = [0, 0, 1, 0x80];
    assert!(frontend.parse_access_unit(&access_unit).is_err());
}

#[test]
fn slice_info_preserves_nal_ref_idc() {
    let stream = inter_stream(4, 3, 3);
    let mut frontend = Frontend::new();
    for access_unit in access_units(&stream) {
        let expected = nal_units(access_unit)
            .into_iter()
            .find(|nal| {
                nal.first()
                    .is_some_and(|header| header & 0x1f == 1 || header & 0x1f == 5)
            })
            .map(|nal| (nal[0] & 0x60) >> 5);
        let slices = frontend.parse_access_unit(access_unit).unwrap();
        if let Some(expected) = expected {
            assert!(!slices.is_empty());
            assert!(slices
                .iter()
                .all(|slice| slice.info.nal_ref_idc == expected));
        }
    }
}

#[test]
fn unsupported_slice_partitions_and_extensions_are_rejected() {
    for nal_type in [2, 3, 4, 13, 14, 15, 16, 19, 20, 21, 22, 24] {
        let mut frontend = Frontend::new();
        let access_unit = [0, 0, 1, nal_type, 0x80];
        let error = frontend.parse_access_unit(&access_unit).unwrap_err();
        assert!(error
            .message()
            .contains("unsupported H.264 NAL unit type"));
    }
}

#[test]
fn tapo_fixture_parameter_sets_reject_unsupported_reference_flags() {
    let (mut sps, mut pps) = stored();
    assert!(!sps.gaps_allowed);
    assert!(!pps.weighted_pred);
    assert!(!pps.redundant_pics);

    sps.gaps_allowed = true;
    assert!(validate_sps(&sps)
        .unwrap_err()
        .message()
        .contains("frame number gaps"));

    pps.weighted_pred = true;
    assert!(validate_pps(&pps)
        .unwrap_err()
        .message()
        .contains("weighted P prediction"));

    pps.weighted_pred = false;
    pps.redundant_pics = true;
    assert!(validate_pps(&pps)
        .unwrap_err()
        .message()
        .contains("redundant coded pictures"));
}

#[test]
fn unsupported_sps_and_pps_features_are_rejected() {
    let (_, mut pps) = stored();

    let mut unsupported = stored().0;
    unsupported.is_420 = false;
    assert!(validate_sps(&unsupported)
        .unwrap_err()
        .message()
        .contains("only 4:2:0"));

    let mut high_depth = stored().0;
    high_depth.luma_depth_minus8 = 2;
    assert!(validate_sps(&high_depth)
        .unwrap_err()
        .message()
        .contains("only 8-bit"));

    let mut interlaced = stored().0;
    interlaced.frames_only = false;
    assert!(validate_sps(&interlaced)
        .unwrap_err()
        .message()
        .contains("interlaced"));

    pps.slice_groups = true;
    assert!(validate_pps(&pps).unwrap_err().message().contains("FMO"));
}

#[test]
fn parameter_sets_are_read_field_by_field() {
    let (sps, pps) = stored();
    assert_eq!((sps.id, sps.is_420, sps.frames_only), (0, true, true));
    assert_eq!((sps.width_mbs_minus1, sps.height_units_minus1), (3, 2));
    assert_eq!((sps.max_refs, sps.log2_max_frame_num), (1, 4));
    assert_eq!((pps.id, pps.sps_id, pps.cabac), (0, 0, true));
    assert_eq!((pps.init_qp_minus26, pps.chroma_qp_offset), (0, 0));
    assert_eq!((sps.crop, pps.extension), (None, None));
}

#[test]
fn slice_headers_are_read_field_by_field() {
    let stream = inter_stream(4, 3, 2);
    let units = access_units(&stream);
    assert_eq!(units.len(), 2);
    let mut frontend = Frontend::new();
    let idr = frontend.parse_access_unit(units[0]).unwrap();
    assert_eq!(idr.len(), 1);
    assert!(idr[0].info.idr);
    assert_eq!(idr[0].info.kind, SliceKind::I);
    assert_eq!(idr[0].info.slice_qp, 26);
    assert_eq!((idr[0].info.first_mb, idr[0].info.frame_num), (0, 0));
    assert_eq!(
        (idr[0].info.picture.width_mbs, idr[0].info.picture.height_mbs),
        (4, 3)
    );
    let p = frontend.parse_access_unit(units[1]).unwrap();
    assert!(!p[0].info.idr);
    assert_eq!(p[0].info.kind, SliceKind::P);
    assert_eq!((p[0].info.frame_num, p[0].info.num_ref_idx_l0), (1, 1));
    assert_eq!(p[0].info.nal_ref_idc, 2);
}

#[test]
fn a_flat_picture_decodes_to_flat_grey() {
    let mut stream = sps(4, 3);
    stream.extend_from_slice(&pps(true));
    stream.extend_from_slice(&intra_picture(4, 3, &[0; 12], 0));
    let mut frontend = Frontend::new();
    let frames = frontend
        .decode_access_unit(&stream, Duration::from_millis(7))
        .expect("decode");
    assert_eq!(frames.len(), 1);
    assert_eq!((frames[0].width, frames[0].height), (64, 48));
    assert_eq!(frames[0].pts, Duration::from_millis(7));
    assert_eq!(frames[0].concealed_macroblocks, 0);
    for plane in &frames[0].planes {
        assert!(plane.iter().all(|&s| s == 128));
    }
}

#[test]
fn a_skipped_picture_repeats_the_one_before() {
    let mut stream = intra_stream(4, 3, 1);
    let first = stream.len();
    // The macroblock that would move lies outside the picture.
    stream.extend_from_slice(&inter_picture(4, 3, 1, 99, (0, 0)));
    let mut frontend = Frontend::new();
    let a = frontend
        .decode_access_unit(&stream[..first], Duration::ZERO)
        .expect("first");
    let b = frontend
        .decode_access_unit(&stream[first..], Duration::ZERO)
        .expect("second");
    assert_eq!(a[0].planes, b[0].planes);
    assert!(a[0].planes[0].iter().any(|&s| s != 128));
}

#[test]
fn an_inter_picture_needs_its_reference() {
    let mut stream = sps(4, 3);
    stream.extend_from_slice(&pps(true));
    stream.extend_from_slice(&inter_picture(4, 3, 1, 5, (1, 1)));
    let mut frontend = Frontend::new();
    assert!(frontend.decode_access_unit(&stream, Duration::ZERO).is_err());
}

#[test]
fn an_error_in_a_macroblock_says_what_it_is() {
    let mut stream = sps(4, 3);
    stream.extend_from_slice(&pps(true));
    stream.extend_from_slice(&inter_picture(4, 3, 1, 5, (1, 1)));
    let e = Frontend::new()
        .decode_access_unit(&stream, Duration::ZERO)
        .unwrap_err();
    let mut skipped = MbInfo::skipped();
    skipped.qp = 26;
    assert_eq!(
        e.message(),
        &format!(
            "macroblock 0 {skipped:?}: macroblock 0 references picture 0, which is not in the buffer"
        )
    );
}

#[test]
fn slices_of_the_other_entropy_coding_are_refused() {
    let mut stream = sps(4, 3);
    stream.extend_from_slice(&pps(false));
    stream.extend_from_slice(&intra_picture(4, 3, &[0; 12], 0));
    let mut frontend = Frontend::new();
    assert!(frontend.decode_access_unit(&stream, Duration::ZERO).is_err());
}

#[test]
fn a_slice_without_parameter_sets_is_refused() {
    let mut frontend = Frontend::new();
    let picture = intra_picture(4, 3, &[0; 12], 0);
    assert!(frontend.parse_access_unit(&picture).is_err());
}

/// A slice header with the given type and quantiser deltas, each as the code
/// that stands for it, less one.
fn header(first: u8, slice_type: u32, deltas: &[u32]) -> Vec<u8> {
    let mut h = Bits::new();
    h.ue(0);
    h.ue(slice_type);
    h.ue(0);
    h.put(0, 4);
    if first & 0x1f == 5 {
        h.ue(0);
    }
    let family = slice_type % 5;
    if family == 1 {
        h.put(0, 1);
    }
    if family != 2 && family != 4 {
        h.put(0, 1);
        h.put(0, if family == 1 { 2 } else { 1 });
    }
    h.put(0, if first & 0x1f == 5 { 2 } else { 1 });
    if family != 2 && family != 4 {
        h.ue(0);
    }
    for (i, &delta) in deltas.iter().enumerate() {
        if i == 1 && family == 3 {
            h.put(0, 1);
        }
        h.ue(delta);
    }
    h.ue(0);
    h.se(0);
    h.se(0);
    h.align_with_ones();
    h.out.extend_from_slice(&[0x5a, 0x5a, 0x80]);
    nal(first, &h.out)
}

fn answer(unit: &[u8]) -> String {
    let mut frontend = Frontend::new();
    let mut sets = sps(4, 3);
    sets.extend_from_slice(&pps(true));
    frontend.parse_access_unit(&sets).expect("parameter sets");
    match frontend.parse_access_unit(unit) {
        Ok(slices) => format!("{} slices", slices.len()),
        Err(e) => e.message().to_string(),
    }
}

#[test]
fn quantiser_deltas_out_of_range_are_refused() {
    // The codes of the largest delta, of the smallest, and of 26.
    let (most, least, over) = (u32::MAX - 2, u32::MAX - 1, 51);
    assert_eq!(answer(&header(0x65, 7, &[0])), "1 slices");
    assert_eq!(answer(&header(0x41, 5, &[0])), "1 slices");
    let unsummed = "invalid slice header: quantiser delta is out of range";
    let (qp, qs) = ("InvalidSliceQpDelta", "InvalidSliceQsDelta");
    for slice_type in 5..10 {
        let first = if slice_type == 7 { 0x65 } else { 0x41 };
        let answers = |delta| answer(&header(first, slice_type, &[delta, 0]));
        assert_eq!(answers(most), unsummed);
        assert_eq!(answers(most - 50), unsummed);
        assert_eq!(answers(least), format!("invalid slice header: {qp}(-2147483647)"));
        assert_eq!(answers(over), format!("invalid slice header: {qp}(26)"));
    }
    for slice_type in 8..10 {
        let answers = |delta| answer(&header(0x41, slice_type, &[0, delta]));
        assert_eq!(answers(most), unsummed);
        assert_eq!(answers(least), format!("invalid slice header: {qs}(-2147483647)"));
        assert_eq!(answers(over), format!("invalid slice header: {qs}(26)"));
    }
}

#[test]
fn slices_of_other_kinds_are_refused_by_name() {
    assert_eq!(answer(&header(0x41, 6, &[0])), "B slices are outside decoder scope");
    assert_eq!(answer(&header(0x41, 8, &[0, 0])), "SP/SI slices are outside decoder scope");
    assert_eq!(answer(&header(0x41, 9, &[0, 0])), "SP/SI slices are outside decoder scope");
    let cut = answer(&nal(0x41, &[0xff]));
    assert!(cut.starts_with("invalid slice header: RbspError"), "{cut}");
    assert_eq!(answer(&[0, 0, 1, 0x80]), "invalid NAL header: ForbiddenZeroBit");
    let missing = answer(&header(0x41, 5, &[0])[..7]);
    assert!(missing.starts_with("invalid slice header: "), "{missing}");
}

#[test]
fn parameter_sets_that_cannot_be_read_say_why() {
    let mut sets = ParameterSets::new();
    let e = sets.put_sps(&[0x67, 0x42, 0, 30, 0xff]).unwrap_err();
    assert!(e.message().starts_with("invalid SPS: "), "{}", e.message());
    assert!(e.message().len() > "invalid SPS: ".len());
    let e = sets.put_pps(&pps(true)[4..]).unwrap_err();
    assert!(e.message().starts_with("invalid PPS: UnknownSeqParamSetId"), "{}", e.message());
}

/// A sequence parameter set that crops this many chroma samples off each side.
fn cropped_sps(left: u32, right: u32, top: u32, bottom: u32) -> Vec<u8> {
    let mut b = Bits::new();
    b.put(77, 8);
    b.put(0, 8);
    b.put(30, 8);
    b.ue(0);
    b.ue(0);
    b.ue(2);
    b.ue(1);
    b.put(0, 1);
    b.ue(3);
    b.ue(2);
    b.put(1, 1);
    b.put(1, 1);
    b.put(1, 1);
    for offset in [left, right, top, bottom] {
        b.ue(offset);
    }
    b.put(0, 1);
    nal(0x67, &b.trail())
}

#[test]
fn cropping_leaves_at_least_one_sample() {
    let decode = |sps: Vec<u8>| {
        let mut stream = sps;
        stream.extend_from_slice(&pps(true));
        stream.extend_from_slice(&intra_picture(4, 3, &[0; 12], 0));
        Frontend::new().decode_access_unit(&stream, Duration::ZERO)
    };
    let size = |sps| decode(sps).map(|f| (f[0].width, f[0].height)).expect("decode");
    assert_eq!(size(cropped_sps(1, 2, 0, 4)), (58, 40));
    assert_eq!(size(cropped_sps(16, 16, 0, 0)), (1, 48));
    assert_eq!(size(cropped_sps(31, 40, 23, 1)), (1, 1));
    // Rows that begin behind the right edge end within the plane.
    assert_eq!(size(cropped_sps(32, 0, 0, 8)), (1, 32));
    let refused = decode(cropped_sps(32, 0, 0, 0)).unwrap_err();
    assert_eq!(refused.message(), "cropping leaves no picture");
}

#[test]
fn a_crop_past_the_edge_is_parsed_and_not_shown() {
    for crop in [(32, 0, 0, 0), (0, 0, 24, 0), (1000, 0, 0, 0), (0, 5, 70, 5)] {
        let mut stream = cropped_sps(crop.0, crop.1, crop.2, crop.3);
        stream.extend_from_slice(&pps(true));
        stream.extend_from_slice(&intra_picture(4, 3, &[0; 12], 0));
        let slices = Frontend::new().parse_access_unit(&stream).expect("slices");
        let parsed = slices[0].info.picture.crop;
        assert_eq!(
            (parsed.left, parsed.right, parsed.top, parsed.bottom),
            (
                crop.0 as usize * 2,
                crop.1 as usize * 2,
                crop.2 as usize * 2,
                crop.3 as usize * 2
            )
        );
        let refused = Frontend::new()
            .decode_access_unit(&stream, Duration::ZERO)
            .unwrap_err();
        assert_eq!(refused.message(), "cropping leaves no picture");
    }
}

fn known_sets() -> ParameterSets {
    let mut sets = ParameterSets::new();
    sets.put_sps(&sps(4, 3)[4..]).expect("sequence parameter set");
    sets.put_pps(&pps(true)[4..]).expect("picture parameter set");
    sets
}

#[test]
fn payloads_that_cannot_be_read_are_no_fault_of_decoding() {
    let sets = known_sets();
    for (tail, text) in [
        (&[0, 0, 0][..], "invalid RBSP byte 0x0 in state Start(0)"),
        (&[0, 0, 1][..], "invalid RBSP byte 0x1 in state Start(0)"),
        (&[0, 0, 2, 7][..], "invalid RBSP byte 0x2 in state Start(0)"),
        (&[0, 0, 3, 4][..], "invalid RBSP byte 0x4 in state PostThree"),
    ] {
        let mut unit = header(0x65, 7, &[0])[4..].to_vec();
        unit.extend_from_slice(tail);
        match parse_cabac(&sets, &unit) {
            Err(Error::Io(said)) => assert_eq!(said, text),
            other => panic!("{other:?}"),
        }
    }
}

#[test]
fn payloads_lose_the_bytes_that_keep_start_codes_out() {
    let sets = known_sets();
    for (tail, data) in [
        (&[0, 0, 3, 1, 9][..], &[0, 0, 1, 9][..]),
        (&[0, 0, 3, 0, 0, 3, 3][..], &[0, 0, 0, 0, 3][..]),
        (&[0, 3, 0, 3][..], &[0, 3, 0, 3][..]),
        (&[0, 0, 4, 3][..], &[0, 0, 4, 3][..]),
        (&[0, 0, 3][..], &[0, 0][..]),
        (&[7, 0, 0][..], &[7, 0, 0][..]),
    ] {
        let mut unit = header(0x65, 7, &[0])[4..].to_vec();
        let plain = parse_cabac(&sets, &unit).expect("slice").data;
        unit.extend_from_slice(tail);
        let mut expected = plain;
        expected.extend_from_slice(data);
        assert_eq!(parse_cabac(&sets, &unit).expect("slice").data, expected);
    }
}
