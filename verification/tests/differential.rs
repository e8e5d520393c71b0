use lite_encoder::codec::h264::annexb::{access_units, nal_units};
use lite_encoder::codec::h264::cabac::{ContextState, ContextVariant};
use lite_encoder::codec::h264::cabac_tables::{RANGE_TAB_LPS, TRANS_IDX_LPS, TRANS_IDX_MPS};
use lite_encoder::codec::h264::decoder::Frontend;
use lite_encoder::codec::h264::differential::{
    compare, compare_with, diff_frame, report_of, Divergence, Report,
};
use lite_encoder::codec::h264::mb::MbType;
use lite_encoder::codec::h264::reference::{packet, test_pattern, ReferenceDecoder, Synthesis};
use lite_encoder::error::Error;
use lite_encoder::media::{Decoder, Frame, Packet, TrackId};
use openh264::encoder::{Encoder, EncoderConfig, IntraFramePeriod, RateControlMode};
use openh264::formats::YUVSlices;
use openh264::OpenH264API;
use std::time::Duration;

/// Bits, the most significant first.
struct Bits {
    out: Vec<u8>,
    cur: u8,
    n: u8,
}

impl Bits {
    fn new() -> Bits {
        Bits {
            out: Vec::new(),
            cur: 0,
            n: 0,
        }
    }

    fn bit(&mut self, b: u32) {
        self.cur = (self.cur << 1) | (b & 1) as u8;
        self.n += 1;
        if self.n == 8 {
            self.out.push(self.cur);
            self.cur = 0;
            self.n = 0;
        }
    }

    fn put(&mut self, value: u32, count: u32) {
        for i in (0..count).rev() {
            self.bit(value >> i);
        }
    }

    fn ue(&mut self, value: u32) {
        let code = value + 1;
        let len = 32 - code.leading_zeros();
        self.put(0, len - 1);
        self.put(code, len);
    }

    fn se(&mut self, value: i32) {
        let code = if value > 0 {
            2 * value - 1
        } else {
            -2 * value
        };
        self.ue(code as u32);
    }

    fn trail(mut self) -> Vec<u8> {
        self.bit(1);
        while self.n != 0 {
            self.bit(0);
        }
        self.out
    }

    fn align_with_ones(&mut self) {
        while self.n != 0 {
            self.bit(1);
        }
    }
}

/// A start code, the header byte, and the payload with its start code
/// emulations broken up.
fn nal(header: u8, payload: &[u8]) -> Vec<u8> {
    let mut out = vec![0, 0, 0, 1, header];
    let mut zeros = 0;
    for &b in payload {
        if zeros >= 2 && b <= 3 {
            out.push(3);
            zeros = 0;
        }
        out.push(b);
        zeros = if b == 0 { zeros + 1 } else { 0 };
    }
    out
}

fn sps(width_mbs: u32, height_mbs: u32) -> Vec<u8> {
    let mut b = Bits::new();
    b.put(77, 8);
    b.put(0, 8);
    b.put(30, 8);
    b.ue(0);
    b.ue(0);
    b.ue(2);
    b.ue(1);
    b.put(0, 1);
    b.ue(width_mbs - 1);
    b.ue(height_mbs - 1);
    b.put(1, 1);
    b.put(1, 1);
    b.put(0, 1);
    b.put(0, 1);
    nal(0x67, &b.trail())
}

fn pps(cabac: bool) -> Vec<u8> {
    let mut b = Bits::new();
    b.ue(0);
    b.ue(0);
    b.put(u32::from(cabac), 1);
    b.put(0, 1);
    b.ue(0);
    b.ue(0);
    b.ue(0);
    b.put(0, 1);
    b.put(0, 2);
    b.se(0);
    b.se(0);
    b.se(0);
    b.put(1, 1);
    b.put(0, 1);
    b.put(0, 1);
    nal(0x68, &b.trail())
}

/// The arithmetic encoder.
struct Coder {
    low: u32,
    range: u32,
    outstanding: u32,
    first: bool,
    bits: Bits,
}

impl Coder {
    fn new() -> Coder {
        Coder {
            low: 0,
            range: 510,
            outstanding: 0,
            first: true,
            bits: Bits::new(),
        }
    }

    fn put_bit(&mut self, b: u32) {
        if self.first {
            self.first = false;
        } else {
            self.bits.bit(b);
        }
        while self.outstanding > 0 {
            self.bits.bit(1 - b);
            self.outstanding -= 1;
        }
    }

    fn renorm(&mut self) {
        while self.range < 256 {
            if self.low < 256 {
                self.put_bit(0);
            } else if self.low >= 512 {
                self.low -= 512;
                self.put_bit(1);
            } else {
                self.low -= 256;
                self.outstanding += 1;
            }
            self.range <<= 1;
            self.low <<= 1;
        }
    }

    fn decide(&mut self, cx: &mut ContextState, idx: usize, bin: u8) {
        let ctx = cx.get_mut(idx);
        let lps = RANGE_TAB_LPS[ctx.state as usize][((self.range >> 6) & 3) as usize] as u32;
        self.range -= lps;
        if bin != ctx.mps {
            self.low += self.range;
            self.range = lps;
            if ctx.state == 0 {
                ctx.mps = 1 - ctx.mps;
            }
            ctx.state = TRANS_IDX_LPS[ctx.state as usize];
        } else {
            ctx.state = TRANS_IDX_MPS[ctx.state as usize];
        }
        self.renorm();
    }

    fn bypass(&mut self, bin: u32) {
        self.low <<= 1;
        if bin != 0 {
            self.low += self.range;
        }
        if self.low >= 1024 {
            self.put_bit(1);
            self.low -= 1024;
        } else if self.low < 512 {
            self.put_bit(0);
        } else {
            self.low -= 512;
            self.outstanding += 1;
        }
    }

    fn terminate(&mut self, bin: u32) {
        self.range -= 2;
        if bin != 0 {
            self.low += self.range;
            self.range = 2;
        }
        self.renorm();
    }

    /// Ends the slice: the last bit written is the stop bit.
    fn finish(mut self) -> Vec<u8> {
        self.put_bit((self.low >> 9) & 1);
        let b = ((self.low >> 7) & 3) | 1;
        self.bits.bit(b >> 1);
        self.bits.bit(b);
        while self.bits.n != 0 {
            self.bits.bit(0);
        }
        self.bits.out
    }
}

/// An IDR picture of whole macroblocks predicted from their mean, each with one
/// coefficient for its brightness.
fn intra_picture(width: usize, height: usize, levels: &[i32], idr_id: u32) -> Vec<u8> {
    let mut h = Bits::new();
    h.ue(0);
    h.ue(7);
    h.ue(0);
    h.put(0, 4);
    h.ue(idr_id);
    h.put(0, 2);
    h.se(0);
    h.ue(0);
    h.se(0);
    h.se(0);
    h.align_with_ones();

    let mut cx = ContextState::new(ContextVariant::Intra, 26);
    let mut c = Coder::new();
    for addr in 0..width * height {
        let left = addr % width > 0;
        let above = addr >= width;
        let inc = usize::from(left) + usize::from(above);
        c.decide(&mut cx, 3 + inc, 1);
        c.terminate(0);
        // No luma beyond the means, no chroma, mode 2.
        c.decide(&mut cx, 3 + 3, 0);
        c.decide(&mut cx, 3 + 4, 0);
        c.decide(&mut cx, 3 + 6, 1);
        c.decide(&mut cx, 3 + 7, 0);
        c.decide(&mut cx, 64, 0);
        c.decide(&mut cx, 60, 0);

        let coded_left = if left { levels[addr - 1] != 0 } else { true };
        let coded_above = if above { levels[addr - width] != 0 } else { true };
        let flag = 85 + usize::from(coded_left) + 2 * usize::from(coded_above);
        let level = levels[addr];
        c.decide(&mut cx, flag, u8::from(level != 0));
        if level != 0 {
            c.decide(&mut cx, 105, 1);
            c.decide(&mut cx, 166, 1);
            let size = level.unsigned_abs() - 1;
            for i in 0..size.min(14) {
                c.decide(&mut cx, if i == 0 { 228 } else { 227 + 5 }, 1);
            }
            if size < 14 {
                c.decide(&mut cx, if size == 0 { 228 } else { 227 + 5 }, 0);
            } else {
                let mut rest = size - 14;
                let mut k = 0;
                while rest >= 1 << k {
                    c.bypass(1);
                    rest -= 1 << k;
                    k += 1;
                }
                c.bypass(0);
                for i in (0..k).rev() {
                    c.bypass((rest >> i) & 1);
                }
            }
            c.bypass(u32::from(level < 0));
        }
        c.terminate(u32::from(addr + 1 == width * height));
    }
    h.out.extend_from_slice(&c.finish());
    nal(0x65, &h.out)
}

/// A picture that repeats the one before it, but for one macroblock that moves
/// by a vector of up to eight quarter samples a side.
fn inter_picture(width: usize, height: usize, frame_num: u32, moved: usize, mv: (i32, i32)) -> Vec<u8> {
    let mut h = Bits::new();
    h.ue(0);
    h.ue(5);
    h.ue(0);
    h.put(frame_num, 4);
    h.put(0, 1);
    h.put(0, 1);
    h.put(0, 1);
    h.ue(0);
    h.se(0);
    h.ue(0);
    h.se(0);
    h.se(0);
    h.align_with_ones();

    let mut cx = ContextState::new(ContextVariant::Inter { cabac_init_idc: 0 }, 26);
    let mut c = Coder::new();
    for addr in 0..width * height {
        let left = addr % width > 0;
        let above = addr >= width;
        let inc = usize::from(left && addr - 1 == moved) + usize::from(above && addr - width == moved);
        let skipped = addr != moved;
        c.decide(&mut cx, 11 + inc, u8::from(skipped));
        if !skipped {
            c.decide(&mut cx, 14, 0);
            c.decide(&mut cx, 15, 0);
            c.decide(&mut cx, 16, 0);
            for (base, v) in [(40, mv.0), (47, mv.1)] {
                let size = v.unsigned_abs();
                assert!(size < 9);
                let steps = [0, 3, 4, 5, 6, 6, 6, 6, 6, 6];
                for i in 0..size {
                    c.decide(&mut cx, base + steps[i as usize], 1);
                }
                c.decide(&mut cx, base + steps[size as usize], 0);
                if v != 0 {
                    c.bypass(u32::from(v < 0));
                }
            }
            // No coefficients. A neighbour without them raises the context,
            // and so does a block of this macroblock without them.
            let (a, b) = (usize::from(left), usize::from(above));
            c.decide(&mut cx, 73 + a + 2 * b, 0);
            c.decide(&mut cx, 73 + 1 + 2 * b, 0);
            c.decide(&mut cx, 73 + a + 2, 0);
            c.decide(&mut cx, 73 + 3, 0);
            c.decide(&mut cx, 77, 0);
        }
        c.terminate(u32::from(addr + 1 == width * height));
    }
    h.out.extend_from_slice(&c.finish());
    nal(0x41, &h.out)
}

/// Brightnesses that step both ways, small and large.
fn levels(width: usize, height: usize) -> Vec<i32> {
    (0..width * height)
        .map(|i| ((i * 7) % 23) as i32 - 9)
        .collect()
}

fn intra_stream(width: usize, height: usize, pictures: u32) -> Vec<u8> {
    let mut s = sps(width as u32, height as u32);
    s.extend_from_slice(&pps(true));
    for i in 0..pictures {
        let mut l = levels(width, height);
        l.rotate_left(i as usize);
        s.extend_from_slice(&intra_picture(width, height, &l, i % 2));
    }
    s
}

fn inter_stream(width: usize, height: usize, pictures: u32) -> Vec<u8> {
    let mut s = intra_stream(width, height, 1);
    for i in 1..pictures {
        let mv = (i as i32 * 3 - 8, 5 - 2 * i as i32);
        s.extend_from_slice(&inter_picture(width, height, i, 5, mv));
    }
    s
}

/// Codes the test pictures with openh264, which writes the other entropy
/// coding.
fn synthesize(width: usize, height: usize, frames: usize, keyframe_interval: u32) -> Vec<u8> {
    let config = EncoderConfig::new()
        .rate_control_mode(RateControlMode::Off)
        .skip_frames(false)
        .scene_change_detect(false)
        .adaptive_quantization(false)
        .background_detection(false)
        .intra_frame_period(IntraFramePeriod::from_num_frames(keyframe_interval));
    let mut encoder =
        Encoder::with_api_config(OpenH264API::from_source(), config).expect("encoder");
    let mut synthesis = Synthesis::new(width, height, frames);
    while let Some((y, u, v)) = synthesis.picture() {
        let yuv = YUVSlices::new(
            (&y, &u, &v),
            (width, height),
            (width, width / 2, width / 2),
        );
        let coded = encoder.encode(&yuv).expect("encode").to_vec();
        synthesis.accept(&coded);
    }
    let stream = synthesis.finish();
    assert_eq!((stream.width, stream.height), (width, height));
    stream.annexb
}

#[test]
fn the_reference_agrees_with_itself() {
    let stream = synthesize(64, 48, 6, 3);
    let mut subject = ReferenceDecoder::new().expect("decoder");
    let report = compare(&stream, &mut subject).expect("compare");
    assert!(report.matches(), "{}", report.message());
    assert_eq!(report.reference_frames, 6);
    assert_eq!(report.message(), "6 frames match exactly");
}

#[test]
fn our_decoder_matches_the_reference_on_an_intra_stream() {
    let stream = intra_stream(4, 3, 3);
    let mut subject = Frontend::new();
    let report = compare(&stream, &mut subject).expect("compare");
    assert!(report.matches(), "{}", report.message());
}

#[test]
fn our_decoder_matches_the_reference_with_inter_prediction() {
    let stream = inter_stream(4, 3, 6);
    let mut subject = Frontend::new();
    let report = compare(&stream, &mut subject).expect("compare");
    assert!(report.matches(), "{}", report.message());
}

struct BitFlipped(ReferenceDecoder);

impl Decoder for BitFlipped {
    fn ready(&self) -> bool {
        true
    }

    fn decodes(&self, _: &Packet, _: &Self, _: Result<Vec<Frame>, Error>) -> bool {
        true
    }

    fn flushes(&self, _: &Self, _: Result<Vec<Frame>, Error>) -> bool {
        true
    }

    fn decode(&mut self, pkt: &Packet) -> Result<Vec<Frame>, Error> {
        let mut frames = self.0.decode(pkt)?;
        for f in &mut frames {
            f.planes[0][0] ^= 1;
        }
        Ok(frames)
    }

    fn flush(&mut self) -> Result<Vec<Frame>, Error> {
        self.0.flush()
    }
}

#[test]
fn a_single_bit_error_in_luma_is_caught() {
    let stream = synthesize(64, 48, 3, 1);
    let mut subject = BitFlipped(ReferenceDecoder::new().expect("decoder"));
    let report = compare(&stream, &mut subject).expect("compare");

    let d = report.divergence.expect("divergence not detected");
    assert_eq!((d.frame, d.plane, d.x, d.y), (0, 0, 0, 0));
    assert_eq!(d.differing_samples, 1);
    assert_eq!(d.max_abs_diff, 1);
    assert!(!report.matches());
}

struct Silent;

impl Decoder for Silent {
    fn ready(&self) -> bool {
        true
    }

    fn decodes(&self, _: &Packet, _: &Self, _: Result<Vec<Frame>, Error>) -> bool {
        true
    }

    fn flushes(&self, _: &Self, _: Result<Vec<Frame>, Error>) -> bool {
        true
    }

    fn decode(&mut self, _: &Packet) -> Result<Vec<Frame>, Error> {
        Ok(Vec::new())
    }

    fn flush(&mut self) -> Result<Vec<Frame>, Error> {
        Ok(Vec::new())
    }
}

#[test]
fn a_decoder_that_emits_nothing_reports_a_count_mismatch() {
    let stream = synthesize(64, 48, 4, 2);
    let report = compare(&stream, &mut Silent).expect("compare");
    assert!(!report.matches());
    assert_eq!(report.subject_frames, 0);
    assert!(report.reference_frames > 0);
    assert!(report.message().contains("frame count mismatch"));
}

struct Failing(usize);

impl Decoder for Failing {
    fn ready(&self) -> bool {
        true
    }

    fn decodes(&self, _: &Packet, _: &Self, _: Result<Vec<Frame>, Error>) -> bool {
        true
    }

    fn flushes(&self, _: &Self, _: Result<Vec<Frame>, Error>) -> bool {
        true
    }

    fn decode(&mut self, _: &Packet) -> Result<Vec<Frame>, Error> {
        self.0 += 1;
        if self.0 > 2 {
            return Err(Error::Decode("mb_type 31 unsupported".into()));
        }
        Ok(Vec::new())
    }

    fn flush(&mut self) -> Result<Vec<Frame>, Error> {
        Ok(Vec::new())
    }
}

#[test]
fn a_decode_error_is_reported_with_its_access_unit() {
    let stream = synthesize(64, 48, 5, 1);
    let report = compare(&stream, &mut Failing(0)).expect("compare");
    let (au, _) = report.error.as_ref().expect("error not reported");
    assert_eq!(*au, 2);
    assert!(report.message().contains("access unit 2"));
}

#[test]
fn the_synthetic_stream_is_keyframe_led_and_carries_parameter_sets() {
    let stream = synthesize(64, 48, 4, 2);
    let units = access_units(&stream);
    assert_eq!(units.len(), 4);

    let kinds: Vec<u8> = nal_units(units[0]).iter().map(|n| n[0] & 0x1f).collect();
    assert!(kinds.contains(&7), "no SPS in first access unit: {kinds:?}");
    assert!(kinds.contains(&8), "no PPS in first access unit: {kinds:?}");
    assert!(
        kinds.contains(&5),
        "first access unit is not an IDR: {kinds:?}"
    );
}

fn frame(width: u32, height: u32, fill: u8) -> Frame {
    let (w, h) = (width as usize, height as usize);
    Frame {
        pts: Duration::ZERO,
        width,
        height,
        planes: [
            vec![fill; w * h],
            vec![fill; w * h / 4],
            vec![fill; w * h / 4],
        ],
        strides: [w, w / 2, w / 2],
        concealed_macroblocks: 0,
    }
}

#[test]
fn a_difference_is_located_to_the_sample() {
    let a = frame(32, 16, 100);
    let mut b = frame(32, 16, 100);
    assert_eq!(diff_frame(&a, &b, 3), None);
    b.planes[2][16 * 3 + 9] = 97;
    b.planes[2][16 * 5] = 111;
    let d = diff_frame(&a, &b, 3).expect("a difference");
    assert_eq!(
        d,
        Divergence {
            frame: 3,
            plane: 2,
            x: 9,
            y: 3,
            reference: 100,
            subject: 97,
            differing_samples: 2,
            max_abs_diff: 11,
        }
    );
    assert_eq!(
        d.message(),
        "frame 3 plane V diverges at (9, 3) in macroblock (1, 0): reference 100, subject 97; \
         2 samples differ in this plane, max delta 11"
    );
}

#[test]
fn a_wrong_size_diverges_at_the_origin() {
    let d = diff_frame(&frame(32, 16, 0), &frame(16, 16, 0), 1).expect("a difference");
    assert_eq!((d.frame, d.plane, d.x, d.y), (1, 0, 0, 0));
    assert_eq!((d.differing_samples, d.max_abs_diff), (0, 0));
}

#[test]
fn reports_put_themselves_into_words() {
    let empty = report_of(&Vec::new(), &Vec::new(), None);
    assert!(!empty.matches());
    assert_eq!(empty.message(), "neither decoder produced a frame");
    let counts = report_of(&vec![frame(16, 16, 1)], &Vec::new(), None);
    assert_eq!(
        counts.message(),
        "frame count mismatch: reference produced 1, subject produced 0"
    );
    let failed = Report {
        reference_frames: 1,
        subject_frames: 0,
        divergence: None,
        error: Some((4, Error::decode("no such thing"))),
    };
    assert_eq!(
        failed.message(),
        "decode failed on access unit 4: no such thing"
    );
    let same = report_of(&vec![frame(16, 16, 1)], &vec![frame(16, 16, 1)], None);
    assert!(same.matches());
}

#[test]
fn packets_are_stamped_at_twenty_five_a_second() {
    let stream = intra_stream(4, 3, 1);
    let p = packet(&stream, 3);
    assert_eq!(p.track, TrackId(0));
    assert_eq!(p.pts, Duration::from_millis(120));
    assert!(p.keyframe);
    assert_eq!(p.data, stream);
    assert!(!packet(&inter_picture(4, 3, 1, 5, (1, 0)), 0).keyframe);
}

#[test]
fn the_reference_is_told_what_it_got_wrong() {
    let mut reference = ReferenceDecoder::new().expect("decoder");
    let broken = [0, 0, 0, 1, 0x67, 0xff, 0xff, 0xff, 0xff];
    let r = reference.decode(&packet(&broken, 0));
    match r {
        Ok(frames) => assert!(frames.is_empty()),
        Err(e) => assert!(e.message().starts_with("openh264: ")),
    }
}

#[test]
fn a_used_reference_is_not_needed_to_compare() {
    let stream = synthesize(32, 32, 2, 1);
    let mut reference = ReferenceDecoder::new().expect("decoder");
    let mut subject = ReferenceDecoder::new().expect("decoder");
    let report = compare_with(&stream, &mut reference, &mut subject).expect("compare");
    assert!(report.matches());
    assert_eq!(report.subject_frames, 2);
}

#[test]
fn the_test_picture_is_drawn_to_the_sample() {
    let (y, u, v) = test_pattern(16, 8, 1);
    // The block has slid three samples to the left, around the edge.
    assert_eq!(y[13], 235);
    assert_eq!(y[14], 235);
    assert_eq!(y[15], 16);
    assert_eq!(y[0], 1);
    assert_eq!(y[5 * 16 + 13], 19);
    assert_eq!((u[0], u[7], v[0], v[8 * 3]), (124, 131, 126, 129));
    assert_eq!((y.len(), u.len(), v.len()), (128, 32, 32));
}

/// Numbers that only look random.
struct Scatter(u64);

impl Scatter {
    fn below(&mut self, n: u32) -> u32 {
        self.0 = self
            .0
            .wrapping_mul(6364136223846793005)
            .wrapping_add(1442695040888963407);
        (self.0 >> 33) as u32 % n
    }

    fn around(&mut self, n: i32) -> i32 {
        self.below(2 * n as u32 + 1) as i32 - n
    }
}

/// Parameter sets with the 8x8 transform and offsets for both chroma planes.
fn high_profile_sets(width_mbs: u32, height_mbs: u32, constrained: bool, r: &mut Scatter) -> Vec<u8> {
    let mut b = Bits::new();
    b.put(100, 8);
    b.put(0, 8);
    b.put(30, 8);
    b.ue(0);
    b.ue(1);
    b.ue(0);
    b.ue(0);
    b.put(0, 2);
    b.ue(0);
    b.ue(2);
    b.ue(1);
    b.put(0, 1);
    b.ue(width_mbs - 1);
    b.ue(height_mbs - 1);
    b.put(0b1100, 4);
    let mut out = nal(0x67, &b.trail());

    let mut b = Bits::new();
    b.ue(0);
    b.ue(0);
    b.put(0b10, 2);
    b.ue(0);
    b.ue(0);
    b.ue(0);
    b.put(0, 3);
    b.se(0);
    b.se(0);
    b.se(r.around(6));
    b.put(1, 1);
    b.put(u32::from(constrained), 1);
    b.put(0, 1);
    b.put(0b10, 2);
    b.se(r.around(6));
    out.extend(nal(0x68, &b.trail()));
    out
}

/// A slice with a legal header and arbitrary coded data.
fn arbitrary_slice(frame_num: u32, r: &mut Scatter) -> Vec<u8> {
    let mut h = Bits::new();
    h.ue(0);
    h.ue(5);
    h.ue(0);
    h.put(frame_num, 4);
    h.put(0, 3);
    h.ue(r.below(3));
    h.se(r.around(8) - 4);
    h.ue(0);
    h.se(r.around(6));
    h.se(r.around(6));
    h.align_with_ones();
    for _ in 0..600 {
        h.put(r.below(256), 8);
    }
    nal(0x41, &h.out)
}

/// The pictures of a stream, if all of it can be decoded and no macroblock is
/// split into four.
fn whole_pictures(stream: &[u8], macroblocks: usize) -> Option<Vec<Frame>> {
    let mut decoder = Frontend::new();
    let mut out = Vec::new();
    for unit in access_units(stream) {
        let frames = decoder.decode_access_unit(unit, Duration::ZERO).ok()?;
        let state = decoder.state.as_ref()?;
        let split = (0..macroblocks).any(|mb| match state.get(mb).mb_type {
            MbType::Inter(shape) => shape.has_sub_partitions(),
            _ => false,
        });
        if split || frames.iter().any(|f| f.concealed_macroblocks != 0) {
            return None;
        }
        out.extend(frames);
    }
    Some(out)
}

/// Arithmetic coded data is rarely illegal, so arbitrary bytes reach the whole
/// of the decoder. Each picture predicts from the ones that came out the same.
fn arbitrary_slices_agree(constrained: bool, seed: u64) {
    let (width, height) = (3usize, 2usize);
    let mut r = Scatter(seed);
    let mut compared = 0;
    for _ in 0..8 {
        let mut stream = high_profile_sets(width as u32, height as u32, constrained, &mut r);
        let levels: Vec<i32> = (0..width * height).map(|_| r.around(30)).collect();
        stream.extend(intra_picture(width, height, &levels, 0));
        let mut frame_num = 1;
        for _ in 0..40 {
            let mut longer = stream.clone();
            longer.extend(arbitrary_slice(frame_num, &mut r));
            let Some(ours) = whole_pictures(&longer, width * height) else {
                continue;
            };
            let mut reference = ReferenceDecoder::new().unwrap();
            let mut theirs = Vec::new();
            for (i, unit) in access_units(&longer).iter().enumerate() {
                theirs.extend(reference.decode(&packet(unit, i)).unwrap());
            }
            theirs.extend(reference.flush().unwrap());
            assert_eq!(ours.len(), theirs.len());
            for (a, b) in ours.iter().zip(&theirs) {
                assert_eq!(a.planes, b.planes);
            }
            compared += 1;
            stream = longer;
            frame_num = (frame_num + 1) % 16;
        }
    }
    assert!(compared > 30, "only {compared} pictures could be compared");
}

#[test]
fn arbitrary_slices_decode_as_openh264_decodes_them() {
    arbitrary_slices_agree(false, 23);
}

#[test]
fn arbitrary_slices_agree_under_constrained_intra_prediction() {
    arbitrary_slices_agree(true, 29);
}

/// Counts its calls and fails at one of them.
struct Counting {
    units: Vec<Vec<u8>>,
    flushes: usize,
    fails_at: usize,
}

impl Decoder for Counting {
    fn ready(&self) -> bool {
        true
    }

    fn decodes(&self, _: &Packet, _: &Self, _: Result<Vec<Frame>, Error>) -> bool {
        true
    }

    fn flushes(&self, _: &Self, _: Result<Vec<Frame>, Error>) -> bool {
        true
    }

    fn decode(&mut self, pkt: &Packet) -> Result<Vec<Frame>, Error> {
        self.units.push(pkt.data.clone());
        if self.units.len() > self.fails_at {
            return Err(Error::decode("out of order"));
        }
        Ok(vec![frame(64, 48, 1)])
    }

    fn flush(&mut self) -> Result<Vec<Frame>, Error> {
        self.flushes += 1;
        if self.fails_at == usize::MAX {
            return Err(Error::decode("nothing held back"));
        }
        Ok(Vec::new())
    }
}

#[test]
fn the_decoder_under_test_is_driven_until_it_fails() {
    let stream = synthesize(64, 48, 5, 1);
    let units: Vec<Vec<u8>> = access_units(&stream).iter().map(|u| u.to_vec()).collect();

    let mut subject = Counting { units: Vec::new(), flushes: 0, fails_at: 2 };
    let report = compare(&stream, &mut subject).expect("compare");
    assert_eq!(subject.units, units[..3].to_vec());
    assert_eq!(subject.flushes, 0);
    assert_eq!((report.reference_frames, report.subject_frames), (5, 2));
    let (at, error) = report.error.as_ref().expect("an error");
    assert_eq!((*at, error.message().as_str()), (2, "out of order"));
    assert!(!report.matches());

    let mut subject = Counting { units: Vec::new(), flushes: 0, fails_at: usize::MAX };
    let report = compare(&stream, &mut subject).expect("compare");
    assert_eq!(subject.units, units);
    assert_eq!(subject.flushes, 1);
    assert_eq!(report.subject_frames, 5);
    assert_eq!(report.error.as_ref().map(|(at, _)| *at), Some(usize::MAX));

    let mut subject = Counting { units: Vec::new(), flushes: 0, fails_at: 99 };
    let report = compare(&stream, &mut subject).expect("compare");
    assert_eq!((subject.units.len(), subject.flushes), (5, 1));
    assert!(report.error.is_none());
    assert_eq!(report.divergence.map(|d| d.frame), Some(0));
}
