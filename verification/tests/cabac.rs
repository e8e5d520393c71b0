use lite_encoder::codec::h264::cabac::{ArithDecoder, Context, ContextState, ContextVariant, NUM_CONTEXTS};
use lite_encoder::codec::h264::cabac_tables::{RANGE_TAB_LPS, TRANS_IDX_LPS, TRANS_IDX_MPS};

#[test]
fn lps_range_shrinks_with_state_and_grows_with_range() {
    for (s, pair) in RANGE_TAB_LPS.windows(2).enumerate() {
        for (q, (&prev, &next)) in pair[0].iter().zip(pair[1].iter()).enumerate() {
            assert!(next <= prev, "state {} column {q} is not monotonic", s + 1);
        }
    }
    for (s, row) in RANGE_TAB_LPS.iter().enumerate() {
        for (q, w) in row.windows(2).enumerate() {
            assert!(
                w[1] >= w[0],
                "state {s} is not monotonic across range quarters at {q}"
            );
        }
    }
    for (s, row) in RANGE_TAB_LPS.iter().enumerate() {
        for (q, &v) in row.iter().enumerate() {
            assert!((2..=240).contains(&v), "state {s} column {q} is {v}");
        }
    }
}

#[test]
fn state_transitions_move_in_the_right_direction() {
    for s in 0..64usize {
        assert!(
            TRANS_IDX_MPS[s] as usize >= s,
            "MPS transition from {s} went backwards"
        );
        assert!(
            (TRANS_IDX_LPS[s] as usize) <= s,
            "LPS transition from {s} went forwards"
        );
        assert!(TRANS_IDX_MPS[s] < 64 && TRANS_IDX_LPS[s] < 64);
    }
    assert_eq!(TRANS_IDX_MPS[62], 62);
    assert_eq!(TRANS_IDX_LPS[63], 63);
}

#[test]
fn context_init_produces_valid_states() {
    for variant in [
        ContextVariant::Intra,
        ContextVariant::Inter { cabac_init_idc: 0 },
        ContextVariant::Inter { cabac_init_idc: 1 },
        ContextVariant::Inter { cabac_init_idc: 2 },
    ] {
        for qp in 0..=51 {
            let cs = ContextState::new(variant, qp);
            for i in 0..NUM_CONTEXTS {
                let c = cs.get(i);
                assert!(
                    c.state <= 62,
                    "{variant:?} qp {qp} ctx {i} state {}",
                    c.state
                );
                assert!(c.mps <= 1);
            }
        }
    }
}

#[test]
fn context_init_clips_slice_qp() {
    let low = ContextState::new(ContextVariant::Intra, -20);
    let zero = ContextState::new(ContextVariant::Intra, 0);
    let high = ContextState::new(ContextVariant::Intra, 200);
    let max = ContextState::new(ContextVariant::Intra, 51);
    for i in 0..NUM_CONTEXTS {
        assert_eq!(low.get(i), zero.get(i), "ctx {i} below range");
        assert_eq!(high.get(i), max.get(i), "ctx {i} above range");
    }
}

struct ArithEncoder {
    low: u32,
    range: u32,
    bits_outstanding: u32,
    first: bool,
    out: Vec<u8>,
    cur: u8,
    nbits: u8,
}

impl ArithEncoder {
    fn new() -> Self {
        ArithEncoder {
            low: 0,
            range: 510,
            bits_outstanding: 0,
            first: true,
            out: Vec::new(),
            cur: 0,
            nbits: 0,
        }
    }

    fn put_bit(&mut self, b: u8) {
        if self.first {
            self.first = false;
        } else {
            self.cur = (self.cur << 1) | b;
            self.nbits += 1;
            if self.nbits == 8 {
                self.out.push(self.cur);
                self.cur = 0;
                self.nbits = 0;
            }
        }
        while self.bits_outstanding > 0 {
            let inv = 1 - b;
            self.cur = (self.cur << 1) | inv;
            self.nbits += 1;
            if self.nbits == 8 {
                self.out.push(self.cur);
                self.cur = 0;
                self.nbits = 0;
            }
            self.bits_outstanding -= 1;
        }
    }

    fn renorm(&mut self) {
        while self.range < 256 {
            if self.low < 256 {
                self.put_bit(0);
            } else if self.low >= 512 {
                self.low -= 512;
                self.put_bit(1);
            } else {
                self.low -= 256;
                self.bits_outstanding += 1;
            }
            self.range <<= 1;
            self.low <<= 1;
        }
    }

    fn encode_decision(&mut self, ctx: &mut Context, bin: u8) {
        let q = ((self.range >> 6) & 3) as usize;
        let lps_range = RANGE_TAB_LPS[ctx.state as usize][q] as u32;
        self.range -= lps_range;

        if bin != ctx.mps {
            self.low += self.range;
            self.range = lps_range;
            if ctx.state == 0 {
                ctx.mps = 1 - ctx.mps;
            }
            ctx.state = TRANS_IDX_LPS[ctx.state as usize];
        } else {
            ctx.state = TRANS_IDX_MPS[ctx.state as usize];
        }
        self.renorm();
    }

    fn encode_bypass(&mut self, bin: u8) {
        self.low <<= 1;
        if bin != 0 {
            self.low += self.range;
        }
        if self.low >= 1024 {
            self.put_bit(1);
            self.low -= 1024;
        } else if self.low < 512 {
            self.put_bit(0);
        } else {
            self.low -= 512;
            self.bits_outstanding += 1;
        }
    }

    fn encode_terminate(&mut self, bin: u8) {
        self.range -= 2;
        if bin != 0 {
            self.low += self.range;
            self.range = 2;
        }
        self.renorm();
    }

    fn finish(mut self) -> Vec<u8> {
        self.range = 2;
        self.renorm();
        self.put_bit(((self.low >> 9) & 1) as u8);
        let b = (((self.low >> 7) & 3) | 1) as u8;
        self.put_bit((b >> 1) & 1);
        self.put_bit(b & 1);
        while self.nbits != 0 {
            self.cur <<= 1;
            self.nbits += 1;
            if self.nbits == 8 {
                self.out.push(self.cur);
                self.cur = 0;
                self.nbits = 0;
            }
        }
        self.out.extend_from_slice(&[0xff; 8]);
        self.out
    }
}

fn lcg(seed: &mut u32) -> u32 {
    *seed = seed.wrapping_mul(1664525).wrapping_add(1013904223);
    *seed >> 16
}

#[test]
fn engine_round_trips_context_coded_bins() {
    let mut seed = 12345u32;
    let bins: Vec<(usize, u8)> = (0..4000)
        .map(|_| {
            let ctx = (lcg(&mut seed) % 64) as usize;
            let bin = (lcg(&mut seed) % 2) as u8;
            (ctx, bin)
        })
        .collect();

    let mut enc_ctx = ContextState::new(ContextVariant::Intra, 26);
    let mut enc = ArithEncoder::new();
    for &(ctx, bin) in &bins {
        enc.encode_decision(enc_ctx.get_mut(ctx), bin);
    }
    let data = enc.finish();

    let mut dec_ctx = ContextState::new(ContextVariant::Intra, 26);
    let mut dec = ArithDecoder::new(&data).expect("enough data");
    for (i, &(ctx, expected)) in bins.iter().enumerate() {
        let got = dec.decode_decision(dec_ctx.get_mut(ctx));
        assert_eq!(got, expected, "bin {i} in context {ctx}");
    }
}

#[test]
fn engine_round_trips_bypass_bins() {
    let mut seed = 999u32;
    let bins: Vec<u8> = (0..2000).map(|_| (lcg(&mut seed) % 2) as u8).collect();

    let mut enc = ArithEncoder::new();
    for &b in &bins {
        enc.encode_bypass(b);
    }
    let data = enc.finish();

    let mut dec = ArithDecoder::new(&data).expect("enough data");
    for (i, &expected) in bins.iter().enumerate() {
        assert_eq!(dec.decode_bypass(), expected, "bypass bin {i}");
    }
}

#[derive(Clone, Copy)]
enum Op {
    Ctx(usize, u8),
    Bypass(u8),
}

#[test]
fn engine_round_trips_mixed_bins() {
    let mut seed = 424242u32;
    let ops: Vec<Op> = (0..4000)
        .map(|_| {
            if lcg(&mut seed) % 3 == 0 {
                Op::Bypass((lcg(&mut seed) % 2) as u8)
            } else {
                Op::Ctx(
                    (lcg(&mut seed) % NUM_CONTEXTS as u32) as usize,
                    (lcg(&mut seed) % 2) as u8,
                )
            }
        })
        .collect();

    let mut enc_ctx = ContextState::new(ContextVariant::Inter { cabac_init_idc: 1 }, 30);
    let mut enc = ArithEncoder::new();
    for &op in &ops {
        match op {
            Op::Ctx(c, b) => enc.encode_decision(enc_ctx.get_mut(c), b),
            Op::Bypass(b) => enc.encode_bypass(b),
        }
    }
    let data = enc.finish();

    let mut dec_ctx = ContextState::new(ContextVariant::Inter { cabac_init_idc: 1 }, 30);
    let mut dec = ArithDecoder::new(&data).expect("enough data");
    for (i, &op) in ops.iter().enumerate() {
        match op {
            Op::Ctx(c, expected) => {
                assert_eq!(dec.decode_decision(dec_ctx.get_mut(c)), expected, "op {i}")
            }
            Op::Bypass(expected) => assert_eq!(dec.decode_bypass(), expected, "op {i}"),
        }
    }
}

#[test]
fn engine_round_trips_terminate() {
    let mut enc_ctx = ContextState::new(ContextVariant::Intra, 28);
    let mut enc = ArithEncoder::new();
    for i in 0..50 {
        enc.encode_decision(enc_ctx.get_mut(i % NUM_CONTEXTS), (i % 2) as u8);
        enc.encode_terminate(0);
    }
    enc.encode_terminate(1);
    let data = enc.finish();

    let mut dec_ctx = ContextState::new(ContextVariant::Intra, 28);
    let mut dec = ArithDecoder::new(&data).expect("enough data");
    for i in 0..50 {
        assert_eq!(
            dec.decode_decision(dec_ctx.get_mut(i % NUM_CONTEXTS)),
            (i % 2) as u8
        );
        assert_eq!(dec.decode_terminate(), 0, "premature terminate at {i}");
    }
    assert_eq!(dec.decode_terminate(), 1, "slice end not detected");
}

#[test]
fn exp_golomb_suffix_round_trips() {
    for value in [0u32, 1, 2, 3, 7, 8, 15, 16, 100, 1000] {
        let mut bins = Vec::new();
        let mut k = 0;
        let mut remaining = value;
        while remaining >= (1 << k) {
            bins.push(1u8);
            remaining -= 1 << k;
            k += 1;
        }
        bins.push(0);
        for j in (0..k).rev() {
            bins.push(((remaining >> j) & 1) as u8);
        }

        let mut enc = ArithEncoder::new();
        for &b in &bins {
            enc.encode_bypass(b);
        }
        let data = enc.finish();

        let mut dec = ArithDecoder::new(&data).expect("enough data");
        assert_eq!(dec.decode_exp_golomb_bypass(0), value, "value {value}");
    }
}

#[test]
fn truncated_unary_stops_at_c_max() {
    let mut enc_ctx = ContextState::new(ContextVariant::Intra, 26);
    let mut enc = ArithEncoder::new();
    for _ in 0..5 {
        enc.encode_decision(enc_ctx.get_mut(0), 1);
    }
    enc.encode_decision(enc_ctx.get_mut(7), 1);
    let data = enc.finish();

    let mut dec_ctx = ContextState::new(ContextVariant::Intra, 26);
    let mut dec = ArithDecoder::new(&data).expect("enough data");
    let v = dec.decode_truncated_unary(5, &mut dec_ctx, |_| 0);
    assert_eq!(v, 5);
    assert_eq!(
        dec.decode_decision(dec_ctx.get_mut(7)),
        1,
        "over-read the prefix"
    );
}

#[test]
fn truncated_unary_stops_early_on_zero() {
    let mut enc_ctx = ContextState::new(ContextVariant::Intra, 26);
    let mut enc = ArithEncoder::new();
    enc.encode_decision(enc_ctx.get_mut(0), 1);
    enc.encode_decision(enc_ctx.get_mut(0), 1);
    enc.encode_decision(enc_ctx.get_mut(0), 0);
    enc.encode_decision(enc_ctx.get_mut(7), 1);
    let data = enc.finish();

    let mut dec_ctx = ContextState::new(ContextVariant::Intra, 26);
    let mut dec = ArithDecoder::new(&data).expect("enough data");
    assert_eq!(dec.decode_truncated_unary(9, &mut dec_ctx, |_| 0), 2);
    assert_eq!(dec.decode_decision(dec_ctx.get_mut(7)), 1);
}

#[test]
fn rejects_data_too_short_to_initialise() {
    assert!(ArithDecoder::new(&[]).is_none());
    assert!(ArithDecoder::new(&[0x00]).is_none());
    assert!(ArithDecoder::new(&[0x00, 0x00]).is_some());
}

#[test]
fn truncated_data_does_not_panic() {
    let data = [0x12, 0x34];
    let mut ctx = ContextState::new(ContextVariant::Intra, 26);
    let mut dec = ArithDecoder::new(&data).expect("enough data");
    for i in 0..500 {
        dec.decode_decision(ctx.get_mut(i % NUM_CONTEXTS));
        dec.decode_bypass();
    }
    assert!(dec.overran(), "expected the overrun flag to be set");
}

#[test]
fn unary_numbers_are_read_back() {
    for value in 0..6u32 {
        let mut enc_ctx = ContextState::new(ContextVariant::Intra, 30);
        let mut enc = ArithEncoder::new();
        for bin in 0..value {
            enc.encode_decision(enc_ctx.get_mut(bin as usize), 1);
        }
        enc.encode_decision(enc_ctx.get_mut(value as usize), 0);
        let data = enc.finish();

        let mut dec_ctx = ContextState::new(ContextVariant::Intra, 30);
        let mut dec = ArithDecoder::new(&data).expect("enough data");
        assert_eq!(dec.decode_unary(20, &mut dec_ctx, |bin| bin as usize), value);
        for i in 0..NUM_CONTEXTS {
            assert_eq!(dec_ctx.get(i), enc_ctx.get(i), "context {i}");
        }
    }
}

#[test]
fn fixed_numbers_are_read_back() {
    for value in [0u32, 1, 5, 0b1010, 0b1111] {
        let mut enc = ArithEncoder::new();
        for bit in (0..4).rev() {
            enc.encode_bypass(((value >> bit) & 1) as u8);
        }
        let data = enc.finish();
        let mut dec = ArithDecoder::new(&data).expect("enough data");
        assert_eq!(dec.decode_fixed_bypass(4), value);
    }
}

#[test]
fn the_engine_counts_the_bits_it_has_read() {
    let data = [0x12u8, 0x34, 0x56];
    let mut dec = ArithDecoder::new(&data).expect("enough data");
    assert_eq!(dec.bits_read(), 9);
    dec.decode_bypass();
    assert_eq!(dec.bits_read(), 10);
}
