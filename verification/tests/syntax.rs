use lite_encoder::codec::h264::cabac::{ArithDecoder, ContextState, ContextVariant};
use lite_encoder::codec::h264::intra::{Intra16x16Mode};
use lite_encoder::codec::h264::mb::{MbType, Partitioning, SliceKind};
use lite_encoder::codec::h264::neighbour::MbAddr;
use lite_encoder::codec::h264::residual::{BlockCat};
use lite_encoder::codec::h264::state::{MbInfo, PictureState};
use lite_encoder::codec::h264::syntax::{CbfBlock, MbContext, cbf_category, coded_block_flag_ctx_inc, decode_coded_block_pattern, decode_intra_chroma_pred_mode, decode_intra_pred_mode, decode_mb_qp_delta, decode_mb_skip_flag, decode_mb_type, decode_mvd, decode_ref_idx, decode_sub_mb_type, decode_transform_size_8x8, mvd_ctx_inc};

fn state_with(mbs: &[(MbAddr, MbInfo)]) -> PictureState {
    let mut state = PictureState::new(4, 3);
    for &(addr, info) in mbs {
        state.put(addr, 0, info);
    }
    state.begin_macroblock(5, 0);
    state
}

fn context<'a>(state: &'a PictureState, cur: &'a MbInfo, addr: MbAddr) -> MbContext<'a> {
    MbContext {
        state,
        cur,
        addr,
        constrained_intra: false,
    }
}

fn inter(mv: [i16; 2]) -> MbInfo {
    let mut mb = MbInfo::new(MbType::Inter(Partitioning::P16x16), 26);
    mb.fill_motion(0, 0, 16, 16, mv);
    mb
}

fn intra_16x16() -> MbInfo {
    MbInfo::new(
        MbType::Intra16x16 {
            mode: Intra16x16Mode::Dc,
            cbp_luma: 15,
            cbp_chroma: 0,
        },
        26,
    )
}

#[test]
fn an_unavailable_neighbour_depends_on_the_current_macroblocks_type() {
    let state = state_with(&[]);

    let intra = intra_16x16();
    let c = context(&state, &intra, 5);
    assert_eq!(coded_block_flag_ctx_inc(&c, CbfBlock::Luma(0)), 3);

    let p = inter([0, 0]);
    let c = context(&state, &p, 5);
    assert_eq!(coded_block_flag_ctx_inc(&c, CbfBlock::Luma(0)), 0);
}

#[test]
fn a_coded_neighbour_raises_the_block_flag_context() {
    let mut left = intra_16x16();
    left.set_luma_cbf(5, true);
    let state = state_with(&[(4, left), (1, intra_16x16())]);

    let cur = intra_16x16();
    let c = context(&state, &cur, 5);
    assert_eq!(coded_block_flag_ctx_inc(&c, CbfBlock::Luma(0)), 1);

    let mut above = intra_16x16();
    above.set_luma_cbf(10, true);
    let state = state_with(&[(4, left), (1, above)]);
    let c = context(&state, &cur, 5);
    assert_eq!(coded_block_flag_ctx_inc(&c, CbfBlock::Luma(0)), 3);
}

#[test]
fn pcm_and_skip_neighbours_are_treated_as_full_and_empty() {
    let pcm = MbInfo::new(MbType::IPcm, 26);
    let state = state_with(&[(4, pcm), (1, MbInfo::skipped())]);
    let cur = intra_16x16();
    let c = context(&state, &cur, 5);
    assert_eq!(coded_block_flag_ctx_inc(&c, CbfBlock::Luma(0)), 1);
}

#[test]
fn the_vector_difference_context_ignores_large_but_agreeing_motion() {
    let mut left = inter([200, 200]);
    left.fill_mvd(0, 0, 16, 16, [0, 0]);
    let mut above = inter([200, 200]);
    above.fill_mvd(0, 0, 16, 16, [0, 0]);
    let state = state_with(&[(4, left), (1, above)]);

    let cur = inter([0, 0]);
    let c = context(&state, &cur, 5);
    assert_eq!(mvd_ctx_inc(&c, 0, 0), 0);

    let mut left = inter([0, 0]);
    left.fill_mvd(0, 0, 16, 16, [40, 0]);
    let state = state_with(&[(4, left), (1, above)]);
    let c = context(&state, &cur, 5);
    assert_eq!(mvd_ctx_inc(&c, 0, 0), 2);
}

#[test]
fn the_vector_difference_thresholds_are_three_and_thirty_three() {
    for (sum, expected) in [(2, 0), (3, 1), (32, 1), (33, 2)] {
        let mut left = inter([0, 0]);
        left.fill_mvd(0, 0, 16, 16, [sum, 0]);
        let state = state_with(&[(4, left)]);
        let cur = inter([0, 0]);
        let c = context(&state, &cur, 5);
        assert_eq!(mvd_ctx_inc(&c, 0, 0), expected, "sum {sum}");
    }
}

#[test]
fn an_intra_neighbour_contributes_no_vector_difference() {
    let mut left = intra_16x16();
    left.mvd = [[99, 99]; 16];
    let state = state_with(&[(4, left)]);
    let cur = inter([0, 0]);
    let c = context(&state, &cur, 5);
    assert_eq!(mvd_ctx_inc(&c, 0, 0), 0);
}

#[test]
fn the_block_category_splits_ac_from_full_blocks() {
    assert_eq!(
        cbf_category(CbfBlock::Luma(3), true),
        BlockCat::Intra16x16Ac
    );
    assert_eq!(cbf_category(CbfBlock::Luma(3), false), BlockCat::Luma4x4);
    assert_eq!(cbf_category(CbfBlock::LumaDc, true), BlockCat::Intra16x16Dc);
    assert_eq!(
        cbf_category(CbfBlock::ChromaDc(0), false),
        BlockCat::ChromaDc
    );
    assert_eq!(
        cbf_category(CbfBlock::ChromaAc(1, 2), false),
        BlockCat::ChromaAc
    );
}

#[test]
fn decoding_garbage_stays_within_the_context_bank_and_terminates() {
    let state = state_with(&[(4, inter([0, 0])), (1, intra_16x16())]);
    let cur = inter([0, 0]);

    for fill in [0x00u8, 0x55, 0xaa, 0xff] {
        let data = [fill; 8];
        let mut d = ArithDecoder::new(&data).expect("init");
        let mut cx = ContextState::new(ContextVariant::Intra, 26);
        let c = context(&state, &cur, 5);

        decode_mb_skip_flag(&mut d, &mut cx, &c);
        decode_mb_type(&mut d, &mut cx, &c, SliceKind::P);
        decode_sub_mb_type(&mut d, &mut cx);
        decode_transform_size_8x8(&mut d, &mut cx, &c);
        let chroma = decode_intra_chroma_pred_mode(&mut d, &mut cx, &c);
        assert!(chroma <= 3);
        let mode = decode_intra_pred_mode(&mut d, &mut cx, 4);
        assert!(mode < 9, "intra mode {mode} is out of range");
        let (luma, chroma) = decode_coded_block_pattern(&mut d, &mut cx, &c);
        assert!(luma <= 15 && chroma <= 2);
        let delta = decode_mb_qp_delta(&mut d, &mut cx, false);
        assert!(delta.abs() <= 52, "quantiser delta {delta} is out of range");
        assert!(decode_ref_idx(&mut d, &mut cx, &c, 0) <= 32);
        let mvd = decode_mvd(&mut d, &mut cx, &c, 0, 0);
        assert!(mvd.abs() < 1 << 24, "vector difference {mvd} ran away");
    }
}

#[test]
fn the_intra_mode_escape_skips_the_predicted_mode() {
    for predicted in 0..9u8 {
        let decoded: Vec<u8> = (0..8u8).map(|m| m + u8::from(m >= predicted)).collect();
        assert!(
            !decoded.contains(&predicted),
            "predicted {predicted} was reachable"
        );
        assert_eq!(
            decoded
                .iter()
                .collect::<std::collections::BTreeSet<_>>()
                .len(),
            8
        );
        assert!(decoded.iter().all(|&m| m < 9));
    }
}

#[test]
fn the_quantiser_delta_binarisation_alternates_sign() {
    let mapped = |value: i32| {
        let magnitude = (value + 1) / 2;
        if value % 2 == 1 {
            magnitude
        } else {
            -magnitude
        }
    };
    assert_eq!(mapped(0), 0);
    assert_eq!(mapped(1), 1);
    assert_eq!(mapped(2), -1);
    assert_eq!(mapped(3), 2);
    assert_eq!(mapped(4), -2);
}
