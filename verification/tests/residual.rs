use lite_encoder::codec::h264::cabac::{ArithDecoder, ContextState, ContextVariant, NUM_CONTEXTS};
use lite_encoder::codec::h264::residual::{BlockCat, LAST_8X8, SIG_8X8, ZIGZAG_4X4, ZIGZAG_8X8, decode_coefficients, last_inc, sig_inc};

const CATS: [BlockCat; 6] = [
    BlockCat::Intra16x16Dc,
    BlockCat::Intra16x16Ac,
    BlockCat::Luma4x4,
    BlockCat::ChromaDc,
    BlockCat::ChromaAc,
    BlockCat::Luma8x8,
];

#[test]
fn the_scan_orders_are_permutations() {
    let mut seen = [false; 16];
    for &pos in &ZIGZAG_4X4 {
        assert!(!seen[pos], "position {pos} appears twice");
        seen[pos] = true;
    }
    assert!(seen.iter().all(|&s| s));

    let mut seen = [false; 64];
    for &pos in &ZIGZAG_8X8 {
        assert!(!seen[pos], "position {pos} appears twice");
        seen[pos] = true;
    }
    assert!(seen.iter().all(|&s| s));
}

#[test]
fn the_scan_orders_run_from_low_to_high_frequency() {
    for (scan, side) in [(&ZIGZAG_4X4[..], 4), (&ZIGZAG_8X8[..], 8)] {
        assert_eq!(scan[0], 0, "the scan must open at DC");
        assert_eq!(*scan.last().unwrap(), side * side - 1);
        for pair in scan.windows(2) {
            let diagonal = |p: usize| p / side + p % side;
            let step = diagonal(pair[1]) as i32 - diagonal(pair[0]) as i32;
            assert!(step.abs() <= 1, "{:?} is not a zig-zag step", pair);
        }
    }
}

#[test]
fn every_category_has_a_coefficient_count_matching_its_shape() {
    assert_eq!(BlockCat::Intra16x16Dc.max_coeffs(), 16);
    assert_eq!(BlockCat::Luma4x4.max_coeffs(), 16);
    assert_eq!(BlockCat::Luma8x8.max_coeffs(), 64);
    assert_eq!(BlockCat::ChromaDc.max_coeffs(), 4);
    assert_eq!(BlockCat::Intra16x16Ac.max_coeffs(), 15);
    assert_eq!(BlockCat::ChromaAc.max_coeffs(), 15);
    for cat in CATS {
        assert_eq!(cat.is_ac(), cat.max_coeffs() == 15);
    }
}

#[test]
fn only_the_eight_by_eight_category_omits_the_coded_block_flag() {
    for cat in CATS {
        assert_eq!(cat.has_coded_block_flag(), cat != BlockCat::Luma8x8);
    }
}

#[test]
fn every_context_index_stays_within_the_context_bank() {

    for cat in CATS {
        let max = cat.max_coeffs();
        if cat.has_coded_block_flag() {
            for inc in 0..4 {
                assert!(cat.coded_block_flag_base() + inc < NUM_CONTEXTS);
            }
        }
        for i in 0..max - 1 {
            assert!(
                cat.significant_base() + sig_inc(cat, i) < NUM_CONTEXTS,
                "{cat:?} significance at {i}"
            );
            assert!(
                cat.last_significant_base() + last_inc(cat, i) < NUM_CONTEXTS,
                "{cat:?} last-significance at {i}"
            );
        }
        for inc in 0..10 {
            assert!(cat.level_base() + inc < NUM_CONTEXTS, "{cat:?} level {inc}");
        }
    }
}

#[test]
fn the_context_banks_of_different_categories_are_disjoint() {
    let mut used: Vec<(usize, String)> = Vec::new();
    for cat in CATS {
        for i in 0..cat.max_coeffs() - 1 {
            used.push((
                cat.significant_base() + sig_inc(cat, i),
                format!("{cat:?} significance"),
            ));
            used.push((
                cat.last_significant_base() + last_inc(cat, i),
                format!("{cat:?} last-significance"),
            ));
        }
    }
    used.sort();
    used.dedup();
    for pair in used.windows(2) {
        assert_ne!(
            pair[0].0, pair[1].0,
            "{} and {} share a context",
            pair[0].1, pair[1].1
        );
    }
}

#[test]
fn the_eight_by_eight_significance_tables_have_the_right_shape() {
    assert_eq!(*SIG_8X8.iter().max().unwrap(), 14);
    assert_eq!(SIG_8X8[0], 0);
    let used: std::collections::BTreeSet<_> = SIG_8X8.iter().collect();
    assert_eq!(used.len(), 15);

    assert!(LAST_8X8.windows(2).all(|w| w[1] >= w[0]));
    assert_eq!(*LAST_8X8.iter().max().unwrap(), 8);
    let used: std::collections::BTreeSet<_> = LAST_8X8.iter().collect();
    assert_eq!(used.len(), 9);
}

#[test]
fn context_increments_saturate_only_for_chroma_dc() {
    assert_eq!(
        (0..3)
            .map(|i| sig_inc(BlockCat::ChromaDc, i))
            .collect::<Vec<_>>(),
        vec![0, 1, 2]
    );
    for i in 0..15 {
        assert_eq!(sig_inc(BlockCat::Luma4x4, i), i);
        assert_eq!(last_inc(BlockCat::Intra16x16Ac, i), i);
    }
}

#[test]
fn garbage_input_terminates_within_the_block() {
    for cat in CATS {
        for fill in [0x00u8, 0x55, 0xff] {
            let data = [fill; 4];
            let mut d = ArithDecoder::new(&data).expect("init");
            let mut contexts =
                ContextState::new(ContextVariant::Intra, 26);
            let mut out = vec![0; cat.max_coeffs()];
            decode_coefficients(&mut d, &mut contexts, cat, &mut out);
            for &level in &out {
                assert!(level.abs() < 1 << 20, "{cat:?} decoded level {level}");
            }
        }
    }
}

#[test]
fn coded_blocks_hold_a_level() {
    let mut seed = 1u32;
    for round in 0..200 {
        let data: Vec<u8> = (0..64)
            .map(|_| {
                seed = seed.wrapping_mul(1_664_525).wrapping_add(1_013_904_223);
                (seed >> 24) as u8
            })
            .collect();
        let cat = CATS[round % 6];
        let mut outs = Vec::new();
        for fill in [0, 77] {
            let mut d = ArithDecoder::new(&data).expect("init");
            let mut contexts = ContextState::new(ContextVariant::Intra, 26);
            let mut out = vec![fill; cat.max_coeffs()];
            decode_coefficients(&mut d, &mut contexts, cat, &mut out);
            assert!(d.overran() || out.iter().any(|&level| level != 0), "{cat:?}");
            outs.push(out);
        }
        assert_eq!(outs[0], outs[1]);
    }
}
