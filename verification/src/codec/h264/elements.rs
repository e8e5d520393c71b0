//! The bins that the syntax elements of a macroblock are coded in.
//!
//! Each law here writes an element out as bins, with the number of the context
//! that each bin is coded against, and says that the decoder reads the element
//! back from them and stops right behind them.
use vstd::prelude::*;
use super::cabac::{Cabac, Context};
use super::cabac_coding::{
    behind, bin, decoded, golomb, held, lemma_parts, lemma_read, lemma_read_all, stands, Coder, Symbol,
};
use super::blocks::lemma_golomb;
use super::intra::Intra16x16Mode;
use super::math::wrap32;
use super::mb::{spec_mb_type, MbType, Part, Partitioning, SliceKind};
use super::state::MbModel;
use super::syntax::{
    intra_16x16_number, intra_chroma_pred_mode, intra_number_after, intra_pred_mode, mb_qp_delta, mb_skip_flag, mb_type_element,
    cbp_chroma_bits, cbp_luma_bits, cbp_luma_ctx, coded_block_pattern, count, known_empty,
    mvd_element, mvd_inc, mvd_prefix, qp_delta_bins, ref_idx_bins, ref_idx_element,
    sub_mb_type_element, transform_size_8x8, IntraMbTypeCtx, Surroundings,
};

verus! {

/// How an 8x8 partition is divided is read back: 1 leaves it whole, 00 halves it
/// into an upper and a lower part, 011 into a left and a right part, and 010
/// quarters it.
pub proof fn law_sub_macroblock_types_are_read_back(
    c: Coder,
    bank: Seq<Context>,
    number: int,
    data: Seq<u8>,
    start: nat,
)
    requires
        0 <= number <= 3,
        held(c, bank, sub_type_bins(number), data, start),
    ensures
        ({
            let (r, after) = sub_mb_type_element(stands(c, bank, data, start));
            &&& r is Some
            &&& r->0.spec_parts() == (if number == 0 {
                seq![Part { x: 0, y: 0, width: 8, height: 8 }]
            } else if number == 1 {
                seq![
                    Part { x: 0, y: 0, width: 8, height: 4 },
                    Part { x: 0, y: 4, width: 8, height: 4 },
                ]
            } else if number == 2 {
                seq![
                    Part { x: 0, y: 0, width: 4, height: 8 },
                    Part { x: 4, y: 0, width: 4, height: 8 },
                ]
            } else {
                seq![
                    Part { x: 0, y: 0, width: 4, height: 4 },
                    Part { x: 4, y: 0, width: 4, height: 4 },
                    Part { x: 0, y: 4, width: 4, height: 4 },
                    Part { x: 4, y: 4, width: 4, height: 4 },
                ]
            })
            &&& after == behind(c, bank, sub_type_bins(number), data, start)
        }),
{
    let w = sub_type_bins(number);
    let (c1, k1) = lemma_read(c, bank, w, data, start);
    let w1 = w.skip(1);
    if number == 0 {
        lemma_read_all(c1, k1, w1, data, start);
    } else {
        let (c2, k2) = lemma_read(c1, k1, w1, data, start);
        let w2 = w1.skip(1);
        if number == 1 {
            lemma_read_all(c2, k2, w2, data, start);
        } else {
            let (c3, k3) = lemma_read(c2, k2, w2, data, start);
            lemma_read_all(c3, k3, w2.skip(1), data, start);
        }
    }
}

/// The bins that say how an 8x8 partition is divided, by number.
pub open spec fn sub_type_bins(number: int) -> Seq<Symbol> {
    if number == 0 {
        seq![bin(21, 1)]
    } else if number == 1 {
        seq![bin(21, 0), bin(22, 0)]
    } else if number == 2 {
        seq![bin(21, 0), bin(22, 1), bin(23, 1)]
    } else {
        seq![bin(21, 0), bin(22, 1), bin(23, 0)]
    }
}


/// 1 if there is a neighbour and it is so, else 0.
pub open spec fn one_for(mb: Option<MbModel>, so: spec_fn(MbModel) -> bool) -> int {
    if mb is Some && so(mb->0) {
        1
    } else {
        0
    }
}

/// Whether a macroblock is skipped is read back from a bin against context 11,
/// one up for each neighbour that is not skipped.
pub proof fn law_skip_flags_are_read_back(
    c: Coder,
    bank: Seq<Context>,
    around: Surroundings,
    skip: bool,
    data: Seq<u8>,
    start: nat,
)
    requires
        held(c, bank, skip_bins(around, skip), data, start),
    ensures
        mb_skip_flag(stands(c, bank, data, start), around) == (
            skip,
            behind(c, bank, skip_bins(around, skip), data, start),
        ),
{
    let w = skip_bins(around, skip);
    let (c1, k1) = lemma_read(c, bank, w, data, start);
    lemma_read_all(c1, k1, w.skip(1), data, start);
}

/// The bin that says whether a macroblock is skipped.
pub open spec fn skip_bins(around: Surroundings, skip: bool) -> Seq<Symbol> {
    let busy = |m: MbModel| m.mb_type != MbType::PSkip;
    seq![bin(11 + one_for(around.left(), busy) + one_for(around.above(), busy), if skip {
        1
    } else {
        0
    })]
}

/// Whether the 8x8 transform is used is read back from a bin against context
/// 399, one up for each neighbour that uses it.
pub proof fn law_transform_flags_are_read_back(
    c: Coder,
    bank: Seq<Context>,
    around: Surroundings,
    large: bool,
    data: Seq<u8>,
    start: nat,
)
    requires
        held(c, bank, transform_bins(around, large), data, start),
    ensures
        transform_size_8x8(stands(c, bank, data, start), around) == (
            large,
            behind(c, bank, transform_bins(around, large), data, start),
        ),
{
    let w = transform_bins(around, large);
    let (c1, k1) = lemma_read(c, bank, w, data, start);
    lemma_read_all(c1, k1, w.skip(1), data, start);
}

/// The bin that says whether the 8x8 transform is used.
pub open spec fn transform_bins(around: Surroundings, large: bool) -> Seq<Symbol> {
    let large_there = |m: MbModel| m.transform_8x8;
    seq![bin(399 + one_for(around.left(), large_there) + one_for(around.above(), large_there), if large {
        1
    } else {
        0
    })]
}

// ---- Macroblock types -------------------------------------------------------

/// The mode of an `I_16x16` by its number.
pub open spec fn mode_16x16(number: int) -> Intra16x16Mode {
    if number == 0 {
        Intra16x16Mode::Vertical
    } else if number == 1 {
        Intra16x16Mode::Horizontal
    } else if number == 2 {
        Intra16x16Mode::Dc
    } else {
        Intra16x16Mode::Plane
    }
}

/// The bins of an `I_16x16` behind the first: it is no `I_PCM`, whether luma has
/// AC coefficients, whether chroma has coefficients and then whether AC ones, and
/// the mode in two bins.
pub open spec fn whole_bins(
    luma: bool,
    chroma: int,
    mode: int,
    contexts: (int, int, int, int, int),
) -> Seq<Symbol> {
    seq![
        Symbol::More,
        bin(contexts.0, if luma {
            1
        } else {
            0
        }),
    ] + (if chroma == 0 {
        seq![bin(contexts.1, 0)]
    } else if chroma == 1 {
        seq![bin(contexts.1, 1), bin(contexts.2, 0)]
    } else {
        seq![bin(contexts.1, 1), bin(contexts.2, 1)]
    }) + seq![
        bin(contexts.3, if mode >= 2 {
            1
        } else {
            0
        }),
        bin(contexts.4, if mode == 1 || mode == 3 {
            1
        } else {
            0
        }),
    ]
}

/// The context of the first bin of an intra type in an I slice: 3, one up for
/// each neighbour that is `I_16x16` or `I_PCM`.
pub open spec fn first_intra_context(around: Surroundings) -> int {
    let whole = |m: MbModel| m.mb_type is Intra16x16 || m.mb_type is IPcm;
    3 + one_for(around.left(), whole) + one_for(around.above(), whole)
}

/// The bins of an intra type of an I slice that is `I_16x16`: contexts 6 for
/// luma, 7 and 8 for chroma, 9 and 10 for the mode.
pub open spec fn i_slice_bins(around: Surroundings, luma: bool, chroma: int, mode: int) -> Seq<Symbol> {
    seq![bin(first_intra_context(around), 1)] + whole_bins(luma, chroma, mode, (6, 7, 8, 9, 10))
}

/// The bins of an intra type in a P slice that is `I_16x16`: a 1 that says it is
/// intra, and then contexts 18 for luma, 19 for chroma and 20 for the mode.
pub open spec fn p_slice_bins(luma: bool, chroma: int, mode: int) -> Seq<Symbol> {
    seq![bin(14, 1), bin(17, 1)] + whole_bins(luma, chroma, mode, (18, 19, 19, 20, 20))
}

/// An `I_NxN` in an I slice is read back from a 0, one in a P slice from 10.
pub proof fn law_intra_nxn_types_are_read_back(
    c: Coder,
    bank: Seq<Context>,
    around: Surroundings,
    slice: SliceKind,
    data: Seq<u8>,
    start: nat,
)
    requires
        held(c, bank, nxn_bins(around, slice), data, start),
    ensures
        mb_type_element(stands(c, bank, data, start), around, slice) == (
            Some(MbType::IntraNxN),
            behind(c, bank, nxn_bins(around, slice), data, start),
        ),
{
    let w = nxn_bins(around, slice);
    let (c1, k1) = lemma_read(c, bank, w, data, start);
    let w1 = w.skip(1);
    if slice is P {
        let (c2, k2) = lemma_read(c1, k1, w1, data, start);
        lemma_read_all(c2, k2, w1.skip(1), data, start);
    } else {
        lemma_read_all(c1, k1, w1, data, start);
    }
}

/// The bins of an `I_NxN`.
pub open spec fn nxn_bins(around: Surroundings, slice: SliceKind) -> Seq<Symbol> {
    match slice {
        SliceKind::I => seq![bin(first_intra_context(around), 0)],
        SliceKind::P => seq![bin(14, 1), bin(17, 0)],
    }
}

/// An `I_16x16` of either kind of slice is read back: its mode, whether all or
/// none of luma has AC coefficients, and how much of chroma is coded.
pub proof fn law_intra_16x16_types_are_read_back(
    c: Coder,
    bank: Seq<Context>,
    around: Surroundings,
    slice: SliceKind,
    luma: bool,
    chroma: int,
    mode: int,
    data: Seq<u8>,
    start: nat,
)
    requires
        0 <= chroma <= 2,
        0 <= mode <= 3,
        held(c, bank, whole_type_bins(around, slice, luma, chroma, mode), data, start),
    ensures
        mb_type_element(stands(c, bank, data, start), around, slice) == (
            Some(
                MbType::Intra16x16 {
                    mode: mode_16x16(mode),
                    cbp_luma: if luma {
                        15
                    } else {
                        0
                    },
                    cbp_chroma: chroma as u8,
                },
            ),
            behind(c, bank, whole_type_bins(around, slice, luma, chroma, mode), data, start),
        ),
{
    let s = stands(c, bank, data, start);
    let after = behind(c, bank, whole_type_bins(around, slice, luma, chroma, mode), data, start);
    let value = whole_number(luma, chroma, mode);
    assert(spec_mb_type(SliceKind::I, value) == Some(
        MbType::Intra16x16 {
            mode: mode_16x16(mode),
            cbp_luma: if luma {
                15
            } else {
                0
            },
            cbp_chroma: chroma as u8,
        },
    )) by {
        lemma_whole_type(luma, chroma, mode);
    }
    assert(mb_type_element(s, around, slice) == (spec_mb_type(SliceKind::I, value), after)) by {
        lemma_whole_element(c, bank, around, slice, luma, chroma, mode, data, start);
    }
}

/// The number of an `I_16x16`.
spec fn whole_number(luma: bool, chroma: int, mode: int) -> int {
    1 + (if luma {
        12int
    } else {
        0
    }) + 4 * chroma + mode
}

proof fn lemma_whole_type(luma: bool, chroma: int, mode: int)
    requires
        0 <= chroma <= 2,
        0 <= mode <= 3,
    ensures
        spec_mb_type(SliceKind::I, whole_number(luma, chroma, mode)) == Some(
            MbType::Intra16x16 {
                mode: mode_16x16(mode),
                cbp_luma: if luma {
                    15
                } else {
                    0
                },
                cbp_chroma: chroma as u8,
            },
        ),
{
}

proof fn lemma_whole_element(
    c: Coder,
    bank: Seq<Context>,
    around: Surroundings,
    slice: SliceKind,
    luma: bool,
    chroma: int,
    mode: int,
    data: Seq<u8>,
    start: nat,
)
    requires
        0 <= chroma <= 2,
        0 <= mode <= 3,
        held(c, bank, whole_type_bins(around, slice, luma, chroma, mode), data, start),
    ensures
        mb_type_element(stands(c, bank, data, start), around, slice) == (
            spec_mb_type(SliceKind::I, whole_number(luma, chroma, mode)),
            behind(c, bank, whole_type_bins(around, slice, luma, chroma, mode), data, start),
        ),
{
    let s = stands(c, bank, data, start);
    let after = behind(c, bank, whole_type_bins(around, slice, luma, chroma, mode), data, start);
    let value = whole_number(luma, chroma, mode);
    match slice {
        SliceKind::I => {
            let s1 = lemma_i_bins(c, bank, around, luma, chroma, mode, data, start);
            lemma_i_type(s, s1, around, value, after);
        },
        SliceKind::P => {
            let (s1, s2) = lemma_p_bins(c, bank, luma, chroma, mode, data, start);
            lemma_p_type(s, s1, s2, around, value, after);
        },
    }
}

proof fn lemma_i_bins(
    c: Coder,
    bank: Seq<Context>,
    around: Surroundings,
    luma: bool,
    chroma: int,
    mode: int,
    data: Seq<u8>,
    start: nat,
) -> (s1: Cabac)
    requires
        0 <= chroma <= 2,
        0 <= mode <= 3,
        held(c, bank, i_slice_bins(around, luma, chroma, mode), data, start),
    ensures
        stands(c, bank, data, start).decide(first_intra_context(around)) == (1int, s1),
        intra_number_after(1, s1, IntraMbTypeCtx::spec_i_slice()) == (
            whole_number(luma, chroma, mode),
            behind(c, bank, i_slice_bins(around, luma, chroma, mode), data, start),
        ),
{
    let all = i_slice_bins(around, luma, chroma, mode);
    let (c1, k1) = lemma_read(c, bank, all, data, start);
    assert(all.skip(1) =~= whole_bins(luma, chroma, mode, (6, 7, 8, 9, 10)));
    lemma_whole_bins(
        c1,
        k1,
        luma,
        chroma,
        mode,
        IntraMbTypeCtx::spec_i_slice(),
        (6, 7, 8, 9, 10),
        data,
        start,
    );
    stands(c1, k1, data, start)
}

proof fn lemma_p_bins(
    c: Coder,
    bank: Seq<Context>,
    luma: bool,
    chroma: int,
    mode: int,
    data: Seq<u8>,
    start: nat,
) -> (r: (Cabac, Cabac))
    requires
        0 <= chroma <= 2,
        0 <= mode <= 3,
        held(c, bank, p_slice_bins(luma, chroma, mode), data, start),
    ensures
        stands(c, bank, data, start).decide(14) == (1int, r.0),
        r.0.decide(17) == (1int, r.1),
        intra_number_after(1, r.1, IntraMbTypeCtx::spec_p_suffix()) == (
            whole_number(luma, chroma, mode),
            behind(c, bank, p_slice_bins(luma, chroma, mode), data, start),
        ),
{
    let all = p_slice_bins(luma, chroma, mode);
    let (c1, k1) = lemma_read(c, bank, all, data, start);
    let (c2, k2) = lemma_read(c1, k1, all.skip(1), data, start);
    assert(all.skip(1).skip(1) =~= whole_bins(luma, chroma, mode, (18, 19, 19, 20, 20)));
    lemma_whole_bins(
        c2,
        k2,
        luma,
        chroma,
        mode,
        IntraMbTypeCtx::spec_p_suffix(),
        (18, 19, 19, 20, 20),
        data,
        start,
    );
    (stands(c1, k1, data, start), stands(c2, k2, data, start))
}

/// An intra type of an I slice behind its first bin.
proof fn lemma_i_type(s: Cabac, s1: Cabac, around: Surroundings, value: int, after: Cabac)
    requires
        s.decide(first_intra_context(around)) == (1int, s1),
        intra_number_after(1, s1, IntraMbTypeCtx::spec_i_slice()) == (value, after),
    ensures
        mb_type_element(s, around, SliceKind::I) == (spec_mb_type(SliceKind::I, value), after),
{
}

/// An intra type of a P slice behind its first two bins.
proof fn lemma_p_type(
    s: Cabac,
    s1: Cabac,
    s2: Cabac,
    around: Surroundings,
    value: int,
    after: Cabac,
)
    requires
        s.decide(14) == (1int, s1),
        s1.decide(17) == (1int, s2),
        intra_number_after(1, s2, IntraMbTypeCtx::spec_p_suffix()) == (value, after),
    ensures
        mb_type_element(s, around, SliceKind::P) == (spec_mb_type(SliceKind::I, value), after),
{
}

/// The bins of an `I_16x16` behind the first are read back.
#[verifier::rlimit(50)]
proof fn lemma_whole_bins(
    c: Coder,
    bank: Seq<Context>,
    luma: bool,
    chroma: int,
    mode: int,
    contexts: IntraMbTypeCtx,
    named: (int, int, int, int, int),
    data: Seq<u8>,
    start: nat,
)
    requires
        0 <= chroma <= 2,
        0 <= mode <= 3,
        named == (
            contexts.luma as int,
            contexts.chroma_first as int,
            contexts.chroma_second as int,
            contexts.mode_first as int,
            contexts.mode_second as int,
        ),
        held(c, bank, whole_bins(luma, chroma, mode, named), data, start),
    ensures
        intra_number_after(1, stands(c, bank, data, start), contexts) == (
            1 + (if luma {
                12int
            } else {
                0
            }) + 4 * chroma + mode,
            behind(c, bank, whole_bins(luma, chroma, mode, named), data, start),
        ),
{
    let w = whole_bins(luma, chroma, mode, named);
    let (c1, k1) = lemma_read(c, bank, w, data, start);
    let w1 = w.skip(1);
    let (c2, k2) = lemma_read(c1, k1, w1, data, start);
    let w2 = w1.skip(1);
    let (c3, k3) = lemma_read(c2, k2, w2, data, start);
    let w3 = w2.skip(1);
    let (c4, k4, w4) = if chroma > 0 {
        let (c4, k4) = lemma_read(c3, k3, w3, data, start);
        (c4, k4, w3.skip(1))
    } else {
        (c3, k3, w3)
    };
    let (c5, k5) = lemma_read(c4, k4, w4, data, start);
    let w5 = w4.skip(1);
    let (c6, k6) = lemma_read(c5, k5, w5, data, start);
    lemma_read_all(c6, k6, w5.skip(1), data, start);
    lemma_whole_number(
        stands(c1, k1, data, start),
        stands(c2, k2, data, start),
        stands(c3, k3, data, start),
        stands(c4, k4, data, start),
        stands(c5, k5, data, start),
        stands(c6, k6, data, start),
        luma,
        chroma,
        mode,
        contexts,
    );
}

/// The number of an `I_16x16` by what its bins are.
proof fn lemma_whole_number(
    s: Cabac,
    s1: Cabac,
    s2: Cabac,
    s3: Cabac,
    s4: Cabac,
    s5: Cabac,
    luma: bool,
    chroma: int,
    mode: int,
    contexts: IntraMbTypeCtx,
)
    requires
        0 <= chroma <= 2,
        0 <= mode <= 3,
        s.decide(contexts.luma as int) == (if luma {
            1int
        } else {
            0
        }, s1),
        s1.decide(contexts.chroma_first as int) == (if chroma > 0 {
            1int
        } else {
            0
        }, s2),
        if chroma > 0 {
            s2.decide(contexts.chroma_second as int) == (chroma - 1, s3)
        } else {
            s2 == s3
        },
        s3.decide(contexts.mode_first as int) == (if mode >= 2 {
            1int
        } else {
            0
        }, s4),
        s4.decide(contexts.mode_second as int) == (if mode == 1 || mode == 3 {
            1int
        } else {
            0
        }, s5),
    ensures
        intra_16x16_number(s, contexts) == (
            1 + (if luma {
                12int
            } else {
                0
            }) + 4 * chroma + mode,
            s5,
        ),
{
}

/// The bins of an `I_16x16` of either kind of slice.
pub open spec fn whole_type_bins(
    around: Surroundings,
    slice: SliceKind,
    luma: bool,
    chroma: int,
    mode: int,
) -> Seq<Symbol> {
    match slice {
        SliceKind::I => i_slice_bins(around, luma, chroma, mode),
        SliceKind::P => p_slice_bins(luma, chroma, mode),
    }
}

/// An `I_PCM` is read back: the bins that say it is no `I_NxN`, and then the end.
pub proof fn law_raw_types_are_read_back(
    c: Coder,
    bank: Seq<Context>,
    around: Surroundings,
    slice: SliceKind,
    data: Seq<u8>,
    start: nat,
)
    requires
        held(c, bank, not_nxn_bins(around, slice), data, start),
        c.coded_all(bank, not_nxn_bins(around, slice)).0.end().holds(data, start),
    ensures
        mb_type_element(stands(c, bank, data, start), around, slice).0 == Some(MbType::IPcm),
{
    let w = not_nxn_bins(around, slice);
    let (c1, k1) = lemma_read(c, bank, w, data, start);
    let w1 = w.skip(1);
    let (c3, k3) = if slice is P {
        let (c2, k2) = lemma_read(c1, k1, w1, data, start);
        lemma_read_all(c2, k2, w1.skip(1), data, start);
        (c2, k2)
    } else {
        lemma_read_all(c1, k1, w1, data, start);
        (c1, k1)
    };
    reveal_with_fuel(Coder::coded_all, 3);
    assert(c3 == c.coded_all(bank, w).0);
}

/// The bins that say an intra macroblock is no `I_NxN`.
pub open spec fn not_nxn_bins(around: Surroundings, slice: SliceKind) -> Seq<Symbol> {
    match slice {
        SliceKind::I => seq![bin(first_intra_context(around), 1)],
        SliceKind::P => seq![bin(14, 1), bin(17, 1)],
    }
}

/// How an inter macroblock is divided is read back: 000 leaves it whole, 011
/// halves it into an upper and a lower part, 010 into a left and a right part,
/// and 001 quarters it.
pub proof fn law_inter_types_are_read_back(
    c: Coder,
    bank: Seq<Context>,
    around: Surroundings,
    number: int,
    data: Seq<u8>,
    start: nat,
)
    requires
        0 <= number <= 3,
        held(c, bank, inter_bins(number), data, start),
    ensures
        mb_type_element(stands(c, bank, data, start), around, SliceKind::P) == (
            Some(MbType::Inter(numbered_partitioning(number))),
            behind(c, bank, inter_bins(number), data, start),
        ),
        numbered_partitioning(number).spec_parts() == numbered_parts(number),
{
    let w = inter_bins(number);
    let s = stands(c, bank, data, start);
    let after = behind(c, bank, w, data, start);
    let p = numbered_partitioning(number);
    assert(mb_type_element(s, around, SliceKind::P) == (Some(MbType::Inter(p)), after)) by {
        lemma_inter_element(c, bank, around, number, data, start);
    }
    assert(p.spec_parts() =~= numbered_parts(number));
}

/// How an inter macroblock of a number is divided.
pub open spec fn numbered_partitioning(number: int) -> Partitioning {
    if number == 0 {
        Partitioning::P16x16
    } else if number == 1 {
        Partitioning::P16x8
    } else if number == 2 {
        Partitioning::P8x16
    } else {
        Partitioning::P8x8
    }
}

/// The parts of an inter macroblock of a number.
pub open spec fn numbered_parts(number: int) -> Seq<Part> {
    if number == 0 {
        seq![Part { x: 0, y: 0, width: 16, height: 16 }]
    } else if number == 1 {
        seq![
            Part { x: 0, y: 0, width: 16, height: 8 },
            Part { x: 0, y: 8, width: 16, height: 8 },
        ]
    } else if number == 2 {
        seq![
            Part { x: 0, y: 0, width: 8, height: 16 },
            Part { x: 8, y: 0, width: 8, height: 16 },
        ]
    } else {
        seq![
            Part { x: 0, y: 0, width: 8, height: 8 },
            Part { x: 8, y: 0, width: 8, height: 8 },
            Part { x: 0, y: 8, width: 8, height: 8 },
            Part { x: 8, y: 8, width: 8, height: 8 },
        ]
    }
}

proof fn lemma_inter_element(
    c: Coder,
    bank: Seq<Context>,
    around: Surroundings,
    number: int,
    data: Seq<u8>,
    start: nat,
)
    requires
        0 <= number <= 3,
        held(c, bank, inter_bins(number), data, start),
    ensures
        mb_type_element(stands(c, bank, data, start), around, SliceKind::P) == (
            Some(MbType::Inter(numbered_partitioning(number))),
            behind(c, bank, inter_bins(number), data, start),
        ),
{
    let w = inter_bins(number);
    let s = stands(c, bank, data, start);
    let (s1, s2) = lemma_three(c, bank, w, data, start);
    lemma_inter_type(s, s1, s2, behind(c, bank, w, data, start), around, w);
}

/// Three symbols are read one after the other.
proof fn lemma_three(
    c: Coder,
    bank: Seq<Context>,
    w: Seq<Symbol>,
    data: Seq<u8>,
    start: nat,
) -> (r: (Cabac, Cabac))
    requires
        w.len() == 3,
        held(c, bank, w, data, start),
    ensures
        decoded(stands(c, bank, data, start), w[0]) == (w[0], r.0),
        decoded(r.0, w[1]) == (w[1], r.1),
        decoded(r.1, w[2]) == (w[2], behind(c, bank, w, data, start)),
{
    let (c1, k1) = lemma_read(c, bank, w, data, start);
    let (c2, k2) = lemma_read(c1, k1, w.skip(1), data, start);
    let (c3, k3) = lemma_read(c2, k2, w.skip(1).skip(1), data, start);
    lemma_read_all(c3, k3, w.skip(1).skip(1).skip(1), data, start);
    (stands(c1, k1, data, start), stands(c2, k2, data, start))
}

proof fn lemma_inter_type(
    s: Cabac,
    s1: Cabac,
    s2: Cabac,
    s3: Cabac,
    around: Surroundings,
    w: Seq<Symbol>,
)
    requires
        w.len() == 3,
        w[0] == bin(14, 0),
        w[1] == bin(15, 0) && (w[2] == bin(16, 0) || w[2] == bin(16, 1)) || w[1] == bin(15, 1) && (
        w[2] == bin(17, 0) || w[2] == bin(17, 1)),
        decoded(s, w[0]) == (w[0], s1),
        decoded(s1, w[1]) == (w[1], s2),
        decoded(s2, w[2]) == (w[2], s3),
    ensures
        mb_type_element(s, around, SliceKind::P) == (
            Some(
                MbType::Inter(
                    if w[1] == bin(15, 0) {
                        if w[2] == bin(16, 0) {
                            Partitioning::P16x16
                        } else {
                            Partitioning::P8x8
                        }
                    } else if w[2] == bin(17, 1) {
                        Partitioning::P16x8
                    } else {
                        Partitioning::P8x16
                    },
                ),
            ),
            s3,
        ),
{
}

/// The bins of an inter type, by number.
pub open spec fn inter_bins(number: int) -> Seq<Symbol> {
    if number == 0 {
        seq![bin(14, 0), bin(15, 0), bin(16, 0)]
    } else if number == 1 {
        seq![bin(14, 0), bin(15, 1), bin(17, 1)]
    } else if number == 2 {
        seq![bin(14, 0), bin(15, 1), bin(17, 0)]
    } else {
        seq![bin(14, 0), bin(15, 0), bin(16, 1)]
    }
}

// ---- Prediction modes -------------------------------------------------------

/// The chroma mode is read back: as many ones as its number and, up to 2, a
/// zero. The first bin goes against context 64, one up for each intra neighbour
/// but `I_PCM` with a mode other than 0, the others against 67.
pub proof fn law_chroma_modes_are_read_back(
    c: Coder,
    bank: Seq<Context>,
    around: Surroundings,
    mode: int,
    data: Seq<u8>,
    start: nat,
)
    requires
        0 <= mode <= 3,
        held(c, bank, chroma_mode_bins(around, mode), data, start),
    ensures
        intra_chroma_pred_mode(stands(c, bank, data, start), around) == (
            mode,
            behind(c, bank, chroma_mode_bins(around, mode), data, start),
        ),
{
    let w = chroma_mode_bins(around, mode);
    let (c1, k1) = lemma_read(c, bank, w, data, start);
    let w1 = w.skip(1);
    if mode == 0 {
        lemma_read_all(c1, k1, w1, data, start);
    } else {
        let (c2, k2) = lemma_read(c1, k1, w1, data, start);
        let w2 = w1.skip(1);
        if mode == 1 {
            lemma_read_all(c2, k2, w2, data, start);
        } else {
            let (c3, k3) = lemma_read(c2, k2, w2, data, start);
            lemma_read_all(c3, k3, w2.skip(1), data, start);
        }
    }
}

/// The bins of a chroma mode.
pub open spec fn chroma_mode_bins(around: Surroundings, mode: int) -> Seq<Symbol> {
    let other = |m: MbModel|
        (m.mb_type is IntraNxN || m.mb_type is Intra16x16) && m.chroma_mode != 0;
    let first = 64 + one_for(around.left(), other) + one_for(around.above(), other);
    if mode == 0 {
        seq![bin(first, 0)]
    } else if mode == 1 {
        seq![bin(first, 1), bin(67, 0)]
    } else if mode == 2 {
        seq![bin(first, 1), bin(67, 1), bin(67, 0)]
    } else {
        seq![bin(first, 1), bin(67, 1), bin(67, 1)]
    }
}

/// The intra mode of a block is read back: a 1 against context 68 for the
/// predicted mode; for another a 0, and against context 69 in three bins, the
/// lowest first, how many of the modes but the predicted one are below it.
pub proof fn law_intra_modes_are_read_back(
    c: Coder,
    bank: Seq<Context>,
    predicted: int,
    mode: int,
    data: Seq<u8>,
    start: nat,
)
    requires
        0 <= predicted <= 8,
        0 <= mode <= 8,
        held(c, bank, intra_mode_bins(predicted, mode), data, start),
    ensures
        intra_pred_mode(stands(c, bank, data, start), predicted) == (
            mode,
            behind(c, bank, intra_mode_bins(predicted, mode), data, start),
        ),
{
    let w = intra_mode_bins(predicted, mode);
    let (c1, k1) = lemma_read(c, bank, w, data, start);
    let w1 = w.skip(1);
    if mode == predicted {
        lemma_read_all(c1, k1, w1, data, start);
    } else {
        let (c2, k2) = lemma_read(c1, k1, w1, data, start);
        let w2 = w1.skip(1);
        let (c3, k3) = lemma_read(c2, k2, w2, data, start);
        let w3 = w2.skip(1);
        let (c4, k4) = lemma_read(c3, k3, w3, data, start);
        lemma_read_all(c4, k4, w3.skip(1), data, start);
        lemma_intra_mode(
            stands(c, bank, data, start),
            stands(c1, k1, data, start),
            stands(c2, k2, data, start),
            stands(c3, k3, data, start),
            stands(c4, k4, data, start),
            predicted,
            mode,
        );
    }
}

proof fn lemma_intra_mode(
    s: Cabac,
    s1: Cabac,
    s2: Cabac,
    s3: Cabac,
    s4: Cabac,
    predicted: int,
    mode: int,
)
    requires
        0 <= predicted <= 8,
        0 <= mode <= 8,
        mode != predicted,
        s.decide(68) == (0int, s1),
        ({
            let below = if mode > predicted {
                mode - 1
            } else {
                mode
            };
            &&& s1.decide(69) == (below % 2, s2)
            &&& s2.decide(69) == (below / 2 % 2, s3)
            &&& s3.decide(69) == (below / 4, s4)
        }),
    ensures
        intra_pred_mode(s, predicted) == (mode, s4),
{
}

/// The bins of the intra mode of a block.
pub open spec fn intra_mode_bins(predicted: int, mode: int) -> Seq<Symbol> {
    let below = if mode > predicted {
        mode - 1
    } else {
        mode
    };
    if mode == predicted {
        seq![bin(68, 1)]
    } else {
        seq![bin(68, 0), bin(69, below % 2), bin(69, below / 2 % 2), bin(69, below / 4)]
    }
}

// ---- Numbers ----------------------------------------------------------------

/// `n` ones and a zero, the first bin against one context, the second against
/// another, and all others against a third.
pub open spec fn ones_and_zero(n: int, first: int, second: int, others: int) -> Seq<Symbol>
    decreases n,
{
    if n <= 0 {
        seq![bin(first, 0)]
    } else {
        seq![bin(first, 1)] + ones_and_zero(n - 1, second, others, others)
    }
}

/// A reference index is read back: as many ones as its number and a zero, the
/// first bin against context 54, one up if the block to the left refers to a
/// picture other than the first and two up if the block above does, the second
/// against 58 and all others against 59.
pub proof fn law_reference_indices_are_read_back(
    c: Coder,
    bank: Seq<Context>,
    around: Surroundings,
    blk: int,
    n: int,
    data: Seq<u8>,
    start: nat,
)
    requires
        0 <= n <= 31,
        held(c, bank, ref_bins(around, blk, n), data, start),
    ensures
        ref_idx_element(stands(c, bank, data, start), around, blk) == (
            n,
            behind(c, bank, ref_bins(around, blk, n), data, start),
        ),
{
    let inc = away(around, blk, -1, 0) + 2 * away(around, blk, 0, -1);
    lemma_ref_bins(c, bank, inc, 0, n, data, start);
}

/// 1 if the block at an offset is predicted from a picture other than the first
/// of the list, else 0.
pub open spec fn away(around: Surroundings, blk: int, dx: int, dy: int) -> int {
    match around.pic.grid.spec_luma_4x4_neighbour(around.addr, blk, dx, dy) {
        Some(at) => {
            let m = around.info(at);
            if (m.mb_type is Inter || m.mb_type is PSkip) && m.ref_idx[at.blk as int / 4] >= 1 {
                1
            } else {
                0
            }
        },
        None => 0,
    }
}

/// The bins of a reference index.
pub open spec fn ref_bins(around: Surroundings, blk: int, n: int) -> Seq<Symbol> {
    ones_and_zero(n, 54 + away(around, blk, -1, 0) + 2 * away(around, blk, 0, -1), 58, 59)
}

proof fn lemma_ref_bins(
    c: Coder,
    bank: Seq<Context>,
    inc: int,
    from: int,
    n: int,
    data: Seq<u8>,
    start: nat,
)
    requires
        0 <= from,
        0 <= n,
        from + n <= 31,
        0 <= inc <= 5,
        held(c, bank, ones_and_zero(n, 54 + inc, 54 + inc / 4 + 4, 59), data, start),
    ensures
        ref_idx_bins(stands(c, bank, data, start), inc, from) == (
            from + n,
            behind(c, bank, ones_and_zero(n, 54 + inc, 54 + inc / 4 + 4, 59), data, start),
        ),
    decreases n,
{
    let w = ones_and_zero(n, 54 + inc, 54 + inc / 4 + 4, 59);
    let (c1, k1) = lemma_read(c, bank, w, data, start);
    if n > 0 {
        let rest = ones_and_zero(n - 1, 54 + inc / 4 + 4, 59, 59);
        assert(w.skip(1) =~= rest);
        assert(54 + (inc / 4 + 4) / 4 + 4 == 59);
        lemma_ref_bins(c1, k1, inc / 4 + 4, from + 1, n - 1, data, start);
    } else {
        lemma_read_all(c1, k1, w.skip(1), data, start);
    }
}

/// A quantiser delta is read back: 0, 1, -1, 2, -2 and so on by how many ones
/// stand before a zero, the first bin against context 60 or, where the delta
/// before was not 0, 61, the second against 62 and all others against 63.
pub proof fn law_quantiser_deltas_are_read_back(
    c: Coder,
    bank: Seq<Context>,
    nonzero_before: bool,
    delta: int,
    data: Seq<u8>,
    start: nat,
)
    requires
        -51 <= delta <= 51,
        held(c, bank, delta_bins(nonzero_before, delta), data, start),
    ensures
        mb_qp_delta(stands(c, bank, data, start), nonzero_before) == (
            delta,
            behind(c, bank, delta_bins(nonzero_before, delta), data, start),
        ),
{
    let n = if delta > 0 {
        2 * delta - 1
    } else {
        -2 * delta
    };
    lemma_delta_bins(c, bank, if nonzero_before {
        1
    } else {
        0
    }, 0, n, data, start);
}

/// The bins of a quantiser delta.
pub open spec fn delta_bins(nonzero_before: bool, delta: int) -> Seq<Symbol> {
    ones_and_zero(
        if delta > 0 {
            2 * delta - 1
        } else {
            -2 * delta
        },
        if nonzero_before {
            61
        } else {
            60
        },
        62,
        63,
    )
}

proof fn lemma_delta_bins(
    c: Coder,
    bank: Seq<Context>,
    inc: int,
    from: int,
    n: int,
    data: Seq<u8>,
    start: nat,
)
    requires
        0 <= from,
        0 <= n,
        from + n < 104,
        0 <= inc <= 3,
        held(c, bank, ones_and_zero(n, 60 + inc, 62 + inc / 2, 63), data, start),
    ensures
        qp_delta_bins(stands(c, bank, data, start), inc, from) == (
            from + n,
            behind(c, bank, ones_and_zero(n, 60 + inc, 62 + inc / 2, 63), data, start),
        ),
    decreases n,
{
    let w = ones_and_zero(n, 60 + inc, 62 + inc / 2, 63);
    let (c1, k1) = lemma_read(c, bank, w, data, start);
    if n > 0 {
        let rest = ones_and_zero(n - 1, 62 + inc / 2, 63, 63);
        assert(w.skip(1) =~= rest);
        assert(62 + (2 + inc / 2) / 2 == 63);
        lemma_delta_bins(c1, k1, 2 + inc / 2, from + 1, n - 1, data, start);
    } else {
        lemma_read_all(c1, k1, w.skip(1), data, start);
    }
}

// ---- Vectors ----------------------------------------------------------------

/// The size of one component of the vector difference of the block at an offset:
/// nothing where no difference was coded.
pub open spec fn difference_at(
    around: Surroundings,
    blk: int,
    dx: int,
    dy: int,
    vertical: bool,
) -> int {
    match around.pic.grid.spec_luma_4x4_neighbour(around.addr, blk, dx, dy) {
        Some(at) => {
            let m = around.info(at);
            let v = if vertical {
                m.mvd[at.blk as int].1 as int
            } else {
                m.mvd[at.blk as int].0 as int
            };
            if m.mb_type !is Inter {
                0
            } else if v < 0 {
                -v
            } else {
                v
            }
        },
        None => 0,
    }
}

/// The context of the first bin of a vector difference: the first of its
/// component while the differences to the left and above add up to less than 3,
/// the second up to 32, and else the third.
pub open spec fn first_vector_context(around: Surroundings, blk: int, vertical: bool) -> int {
    let sum = difference_at(around, blk, -1, 0, vertical) + difference_at(
        around,
        blk,
        0,
        -1,
        vertical,
    );
    (if vertical {
        47int
    } else {
        40
    }) + (if sum < 3 {
        0int
    } else if sum < 33 {
        1
    } else {
        2
    })
}

/// The bins that say how far a difference goes beyond 1, up to 9: the contexts
/// behind the first three are taken in turn, and the last of four for all others.
pub open spec fn prefix_bins(vertical: bool, from: int, n: int) -> Seq<Symbol>
    decreases 9 - from,
{
    let ctx = (if vertical {
        50int
    } else {
        43
    }) + (if from < 4 {
        from - 1
    } else {
        3
    });
    if from >= 9 {
        Seq::empty()
    } else if from >= n {
        seq![bin(ctx, 0)]
    } else {
        seq![bin(ctx, 1)] + prefix_bins(vertical, from + 1, n)
    }
}

/// The bins of one component of a vector difference: whether it is zero, how far
/// it goes up to 9, what is beyond as an Exp-Golomb number of order 3, the sign.
pub open spec fn vector_bins(around: Surroundings, blk: int, vertical: bool, v: int) -> Seq<Symbol> {
    let first = first_vector_context(around, blk, vertical);
    let n = if v < 0 {
        -v
    } else {
        v
    };
    if v == 0 {
        seq![bin(first, 0)]
    } else {
        seq![bin(first, 1)] + (prefix_bins(vertical, 1, n) + ((if n < 9 {
            Seq::empty()
        } else {
            golomb(n - 9, 3)
        }) + seq![Symbol::Even { bin: if v < 0 {
            1
        } else {
            0
        } }]))
    }
}

/// A component of a vector difference is read back.
pub proof fn law_vector_differences_are_read_back(
    c: Coder,
    bank: Seq<Context>,
    around: Surroundings,
    blk: int,
    vertical: bool,
    v: int,
    data: Seq<u8>,
    start: nat,
)
    requires
        -0x7fff_ffff <= v <= 0x7fff_ffff,
        held(c, bank, vector_bins(around, blk, vertical, v), data, start),
    ensures
        mvd_element(stands(c, bank, data, start), around, blk, if vertical {
            1
        } else {
            0
        }) == (v, behind(c, bank, vector_bins(around, blk, vertical, v), data, start)),
{
    let comp: int = if vertical {
        1
    } else {
        0
    };
    let w = vector_bins(around, blk, vertical, v);
    let first = first_vector_context(around, blk, vertical);
    let base: int = if vertical {
        47
    } else {
        40
    };
    assert(first == base + mvd_inc(around, blk, comp));
    let s = stands(c, bank, data, start);
    let after = behind(c, bank, w, data, start);
    let (c1, k1) = lemma_read(c, bank, w, data, start);
    let s1 = stands(c1, k1, data, start);
    let w1 = w.skip(1);
    if v == 0 {
        lemma_read_all(c1, k1, w1, data, start);
    } else {
        let n = if v < 0 {
            -v
        } else {
            v
        };
        let suffix = if n < 9 {
            Seq::empty()
        } else {
            golomb(n - 9, 3)
        };
        let sign = seq![Symbol::Even { bin: if v < 0 {
            1
        } else {
            0
        } }];
        assert(w1 =~= prefix_bins(vertical, 1, n) + (suffix + sign));
        let (c2, k2) = lemma_parts(
            c1,
            k1,
            prefix_bins(vertical, 1, n),
            suffix + sign,
            data,
            start,
        );
        let s2 = stands(c2, k2, data, start);
        assert(mvd_prefix(s1, base + 3, 1) == (if n < 9 {
            n
        } else {
            9
        }, s2)) by {
            lemma_prefix_bins(c1, k1, vertical, 1, n, data, start);
        }
        let (c3, k3) = lemma_parts(c2, k2, suffix, sign, data, start);
        let s3 = stands(c3, k3, data, start);
        if n < 9 {
            lemma_read_all(c2, k2, suffix, data, start);
        } else {
            lemma_golomb(c2, k2, n - 9, 3, data, start);
        }
        assert(s3.bypass() == (if v < 0 {
            1int
        } else {
            0
        }, after)) by {
            let (c4, k4) = lemma_read(c3, k3, sign, data, start);
            lemma_read_all(c4, k4, sign.skip(1), data, start);
        }
        lemma_vector(s, s1, s2, s3, after, around, blk, comp, v);
    }
}

proof fn lemma_vector(
    s: Cabac,
    s1: Cabac,
    s2: Cabac,
    s3: Cabac,
    s4: Cabac,
    around: Surroundings,
    blk: int,
    comp: int,
    v: int,
)
    requires
        v != 0,
        -0x7fff_ffff <= v <= 0x7fff_ffff,
        ({
            let base: int = if comp == 0 {
                40
            } else {
                47
            };
            let n = if v < 0 {
                -v
            } else {
                v
            };
            &&& s.decide(base + mvd_inc(around, blk, comp)) == (1int, s1)
            &&& mvd_prefix(s1, base + 3, 1) == (if n < 9 {
                n
            } else {
                9
            }, s2)
            &&& n < 9 ==> s2 == s3
            &&& n >= 9 ==> s2.exp_golomb(3) == (n - 9, s3)
            &&& s3.bypass() == (if v < 0 {
                1int
            } else {
                0
            }, s4)
        }),
    ensures
        mvd_element(s, around, blk, comp) == (v, s4),
{
    reveal(wrap32);
}

proof fn lemma_prefix_bins(
    c: Coder,
    bank: Seq<Context>,
    vertical: bool,
    from: int,
    n: int,
    data: Seq<u8>,
    start: nat,
)
    requires
        1 <= from <= 9,
        from <= n,
        held(c, bank, prefix_bins(vertical, from, n), data, start),
    ensures
        mvd_prefix(
            stands(c, bank, data, start),
            (if vertical {
                47int
            } else {
                40
            }) + (if from < 4 {
                from + 2
            } else {
                6
            }),
            from,
        ) == (if n < 9 {
            n
        } else {
            9
        }, behind(c, bank, prefix_bins(vertical, from, n), data, start)),
    decreases 9 - from,
{
    let w = prefix_bins(vertical, from, n);
    if from >= 9 {
        lemma_read_all(c, bank, w, data, start);
    } else {
        let (c1, k1) = lemma_read(c, bank, w, data, start);
        if from >= n {
            lemma_read_all(c1, k1, w.skip(1), data, start);
        } else {
            assert(w.skip(1) =~= prefix_bins(vertical, from + 1, n));
            lemma_prefix_bins(c1, k1, vertical, from + 1, n, data, start);
        }
    }
}

// ---- Coded block patterns ---------------------------------------------------

/// Bit `k` of a number.
pub open spec fn flag(v: u8, k: int) -> int {
    if k == 0 {
        v as int % 2
    } else if k == 1 {
        v as int / 2 % 2
    } else if k == 2 {
        v as int / 4 % 2
    } else {
        v as int / 8 % 2
    }
}

/// 1 if a macroblock is there and its 8x8 block `k` is known to have no levels,
/// which is never known of an `I_PCM`.
pub open spec fn empty_in(mb: Option<MbModel>, k: int) -> int {
    if mb is Some && mb->0.mb_type !is IPcm && flag(mb->0.cbp_luma, k) == 0 {
        1
    } else {
        0
    }
}

/// The bin of 8x8 block `k` of a luma pattern: against context 73, one up if the
/// block to its left has no levels and two up if the block above has none. The
/// blocks stand in two rows of two.
pub open spec fn luma_bin(around: Surroundings, luma: u8, k: int) -> Symbol {
    let left = if k % 2 == 1 {
        1 - flag(luma, k - 1)
    } else {
        empty_in(around.left(), k + 1)
    };
    let above = if k >= 2 {
        1 - flag(luma, k - 2)
    } else {
        empty_in(around.above(), k + 2)
    };
    bin(73 + left + 2 * above, flag(luma, k))
}

/// 1 if a macroblock is there whose chroma pattern is at least `least`.
pub open spec fn chroma_in(mb: Option<MbModel>, least: int) -> int {
    if mb is Some && mb->0.cbp_chroma >= least {
        1
    } else {
        0
    }
}

/// The bins of a chroma pattern: whether there are levels, against context 77, and
/// whether there are more than the DC ones, against context 81, each one up if
/// the macroblock to the left has as much and two up if the one above has.
pub open spec fn chroma_bins(around: Surroundings, chroma: int) -> Seq<Symbol> {
    let some = 77 + chroma_in(around.left(), 1) + 2 * chroma_in(around.above(), 1);
    let all = 81 + chroma_in(around.left(), 2) + 2 * chroma_in(around.above(), 2);
    if chroma == 0 {
        seq![bin(some, 0)]
    } else if chroma == 1 {
        seq![bin(some, 1), bin(all, 0)]
    } else {
        seq![bin(some, 1), bin(all, 1)]
    }
}

/// The bins of a coded block pattern.
pub open spec fn pattern_bins(around: Surroundings, luma: u8, chroma: int) -> Seq<Symbol> {
    seq![
        luma_bin(around, luma, 0),
        luma_bin(around, luma, 1),
        luma_bin(around, luma, 2),
        luma_bin(around, luma, 3),
    ] + chroma_bins(around, chroma)
}

/// A coded block pattern is read back.
pub proof fn law_patterns_are_read_back(
    c: Coder,
    bank: Seq<Context>,
    around: Surroundings,
    luma: u8,
    chroma: int,
    data: Seq<u8>,
    start: nat,
)
    requires
        around.wf(),
        around.pic.mbs.len() <= usize::MAX,
        luma <= 15,
        0 <= chroma <= 2,
        forall|m: int|
            0 <= m < around.pic.mbs.len() ==> (#[trigger] around.pic.mbs[m]).cbp_chroma <= 2,
        held(c, bank, pattern_bins(around, luma, chroma), data, start),
    ensures
        coded_block_pattern(stands(c, bank, data, start), around) == (
            (luma, chroma as u8),
            behind(c, bank, pattern_bins(around, luma, chroma), data, start),
        ),
{
    let w = pattern_bins(around, luma, chroma);
    let s = stands(c, bank, data, start);
    lemma_bits(luma);
    let (c1, k1) = lemma_luma_bin(c, bank, around, luma, 0, w, data, start);
    let (c2, k2) = lemma_luma_bin(c1, k1, around, luma, 1, w.skip(1), data, start);
    let (c3, k3) = lemma_luma_bin(c2, k2, around, luma, 2, w.skip(1).skip(1), data, start);
    let (c4, k4) = lemma_luma_bin(c3, k3, around, luma, 3, w.skip(1).skip(1).skip(1), data, start);
    let s4 = stands(c4, k4, data, start);
    assert(cbp_luma_bits(s, around, 0, 0) == (luma, s4)) by {
        reveal_with_fuel(cbp_luma_bits, 1);
    }
    let rest = w.skip(1).skip(1).skip(1).skip(1);
    assert(rest =~= chroma_bins(around, chroma));
    lemma_chroma_bins(c4, k4, around, chroma, data, start);
}

proof fn lemma_chroma_bins(
    c: Coder,
    bank: Seq<Context>,
    around: Surroundings,
    chroma: int,
    data: Seq<u8>,
    start: nat,
)
    requires
        around.wf(),
        0 <= chroma <= 2,
        around.left() matches Some(m) ==> m.cbp_chroma <= 2,
        around.above() matches Some(m) ==> m.cbp_chroma <= 2,
        held(c, bank, chroma_bins(around, chroma), data, start),
    ensures
        cbp_chroma_bits(stands(c, bank, data, start), around) == (
            chroma,
            behind(c, bank, chroma_bins(around, chroma), data, start),
        ),
{
    let w = chroma_bins(around, chroma);
    let (c1, k1) = lemma_read(c, bank, w, data, start);
    if chroma == 0 {
        lemma_read_all(c1, k1, w.skip(1), data, start);
    } else {
        let (c2, k2) = lemma_read(c1, k1, w.skip(1), data, start);
        lemma_read_all(c2, k2, w.skip(1).skip(1), data, start);
    }
}

/// The bits of a luma pattern below bit `k`.
spec fn low_bits(luma: u8, k: int) -> u8 {
    if k == 0 {
        0
    } else if k == 1 {
        (luma % 2) as u8
    } else if k == 2 {
        (luma % 4) as u8
    } else if k == 3 {
        (luma % 8) as u8
    } else {
        luma
    }
}

proof fn lemma_bits(luma: u8)
    requires
        luma <= 15,
    ensures
        forall|k: int|
            0 <= k < 4 ==> #[trigger] low_bits(luma, k + 1) == low_bits(luma, k) | ((flag(
                luma,
                k,
            ) as u8) << k as u8),
        forall|v: u8, k: u8| k < 4 ==> #[trigger] ((v >> k) & 1) == flag(v, k as int),
        forall|k: int, j: int|
            0 <= j < k <= 4 ==> #[trigger] flag(low_bits(luma, k), j) == flag(luma, j),
{
    assert(forall|v: u8|
        (v >> 0u8) & 1 == v % 2 && (v >> 1u8) & 1 == (v / 2) % 2 && (v >> 2u8) & 1 == (v / 4) % 2
            && (v >> 3u8) & 1 == (v / 8) % 2) by (bit_vector);
    assert forall|v: u8, k: u8| k < 4 implies #[trigger] ((v >> k) & 1) == flag(v, k as int) by {
        assert(k == 0 || k == 1 || k == 2 || k == 3);
    }
    assert(luma <= 15 ==> luma % 2 == (0u8 | ((luma % 2) << 0u8)) && luma % 4 == ((luma % 2) | (((
    luma / 2) % 2) << 1u8)) && luma % 8 == ((luma % 4) | (((luma / 4) % 2) << 2u8)) && luma == ((
    luma % 8) | (((luma / 8) % 2) << 3u8))) by (bit_vector);
    assert forall|k: int| 0 <= k < 4 implies #[trigger] low_bits(luma, k + 1) == low_bits(luma, k)
        | ((flag(luma, k) as u8) << k as u8) by {
        assert(k == 0 || k == 1 || k == 2 || k == 3);
    }
}

proof fn lemma_luma_bin(
    c: Coder,
    bank: Seq<Context>,
    around: Surroundings,
    luma: u8,
    k: int,
    w: Seq<Symbol>,
    data: Seq<u8>,
    start: nat,
) -> (r: (Coder, Seq<Context>))
    requires
        around.wf(),
        around.pic.mbs.len() <= usize::MAX,
        luma <= 15,
        0 <= k < 4,
        w.len() > 0,
        w[0] == luma_bin(around, luma, k),
        held(c, bank, w, data, start),
    ensures
        held(r.0, r.1, w.skip(1), data, start),
        behind(r.0, r.1, w.skip(1), data, start) == behind(c, bank, w, data, start),
        cbp_luma_bits(stands(c, bank, data, start), around, k, low_bits(luma, k)) == cbp_luma_bits(
            stands(r.0, r.1, data, start),
            around,
            k + 1,
            low_bits(luma, k + 1),
        ),
        k == 3 ==> cbp_luma_bits(stands(c, bank, data, start), around, k, low_bits(luma, k)) == (
            luma,
            stands(r.0, r.1, data, start),
        ),
{
    lemma_bits(luma);
    lemma_pattern_context(around, luma, k);
    let r = lemma_read(c, bank, w, data, start);
    assert(low_bits(luma, k + 1) == low_bits(luma, k) | ((flag(luma, k) as u8) << k as u8));
    reveal_with_fuel(cbp_luma_bits, 2);
    r
}

proof fn lemma_pattern_context(around: Surroundings, luma: u8, k: int)
    requires
        around.wf(),
        around.pic.mbs.len() <= usize::MAX,
        luma <= 15,
        0 <= k < 4,
    ensures
        luma_bin(around, luma, k) == bin(
            cbp_luma_ctx(around, k, low_bits(luma, k)),
            flag(luma, k),
        ),
{
    lemma_bits(luma);
    let g = around.pic.grid;
    let left = g.spec_luma_8x8_neighbour(around.addr, k, -1, 0);
    let above = g.spec_luma_8x8_neighbour(around.addr, k, 0, -1);
    let low = low_bits(luma, k);
    assert(count(known_empty(around, left, low)) == (if k % 2 == 1 {
        1 - flag(luma, k - 1)
    } else {
        empty_in(around.left(), k + 1)
    }));
    assert(count(known_empty(around, above, low)) == (if k >= 2 {
        1 - flag(luma, k - 2)
    } else {
        empty_in(around.above(), k + 2)
    }));
}

} // verus!
