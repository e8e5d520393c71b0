//! Residual block decoding.
//!
//! A residual block is coded as a significance map (which positions are
//! non-zero, and where the last one is) followed by the levels of those
//! positions in reverse scan order.
use vstd::prelude::*;
use super::cabac::{
    cabac, lemma_decide, lemma_exp_golomb, lemma_unary, ArithDecoder, Cabac, ContextState,
    NUM_CONTEXTS,
};
use super::math::{lemma_u32_as_i32, lemma_wrap, wrap32, wsub};

verus! {

/// Zig-zag scan for a 4x4 block: scan position to raster position, from low to
/// high frequency.
pub const ZIGZAG_4X4: [usize; 16] = [0, 1, 4, 8, 5, 2, 3, 6, 9, 12, 13, 10, 7, 11, 14, 15];

/// Zig-zag scan for an 8x8 block.
pub const ZIGZAG_8X8: [usize; 64] = [
    0, 1, 8, 16, 9, 2, 3, 10, 17, 24, 32, 25, 18, 11, 4, 5, 12, 19, 26, 33, 40, 48, 41, 34, 27, 20,
    13, 6, 7, 14, 21, 28, 35, 42, 49, 56, 57, 50, 43, 36, 29, 22, 15, 23, 30, 37, 44, 51, 58, 59,
    52, 45, 38, 31, 39, 46, 53, 60, 61, 54, 47, 55, 62, 63,
];

/// Which kind of block is being decoded. The kind selects a bank of contexts
/// for every syntax element in the block.
#[derive(Debug, Clone, Copy, PartialEq, Eq, Structural)]
pub enum BlockCat {
    /// The 16 DC coefficients of an `I_16x16` macroblock.
    Intra16x16Dc,
    /// The 15 AC coefficients of one 4x4 block of an `I_16x16` macroblock.
    Intra16x16Ac,
    /// A full 4x4 luma block.
    Luma4x4,
    /// The 4 chroma DC coefficients of one component.
    ChromaDc,
    /// The 15 AC coefficients of one 4x4 chroma block.
    ChromaAc,
    /// A full 8x8 luma block.
    Luma8x8,
}

/// First significance context of each 4x4 kind, from the bank's first. The gaps
/// are the coefficient counts, less the one position that never needs a flag.
const CAT_4X4_OFFSETS: [usize; 5] = [0, 15, 29, 44, 47];

/// First level context of each 4x4 kind, from the bank's first.
const LEVEL_CAT_OFFSETS: [usize; 5] = [0, 10, 20, 30, 39];

/// Significance context of each position of an 8x8 block: 63 positions share 15
/// contexts.
pub const SIG_8X8: [u8; 63] = [
    0, 1, 2, 3, 4, 5, 5, 4, 4, 3, 3, 4, 4, 4, 5, 5, 4, 4, 4, 4, 3, 3, 6, 7, 7, 7, 8, 9, 10, 9, 8, 7,
    7, 6, 11, 12, 13, 11, 6, 7, 8, 9, 14, 10, 9, 8, 6, 11, 12, 13, 11, 6, 9, 14, 10, 9, 11, 12, 13,
    11, 14, 10, 12,
];

/// Last-coefficient context of each position of an 8x8 block.
pub const LAST_8X8: [u8; 63] = [
    0, 1, 1, 1, 1, 1, 1, 1, 1, 1, 1, 1, 1, 1, 1, 1, 2, 2, 2, 2, 2, 2, 2, 2, 2, 2, 2, 2, 2, 2, 2, 2,
    3, 3, 3, 3, 3, 3, 3, 3, 4, 4, 4, 4, 4, 4, 4, 4, 5, 5, 5, 5, 6, 6, 6, 6, 7, 7, 7, 7, 8, 8, 8,
];

/// [`SIG_8X8`] as a function of the position.
#[verifier::opaque]
pub open spec fn sig_8x8(i: int) -> int {
    SIG_8X8[i] as int
}

/// [`LAST_8X8`] as a function of the position.
#[verifier::opaque]
pub open spec fn last_8x8(i: int) -> int {
    LAST_8X8[i] as int
}

/// The 8x8 tables stay within their banks.
pub proof fn lemma_8x8_incs(i: int)
    requires
        0 <= i < 63,
    ensures
        0 <= sig_8x8(i) < 15,
        0 <= last_8x8(i) < 9,
{
    reveal(sig_8x8);
    reveal(last_8x8);
}

impl BlockCat {
    /// Position of the kind among the kinds.
    pub open spec fn spec_index(self) -> int {
        match self {
            BlockCat::Intra16x16Dc => 0,
            BlockCat::Intra16x16Ac => 1,
            BlockCat::Luma4x4 => 2,
            BlockCat::ChromaDc => 3,
            BlockCat::ChromaAc => 4,
            BlockCat::Luma8x8 => 5,
        }
    }

    /// How many coefficient positions the block has.
    pub open spec fn spec_max_coeffs(self) -> int {
        match self {
            BlockCat::Intra16x16Dc | BlockCat::Luma4x4 => 16,
            BlockCat::Intra16x16Ac | BlockCat::ChromaAc => 15,
            BlockCat::ChromaDc => 4,
            BlockCat::Luma8x8 => 64,
        }
    }

    /// First context of the block's coded flag.
    pub open spec fn spec_coded_block_flag_base(self) -> int {
        85 + 4 * self.spec_index()
    }

    /// First context of the block's significance flags.
    pub open spec fn spec_significant_base(self) -> int {
        match self {
            BlockCat::Luma8x8 => 402,
            BlockCat::Intra16x16Dc => 105,
            BlockCat::Intra16x16Ac => 120,
            BlockCat::Luma4x4 => 134,
            BlockCat::ChromaDc => 149,
            BlockCat::ChromaAc => 152,
        }
    }

    /// First context of the block's last-coefficient flags.
    pub open spec fn spec_last_significant_base(self) -> int {
        match self {
            BlockCat::Luma8x8 => 417,
            _ => self.spec_significant_base() + 61,
        }
    }

    /// First context of the block's levels.
    pub open spec fn spec_level_base(self) -> int {
        match self {
            BlockCat::Luma8x8 => 426,
            BlockCat::Intra16x16Dc => 227,
            BlockCat::Intra16x16Ac => 237,
            BlockCat::Luma4x4 => 247,
            BlockCat::ChromaDc => 257,
            BlockCat::ChromaAc => 266,
        }
    }

    fn index(self) -> (i: usize)
        ensures
            i == self.spec_index(),
    {
        match self {
            BlockCat::Intra16x16Dc => 0,
            BlockCat::Intra16x16Ac => 1,
            BlockCat::Luma4x4 => 2,
            BlockCat::ChromaDc => 3,
            BlockCat::ChromaAc => 4,
            BlockCat::Luma8x8 => 5,
        }
    }

    /// How many coefficient positions the block has.
    pub fn max_coeffs(self) -> (n: usize)
        ensures
            n == self.spec_max_coeffs(),
    {
        match self {
            BlockCat::Intra16x16Dc | BlockCat::Luma4x4 => 16,
            BlockCat::Intra16x16Ac | BlockCat::ChromaAc => 15,
            BlockCat::ChromaDc => 4,
            BlockCat::Luma8x8 => 64,
        }
    }

    /// Whether the block's coefficients start at position 1 of its 4x4 block,
    /// its DC coefficient being coded elsewhere.
    pub fn is_ac(self) -> (r: bool)
        ensures
            r <==> self is Intra16x16Ac || self is ChromaAc,
    {
        matches!(self, BlockCat::Intra16x16Ac | BlockCat::ChromaAc)
    }

    /// Whether a coded flag is coded for this kind. Not for 8x8 luma, where the
    /// coded block pattern already says whether there are coefficients.
    pub fn has_coded_block_flag(self) -> (r: bool)
        ensures
            r <==> self !is Luma8x8,
    {
        self != BlockCat::Luma8x8
    }

    /// First context of the block's coded flag.
    pub fn coded_block_flag_base(self) -> (r: usize)
        ensures
            r == self.spec_coded_block_flag_base(),
    {
        85 + 4 * self.index()
    }

    /// First context of the block's significance flags.
    pub fn significant_base(self) -> (r: usize)
        ensures
            r == self.spec_significant_base(),
    {
        match self {
            BlockCat::Luma8x8 => 402,
            _ => 105 + CAT_4X4_OFFSETS[self.index()],
        }
    }

    /// First context of the block's last-coefficient flags.
    pub fn last_significant_base(self) -> (r: usize)
        ensures
            r == self.spec_last_significant_base(),
    {
        match self {
            BlockCat::Luma8x8 => 417,
            _ => 166 + CAT_4X4_OFFSETS[self.index()],
        }
    }

    /// First context of the block's levels.
    pub fn level_base(self) -> (r: usize)
        ensures
            r == self.spec_level_base(),
    {
        match self {
            BlockCat::Luma8x8 => 426,
            _ => 227 + LEVEL_CAT_OFFSETS[self.index()],
        }
    }
}

/// Significance context at scan position `i`, from the kind's first.
pub open spec fn spec_sig_inc(cat: BlockCat, i: int) -> int {
    match cat {
        BlockCat::Luma8x8 => sig_8x8(i),
        BlockCat::ChromaDc => if i < 2 {
            i
        } else {
            2
        },
        _ => i,
    }
}

/// Last-coefficient context at scan position `i`, from the kind's first.
pub open spec fn spec_last_inc(cat: BlockCat, i: int) -> int {
    match cat {
        BlockCat::Luma8x8 => last_8x8(i),
        BlockCat::ChromaDc => if i < 2 {
            i
        } else {
            2
        },
        _ => i,
    }
}

/// Every significance and last-coefficient context lies in the bank.
pub proof fn lemma_map_contexts(cat: BlockCat, i: int)
    requires
        0 <= i < cat.spec_max_coeffs() - 1,
    ensures
        0 <= cat.spec_significant_base() + spec_sig_inc(cat, i) < NUM_CONTEXTS,
        0 <= cat.spec_last_significant_base() + spec_last_inc(cat, i) < NUM_CONTEXTS,
{
    if cat is Luma8x8 {
        lemma_8x8_incs(i);
    }
}

/// Significance context at scan position `i`, from the kind's first.
pub fn sig_inc(cat: BlockCat, i: usize) -> (r: usize)
    requires
        cat is Luma8x8 ==> i < 63,
    ensures
        r == spec_sig_inc(cat, i as int),
{
    reveal(sig_8x8);
    match cat {
        BlockCat::Luma8x8 => SIG_8X8[i] as usize,
        BlockCat::ChromaDc => if i < 2 {
            i
        } else {
            2
        },
        _ => i,
    }
}

/// Last-coefficient context at scan position `i`, from the kind's first.
pub fn last_inc(cat: BlockCat, i: usize) -> (r: usize)
    requires
        cat is Luma8x8 ==> i < 63,
    ensures
        r == spec_last_inc(cat, i as int),
{
    reveal(last_8x8);
    match cat {
        BlockCat::Luma8x8 => LAST_8X8[i] as usize,
        BlockCat::ChromaDc => if i < 2 {
            i
        } else {
            2
        },
        _ => i,
    }
}

/// The coded flag of a block of kind `cat`.
pub open spec fn coded_block_flag(s: Cabac, cat: BlockCat, ctx_inc: int) -> (bool, Cabac) {
    let (bin, after) = s.decide(cat.spec_coded_block_flag_base() + ctx_inc);
    (bin == 1, after)
}

/// Decodes the coded flag of a block. `ctx_inc` says which neighbouring blocks
/// had coefficients.
pub fn decode_coded_block_flag(
    d: &mut ArithDecoder<'_>,
    contexts: &mut ContextState,
    cat: BlockCat,
    ctx_inc: usize,
) -> (coded: bool)
    requires
        cabac(*old(d), *old(contexts)).wf(),
        cat !is Luma8x8,
        ctx_inc < 4,
    ensures
        (coded, cabac(*final(d), *final(contexts))) == coded_block_flag(
            cabac(*old(d), *old(contexts)),
            cat,
            ctx_inc as int,
        ),
        cabac(*final(d), *final(contexts)).wf(),
        final(d)@.data == old(d)@.data,
{
    d.decide(contexts, cat.coded_block_flag_base() + ctx_inc) == 1
}

/// The engine has consumed past the end of its data.
pub open spec fn overran(s: Cabac) -> bool {
    s.engine.pos > s.engine.data.len() * 8
}

/// A significance map and what decoding it left behind.
pub struct SigMap {
    /// Whether the data lasted to the end of the map.
    pub complete: bool,
    /// How many positions there are up to the last non-zero one.
    pub count: int,
    /// Which positions are non-zero.
    pub significant: Seq<bool>,
    pub after: Cabac,
}

/// The significance map from position `i` on: a flag per position, after each
/// set one whether it was the last, and the final position non-zero by
/// inference.
pub open spec fn sig_map(s: Cabac, cat: BlockCat, i: int, significant: Seq<bool>) -> SigMap
    decreases cat.spec_max_coeffs() - i,
{
    if i >= cat.spec_max_coeffs() - 1 {
        SigMap {
            complete: true,
            count: cat.spec_max_coeffs(),
            significant: significant.update(i, true),
            after: s,
        }
    } else {
        let (sig, s1) = s.decide(cat.spec_significant_base() + spec_sig_inc(cat, i));
        let (last, s2) = if sig == 1 {
            s1.decide(cat.spec_last_significant_base() + spec_last_inc(cat, i))
        } else {
            (0, s1)
        };
        let flagged = significant.update(i, sig == 1);
        if last == 1 {
            SigMap { complete: true, count: i + 1, significant: flagged, after: s2 }
        } else if overran(s2) {
            SigMap { complete: false, count: 0, significant: flagged, after: s2 }
        } else {
            sig_map(s2, cat, i + 1, flagged)
        }
    }
}

/// Context of the first bin of a level, by how many levels of 1 and above 1
/// the block has shown so far.
pub open spec fn level_first_inc(num_eq1: int, num_gt1: int) -> int {
    if num_gt1 != 0 {
        0
    } else if 1 + num_eq1 < 4 {
        1 + num_eq1
    } else {
        4
    }
}

/// Context of the other bins of a level. Chroma DC has one context fewer.
pub open spec fn level_rest_inc(cat: BlockCat, num_gt1: int) -> int {
    let most: int = if cat is ChromaDc {
        3
    } else {
        4
    };
    5 + if num_gt1 < most {
        num_gt1
    } else {
        most
    }
}

/// Which context each bin of a level's prefix uses.
pub open spec fn level_choice(cat: BlockCat, num_eq1: int, num_gt1: int) -> spec_fn(int) -> int {
    |bin: int|
        cat.spec_level_base() + if bin == 0 {
            level_first_inc(num_eq1, num_gt1)
        } else {
            level_rest_inc(cat, num_gt1)
        }
}

/// The magnitude of one level: a unary prefix, and a suffix once it saturates.
pub open spec fn level_magnitude(s: Cabac, cat: BlockCat, num_eq1: int, num_gt1: int) -> (
    int,
    Cabac,
) {
    let (prefix, s1) = s.unary(0, 14, level_choice(cat, num_eq1, num_gt1));
    if prefix == 14 {
        let (suffix, s2) = s1.exp_golomb(0);
        (15 + suffix, s2)
    } else {
        (prefix + 1, s1)
    }
}

/// The levels from position `pos` down to the first, put into `out`.
pub open spec fn levels(
    s: Cabac,
    cat: BlockCat,
    significant: Seq<bool>,
    pos: int,
    num_eq1: int,
    num_gt1: int,
    out: Seq<i32>,
) -> (Seq<i32>, Cabac)
    decreases pos + 1,
{
    if pos < 0 {
        (out, s)
    } else if !significant[pos] {
        levels(s, cat, significant, pos - 1, num_eq1, num_gt1, out)
    } else {
        let (magnitude, s1) = level_magnitude(s, cat, num_eq1, num_gt1);
        let (sign, s2) = s1.bypass();
        let level = if sign == 1 {
            wrap32(-magnitude)
        } else {
            wrap32(magnitude)
        } as i32;
        let put = out.update(pos, level);
        if overran(s2) {
            (put, s2)
        } else if magnitude == 1 {
            levels(s2, cat, significant, pos - 1, num_eq1 + 1, num_gt1, put)
        } else {
            levels(s2, cat, significant, pos - 1, num_eq1, num_gt1 + 1, put)
        }
    }
}

/// A block's levels in scan order. Once the data has run out the rest stays
/// zero.
pub open spec fn coefficients(s: Cabac, cat: BlockCat) -> (Seq<i32>, Cabac) {
    let n = cat.spec_max_coeffs() as nat;
    let zeroes = Seq::new(n, |i: int| 0i32);
    let map = sig_map(s, cat, 0, Seq::new(64, |i: int| false));
    if map.complete {
        levels(map.after, cat, map.significant, map.count - 1, 0, 0, zeroes)
    } else {
        (zeroes, map.after)
    }
}

/// Decodes one residual block's levels into `out`, in scan order. `out` is as
/// long as the block and is fully overwritten.
pub fn decode_coefficients(
    d: &mut ArithDecoder<'_>,
    contexts: &mut ContextState,
    cat: BlockCat,
    out: &mut [i32],
)
    requires
        cabac(*old(d), *old(contexts)).wf(),
        old(out)@.len() == cat.spec_max_coeffs(),
    ensures
        (final(out)@, cabac(*final(d), *final(contexts))) == coefficients(
            cabac(*old(d), *old(contexts)),
            cat,
        ),
        final(out)@.len() == old(out)@.len(),
        cabac(*final(d), *final(contexts)).wf(),
        final(d)@.data == old(d)@.data,
{
    let ghost start = cabac(*d, *contexts);
    let ghost data = d@.data;
    let max: usize = cat.max_coeffs();
    for i in 0..max
        invariant
            out@.len() == max,
            forall|j: int| 0 <= j < i ==> out@[j] == 0,
    {
        out[i] = 0;
    }
    let ghost zeroes = Seq::new(max as nat, |i: int| 0i32);
    assert(out@ =~= zeroes);
    // Pass one: the significance map.
    let mut significant: [bool; 64] = [false;64];
    let mut num_coeff: usize = max;
    let mut i: usize = 0;
    let ghost none = Seq::new(64, |i: int| false);
    assert(significant@ =~= none);
    let ghost map = sig_map(start, cat, 0, none);
    let mut last: bool = false;
    while !last && i < max - 1
        invariant
            max == cat.spec_max_coeffs(),
            max <= 64,
            i <= max - 1,
            cabac(*d, *contexts).wf(),
            d@.data == data,
            start == cabac(*old(d), *old(contexts)),
            map == sig_map(start, cat, 0, none),
            none == Seq::new(64, |i: int| false),
            data == old(d)@.data,
            old(out)@.len() == max,
            zeroes == Seq::new(max as nat, |i: int| 0i32),
            out@ == zeroes,
            !last ==> num_coeff == max && map == sig_map(
                cabac(*d, *contexts),
                cat,
                i as int,
                significant@,
            ),
            last ==> map.complete && num_coeff == map.count && significant@ == map.significant
                && map.after == cabac(*d, *contexts) && num_coeff == i + 1,
        decreases
                max - i,
                if last {
                    0int
                } else {
                    1
                },
    {
        proof {
            lemma_map_contexts(cat, i as int);
        }
        let sig: bool = d.decide(contexts, cat.significant_base() + sig_inc(cat, i)) == 1;
        significant[i] = sig;
        if sig && d.decide(contexts, cat.last_significant_base() + last_inc(cat, i)) == 1 {
            // This was the last non-zero coefficient.
            num_coeff = i + 1;
            last = true;
        } else {
            i = i + 1;
            if d.overran() {
                return;
            }
        }
    }
    // Without a "last" flag the final position is non-zero by inference.
    if !last {
        significant[i] = true;
    }
    assert(map.complete && num_coeff == map.count && significant@ == map.significant);
    // Pass two: levels, in reverse scan order.
    let mut num_eq1: u32 = 0;
    let mut num_gt1: u32 = 0;
    let mut pos: usize = num_coeff;
    let ghost target = levels(map.after, cat, map.significant, map.count - 1, 0, 0, zeroes);
    while pos > 0
        invariant
            pos <= num_coeff <= max,
            max == cat.spec_max_coeffs(),
            max <= 64,
            out@.len() == max,
            num_eq1 + num_gt1 + pos <= num_coeff,
            cabac(*d, *contexts).wf(),
            d@.data == data,
            data == old(d)@.data,
            old(out)@.len() == max,
            start == cabac(*old(d), *old(contexts)),
            significant@ == map.significant,
            target == coefficients(start, cat),
            target == levels(
                cabac(*d, *contexts),
                cat,
                significant@,
                pos - 1,
                num_eq1 as int,
                num_gt1 as int,
                out@,
            ),
        decreases pos,
    {
        pos = pos - 1;
        if significant[pos] {
            let base: usize = cat.level_base();
            let first_inc: usize = if num_gt1 != 0 {
                0
            } else if 1 + num_eq1 < 4 {
                (1 + num_eq1) as usize
            } else {
                4
            };
            let most: u32 = if cat == BlockCat::ChromaDc {
                3
            } else {
                4
            };
            let rest_inc: usize = 5 + if num_gt1 < most {
                num_gt1
            } else {
                most
            } as usize;
            let ctx_for = |bin: u32| -> (idx: usize)
                requires
                    base + first_inc < NUM_CONTEXTS,
                    base + rest_inc < NUM_CONTEXTS,
                ensures
                    idx == base + if bin == 0 {
                        first_inc
                    } else {
                        rest_inc
                    },
                {
                    base + if bin == 0 {
                        first_inc
                    } else {
                        rest_inc
                    }
                };
            let ghost before = cabac(*d, *contexts);
            let ghost choice = level_choice(cat, num_eq1 as int, num_gt1 as int);
            assert(super::cabac::chooses_as(ctx_for, 14, choice));
            let prefix: u32 = d.decode_truncated_unary(14, contexts, ctx_for);
            assert((prefix as int, cabac(*d, *contexts)) == before.unary(0, 14, choice));
            let magnitude: u32 = if prefix == 14 {
                // The prefix saturated, so a suffix carries the rest.
                14 + d.decode_exp_golomb_bypass(0)
            } else {
                prefix
            } + 1;
            assert((magnitude as int, cabac(*d, *contexts)) == level_magnitude(
                before,
                cat,
                num_eq1 as int,
                num_gt1 as int,
            ));
            if magnitude == 1 {
                num_eq1 = num_eq1 + 1;
            } else {
                num_gt1 = num_gt1 + 1;
            }
            proof {
                lemma_u32_as_i32(magnitude);
                lemma_wrap(0, magnitude as int);
                lemma_wrap(-magnitude as int, 0);
            }
            out[pos] = if d.decode_bypass() == 1 {
                wsub(0, magnitude as i32)
            } else {
                magnitude as i32
            };
            if d.overran() {
                return;
            }
        }
    }
}

/// [`ZIGZAG_4X4`] as a function of the scan position.
#[verifier::opaque]
pub open spec fn scan_4x4(i: int) -> int {
    ZIGZAG_4X4[i] as int
}

/// [`ZIGZAG_8X8`] as a function of the scan position.
#[verifier::opaque]
pub open spec fn scan_8x8(i: int) -> int {
    ZIGZAG_8X8[i] as int
}

/// The diagonal a raster position of a block lies on, counted from the corner
/// of the lowest frequency.
pub open spec fn diagonal(p: int, side: int) -> int {
    p / side + p % side
}

/// The 4x4 scan runs from the lowest frequency to the highest, never more than
/// one diagonal at a time.
pub proof fn law_scan_4x4_follows_the_diagonals(i: int)
    requires
        0 <= i < 16,
    ensures
        scan_4x4(0) == 0,
        scan_4x4(15) == 15,
        i < 15 ==> 0 <= diagonal(scan_4x4(i + 1), 4) - diagonal(scan_4x4(i), 4) <= 1,
{
    reveal(scan_4x4);
}

/// The 8x8 scan runs from the lowest frequency to the highest, never more than
/// one diagonal at a time.
pub proof fn law_scan_8x8_follows_the_diagonals(i: int)
    requires
        0 <= i < 64,
    ensures
        scan_8x8(0) == 0,
        scan_8x8(63) == 63,
        i < 63 ==> 0 <= diagonal(scan_8x8(i + 1), 8) - diagonal(scan_8x8(i), 8) <= 1,
{
    reveal(scan_8x8);
}

/// Whether the significance flags of a kind of block use context `ctx`.
pub open spec fn significance_uses(cat: BlockCat, ctx: int) -> bool {
    exists|i: int|
        0 <= i < cat.spec_max_coeffs() - 1 && ctx == cat.spec_significant_base()
            + #[trigger] spec_sig_inc(cat, i)
}

/// Whether the last-coefficient flags of a kind of block use context `ctx`.
pub open spec fn last_flags_use(cat: BlockCat, ctx: int) -> bool {
    exists|i: int|
        0 <= i < cat.spec_max_coeffs() - 1 && ctx == cat.spec_last_significant_base()
            + #[trigger] spec_last_inc(cat, i)
}

/// Whether the levels of a kind of block use context `ctx`.
pub open spec fn levels_use(cat: BlockCat, ctx: int) -> bool {
    exists|bin: int, num_eq1: int, num_gt1: int|
        0 <= num_eq1 && 0 <= num_gt1 && ctx == #[trigger] level_choice(cat, num_eq1, num_gt1)(bin)
}

/// All the contexts of a block lie in the bank. Those of its significance
/// flags, of its last-coefficient flags and of its levels are told apart.
pub proof fn law_contexts_lie_in_the_bank(cat: BlockCat, ctx: int)
    ensures
        significance_uses(cat, ctx) ==> 0 <= ctx < NUM_CONTEXTS,
        last_flags_use(cat, ctx) ==> 0 <= ctx < NUM_CONTEXTS,
        levels_use(cat, ctx) ==> 0 <= ctx < NUM_CONTEXTS,
        !(significance_uses(cat, ctx) && last_flags_use(cat, ctx)),
        !(significance_uses(cat, ctx) && levels_use(cat, ctx)),
        !(last_flags_use(cat, ctx) && levels_use(cat, ctx)),
{
    lemma_uses(cat, ctx);
}

/// No two kinds of block share a context, so that neither disturbs what the
/// other has learnt.
pub proof fn law_kinds_share_no_context(one: BlockCat, other: BlockCat, ctx: int)
    requires
        one != other,
    ensures
        !(significance_uses(one, ctx) && significance_uses(other, ctx)),
        !(significance_uses(one, ctx) && last_flags_use(other, ctx)),
        !(significance_uses(one, ctx) && levels_use(other, ctx)),
        !(last_flags_use(one, ctx) && last_flags_use(other, ctx)),
        !(last_flags_use(one, ctx) && levels_use(other, ctx)),
        !(levels_use(one, ctx) && levels_use(other, ctx)),
{
    lemma_uses(one, ctx);
    lemma_uses(other, ctx);
}

/// The stretch of the bank each kind of flag lies in.
proof fn lemma_uses(cat: BlockCat, ctx: int)
    ensures
        significance_uses(cat, ctx) ==> cat.spec_significant_base() <= ctx
            < cat.spec_significant_base() + if cat is Luma8x8 {
            15
        } else {
            cat.spec_max_coeffs() - 1
        },
        last_flags_use(cat, ctx) ==> cat.spec_last_significant_base() <= ctx
            < cat.spec_last_significant_base() + if cat is Luma8x8 {
            9
        } else {
            cat.spec_max_coeffs() - 1
        },
        levels_use(cat, ctx) ==> cat.spec_level_base() <= ctx < cat.spec_level_base()
            + if cat is ChromaDc {
            9int
        } else {
            10
        },
{
    assert forall|i: int| 0 <= i < 63 implies 0 <= #[trigger] sig_8x8(i) < 15 by {
        lemma_8x8_incs(i);
    }
    assert forall|i: int| 0 <= i < 63 implies 0 <= #[trigger] last_8x8(i) < 9 by {
        lemma_8x8_incs(i);
    }
}

/// The last-coefficient contexts of an 8x8 block follow its frequencies.
pub proof fn law_last_8x8_rises(i: int, j: int)
    requires
        0 <= i <= j < 63,
    ensures
        last_8x8(i) <= last_8x8(j),
    decreases j - i,
{
    if i < j {
        law_last_8x8_rises(i, j - 1);
        lemma_last_8x8_step(j - 1);
    }
}

proof fn lemma_last_8x8_step(i: int)
    requires
        0 <= i < 62,
    ensures
        last_8x8(i) <= last_8x8(i + 1),
{
    reveal(last_8x8);
}

/// A complete map ends with a position that is not zero.
proof fn lemma_map_ends(s: Cabac, cat: BlockCat, i: int, significant: Seq<bool>)
    requires
        s.wf(),
        0 <= i < cat.spec_max_coeffs(),
        significant.len() == 64,
    ensures
        ({
            let map = sig_map(s, cat, i, significant);
            &&& map.after.wf()
            &&& map.complete ==> i < map.count <= cat.spec_max_coeffs()
                && map.significant[map.count - 1]
            &&& !map.complete ==> overran(map.after)
        }),
    decreases cat.spec_max_coeffs() - i,
{
    if i < cat.spec_max_coeffs() - 1 {
        lemma_map_contexts(cat, i);
        let sig_ctx = cat.spec_significant_base() + spec_sig_inc(cat, i);
        let last_ctx = cat.spec_last_significant_base() + spec_last_inc(cat, i);
        lemma_decide(s, sig_ctx);
        let (sig, s1) = s.decide(sig_ctx);
        lemma_decide(s1, last_ctx);
        let (last, s2) = if sig == 1 {
            s1.decide(last_ctx)
        } else {
            (0, s1)
        };
        let flagged = significant.update(i, sig == 1);
        if last != 1 && !overran(s2) {
            lemma_map_ends(s2, cat, i + 1, flagged);
        }
    }
}

/// Levels are only put at positions from `pos` down.
proof fn lemma_levels_above(
    s: Cabac,
    cat: BlockCat,
    significant: Seq<bool>,
    pos: int,
    num_eq1: int,
    num_gt1: int,
    out: Seq<i32>,
    k: int,
)
    requires
        pos < k < out.len(),
        0 <= k,
    ensures
        levels(s, cat, significant, pos, num_eq1, num_gt1, out).0[k] == out[k],
        levels(s, cat, significant, pos, num_eq1, num_gt1, out).0.len() == out.len(),
    decreases pos + 1,
{
    if pos >= 0 {
        if !significant[pos] {
            lemma_levels_above(s, cat, significant, pos - 1, num_eq1, num_gt1, out, k);
        } else {
            let (magnitude, s1) = level_magnitude(s, cat, num_eq1, num_gt1);
            let (sign, s2) = s1.bypass();
            let level = if sign == 1 {
                wrap32(-magnitude)
            } else {
                wrap32(magnitude)
            } as i32;
            let put = out.update(pos, level);
            if !overran(s2) {
                if magnitude == 1 {
                    lemma_levels_above(s2, cat, significant, pos - 1, num_eq1 + 1, num_gt1, put, k);
                } else {
                    lemma_levels_above(s2, cat, significant, pos - 1, num_eq1, num_gt1 + 1, put, k);
                }
            }
        }
    }
}

/// A coded block holds a level that is not zero, unless its data ran out before
/// its map was complete.
pub proof fn law_coded_blocks_are_not_empty(s: Cabac, cat: BlockCat)
    requires
        s.wf(),
    ensures
        coefficients(s, cat).0.len() == cat.spec_max_coeffs(),
        overran(coefficients(s, cat).1) || exists|i: int|
            0 <= i < cat.spec_max_coeffs() && (#[trigger] coefficients(s, cat).0[i]) != 0,
{
    let n = cat.spec_max_coeffs() as nat;
    let zeroes = Seq::new(n, |i: int| 0i32);
    let none = Seq::new(64, |i: int| false);
    let map = sig_map(s, cat, 0, none);
    lemma_map_ends(s, cat, 0, none);
    if map.complete {
        let at = map.count - 1;
        let start = map.after;
        assert forall|v: int| 0 <= v < 14 implies 0 <= #[trigger] level_choice(cat, 0, 0)(v)
            < NUM_CONTEXTS by {
        }
        lemma_unary(start, 0, 14, level_choice(cat, 0, 0));
        let (prefix, s1) = start.unary(0, 14, level_choice(cat, 0, 0));
        lemma_exp_golomb(s1.engine, 0);
        let (magnitude, s2) = level_magnitude(start, cat, 0, 0);
        assert(1 <= magnitude <= 0x8000_0010);
        let (sign, s3) = s2.bypass();
        let level = if sign == 1 {
            wrap32(-magnitude)
        } else {
            wrap32(magnitude)
        } as i32;
        assert(level != 0) by {
            reveal(wrap32);
        }
        let put = zeroes.update(at, level);
        if !overran(s3) {
            if magnitude == 1 {
                lemma_levels_above(s3, cat, map.significant, at - 1, 1, 0, put, at);
            } else {
                lemma_levels_above(s3, cat, map.significant, at - 1, 0, 1, put, at);
            }
        }
        assert(coefficients(s, cat).0[at] == level);
    }
}

/// The 4x4 scan turns at the edges: along the diagonals of odd number it goes down
/// and to the left, along the others up and to the right, and each begins at the edge.
pub proof fn law_scan_4x4_turns_at_the_edges(i: int)
    requires
        0 <= i < 15,
    ensures
        ({
            let (p, q) = (scan_4x4(i), scan_4x4(i + 1));
            let (x, y) = (q % 4, q / 4);
            let same = p / 4 + p % 4 == x + y;
            let odd = (x + y) % 2 == 1;
            &&& same && odd ==> q == p + 3
            &&& same && !odd ==> q == p - 3
            &&& !same && odd ==> y == 0 || x == 3
            &&& !same && !odd ==> x == 0 || y == 3
        }),
{
    reveal(scan_4x4);
}

/// The 8x8 scan turns at the edges: along the diagonals of odd number it goes down
/// and to the left, along the others up and to the right, and each begins at the edge.
pub proof fn law_scan_8x8_turns_at_the_edges(i: int)
    requires
        0 <= i < 63,
    ensures
        ({
            let (p, q) = (scan_8x8(i), scan_8x8(i + 1));
            let (x, y) = (q % 8, q / 8);
            let same = p / 8 + p % 8 == x + y;
            let odd = (x + y) % 2 == 1;
            &&& same && odd ==> q == p + 7
            &&& same && !odd ==> q == p - 7
            &&& !same && odd ==> y == 0 || x == 7
            &&& !same && !odd ==> x == 0 || y == 7
        }),
{
    reveal(scan_8x8);
}

} // verus!
