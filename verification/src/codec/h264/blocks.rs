//! The bins that residual blocks are coded in.
//!
//! A block is written as flags that say which of its levels are not zero and
//! which of those is the last, and then as those levels, the last first. The law
//! here says that the decoder reads every block back from its bins.
use vstd::prelude::*;
use vstd::arithmetic::power2::{lemma2_to64, pow2};
use super::cabac::{Cabac, Context, NUM_CONTEXTS};
use super::cabac_coding::{
    behind, bin, digits, golomb, held, law_exp_golomb_numbers_are_read_back,
    law_unary_numbers_are_read_back, lemma_ahead, lemma_parts, lemma_read, lemma_read_all, stands,
    unary, Coder, Symbol,
};
use super::math::wrap32;
use super::residual::{
    coded_block_flag, coefficients, last_8x8, level_choice, level_magnitude, levels, overran,
    sig_8x8, sig_map, spec_last_inc, spec_sig_inc, BlockCat, SigMap,
};

verus! {

// ---- Contexts ---------------------------------------------------------------

/// How many levels a block of a kind has.
pub open spec fn size(cat: BlockCat) -> int {
    match cat {
        BlockCat::Intra16x16Dc => 16,
        BlockCat::Intra16x16Ac => 15,
        BlockCat::Luma4x4 => 16,
        BlockCat::ChromaDc => 4,
        BlockCat::ChromaAc => 15,
        BlockCat::Luma8x8 => 64,
    }
}

/// The context of the flag that level `i` of an 8x8 block is not zero.
pub open spec fn present_8x8(i: int) -> int {
    402 + seq![
        0int, 1, 2, 3, 4, 5, 5, 4, 4, 3, 3, 4, 4, 4, 5, 5,
        4, 4, 4, 4, 3, 3, 6, 7, 7, 7, 8, 9, 10, 9, 8, 7,
        7, 6, 11, 12, 13, 11, 6, 7, 8, 9, 14, 10, 9, 8, 6, 11,
        12, 13, 11, 6, 9, 14, 10, 9, 11, 12, 13, 11, 14, 10, 12,
    ][i]
}

/// The context of the flag that level `i` of an 8x8 block is the last: one for
/// the first, one for the next fifteen, one for the sixteen behind those, then one
/// for every eight, and from 48 on one for every four.
pub open spec fn final_8x8(i: int) -> int {
    417 + if i == 0 {
        0
    } else if i < 16 {
        1
    } else if i < 32 {
        2
    } else if i < 40 {
        3
    } else if i < 48 {
        4
    } else {
        5 + (i - 48) / 4
    }
}

/// The context of the flag that level `i` is not zero.
pub open spec fn present_context(cat: BlockCat, i: int) -> int {
    match cat {
        BlockCat::Intra16x16Dc => 105 + i,
        BlockCat::Intra16x16Ac => 120 + i,
        BlockCat::Luma4x4 => 134 + i,
        BlockCat::ChromaDc => 149 + i,
        BlockCat::ChromaAc => 152 + i,
        BlockCat::Luma8x8 => present_8x8(i),
    }
}

/// The context of the flag that level `i` is the last.
pub open spec fn final_context(cat: BlockCat, i: int) -> int {
    match cat {
        BlockCat::Intra16x16Dc => 166 + i,
        BlockCat::Intra16x16Ac => 181 + i,
        BlockCat::Luma4x4 => 195 + i,
        BlockCat::ChromaDc => 210 + i,
        BlockCat::ChromaAc => 213 + i,
        BlockCat::Luma8x8 => final_8x8(i),
    }
}

/// The first context of the levels of a block.
pub open spec fn level_contexts(cat: BlockCat) -> int {
    match cat {
        BlockCat::Intra16x16Dc => 227,
        BlockCat::Intra16x16Ac => 237,
        BlockCat::Luma4x4 => 247,
        BlockCat::ChromaDc => 257,
        BlockCat::ChromaAc => 266,
        BlockCat::Luma8x8 => 426,
    }
}

/// The context of bin `i` of a level behind `ones` levels of 1 or -1 and `more`
/// larger ones: the first bin goes by how many ones there were, up to three, as
/// long as there was nothing larger; the others by how many larger ones there
/// were, up to four, and for chroma DC up to three.
pub open spec fn level_context(cat: BlockCat, ones: int, more: int) -> spec_fn(int) -> int {
    |i: int|
        level_contexts(cat) + (if i != 0 {
            5 + (if more <= 3 {
                more
            } else if cat is ChromaDc {
                3
            } else {
                4
            })
        } else if more > 0 {
            0
        } else if ones <= 2 {
            ones + 1
        } else {
            4
        })
}

// ---- Bins -------------------------------------------------------------------

/// Nothing but zeros behind level `i`.
pub open spec fn is_last(block: Seq<i32>, i: int) -> bool {
    forall|j: int| i < j < block.len() ==> (#[trigger] block[j]) == 0
}

/// The flags of a block from level `i` on. The last level needs none: it is not
/// zero where no other was the last.
pub open spec fn flag_bins(cat: BlockCat, block: Seq<i32>, i: int) -> Seq<Symbol>
    decreases block.len() - i,
{
    if i + 1 >= block.len() {
        Seq::empty()
    } else if block[i] == 0 {
        seq![bin(present_context(cat, i), 0)] + flag_bins(cat, block, i + 1)
    } else if is_last(block, i) {
        seq![bin(present_context(cat, i), 1), bin(final_context(cat, i), 1)]
    } else {
        seq![bin(present_context(cat, i), 1), bin(final_context(cat, i), 0)] + flag_bins(
            cat,
            block,
            i + 1,
        )
    }
}

/// The size of a level.
pub open spec fn size_of(level: i32) -> int {
    if level < 0 {
        -(level as int)
    } else {
        level as int
    }
}

/// The bins of the size of a level: one less in unary, up to 14, and what is
/// above that as an Exp-Golomb number.
pub open spec fn size_bins(cat: BlockCat, ones: int, more: int, n: int) -> Seq<Symbol> {
    if n < 15 {
        unary(n - 1, 0, 14, level_context(cat, ones, more))
    } else {
        unary(14, 0, 14, level_context(cat, ones, more)) + golomb(n - 15, 0)
    }
}

/// The bin of the sign of a level.
pub open spec fn sign_bins(level: i32) -> Seq<Symbol> {
    seq![Symbol::Even { bin: if level < 0 {
        1
    } else {
        0
    } }]
}

/// The levels of a block from level `pos` down, behind `ones` levels of 1 or -1
/// and `more` larger ones.
pub open spec fn level_bins(cat: BlockCat, block: Seq<i32>, pos: int, ones: int, more: int) -> Seq<
    Symbol,
>
    decreases pos + 1,
{
    if pos < 0 {
        Seq::empty()
    } else if block[pos] == 0 {
        level_bins(cat, block, pos - 1, ones, more)
    } else {
        let n = size_of(block[pos]);
        size_bins(cat, ones, more, n) + (sign_bins(block[pos]) + (if n == 1 {
            level_bins(cat, block, pos - 1, ones + 1, more)
        } else {
            level_bins(cat, block, pos - 1, ones, more + 1)
        }))
    }
}

/// The bins of a block.
pub open spec fn block_bins(cat: BlockCat, block: Seq<i32>) -> Seq<Symbol> {
    flag_bins(cat, block, 0) + level_bins(cat, block, block.len() - 1, 0, 0)
}

// ---- Reading ----------------------------------------------------------------

/// The contexts of the decoder are the ones named here.
proof fn lemma_contexts(cat: BlockCat, i: int)
    requires
        0 <= i < size(cat) - 1,
    ensures
        present_context(cat, i) == cat.spec_significant_base() + spec_sig_inc(cat, i),
        final_context(cat, i) == cat.spec_last_significant_base() + spec_last_inc(cat, i),
{
    if cat is Luma8x8 {
        reveal(sig_8x8);
        reveal(last_8x8);
    }
}

/// A bin against a context is read, and the others are still to come.
proof fn lemma_bin(
    c: Coder,
    bank: Seq<Context>,
    w: Seq<Symbol>,
    ctx: int,
    b: int,
    data: Seq<u8>,
    start: nat,
) -> (r: (Coder, Seq<Context>))
    requires
        w.len() > 0,
        w[0] == bin(ctx, b),
        held(c, bank, w, data, start),
    ensures
        stands(c, bank, data, start).decide(ctx) == (b, stands(r.0, r.1, data, start)),
        held(r.0, r.1, w.skip(1), data, start),
        behind(r.0, r.1, w.skip(1), data, start) == behind(c, bank, w, data, start),
{
    lemma_read(c, bank, w, data, start)
}

/// What the flags of a block say.
spec fn map_of(block: Seq<i32>, last: int, after: Cabac) -> SigMap {
    SigMap {
        complete: true,
        count: last + 1,
        significant: Seq::new(64, |j: int| j < block.len() && block[j] != 0),
        after,
    }
}

proof fn lemma_flags(
    c: Coder,
    bank: Seq<Context>,
    cat: BlockCat,
    block: Seq<i32>,
    i: int,
    last: int,
    so_far: Seq<bool>,
    data: Seq<u8>,
    start: nat,
)
    requires
        block.len() == size(cat),
        0 <= i <= last < block.len(),
        block[last] != 0,
        is_last(block, last),
        so_far.len() == 64,
        forall|j: int| 0 <= j < i ==> (#[trigger] so_far[j]) == (block[j] != 0),
        forall|j: int| i <= j < 64 ==> !(#[trigger] so_far[j]),
        held(c, bank, flag_bins(cat, block, i), data, start),
        !overran(behind(c, bank, flag_bins(cat, block, i), data, start)),
    ensures
        sig_map(stands(c, bank, data, start), cat, i, so_far) == map_of(
            block,
            last,
            behind(c, bank, flag_bins(cat, block, i), data, start),
        ),
    decreases block.len() - i,
{
    let w = flag_bins(cat, block, i);
    let s = stands(c, bank, data, start);
    let after = behind(c, bank, w, data, start);
    let goal = map_of(block, last, after);
    if i + 1 >= block.len() {
        lemma_read_all(c, bank, w, data, start);
        assert(so_far.update(i, true) =~= goal.significant);
    } else {
        lemma_contexts(cat, i);
        let sig: int = if block[i] != 0 {
            1
        } else {
            0
        };
        let (c1, k1) = lemma_bin(c, bank, w, present_context(cat, i), sig, data, start);
        let w1 = w.skip(1);
        let s1 = stands(c1, k1, data, start);
        let flagged = so_far.update(i, sig == 1);
        if sig == 0 {
            assert(w1 =~= flag_bins(cat, block, i + 1));
            lemma_ahead(c1, k1, w1, data, start);
            lemma_flags(c1, k1, cat, block, i + 1, last, flagged, data, start);
            lemma_step(s, s1, s1, cat, i, so_far, false, false);
        } else {
            let ends: int = if is_last(block, i) {
                1
            } else {
                0
            };
            let (c2, k2) = lemma_bin(c1, k1, w1, final_context(cat, i), ends, data, start);
            let w2 = w1.skip(1);
            let s2 = stands(c2, k2, data, start);
            lemma_step(s, s1, s2, cat, i, so_far, true, ends == 1);
            if ends == 1 {
                assert(w2 =~= Seq::empty());
                lemma_read_all(c2, k2, w2, data, start);
                assert(last == i);
                assert(flagged =~= goal.significant);
            } else {
                assert(w2 =~= flag_bins(cat, block, i + 1));
                lemma_ahead(c2, k2, w2, data, start);
                assert(i < last) by {
                    if i == last {
                        assert(is_last(block, i));
                    }
                }
                lemma_flags(c2, k2, cat, block, i + 1, last, flagged, data, start);
            }
        }
    }
}

/// One step through a map.
proof fn lemma_step(
    s: Cabac,
    s1: Cabac,
    s2: Cabac,
    cat: BlockCat,
    i: int,
    so_far: Seq<bool>,
    sig: bool,
    ends: bool,
)
    requires
        0 <= i < size(cat) - 1,
        s.decide(cat.spec_significant_base() + spec_sig_inc(cat, i)) == (if sig {
            1int
        } else {
            0
        }, s1),
        sig ==> s1.decide(cat.spec_last_significant_base() + spec_last_inc(cat, i)) == (if ends {
            1int
        } else {
            0
        }, s2),
        !sig ==> s1 == s2 && !ends,
    ensures
        ends ==> sig_map(s, cat, i, so_far) == (SigMap {
            complete: true,
            count: i + 1,
            significant: so_far.update(i, sig),
            after: s2,
        }),
        !ends && !overran(s2) ==> sig_map(s, cat, i, so_far) == sig_map(
            s2,
            cat,
            i + 1,
            so_far.update(i, sig),
        ),
{
}

/// The size of a level is read back.
proof fn lemma_size(
    c: Coder,
    bank: Seq<Context>,
    cat: BlockCat,
    ones: int,
    more: int,
    n: int,
    data: Seq<u8>,
    start: nat,
)
    requires
        1 <= n <= 0x8000_0000,
        0 <= ones,
        0 <= more,
        held(c, bank, size_bins(cat, ones, more, n), data, start),
    ensures
        level_magnitude(stands(c, bank, data, start), cat, ones, more) == (
            n,
            behind(c, bank, size_bins(cat, ones, more, n), data, start),
        ),
{
    let ctx = level_context(cat, ones, more);
    let w = size_bins(cat, ones, more, n);
    let s = stands(c, bank, data, start);
    assert(ctx =~= level_choice(cat, ones, more));
    assert forall|i: int| 0 <= i < 14 implies 0 <= #[trigger] ctx(i) < NUM_CONTEXTS by {
    }
    if n < 15 {
        assert(s.unary(0, 14, ctx) == (n - 1, behind(c, bank, w, data, start))) by {
            reveal(held);
            reveal(behind);
            law_unary_numbers_are_read_back(c, bank, n - 1, 0, 14, ctx, data, start);
        }
    } else {
        let first = unary(14, 0, 14, ctx);
        let rest = golomb(n - 15, 0);
        let (c1, k1) = lemma_parts(c, bank, first, rest, data, start);
        assert(s.unary(0, 14, ctx) == (14int, stands(c1, k1, data, start))) by {
            reveal(held);
            reveal(behind);
            law_unary_numbers_are_read_back(c, bank, 14, 0, 14, ctx, data, start);
        }
        assert(stands(c1, k1, data, start).exp_golomb(0) == (
            n - 15,
            behind(c1, k1, rest, data, start),
        )) by {
            lemma_golomb(c1, k1, n - 15, 0, data, start);
        }
    }
}

/// Bins with even odds teach no model anything.
proof fn lemma_even(c: Coder, bank: Seq<Context>, w: Seq<Symbol>)
    requires
        forall|i: int| 0 <= i < w.len() ==> (#[trigger] w[i]) is Even,
    ensures
        c.coded_all(bank, w).1 == bank,
    decreases w.len(),
{
    if w.len() > 0 {
        assert(w[0] is Even);
        let rest = w.skip(1);
        assert forall|i: int| 0 <= i < rest.len() implies (#[trigger] rest[i]) is Even by {
            assert(rest[i] == w[i + 1]);
        }
        lemma_even(c.coded(bank, w[0]).0, bank, rest);
    }
}

proof fn lemma_digits_even(v: int, n: nat)
    ensures
        forall|i: int| 0 <= i < digits(v, n).len() ==> (#[trigger] digits(v, n)[i]) is Even,
    decreases n,
{
    if n > 0 {
        let high = pow2((n - 1) as nat) as int;
        let rest = digits(v % high, (n - 1) as nat);
        lemma_digits_even(v % high, (n - 1) as nat);
        assert forall|i: int| 0 <= i < digits(v, n).len() implies (#[trigger] digits(
            v,
            n,
        )[i]) is Even by {
            if i > 0 {
                assert(digits(v, n)[i] == rest[i - 1]);
            }
        }
    }
}

proof fn lemma_golomb_even(v: int, k: nat)
    ensures
        forall|i: int| 0 <= i < golomb(v, k).len() ==> (#[trigger] golomb(v, k)[i]) is Even,
    decreases v,
{
    let w = golomb(v, k);
    let rest = if v >= pow2(k) && pow2(k) > 0 {
        lemma_golomb_even(v - pow2(k), k + 1);
        golomb(v - pow2(k), k + 1)
    } else {
        lemma_digits_even(v, k);
        digits(v, k)
    };
    assert forall|i: int| 0 <= i < w.len() implies (#[trigger] w[i]) is Even by {
        if i > 0 {
            assert(w[i] == rest[i - 1]);
        }
    }
}

/// An Exp-Golomb number is read back, models included.
pub proof fn lemma_golomb(
    c: Coder,
    bank: Seq<Context>,
    v: int,
    k: nat,
    data: Seq<u8>,
    start: nat,
)
    requires
        k <= 3,
        0 <= v < 0x7fff_fff8,
        held(c, bank, golomb(v, k), data, start),
    ensures
        stands(c, bank, data, start).exp_golomb(k) == (
            v,
            behind(c, bank, golomb(v, k), data, start),
        ),
{
    reveal(held);
    reveal(behind);
    lemma2_to64();
    law_exp_golomb_numbers_are_read_back(c, bank, v, k, data, start);
    lemma_golomb_even(v, k);
    lemma_even(c, bank, golomb(v, k));
}

/// A sign is read back.
proof fn lemma_sign(
    c: Coder,
    bank: Seq<Context>,
    level: i32,
    rest: Seq<Symbol>,
    data: Seq<u8>,
    start: nat,
) -> (r: (Coder, Seq<Context>))
    requires
        held(c, bank, sign_bins(level) + rest, data, start),
    ensures
        stands(c, bank, data, start).bypass() == (if level < 0 {
            1int
        } else {
            0
        }, stands(r.0, r.1, data, start)),
        held(r.0, r.1, rest, data, start),
        behind(r.0, r.1, rest, data, start) == behind(
            c,
            bank,
            sign_bins(level) + rest,
            data,
            start,
        ),
{
    let w = sign_bins(level) + rest;
    assert(w.skip(1) =~= rest);
    lemma_read(c, bank, w, data, start)
}

proof fn lemma_levels(
    c: Coder,
    bank: Seq<Context>,
    cat: BlockCat,
    block: Seq<i32>,
    significant: Seq<bool>,
    pos: int,
    ones: int,
    more: int,
    out: Seq<i32>,
    data: Seq<u8>,
    start: nat,
)
    requires
        block.len() == size(cat),
        out.len() == block.len(),
        pos < block.len(),
        0 <= ones,
        0 <= more,
        forall|j: int| 0 <= j < block.len() ==> (#[trigger] significant[j]) == (block[j] != 0),
        forall|j: int| 0 <= j <= pos ==> (#[trigger] out[j]) == 0,
        forall|j: int| 0 <= j && pos < j < block.len() ==> (#[trigger] out[j]) == block[j],
        held(c, bank, level_bins(cat, block, pos, ones, more), data, start),
        !overran(behind(c, bank, level_bins(cat, block, pos, ones, more), data, start)),
    ensures
        levels(stands(c, bank, data, start), cat, significant, pos, ones, more, out) == (
            block,
            behind(c, bank, level_bins(cat, block, pos, ones, more), data, start),
        ),
    decreases pos + 1,
{
    let w = level_bins(cat, block, pos, ones, more);
    let s = stands(c, bank, data, start);
    if pos < 0 {
        lemma_read_all(c, bank, w, data, start);
        assert(out =~= block);
    } else if block[pos] == 0 {
        assert(!significant[pos]);
        lemma_levels(c, bank, cat, block, significant, pos - 1, ones, more, out, data, start);
    } else {
        assert(significant[pos]);
        let n = size_of(block[pos]);
        let (ones1, more1) = if n == 1 {
            (ones + 1, more)
        } else {
            (ones, more + 1)
        };
        let rest = level_bins(cat, block, pos - 1, ones1, more1);
        let (c1, k1) = lemma_parts(
            c,
            bank,
            size_bins(cat, ones, more, n),
            sign_bins(block[pos]) + rest,
            data,
            start,
        );
        lemma_size(c, bank, cat, ones, more, n, data, start);
        let (c2, k2) = lemma_sign(c1, k1, block[pos], rest, data, start);
        lemma_ahead(c2, k2, rest, data, start);
        let put = out.update(pos, block[pos]);
        lemma_levels(
            c2,
            k2,
            cat,
            block,
            significant,
            pos - 1,
            ones1,
            more1,
            put,
            data,
            start,
        );
        lemma_level_step(
            s,
            stands(c1, k1, data, start),
            stands(c2, k2, data, start),
            cat,
            significant,
            pos,
            ones,
            more,
            out,
            block[pos],
        );
    }
}

/// One level put in its place.
proof fn lemma_level_step(
    s: Cabac,
    s1: Cabac,
    s2: Cabac,
    cat: BlockCat,
    significant: Seq<bool>,
    pos: int,
    ones: int,
    more: int,
    out: Seq<i32>,
    level: i32,
)
    requires
        0 <= pos,
        significant[pos],
        level != 0,
        level_magnitude(s, cat, ones, more) == (size_of(level), s1),
        s1.bypass() == (if level < 0 {
            1int
        } else {
            0
        }, s2),
        !overran(s2),
    ensures
        levels(s, cat, significant, pos, ones, more, out) == (if size_of(level) == 1 {
            levels(s2, cat, significant, pos - 1, ones + 1, more, out.update(pos, level))
        } else {
            levels(s2, cat, significant, pos - 1, ones, more + 1, out.update(pos, level))
        }),
{
    reveal(wrap32);
}

/// A residual block is read back: of data that goes on with the bins of a block,
/// the decoder reads every level of that block, and it is left right behind them.
pub proof fn law_blocks_are_read_back(
    c: Coder,
    bank: Seq<Context>,
    cat: BlockCat,
    block: Seq<i32>,
    data: Seq<u8>,
    start: nat,
)
    requires
        block.len() == size(cat),
        exists|i: int| 0 <= i < block.len() && (#[trigger] block[i]) != 0,
        held(c, bank, block_bins(cat, block), data, start),
        behind(c, bank, block_bins(cat, block), data, start).engine.pos <= data.len() * 8,
    ensures
        coefficients(stands(c, bank, data, start), cat) == (
            block,
            behind(c, bank, block_bins(cat, block), data, start),
        ),
{
    let some = choose|i: int| 0 <= i < block.len() && (#[trigger] block[i]) != 0;
    let last = lemma_last(block, block.len() - 1, some);
    let flags = flag_bins(cat, block, 0);
    let rest = level_bins(cat, block, block.len() - 1, 0, 0);
    lemma_ahead(c, bank, flags + rest, data, start);
    let (c1, k1) = lemma_parts(c, bank, flags, rest, data, start);
    lemma_ahead(c1, k1, rest, data, start);
    let none = Seq::new(64, |i: int| false);
    lemma_flags(c, bank, cat, block, 0, last, none, data, start);
    let zeroes = Seq::new(size(cat) as nat, |i: int| 0i32);
    lemma_skip_zeros(cat, block, block.len() - 1, last);
    let map = map_of(block, last, stands(c1, k1, data, start));
    assert(sig_map(stands(c, bank, data, start), cat, 0, none) == map);
    lemma_levels(c1, k1, cat, block, map.significant, last, 0, 0, zeroes, data, start);
}

/// The last level that is not zero.
proof fn lemma_last(block: Seq<i32>, from: int, some: int) -> (last: int)
    requires
        0 <= some <= from < block.len(),
        block[some] != 0,
        is_last(block, from),
    ensures
        some <= last <= from,
        block[last] != 0,
        is_last(block, last),
    decreases from,
{
    if block[from] != 0 {
        from
    } else {
        assert forall|j: int| from - 1 < j < block.len() implies (#[trigger] block[j]) == 0 by {
        }
        lemma_last(block, from - 1, some)
    }
}

/// Zeros behind the last level have no bins.
proof fn lemma_skip_zeros(cat: BlockCat, block: Seq<i32>, from: int, last: int)
    requires
        0 <= last <= from < block.len(),
        is_last(block, last),
    ensures
        level_bins(cat, block, from, 0, 0) == level_bins(cat, block, last, 0, 0),
    decreases from,
{
    if from > last {
        assert(block[from] == 0);
        lemma_skip_zeros(cat, block, from - 1, last);
    }
}

/// Whether a block has levels is read back from a bin against one of four
/// contexts of its kind.
pub proof fn law_coded_flags_are_read_back(
    c: Coder,
    bank: Seq<Context>,
    cat: BlockCat,
    inc: int,
    coded: bool,
    data: Seq<u8>,
    start: nat,
)
    requires
        0 <= inc < 4,
        cat !is Luma8x8,
        held(c, bank, coded_bins(cat, inc, coded), data, start),
    ensures
        coded_block_flag(stands(c, bank, data, start), cat, inc) == (
            coded,
            behind(c, bank, coded_bins(cat, inc, coded), data, start),
        ),
{
    let w = coded_bins(cat, inc, coded);
    let (c1, k1) = lemma_read(c, bank, w, data, start);
    lemma_read_all(c1, k1, w.skip(1), data, start);
}

/// The bin that says whether a block has levels.
pub open spec fn coded_bins(cat: BlockCat, inc: int, coded: bool) -> Seq<Symbol> {
    let first: int = match cat {
        BlockCat::Intra16x16Dc => 85,
        BlockCat::Intra16x16Ac => 89,
        BlockCat::Luma4x4 => 93,
        BlockCat::ChromaDc => 97,
        BlockCat::ChromaAc => 101,
        BlockCat::Luma8x8 => 105,
    };
    seq![bin(first + inc, if coded {
        1
    } else {
        0
    })]
}

} // verus!
