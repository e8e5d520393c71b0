//! What the arithmetic decoding engine undoes.
//!
//! An arithmetic coder writes no bits for a bin: it narrows an interval, and
//! any number within the last interval stands for all the bins. [`Coder`] is
//! that interval, as mathematics. The laws here say that the engine of
//! [`super::cabac`] reads back every bin from every such number.
use vstd::prelude::*;
use vstd::arithmetic::power2::{lemma2_to64, lemma_pow2_pos, lemma_pow2_unfold, pow2};
use super::cabac::{
    bank_wf, bit_at, fresh_engine, lemma_bit_at, shift_in_bits, Cabac, Context, Engine,
    NUM_CONTEXTS,
};
use super::cabac_tables::{
    lemma_lps_width, lemma_transitions, lps_width, state_after_lps, state_after_mps,
};

verus! {

/// The first `n` bits of `data` from bit `start` on, as a number.
pub open spec fn number(data: Seq<u8>, start: nat, n: nat) -> int
    decreases n,
{
    if n == 0 {
        0
    } else {
        2 * number(data, start, (n - 1) as nat) + bit_at(data, (start + n - 1) as nat)
    }
}

/// One thing to code.
pub enum Symbol {
    /// A bin, against a context.
    Against { ctx: int, bin: int },
    /// A bin with even odds.
    Even { bin: int },
    /// That the slice goes on.
    More,
}

impl Symbol {
    /// The contexts exist and bins are binary.
    pub open spec fn wf(self) -> bool {
        match self {
            Symbol::Against { ctx, bin } => 0 <= ctx < NUM_CONTEXTS && 0 <= bin <= 1,
            Symbol::Even { bin } => 0 <= bin <= 1,
            Symbol::More => true,
        }
    }
}

/// The interval that the bins so far have narrowed: `range` numbers of `bits`
/// bits, from `low` on.
#[verifier::ext_equal]
pub struct Coder {
    pub low: int,
    pub range: int,
    pub bits: nat,
}

impl Coder {
    /// The interval before the first bin.
    pub open spec fn start() -> Coder {
        Coder { low: 0, range: 510, bits: 9 }
    }

    /// An interval the next bin can be coded in.
    pub open spec fn wf(self) -> bool {
        256 <= self.range <= 510
    }

    /// The part of the interval `width` wide, `from` above its start.
    pub open spec fn part(self, from: int, width: int) -> Coder {
        Coder { low: self.low + from, range: width, ..self }
    }

    /// The same interval with as many more bits as make it at least 256 wide.
    pub open spec fn rescaled(self) -> Coder
        decreases
                (if self.range < 256 {
                    256 - self.range
                } else {
                    0
                }),
    {
        if 0 < self.range < 256 {
            (Coder { low: 2 * self.low, range: 2 * self.range, bits: self.bits + 1 }).rescaled()
        } else {
            self
        }
    }

    /// The interval after a bin against a context: the less probable symbol
    /// has the upper part.
    pub open spec fn against(self, ctx: Context, bin: int) -> Coder {
        let lps = lps_width(ctx.state as int, (self.range / 64) % 4);
        if bin == ctx.mps {
            self.part(0, self.range - lps).rescaled()
        } else {
            self.part(self.range - lps, lps).rescaled()
        }
    }

    /// The interval after a bin with even odds.
    pub open spec fn even(self, bin: int) -> Coder {
        Coder {
            low: 2 * self.low + if bin == 1 {
                self.range
            } else {
                0
            },
            range: self.range,
            bits: self.bits + 1,
        }
    }

    /// The interval after the slice is said to go on: all but the two highest
    /// numbers, which say that it ends.
    pub open spec fn more(self) -> Coder {
        self.part(0, self.range - 2).rescaled()
    }

    /// The two numbers that end a slice.
    pub open spec fn end(self) -> Coder {
        self.part(self.range - 2, 2)
    }

    /// Code a symbol, with the models as they are after it.
    pub open spec fn coded(self, bank: Seq<Context>, symbol: Symbol) -> (Coder, Seq<Context>) {
        match symbol {
            Symbol::Against { ctx, bin } => (
                self.against(bank[ctx], bin),
                bank.update(ctx, learnt(bank[ctx], bin)),
            ),
            Symbol::Even { bin } => (self.even(bin), bank),
            Symbol::More => (self.more(), bank),
        }
    }

    /// Code a sequence of symbols.
    pub open spec fn coded_all(self, bank: Seq<Context>, symbols: Seq<Symbol>) -> (
        Coder,
        Seq<Context>,
    )
        decreases symbols.len(),
    {
        if symbols.len() == 0 {
            (self, bank)
        } else {
            let (next, learnt) = self.coded(bank, symbols[0]);
            next.coded_all(learnt, symbols.skip(1))
        }
    }

    /// Whether the bits of `data` from bit `start` on fall into the interval.
    pub open spec fn holds(self, data: Seq<u8>, start: nat) -> bool {
        self.low <= number(data, start, self.bits) < self.low + self.range
    }

    /// The engine that has read as many bits of `data` as the interval has.
    pub open spec fn reader(self, data: Seq<u8>, start: nat) -> Engine {
        Engine {
            data,
            pos: start + self.bits,
            range: self.range,
            offset: number(data, start, self.bits) - self.low,
        }
    }
}

/// A model after a bin.
pub open spec fn learnt(ctx: Context, bin: int) -> Context {
    if bin == ctx.mps {
        Context { state: state_after_mps(ctx.state as int), mps: ctx.mps }
    } else {
        Context {
            state: state_after_lps(ctx.state as int),
            mps: if ctx.state == 0 {
                (1 - ctx.mps) as u8
            } else {
                ctx.mps
            },
        }
    }
}

/// Decode a symbol of the kind of `asked`, whatever its bin.
pub open spec fn decoded(s: Cabac, asked: Symbol) -> (Symbol, Cabac) {
    match asked {
        Symbol::Against { ctx, .. } => {
            let (bin, after) = s.decide(ctx);
            (Symbol::Against { ctx, bin }, after)
        },
        Symbol::Even { .. } => {
            let (bin, after) = s.bypass();
            (Symbol::Even { bin }, after)
        },
        Symbol::More => {
            let (bin, after) = s.terminate();
            if bin == 0 {
                (Symbol::More, after)
            } else {
                (Symbol::Even { bin }, after)
            }
        },
    }
}

/// Decode one symbol of each kind asked for.
pub open spec fn decoded_all(s: Cabac, asked: Seq<Symbol>) -> (Seq<Symbol>, Cabac)
    decreases asked.len(),
{
    if asked.len() == 0 {
        (Seq::empty(), s)
    } else {
        let (symbol, after) = decoded(s, asked[0]);
        let (rest, end) = decoded_all(after, asked.skip(1));
        (seq![symbol] + rest, end)
    }
}

/// More bits narrow the numbers down: the interval an engine rescales to holds
/// the data if and only if it did before, and the engine follows it.
proof fn lemma_rescaled(c: Coder, data: Seq<u8>, start: nat)
    requires
        0 < c.range <= 510,
    ensures
        c.rescaled().wf(),
        c.rescaled().bits >= c.bits,
        c.rescaled().holds(data, start) ==> c.holds(data, start),
        c.rescaled().holds(data, start) && start + c.rescaled().bits <= usize::MAX ==> c.reader(
            data,
            start,
        ).renorm() == c.rescaled().reader(data, start),
    decreases 512 - c.range,
{
    if c.range < 256 {
        let next = Coder { low: 2 * c.low, range: 2 * c.range, bits: c.bits + 1 };
        lemma_rescaled(next, data, start);
        lemma_bit_at(data, start + c.bits);
        assert(number(data, start, next.bits) == 2 * number(data, start, c.bits) + bit_at(
            data,
            start + c.bits,
        ));
        if next.holds(data, start) && start + next.bits <= usize::MAX {
            let e = c.reader(data, start);
            assert(Engine { range: 2 * e.range, ..e.shift_in() } == next.reader(data, start));
        }
    }
}

/// The engine reads back one symbol.
proof fn lemma_decodes(c: Coder, bank: Seq<Context>, symbol: Symbol, data: Seq<u8>, start: nat)
    requires
        c.wf(),
        bank_wf(bank),
        symbol.wf(),
        c.coded(bank, symbol).0.holds(data, start),
    ensures
        c.holds(data, start),
        start + c.coded(bank, symbol).0.bits <= usize::MAX ==> decoded(
            Cabac { engine: c.reader(data, start), bank },
            symbol,
        ) == (
            symbol,
            Cabac {
                engine: c.coded(bank, symbol).0.reader(data, start),
                bank: c.coded(bank, symbol).1,
            },
        ),
{
    match symbol {
        Symbol::Against { ctx, bin } => {
            let model = bank[ctx];
            let lps = lps_width(model.state as int, (c.range / 64) % 4);
            lemma_lps_width(model.state as int, (c.range / 64) % 4);
            if bin == model.mps {
                lemma_rescaled(c.part(0, c.range - lps), data, start);
            } else {
                lemma_rescaled(c.part(c.range - lps, lps), data, start);
            }
        },
        Symbol::Even { bin } => {
            lemma_bit_at(data, start + c.bits);
            assert(number(data, start, c.bits + 1) == 2 * number(data, start, c.bits) + bit_at(
                data,
                start + c.bits,
            ));
        },
        Symbol::More => {
            lemma_rescaled(c.part(0, c.range - 2), data, start);
        },
    }
}

/// Coding keeps the interval and the models usable, and never takes bits back.
proof fn lemma_coded(c: Coder, bank: Seq<Context>, symbol: Symbol)
    requires
        c.wf(),
        bank_wf(bank),
        symbol.wf(),
    ensures
        c.coded(bank, symbol).0.wf(),
        c.coded(bank, symbol).0.bits >= c.bits,
        bank_wf(c.coded(bank, symbol).1),
{
    match symbol {
        Symbol::Against { ctx, bin } => {
            let model = bank[ctx];
            let lps = lps_width(model.state as int, (c.range / 64) % 4);
            lemma_lps_width(model.state as int, (c.range / 64) % 4);
            lemma_transitions(model.state as int);
            lemma_rescaled(c.part(0, c.range - lps), seq![], 0);
            lemma_rescaled(c.part(c.range - lps, lps), seq![], 0);
        },
        Symbol::Even { .. } => {},
        Symbol::More => {
            lemma_rescaled(c.part(0, c.range - 2), seq![], 0);
        },
    }
}

proof fn lemma_coded_all(c: Coder, bank: Seq<Context>, symbols: Seq<Symbol>)
    requires
        c.wf(),
        bank_wf(bank),
        forall|i: int| 0 <= i < symbols.len() ==> (#[trigger] symbols[i]).wf(),
    ensures
        c.coded_all(bank, symbols).0.wf(),
        c.coded_all(bank, symbols).0.bits >= c.bits,
    decreases symbols.len(),
{
    if symbols.len() > 0 {
        lemma_coded(c, bank, symbols[0]);
        let (next, learnt) = c.coded(bank, symbols[0]);
        lemma_coded_all(next, learnt, symbols.skip(1));
    }
}

/// Decoding undoes coding: of any data that falls into the interval a sequence
/// of symbols was coded to, the engine reads back those symbols, and it is
/// left where the coder stopped, with the same models learnt.
pub proof fn law_decoding_undoes_coding(
    c: Coder,
    bank: Seq<Context>,
    symbols: Seq<Symbol>,
    data: Seq<u8>,
    start: nat,
)
    requires
        c.wf(),
        bank_wf(bank),
        forall|i: int| 0 <= i < symbols.len() ==> (#[trigger] symbols[i]).wf(),
        c.coded_all(bank, symbols).0.holds(data, start),
        start + c.coded_all(bank, symbols).0.bits <= usize::MAX,
    ensures
        c.holds(data, start),
        decoded_all(Cabac { engine: c.reader(data, start), bank }, symbols) == (
            symbols,
            Cabac {
                engine: c.coded_all(bank, symbols).0.reader(data, start),
                bank: c.coded_all(bank, symbols).1,
            },
        ),
    decreases symbols.len(),
{
    if symbols.len() == 0 {
        assert(symbols =~= Seq::empty());
    } else {
        let (next, learnt) = c.coded(bank, symbols[0]);
        let rest = symbols.skip(1);
        lemma_coded(c, bank, symbols[0]);
        lemma_coded_all(next, learnt, rest);
        law_decoding_undoes_coding(next, learnt, rest, data, start);
        lemma_decodes(c, bank, symbols[0], data, start);
        assert(seq![symbols[0]] + rest =~= symbols);
    }
}

/// A new engine stands where coding starts.
pub proof fn law_engine_starts_with_the_coder(data: Seq<u8>, start: nat)
    requires
        start + 9 <= usize::MAX,
    ensures
        fresh_engine(data, start) == Coder::start().reader(data, start),
{
    lemma_first_bits(data, start, 9);
}

proof fn lemma_first_bits(data: Seq<u8>, start: nat, n: nat)
    requires
        n <= 9,
        start + n <= usize::MAX,
    ensures
        0 <= number(data, start, n) < pow2(n),
        shift_in_bits(Engine { data, pos: start, range: 510, offset: 0 }, n) == (Engine {
            data,
            pos: start + n,
            range: 510,
            offset: number(data, start, n),
        }),
    decreases n,
{
    lemma2_to64();
    if n > 0 {
        lemma_first_bits(data, start, (n - 1) as nat);
        lemma_bit_at(data, (start + n - 1) as nat);
    }
}

/// Of data in the last two numbers of the interval the engine reads that the
/// slice ends.
pub proof fn law_end_is_read_back(c: Coder, data: Seq<u8>, start: nat)
    requires
        c.wf(),
        c.end().holds(data, start),
    ensures
        c.holds(data, start),
        c.reader(data, start).terminate().0 == 1,
{
}

/// A whole slice is read back: of data that falls into the interval that symbols
/// and then the end were coded to, a new engine with the same models reads those
/// symbols, none of which is the end, and then the end.
pub proof fn law_a_coded_slice_is_read_back(
    bank: Seq<Context>,
    symbols: Seq<Symbol>,
    data: Seq<u8>,
    start: nat,
)
    requires
        bank_wf(bank),
        forall|i: int| 0 <= i < symbols.len() ==> (#[trigger] symbols[i]).wf(),
        Coder::start().coded_all(bank, symbols).0.end().holds(data, start),
        start + Coder::start().coded_all(bank, symbols).0.bits <= usize::MAX,
    ensures
        ({
            let s = Cabac { engine: fresh_engine(data, start), bank };
            &&& decoded_all(s, symbols).0 == symbols
            &&& decoded_all(s, symbols).1.terminate().0 == 1
        }),
{
    let c = Coder::start().coded_all(bank, symbols).0;
    lemma_coded_all(Coder::start(), bank, symbols);
    law_end_is_read_back(c, data, start);
    law_engine_starts_with_the_coder(data, start);
    law_decoding_undoes_coding(Coder::start(), bank, symbols, data, start);
}

/// Any symbol can follow any other: each leaves numbers in the interval.
pub proof fn law_every_symbol_has_room(c: Coder, bank: Seq<Context>, symbol: Symbol)
    requires
        c.wf(),
        bank_wf(bank),
        symbol.wf(),
    ensures
        c.coded(bank, symbol).0.wf(),
        bank_wf(c.coded(bank, symbol).1),
{
    lemma_coded(c, bank, symbol);
}

/// A bin against a context.
pub open spec fn bin(ctx: int, bin: int) -> Symbol {
    Symbol::Against { ctx, bin }
}

/// The decoder that has read as much of `data` as the coder has coded.
pub open spec fn stands(c: Coder, bank: Seq<Context>, data: Seq<u8>, start: nat) -> Cabac {
    Cabac { engine: c.reader(data, start), bank }
}

/// `data` goes on with these symbols where the coder stands.
#[verifier::opaque]
pub open spec fn held(
    c: Coder,
    bank: Seq<Context>,
    symbols: Seq<Symbol>,
    data: Seq<u8>,
    start: nat,
) -> bool {
    &&& c.wf()
    &&& bank_wf(bank)
    &&& forall|i: int| 0 <= i < symbols.len() ==> (#[trigger] symbols[i]).wf()
    &&& c.coded_all(bank, symbols).0.holds(data, start)
    &&& start + c.coded_all(bank, symbols).0.bits <= usize::MAX
}

/// The decoder that has read exactly these symbols.
#[verifier::opaque]
pub open spec fn behind(
    c: Coder,
    bank: Seq<Context>,
    symbols: Seq<Symbol>,
    data: Seq<u8>,
    start: nat,
) -> Cabac {
    let (end, learnt) = c.coded_all(bank, symbols);
    stands(end, learnt, data, start)
}

/// The first of some symbols is read, and the others are still to come.
pub proof fn lemma_read(
    c: Coder,
    bank: Seq<Context>,
    symbols: Seq<Symbol>,
    data: Seq<u8>,
    start: nat,
) -> (r: (Coder, Seq<Context>))
    requires
        symbols.len() > 0,
        held(c, bank, symbols, data, start),
    ensures
        r == c.coded(bank, symbols[0]),
        c.holds(data, start),
        decoded(stands(c, bank, data, start), symbols[0]) == (
            symbols[0],
            stands(r.0, r.1, data, start),
        ),
        held(r.0, r.1, symbols.skip(1), data, start),
        behind(r.0, r.1, symbols.skip(1), data, start) == behind(c, bank, symbols, data, start),
{
    reveal(held);
    reveal(behind);
    let (next, learnt) = c.coded(bank, symbols[0]);
    let rest = symbols.skip(1);
    lemma_coded(c, bank, symbols[0]);
    assert forall|i: int| 0 <= i < rest.len() implies (#[trigger] rest[i]).wf() by {
        assert(rest[i] == symbols[i + 1]);
    }
    lemma_coded_all(next, learnt, rest);
    law_decoding_undoes_coding(next, learnt, rest, data, start);
    lemma_decodes(c, bank, symbols[0], data, start);
    (next, learnt)
}

/// Where the symbols have ended, nothing more is read.
pub proof fn lemma_read_all(
    c: Coder,
    bank: Seq<Context>,
    symbols: Seq<Symbol>,
    data: Seq<u8>,
    start: nat,
)
    requires
        symbols.len() == 0,
    ensures
        behind(c, bank, symbols, data, start) == stands(c, bank, data, start),
{
    reveal(held);
    reveal(behind);
}

/// A decoder does not stand behind what is still to come.
pub proof fn lemma_ahead(
    c: Coder,
    bank: Seq<Context>,
    symbols: Seq<Symbol>,
    data: Seq<u8>,
    start: nat,
)
    requires
        held(c, bank, symbols, data, start),
    ensures
        stands(c, bank, data, start).engine.pos <= behind(
            c,
            bank,
            symbols,
            data,
            start,
        ).engine.pos,
        stands(c, bank, data, start).engine.data == data,
        behind(c, bank, symbols, data, start).engine.data == data,
{
    reveal(held);
    reveal(behind);
    lemma_coded_all(c, bank, symbols);
}

/// Symbols in two parts are read part by part.
pub proof fn lemma_parts(
    c: Coder,
    bank: Seq<Context>,
    first: Seq<Symbol>,
    rest: Seq<Symbol>,
    data: Seq<u8>,
    start: nat,
) -> (r: (Coder, Seq<Context>))
    requires
        held(c, bank, first + rest, data, start),
    ensures
        r == c.coded_all(bank, first),
        held(c, bank, first, data, start),
        behind(c, bank, first, data, start) == stands(r.0, r.1, data, start),
        held(r.0, r.1, rest, data, start),
        behind(r.0, r.1, rest, data, start) == behind(c, bank, first + rest, data, start),
    decreases first.len(),
{
    reveal(held);
    reveal(behind);
    let all = first + rest;
    if first.len() == 0 {
        assert(all =~= rest);
        law_decoding_undoes_coding(c, bank, all, data, start);
        lemma_coded_all(c, bank, all);
        (c, bank)
    } else {
        let (next, learnt) = lemma_read(c, bank, all, data, start);
        assert(all.skip(1) =~= first.skip(1) + rest);
        let r = lemma_parts(next, learnt, first.skip(1), rest, data, start);
        assert(all[0] == first[0]);
        assert forall|i: int| 0 <= i < first.len() implies (#[trigger] first[i]).wf() by {
            assert(first[i] == all[i]);
        }
        r
    }
}

/// The bins of the `n`-bit number `v`, most significant first.
pub open spec fn digits(v: int, n: nat) -> Seq<Symbol>
    decreases n,
{
    if n == 0 {
        Seq::empty()
    } else {
        let high = pow2((n - 1) as nat) as int;
        seq![Symbol::Even { bin: v / high }] + digits(v % high, (n - 1) as nat)
    }
}

/// The bins of the exponential Golomb number `v` of order `k`.
pub open spec fn golomb(v: int, k: nat) -> Seq<Symbol>
    decreases v,
{
    if v >= pow2(k) && pow2(k) > 0 {
        seq![Symbol::Even { bin: 1 }] + golomb(v - pow2(k), k + 1)
    } else {
        seq![Symbol::Even { bin: 0 }] + digits(v, k)
    }
}

/// The bins of the number `v` in unary, from `from` on and up to `limit`.
pub open spec fn unary(v: int, from: int, limit: int, ctx_for: spec_fn(int) -> int) -> Seq<Symbol>
    decreases limit - from,
{
    if from >= limit {
        Seq::empty()
    } else if from >= v {
        seq![Symbol::Against { ctx: ctx_for(from), bin: 0 }]
    } else {
        seq![Symbol::Against { ctx: ctx_for(from), bin: 1 }] + unary(v, from + 1, limit, ctx_for)
    }
}

/// Coding a sequence is coding its first symbol and then the others.
proof fn lemma_first(c: Coder, bank: Seq<Context>, first: Symbol, rest: Seq<Symbol>)
    ensures
        c.coded_all(bank, seq![first] + rest) == c.coded(bank, first).0.coded_all(
            c.coded(bank, first).1,
            rest,
        ),
{
    let all = seq![first] + rest;
    assert(all.skip(1) =~= rest);
    assert(all[0] == first);
}

/// A fixed-length number is read back.
pub proof fn law_fixed_numbers_are_read_back(
    c: Coder,
    bank: Seq<Context>,
    v: int,
    n: nat,
    data: Seq<u8>,
    start: nat,
)
    requires
        c.wf(),
        bank_wf(bank),
        0 <= v < pow2(n),
        c.coded_all(bank, digits(v, n)).0.holds(data, start),
        start + c.coded_all(bank, digits(v, n)).0.bits <= usize::MAX,
    ensures
        c.holds(data, start),
        c.coded_all(bank, digits(v, n)).0.bits >= c.bits,
        c.reader(data, start).fixed(n) == (
            v,
            c.coded_all(bank, digits(v, n)).0.reader(data, start),
        ),
    decreases n,
{
    lemma2_to64();
    if n > 0 {
        let high = pow2((n - 1) as nat) as int;
        lemma_pow2_pos((n - 1) as nat);
        lemma_pow2_unfold(n);
        let bin = v / high;
        assert(v == bin * high + v % high && 0 <= v % high < high && 0 <= bin <= 1)
            by (nonlinear_arith)
            requires
                bin == v / high,
                0 <= v < 2 * high,
                high > 0,
        ;
        let first = Symbol::Even { bin };
        let rest = digits(v % high, (n - 1) as nat);
        lemma_first(c, bank, first, rest);
        law_fixed_numbers_are_read_back(
            c.even(bin),
            bank,
            v % high,
            (n - 1) as nat,
            data,
            start,
        );
        lemma_decodes(c, bank, first, data, start);
    }
}

/// An exponential Golomb number is read back, as long as it needs no order
/// above 30.
pub proof fn law_exp_golomb_numbers_are_read_back(
    c: Coder,
    bank: Seq<Context>,
    v: int,
    k: nat,
    data: Seq<u8>,
    start: nat,
)
    requires
        c.wf(),
        bank_wf(bank),
        k <= 30,
        0 <= v < 0x8000_0000 - pow2(k),
        c.coded_all(bank, golomb(v, k)).0.holds(data, start),
        start + c.coded_all(bank, golomb(v, k)).0.bits <= usize::MAX,
    ensures
        c.holds(data, start),
        c.coded_all(bank, golomb(v, k)).0.bits >= c.bits,
        c.reader(data, start).exp_golomb(k) == (
            v,
            c.coded_all(bank, golomb(v, k)).0.reader(data, start),
        ),
    decreases v,
{
    lemma2_to64();
    lemma_pow2_pos(k);
    lemma_pow2_unfold(k + 1);
    if v >= pow2(k) {
        let first = Symbol::Even { bin: 1 };
        lemma_first(c, bank, first, golomb(v - pow2(k), k + 1));
        law_exp_golomb_numbers_are_read_back(c.even(1), bank, v - pow2(k), k + 1, data, start);
        lemma_decodes(c, bank, first, data, start);
    } else {
        let first = Symbol::Even { bin: 0 };
        lemma_first(c, bank, first, digits(v, k));
        law_fixed_numbers_are_read_back(c.even(0), bank, v, k, data, start);
        lemma_decodes(c, bank, first, data, start);
    }
}

/// A unary number is read back, and one that reaches its limit ends there
/// without a zero.
pub proof fn law_unary_numbers_are_read_back(
    c: Coder,
    bank: Seq<Context>,
    v: int,
    from: int,
    limit: int,
    ctx_for: spec_fn(int) -> int,
    data: Seq<u8>,
    start: nat,
)
    requires
        c.wf(),
        bank_wf(bank),
        from <= v <= limit,
        forall|i: int| from <= i < limit ==> 0 <= #[trigger] ctx_for(i) < NUM_CONTEXTS,
        c.coded_all(bank, unary(v, from, limit, ctx_for)).0.holds(data, start),
        start + c.coded_all(bank, unary(v, from, limit, ctx_for)).0.bits <= usize::MAX,
    ensures
        c.holds(data, start),
        c.coded_all(bank, unary(v, from, limit, ctx_for)).0.bits >= c.bits,
        (Cabac { engine: c.reader(data, start), bank }).unary(from, limit, ctx_for) == (
            v,
            Cabac {
                engine: c.coded_all(bank, unary(v, from, limit, ctx_for)).0.reader(data, start),
                bank: c.coded_all(bank, unary(v, from, limit, ctx_for)).1,
            },
        ),
    decreases limit - from,
{
    if from < limit {
        let bin: int = if from >= v {
            0
        } else {
            1
        };
        let first = Symbol::Against { ctx: ctx_for(from), bin };
        lemma_coded(c, bank, first);
        let (next, learnt) = c.coded(bank, first);
        if from >= v {
            lemma_first(c, bank, first, Seq::empty());
            assert(seq![first] + Seq::empty() =~= seq![first]);
        } else {
            lemma_first(c, bank, first, unary(v, from + 1, limit, ctx_for));
            law_unary_numbers_are_read_back(
                next,
                learnt,
                v,
                from + 1,
                limit,
                ctx_for,
                data,
                start,
            );
        }
        lemma_decodes(c, bank, first, data, start);
    }
}

} // verus!
