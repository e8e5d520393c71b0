//! Context-adaptive binary arithmetic decoding.
//!
//! Three layers, kept apart:
//!
//! 1. [`ArithDecoder`] is the arithmetic decoding engine: interval arithmetic
//!    over a bit source. Its model is [`Engine`].
//! 2. [`ContextState`] holds the adaptive probability models of one slice.
//! 3. The binarisation helpers (unary, fixed-length, exponential Golomb) turn
//!    bin strings back into values.
//!
//! Which context a syntax element uses depends on neighbouring macroblocks and
//! is decided in [`super::syntax`].
use vstd::prelude::*;
use vstd::bits::lemma_u8_shr_is_div;
use vstd::arithmetic::power2::{lemma2_to64, lemma_pow2_pos, lemma_pow2_strictly_increases, lemma_pow2_unfold, pow2};
use super::cabac_init::{context_init, context_line};
use super::cabac_tables::{
    lemma_lps_width, lemma_transitions, lps_width, range_tab_lps, state_after_lps, state_after_mps,
    trans_idx_lps, trans_idx_mps,
};
use super::math::{clamp_i32, clip3, lemma_shift_in, lemma_shr_i32};

verus! {

/// Which initial line of each context a slice selects.
#[derive(Debug, Clone, Copy, PartialEq, Eq, Structural)]
pub enum ContextVariant {
    /// Intra slices, which have a single set of lines.
    Intra,
    /// Inter slices, selected by the slice header's `cabac_init_idc`.
    Inter { cabac_init_idc: u8 },
}

impl ContextVariant {
    /// Whether the slice header carried a legal `cabac_init_idc`.
    pub open spec fn wf(self) -> bool {
        match self {
            ContextVariant::Intra => true,
            ContextVariant::Inter { cabac_init_idc } => cabac_init_idc <= 2,
        }
    }

    /// The column of the initial lines the slice selects.
    pub open spec fn spec_column(self) -> int {
        match self {
            ContextVariant::Intra => 0,
            ContextVariant::Inter { cabac_init_idc } => 1 + cabac_init_idc,
        }
    }

    fn column(self) -> (column: usize)
        requires
            self.wf(),
        ensures
            column == self.spec_column(),
    {
        match self {
            ContextVariant::Intra => 0,
            ContextVariant::Inter { cabac_init_idc } => 1 + cabac_init_idc as usize,
        }
    }
}

/// Number of context models this decoder carries: everything frame-coded 4:2:0
/// needs, the 8x8 transform included.
pub const NUM_CONTEXTS: usize = 460;

/// One adaptive binary probability model.
#[derive(Debug, Clone, Copy, PartialEq, Eq, Structural)]
pub struct Context {
    /// Probability state, 0..=63. Higher means the likelier symbol is likelier.
    pub state: u8,
    /// The bin value currently considered most probable.
    pub mps: u8,
}

impl Context {
    /// A state of the table and a binary symbol.
    pub open spec fn wf(self) -> bool {
        self.state < 64 && self.mps <= 1
    }
}

/// A whole bank of usable context models.
pub open spec fn bank_wf(bank: Seq<Context>) -> bool {
    &&& bank.len() == NUM_CONTEXTS
    &&& forall|i: int| 0 <= i < NUM_CONTEXTS ==> (#[trigger] bank[i]).wf()
}

/// Where on a context's initial line a slice quantiser falls, limited so that
/// the reserved state 63 is never reached.
pub open spec fn initial_position(line: (i8, i8), slice_qp: int) -> int {
    clip3(1, 126, (line.0 * clip3(0, 51, slice_qp)) / 16 + line.1)
}

/// The model a slice starts a context from.
pub open spec fn initial_context(line: (i8, i8), slice_qp: int) -> Context {
    let pre = initial_position(line, slice_qp);
    if pre <= 63 {
        Context { state: (63 - pre) as u8, mps: 0 }
    } else {
        Context { state: (pre - 64) as u8, mps: 1 }
    }
}

/// All context models for one slice. They are reset at the start of every
/// slice, which is what makes slices independently decodable.
#[derive(Debug, Clone)]
pub struct ContextState {
    contexts: [Context; 460],
}

impl View for ContextState {
    type V = Seq<Context>;

    closed spec fn view(&self) -> Seq<Context> {
        self.contexts@
    }
}

impl ContextState {
    /// Every model in the bank is usable.
    pub open spec fn wf(self) -> bool {
        bank_wf(self@)
    }

    /// Initialise every context from the slice quantiser.
    pub fn new(variant: ContextVariant, slice_qp: i32) -> (bank: Self)
        requires
            variant.wf(),
        ensures
            bank.wf(),
            forall|i: int|
                0 <= i < NUM_CONTEXTS ==> #[trigger] bank@[i] == initial_context(
                    context_line(i, variant.spec_column()),
                    slice_qp as int,
                ),
    {
        let column: usize = variant.column();
        let qp: i32 = clamp_i32(0, 51, slice_qp);
        let mut contexts: [Context; 460] = [Context { state: 0, mps: 0 };460];
        for ctx_idx in 0..460usize
            invariant
                column == variant.spec_column(),
                column < 4,
                qp == clip3(0, 51, slice_qp as int),
                forall|i: int|
                    0 <= i < ctx_idx ==> #[trigger] contexts@[i] == initial_context(
                        context_line(i, variant.spec_column()),
                        slice_qp as int,
                    ),
        {
            let (m, n) = context_init(ctx_idx, column);
            proof {
                assert(-128 * 51 <= m * qp <= 127 * 51) by (nonlinear_arith)
                    requires
                        -128 <= m <= 127,
                        0 <= qp <= 51,
                ;
            }
            let product: i32 = m as i32 * qp;
            proof {
                lemma_shr_i32(product);
            }
            let pre: i32 = clamp_i32(1, 126, (product >> 4) + n as i32);
            contexts[ctx_idx] = if pre <= 63 {
                Context { state: (63 - pre) as u8, mps: 0 }
            } else {
                Context { state: (pre - 64) as u8, mps: 1 }
            };
        }
        ContextState { contexts }
    }

    /// The model of one context.
    pub fn get(&self, ctx_idx: usize) -> (context: Context)
        requires
            ctx_idx < NUM_CONTEXTS,
        ensures
            context == self@[ctx_idx as int],
    {
        self.contexts[ctx_idx]
    }

    /// The model of one context, to be updated in place.
    pub fn get_mut(&mut self, ctx_idx: usize) -> (context: &mut Context)
        requires
            ctx_idx < NUM_CONTEXTS,
        ensures
            *context == old(self)@[ctx_idx as int],
            final(self)@ == old(self)@.update(ctx_idx as int, *final(context)),
    {
        &mut self.contexts[ctx_idx]
    }
}

/// Bit `pos` of `data`, most significant bit of each byte first. Past the end
/// there are only zeroes.
pub open spec fn bit_at(data: Seq<u8>, pos: nat) -> int {
    if pos / 8 < data.len() {
        (data[pos as int / 8] as int / pow2((7 - pos % 8) as nat) as int) % 2
    } else {
        0
    }
}

/// The state of the arithmetic decoding engine.
#[verifier::ext_equal]
pub struct Engine {
    /// The coded bytes.
    pub data: Seq<u8>,
    /// Next bit to consume.
    pub pos: nat,
    /// Width of the current interval.
    pub range: int,
    /// Position of the coded value within the interval.
    pub offset: int,
}

impl Engine {
    /// A state the next bin can be decoded from.
    pub open spec fn wf(self) -> bool {
        &&& 241 <= self.range <= 510
        &&& 0 <= self.offset < 0x1_0000_0000
        &&& self.pos <= usize::MAX
    }

    /// The engine past one more bit of its data.
    pub open spec fn advance(self) -> Engine {
        Engine {
            pos: if self.pos < usize::MAX {
                self.pos + 1
            } else {
                self.pos
            },
            ..self
        }
    }

    /// The engine with one more bit of its data in the offset.
    pub open spec fn shift_in(self) -> Engine {
        Engine {
            offset: (2 * self.offset + bit_at(self.data, self.pos)) % 0x1_0000_0000,
            ..self.advance()
        }
    }

    /// The engine rescaled until the interval is at least 256 wide.
    pub open spec fn renorm(self) -> Engine
        decreases
                (if self.range < 256 {
                    256 - self.range
                } else {
                    0
                }),
    {
        if 0 < self.range < 256 {
            (Engine { range: 2 * self.range, ..self.shift_in() }).renorm()
        } else {
            self
        }
    }

    /// Share of the interval that belongs to the less probable symbol.
    pub open spec fn lps_range(self, ctx: Context) -> int {
        lps_width(ctx.state as int, (self.range / 64) % 4)
    }

    /// Decode one bin against an adaptive context: the bin, the engine and the
    /// context after it.
    pub open spec fn decision(self, ctx: Context) -> (int, Engine, Context) {
        let lps = self.lps_range(ctx);
        let rest = self.range - lps;
        if self.offset >= rest {
            (
                1 - ctx.mps,
                (Engine { range: lps, offset: self.offset - rest, ..self }).renorm(),
                Context {
                    state: state_after_lps(ctx.state as int),
                    mps: if ctx.state == 0 {
                        (1 - ctx.mps) as u8
                    } else {
                        ctx.mps
                    },
                },
            )
        } else {
            (
                ctx.mps as int,
                (Engine { range: rest, ..self }).renorm(),
                Context { state: state_after_mps(ctx.state as int), mps: ctx.mps },
            )
        }
    }

    /// Decode one bin with even odds and no context.
    pub open spec fn bypass(self) -> (int, Engine) {
        let e = self.shift_in();
        if e.offset >= e.range {
            (1, Engine { offset: e.offset - e.range, ..e })
        } else {
            (0, e)
        }
    }

    /// Decode the bin that ends a slice. It takes two counts from the interval
    /// and rescales only when the answer is 0.
    pub open spec fn terminate(self) -> (int, Engine) {
        let e = Engine { range: self.range - 2, ..self };
        if e.offset >= e.range {
            (1, e)
        } else {
            (0, e.renorm())
        }
    }

    /// An `n`-bit number of even-odds bins, most significant bin first.
    pub open spec fn fixed(self, n: nat) -> (int, Engine)
        decreases n,
    {
        if n == 0 {
            (0, self)
        } else {
            let (bin, e) = self.bypass();
            let (low, end) = e.fixed((n - 1) as nat);
            (bin * pow2((n - 1) as nat) + low, end)
        }
    }

    /// An exponential Golomb number of order `k` in even-odds bins: each
    /// leading one skips the values that fit the current order and raises it,
    /// and after the zero follow that many bits. The order never passes 31.
    pub open spec fn exp_golomb(self, k: nat) -> (int, Engine)
        decreases 32 - k,
    {
        let (bin, e) = self.bypass();
        if bin != 1 {
            e.fixed(k)
        } else if k >= 30 {
            (pow2(k) as int, e)
        } else {
            let (more, end) = e.exp_golomb(k + 1);
            (pow2(k) + more, end)
        }
    }
}

/// An engine together with the context models it decodes against.
#[verifier::ext_equal]
pub struct Cabac {
    pub engine: Engine,
    pub bank: Seq<Context>,
}

impl Cabac {
    /// A state the next syntax element can be decoded from.
    pub open spec fn wf(self) -> bool {
        self.engine.wf() && bank_wf(self.bank)
    }

    /// Decode one bin against context `idx`.
    pub open spec fn decide(self, idx: int) -> (int, Cabac) {
        let (bin, engine, ctx) = self.engine.decision(self.bank[idx]);
        (bin, Cabac { engine, bank: self.bank.update(idx, ctx) })
    }

    /// Decode one even-odds bin.
    pub open spec fn bypass(self) -> (int, Cabac) {
        let (bin, engine) = self.engine.bypass();
        (bin, Cabac { engine, ..self })
    }

    /// Decode the bin that ends a slice.
    pub open spec fn terminate(self) -> (int, Cabac) {
        let (bin, engine) = self.engine.terminate();
        (bin, Cabac { engine, ..self })
    }

    /// Decode an exponential Golomb number of order `k`.
    pub open spec fn exp_golomb(self, k: nat) -> (int, Cabac) {
        let (value, engine) = self.engine.exp_golomb(k);
        (value, Cabac { engine, ..self })
    }

    /// How many ones precede the first zero, from `value` on and up to `limit`,
    /// bin `v` being decoded against context `ctx_for(v)`.
    pub open spec fn unary(self, value: int, limit: int, ctx_for: spec_fn(int) -> int) -> (
        int,
        Cabac,
    )
        decreases limit - value,
    {
        if value >= limit {
            (value, self)
        } else {
            let (bin, after) = self.decide(ctx_for(value));
            if bin == 0 {
                (value, after)
            } else {
                after.unary(value + 1, limit, ctx_for)
            }
        }
    }
}

/// An engine and a bank of contexts as one model.
pub open spec fn cabac(d: ArithDecoder<'_>, contexts: ContextState) -> Cabac {
    Cabac { engine: d@, bank: contexts@ }
}

/// A bit is 0 or 1.
pub proof fn lemma_bit_at(data: Seq<u8>, pos: nat)
    ensures
        0 <= bit_at(data, pos) <= 1,
{
}

/// Rescaling ends with a full interval.
pub proof fn lemma_renorm(e: Engine)
    requires
        0 < e.range <= 510,
        0 <= e.offset < 0x1_0000_0000,
        e.pos <= usize::MAX,
    ensures
        256 <= e.renorm().range <= 510,
        e.renorm().wf(),
        e.renorm().data == e.data,
    decreases 512 - e.range,
{
    if e.range < 256 {
        lemma_renorm(Engine { range: 2 * e.range, ..e.shift_in() });
    }
}

/// Decoding a bin against a context leaves a full interval and a usable model.
pub proof fn lemma_decision(e: Engine, ctx: Context)
    requires
        e.wf(),
        ctx.wf(),
    ensures
        0 <= e.decision(ctx).0 <= 1,
        e.decision(ctx).1.wf(),
        e.decision(ctx).1.range >= 256,
        e.decision(ctx).1.data == e.data,
        e.decision(ctx).2.wf(),
{
    let lps = e.lps_range(ctx);
    lemma_lps_width(ctx.state as int, (e.range / 64) % 4);
    lemma_transitions(ctx.state as int);
    if e.offset >= e.range - lps {
        lemma_renorm(Engine { range: lps, offset: e.offset - (e.range - lps), ..e });
    } else {
        lemma_renorm(Engine { range: e.range - lps, ..e });
    }
}

/// An even-odds bin leaves the interval as wide as it was.
pub proof fn lemma_bypass(e: Engine)
    requires
        e.wf(),
    ensures
        0 <= e.bypass().0 <= 1,
        e.bypass().1.wf(),
        e.bypass().1.range == e.range,
        e.bypass().1.data == e.data,
{
}

/// Fixed-length numbers fit their length.
pub proof fn lemma_fixed(e: Engine, n: nat)
    requires
        e.wf(),
    ensures
        0 <= e.fixed(n).0 < pow2(n),
        e.fixed(n).1.wf(),
        e.fixed(n).1.range == e.range,
        e.fixed(n).1.data == e.data,
    decreases n,
{
    lemma_pow2_pos(n);
    if n > 0 {
        lemma_bypass(e);
        lemma_fixed(e.bypass().1, (n - 1) as nat);
        lemma_pow2_unfold(n);
        let bin = e.bypass().0;
        let half = pow2((n - 1) as nat) as int;
        assert(bin * half == 0 || bin * half == half) by (nonlinear_arith)
            requires
                bin == 0 || bin == 1,
        ;
    } else {
        lemma2_to64();
    }
}

/// Exponential Golomb numbers of a legal order fit 32 bits.
pub proof fn lemma_exp_golomb(e: Engine, k: nat)
    requires
        e.wf(),
        k <= 31,
    ensures
        0 <= e.exp_golomb(k).0 <= 0x8000_0000 - if k <= 30 { pow2(k) as int } else { 0 },
        e.exp_golomb(k).1.wf(),
        e.exp_golomb(k).1.range == e.range,
        e.exp_golomb(k).1.data == e.data,
    decreases 32 - k,
{
    lemma_bypass(e);
    lemma2_to64();
    let next = e.bypass().1;
    lemma_fixed(next, k);
    lemma_pow2_unfold(k + 1);
    if k < 30 {
        lemma_exp_golomb(next, k + 1);
        lemma_pow2_strictly_increases(k + 1, 31);
    }
}

/// Decoding a bin against a bank keeps the bank usable.
pub proof fn lemma_decide(c: Cabac, idx: int)
    requires
        c.wf(),
        0 <= idx < NUM_CONTEXTS,
    ensures
        0 <= c.decide(idx).0 <= 1,
        c.decide(idx).1.wf(),
        c.decide(idx).1.engine.range >= 256,
        c.decide(idx).1.engine.data == c.engine.data,
{
    lemma_decision(c.engine, c.bank[idx]);
}

/// The arithmetic decoding engine: reads slice data from its first byte after
/// the alignment padding.
pub struct ArithDecoder<'a> {
    data: &'a [u8],
    /// Next bit to consume, counted from the start of `data`.
    bit_pos: usize,
    /// Width of the current interval.
    range: u32,
    /// Position of the coded value within the interval.
    offset: u32,
}

impl<'a> View for ArithDecoder<'a> {
    type V = Engine;

    closed spec fn view(&self) -> Engine {
        Engine {
            data: self.data@,
            pos: self.bit_pos as nat,
            range: self.range as int,
            offset: self.offset as int,
        }
    }
}

/// The engine a slice's data starts with, read from bit `start` on: a full
/// interval and nine bits of offset.
pub open spec fn fresh_engine(data: Seq<u8>, start: nat) -> Engine {
    shift_in_bits(Engine { data, pos: start, range: 510, offset: 0 }, 9)
}

/// The engine with `n` more bits of its data in the offset.
pub open spec fn shift_in_bits(e: Engine, n: nat) -> Engine
    decreases n,
{
    if n == 0 {
        e
    } else {
        shift_in_bits(e, (n - 1) as nat).shift_in()
    }
}

/// Nine bits make a legal first offset.
pub proof fn lemma_fresh_engine(data: Seq<u8>, start: nat)
    requires
        start <= usize::MAX,
    ensures
        fresh_engine(data, start).wf(),
        fresh_engine(data, start).range == 510,
        fresh_engine(data, start).offset < 512,
        fresh_engine(data, start).data == data,
{
    reveal_with_fuel(shift_in_bits, 10);
    let mut e = Engine { data, pos: start, range: 510, offset: 0 };
    lemma_shift_in_bits(e, 9);
    lemma2_to64();
}

/// Shifting in `n` bits of a clear offset leaves an `n`-bit offset.
proof fn lemma_shift_in_bits(e: Engine, n: nat)
    requires
        e.offset == 0,
        e.pos <= usize::MAX,
        n <= 9,
    ensures
        0 <= shift_in_bits(e, n).offset < pow2(n),
        shift_in_bits(e, n).range == e.range,
        shift_in_bits(e, n).data == e.data,
        shift_in_bits(e, n).pos <= usize::MAX,
    decreases n,
{
    lemma2_to64();
    if n > 0 {
        lemma_shift_in_bits(e, (n - 1) as nat);
        lemma_pow2_unfold(n);
    }
}

/// A caller's choice function can be asked for every bin below `limit` and
/// gives contexts of the bank.
pub open spec fn chooses_contexts<F: Fn(u32) -> usize>(ctx_for: F, limit: u32) -> bool {
    &&& forall|value: u32| value < limit ==> #[trigger] call_requires(ctx_for, (value,))
    &&& forall|value: u32, idx: usize|
        value < limit && #[trigger] call_ensures(ctx_for, (value,), idx) ==> idx < NUM_CONTEXTS
}

/// A caller's choice function gives context `choice(value)` for bin `value`.
pub open spec fn chooses_as<F: Fn(u32) -> usize>(
    ctx_for: F,
    limit: u32,
    choice: spec_fn(int) -> int,
) -> bool {
    forall|value: u32, idx: usize|
        value < limit && #[trigger] call_ensures(ctx_for, (value,), idx) ==> idx == choice(
            value as int,
        )
}

/// What a unary number leaves behind is usable again.
pub proof fn lemma_unary(c: Cabac, value: int, limit: int, ctx_for: spec_fn(int) -> int)
    requires
        c.wf(),
        value <= limit,
        forall|v: int| value <= v < limit ==> 0 <= #[trigger] ctx_for(v) < NUM_CONTEXTS,
    ensures
        value <= c.unary(value, limit, ctx_for).0 <= limit,
        c.unary(value, limit, ctx_for).1.wf(),
        c.unary(value, limit, ctx_for).1.engine.data == c.engine.data,
    decreases limit - value,
{
    if value < limit {
        lemma_decide(c, ctx_for(value));
        let (bin, after) = c.decide(ctx_for(value));
        if bin != 0 {
            lemma_unary(after, value + 1, limit, ctx_for);
        }
    }
}

impl<'a> ArithDecoder<'a> {
    /// Initialise the engine. `None` if there are not the nine bits that prime
    /// the offset.
    pub fn new(data: &'a [u8]) -> (r: Option<Self>)
        ensures
            r is Some <==> data@.len() >= 2,
            r is Some ==> r->0@ == fresh_engine(data@, 0) && r->0@.wf(),
    {
        Self::new_at_bit(data, 0)
    }

    /// Initialise the engine in the middle of its data, at bit `start`. `None`
    /// if fewer than nine bits follow.
    pub fn new_at_bit(data: &'a [u8], start: usize) -> (r: Option<Self>)
        ensures
            r is Some <==> data@.len() * 8 >= start + 9,
            r is Some ==> r->0@ == fresh_engine(data@, start as nat) && r->0@.wf(),
    {
        if (data.len() as u128) * 8 < start as u128 + 9 {
            return None;
        }
        let mut d = ArithDecoder { data, bit_pos: start, range: 510, offset: 0 };
        let ghost e0 = d@;
        d.offset = d.read_bits(9);
        proof {
            lemma_fresh_engine(data@, start as nat);
            assert(d@ == shift_in_bits(e0, 9));
        }
        Some(d)
    }

    /// Read one bit, most significant first. Past the end there are zeroes: a
    /// truncated slice decodes to nonsense rather than failing.
    fn read_bit(&mut self) -> (bit: u32)
        ensures
            bit as int == bit_at(old(self)@.data, old(self)@.pos),
            bit <= 1,
            final(self)@ == old(self)@.advance(),
    {
        let byte: usize = self.bit_pos / 8;
        let shift: u8 = (7 - self.bit_pos % 8) as u8;
        self.bit_pos = self.bit_pos.saturating_add(1);
        if byte < self.data.len() {
            let b: u8 = self.data[byte];
            let high: u8 = b >> shift;
            proof {
                lemma_u8_shr_is_div(b, shift);
                assert(high & 1 == high % 2) by (bit_vector);
            }
            (high & 1) as u32
        } else {
            0
        }
    }

    fn read_bits(&mut self, n: usize) -> (v: u32)
        requires
            old(self)@.offset == 0,
            n <= 9,
        ensures
            v as int == shift_in_bits(old(self)@, n as nat).offset,
            final(self)@ == (Engine { offset: 0, ..shift_in_bits(old(self)@, n as nat) }),
    {
        let ghost start = self@;
        let mut v: u32 = 0;
        for i in 0..n
            invariant
                start.offset == 0,
                v as int == shift_in_bits(start, i as nat).offset,
                self@ == (Engine { offset: 0, ..shift_in_bits(start, i as nat) }),
        {
            let bit: u32 = self.read_bit();
            proof {
                lemma_shift_in(v, bit);
            }
            v = (v << 1) | bit;
        }
        v
    }

    /// Whether the engine has consumed past the end of its data, which means
    /// the slice was truncated or the decoder lost synchronisation.
    pub fn overran(&self) -> (r: bool)
        ensures
            r <==> self@.pos > self@.data.len() * 8,
    {
        self.bit_pos as u128 > self.data.len() as u128 * 8
    }

    /// Rescale until the interval is at least 256 wide.
    fn renorm(&mut self)
        requires
            0 < old(self)@.range <= 510,
        ensures
            final(self)@ == old(self)@.renorm(),
    {
        let ghost target = self@.renorm();
        while self.range < 256
            invariant
                0 < self@.range <= 510,
                self@.renorm() == target,
            decreases 510 - self.range,
        {
            let ghost before = self@;
            let range: u32 = self.range * 2;
            let bit: u32 = self.read_bit();
            proof {
                lemma_shift_in(self.offset, bit);
            }
            self.range = range;
            self.offset = (self.offset << 1) | bit;
            assert(self@ == (Engine { range: 2 * before.range, ..before.shift_in() }));
        }
    }

    /// Decode one bin against an adaptive context, updating that context.
    pub fn decode_decision(&mut self, ctx: &mut Context) -> (bin: u8)
        requires
            old(self)@.wf(),
            old(ctx).wf(),
        ensures
            (bin as int, final(self)@, *final(ctx)) == old(self)@.decision(*old(ctx)),
            bin <= 1,
            final(self)@.wf(),
            final(self)@.data == old(self)@.data,
            final(ctx).wf(),
    {
        proof {
            lemma_decision(self@, *ctx);
            lemma_lps_width(ctx.state as int, (self@.range / 64) % 4);
        }
        let ghost before = self@;
        let q: usize = ((self.range / 64) % 4) as usize;
        let lps_range: u32 = range_tab_lps(ctx.state as usize, q) as u32;
        self.range = self.range - lps_range;
        let bin: u8;
        if self.offset >= self.range {
            bin = 1 - ctx.mps;
            self.offset = self.offset - self.range;
            self.range = lps_range;
            // Coding the unlikely symbol in state 0 means the model was wrong
            // about which symbol is more probable.
            if ctx.state == 0 {
                ctx.mps = 1 - ctx.mps;
            }
            ctx.state = trans_idx_lps(ctx.state as usize);
            assert(self@ == (Engine {
                range: lps_range as int,
                offset: before.offset - (before.range - lps_range),
                ..before
            }));
        } else {
            bin = ctx.mps;
            ctx.state = trans_idx_mps(ctx.state as usize);
            assert(self@ == (Engine { range: before.range - lps_range, ..before }));
        }
        self.renorm();
        bin
    }

    /// Decode one bin against context `idx` of a bank.
    pub fn decide(&mut self, contexts: &mut ContextState, idx: usize) -> (bin: u8)
        requires
            cabac(*old(self), *old(contexts)).wf(),
            idx < NUM_CONTEXTS,
        ensures
            (bin as int, cabac(*final(self), *final(contexts))) == cabac(
                *old(self),
                *old(contexts),
            ).decide(idx as int),
            bin <= 1,
            cabac(*final(self), *final(contexts)).wf(),
            final(self)@.data == old(self)@.data,
    {
        proof {
            lemma_decide(cabac(*self, *contexts), idx as int);
        }
        self.decode_decision(contexts.get_mut(idx))
    }

    /// Decode one bin with even odds and no context.
    pub fn decode_bypass(&mut self) -> (bin: u8)
        requires
            old(self)@.wf(),
        ensures
            (bin as int, final(self)@) == old(self)@.bypass(),
            bin <= 1,
            final(self)@.wf(),
            final(self)@.data == old(self)@.data,
    {
        let bit: u32 = self.read_bit();
        proof {
            lemma_shift_in(self.offset, bit);
        }
        self.offset = (self.offset << 1) | bit;
        if self.offset >= self.range {
            self.offset = self.offset - self.range;
            1
        } else {
            0
        }
    }

    /// Decode the bin that ends a slice: 1 at its end. After a 1 the engine is
    /// not rescaled; it holds nothing more to decode.
    pub fn decode_terminate(&mut self) -> (bin: u8)
        requires
            old(self)@.wf(),
        ensures
            (bin as int, final(self)@) == old(self)@.terminate(),
            bin <= 1,
            bin == 0 ==> final(self)@.wf(),
            final(self)@.data == old(self)@.data,
    {
        let ghost before = self@;
        self.range = self.range - 2;
        if self.offset >= self.range {
            1
        } else {
            proof {
                lemma_renorm(self@);
            }
            self.renorm();
            0
        }
    }

    /// Up to `c_max` bins, bin `v` against the context `ctx_for(v)`: how many
    /// ones precede the first zero.
    pub fn decode_truncated_unary<F: Fn(u32) -> usize>(
        &mut self,
        c_max: u32,
        contexts: &mut ContextState,
        ctx_for: F,
    ) -> (value: u32)
        requires
            cabac(*old(self), *old(contexts)).wf(),
            chooses_contexts(ctx_for, c_max),
        ensures
            forall|choice: spec_fn(int) -> int| #[trigger]
                chooses_as(ctx_for, c_max, choice) ==> (
                    value as int,
                    cabac(*final(self), *final(contexts)),
                ) == cabac(*old(self), *old(contexts)).unary(0, c_max as int, choice),
            value <= c_max,
            cabac(*final(self), *final(contexts)).wf(),
            final(self)@.data == old(self)@.data,
    {
        let ghost start = cabac(*self, *contexts);
        let mut value: u32 = 0;
        while value < c_max
            invariant_except_break
                value <= c_max,
                chooses_contexts(ctx_for, c_max),
                cabac(*self, *contexts).wf(),
                self@.data == start.engine.data,
                forall|choice: spec_fn(int) -> int| #[trigger]
                    chooses_as(ctx_for, c_max, choice) ==> cabac(*self, *contexts).unary(
                        value as int,
                        c_max as int,
                        choice,
                    ) == start.unary(0, c_max as int, choice),
            ensures
                value <= c_max,
                cabac(*self, *contexts).wf(),
                self@.data == start.engine.data,
                forall|choice: spec_fn(int) -> int| #[trigger]
                    chooses_as(ctx_for, c_max, choice) ==> (
                        value as int,
                        cabac(*self, *contexts),
                    ) == start.unary(0, c_max as int, choice),
            decreases c_max - value,
        {
            let idx: usize = ctx_for(value);
            assert(call_ensures(ctx_for, (value,), idx));
            if self.decide(contexts, idx) == 0 {
                break;
            }
            value = value + 1;
        }
        value
    }

    /// As [`Self::decode_truncated_unary`] for a number without a largest
    /// value: `limit` keeps a corrupt stream from looping on.
    pub fn decode_unary<F: Fn(u32) -> usize>(
        &mut self,
        limit: u32,
        contexts: &mut ContextState,
        ctx_for: F,
    ) -> (value: u32)
        requires
            cabac(*old(self), *old(contexts)).wf(),
            chooses_contexts(ctx_for, limit),
        ensures
            forall|choice: spec_fn(int) -> int| #[trigger]
                chooses_as(ctx_for, limit, choice) ==> (
                    value as int,
                    cabac(*final(self), *final(contexts)),
                ) == cabac(*old(self), *old(contexts)).unary(0, limit as int, choice),
            value <= limit,
            cabac(*final(self), *final(contexts)).wf(),
            final(self)@.data == old(self)@.data,
    {
        self.decode_truncated_unary(limit, contexts, ctx_for)
    }

    /// `n` even-odds bins as a number, most significant first. Of a longer
    /// number the low 32 bits remain.
    pub fn decode_fixed_bypass(&mut self, n: usize) -> (v: u32)
        requires
            old(self)@.wf(),
        ensures
            v as int == old(self)@.fixed(n as nat).0 % 0x1_0000_0000,
            final(self)@ == old(self)@.fixed(n as nat).1,
            final(self)@.wf(),
            final(self)@.data == old(self)@.data,
    {
        let ghost start = self@;
        let mut v: u32 = 0;
        proof {
            lemma_fixed(self@, n as nat);
        }
        for i in 0..n
            invariant
                self@.wf(),
                self@.data == start.data,
                self@.fixed((n - i) as nat).1 == start.fixed(n as nat).1,
                (v * pow2((n - i) as nat) + self@.fixed((n - i) as nat).0) % 0x1_0000_0000
                    == start.fixed(n as nat).0 % 0x1_0000_0000,
        {
            let ghost before = self@;
            let ghost rest = (n - i - 1) as nat;
            let bin: u8 = self.decode_bypass();
            proof {
                lemma_shift_in(v, bin as u32);
                lemma_pow2_unfold((n - i) as nat);
                let p = pow2(rest) as int;
                let low = self@.fixed(rest).0;
                let shifted = ((v << 1u32) | bin as u32) as int;
                let wide = 2 * v + bin;
                assert(wide == 0x1_0000_0000 * (wide / 0x1_0000_0000) + shifted);
                let q = wide / 0x1_0000_0000;
                assert(v * (2 * p) + (bin * p + low) == 0x1_0000_0000 * (q * p) + (shifted * p
                    + low)) by (nonlinear_arith)
                    requires
                        2 * v + bin == 0x1_0000_0000 * q + shifted,
                ;
                let m = q * p;
                let tail = shifted * p + low;
                assert((0x1_0000_0000 * m + tail) % 0x1_0000_0000 == tail % 0x1_0000_0000);
            }
            v = (v << 1) | bin as u32;
        }
        proof {
            lemma2_to64();
            assert(v * pow2(0) == v);
        }
        v
    }

    /// The exponential Golomb suffix of an escaped number, of order `k`.
    pub fn decode_exp_golomb_bypass(&mut self, k: u32) -> (value: u32)
        requires
            old(self)@.wf(),
            k <= 31,
        ensures
            (value as int, final(self)@) == old(self)@.exp_golomb(k as nat),
            value <= 0x8000_0000,
            final(self)@.wf(),
            final(self)@.data == old(self)@.data,
    {
        let ghost start = self@;
        let ghost target = self@.exp_golomb(k as nat);
        proof {
            lemma_exp_golomb(self@, k as nat);
        }
        let mut order: u32 = k;
        let mut value: u32 = 0;
        // Prefix of ones, each doubling the remaining range.
        loop
            invariant_except_break
                start == old(self)@,
                target == start.exp_golomb(k as nat),
                k <= order <= 31,
                self@.wf(),
                self@.data == start.data,
                value + self@.exp_golomb(order as nat).0 == target.0,
                self@.exp_golomb(order as nat).1 == target.1,
                0 <= target.0 <= 0x8000_0000,
            ensures
                k <= order <= 31,
                self@.wf(),
                self@.data == start.data,
                value + self@.fixed(order as nat).0 == target.0,
                self@.fixed(order as nat).1 == target.1,
                0 <= target.0 <= 0x8000_0000,
            decreases 31 - order,
        {
            let ghost before = self@;
            proof {
                lemma_exp_golomb(before, order as nat);
                lemma_u32_shl_one(order);
                lemma_bypass(before);
                if order < 30 {
                    lemma_exp_golomb(before.bypass().1, (order + 1) as nat);
                }
            }
            if self.decode_bypass() != 1 {
                break;
            }
            value = value + (1u32 << order);
            if order >= 30 {
                return value;
            }
            order = order + 1;
        }
        // Suffix: as many bits as the order says.
        while order > 0
            invariant
                order <= 31,
                self@.wf(),
                self@.data == start.data,
                value + self@.fixed(order as nat).0 == target.0,
                self@.fixed(order as nat).1 == target.1,
                0 <= target.0 <= 0x8000_0000,
            decreases order,
        {
            let ghost before = self@;
            proof {
                lemma_fixed(before.bypass().1, (order - 1) as nat);
            }
            order = order - 1;
            let bin: u8 = self.decode_bypass();
            proof {
                lemma_u32_shl_one(order);
                let p = pow2(order as nat) as int;
                assert(bin * p == if bin == 1 {
                    p
                } else {
                    0
                }) by (nonlinear_arith)
                    requires
                        bin <= 1,
                ;
            }
            if bin == 1 {
                value = value + (1u32 << order);
            }
        }
        value
    }

    /// Bits consumed so far.
    pub fn bits_read(&self) -> (n: usize)
        ensures
            n == self@.pos,
    {
        self.bit_pos
    }
}

/// Shifting 1 left gives a power of two.
proof fn lemma_u32_shl_one(n: u32)
    requires
        n <= 31,
    ensures
        (1u32 << n) as int == pow2(n as nat),
        pow2(n as nat) <= 0x8000_0000,
{
    lemma2_to64();
    if n < 31 {
        lemma_pow2_strictly_increases(n as nat, 31);
    }
    vstd::bits::lemma_u32_shl_is_mul(1, n);
}

/// A slice never starts a model in the reserved last state.
pub proof fn law_models_start_below_the_reserved_state(line: (i8, i8), slice_qp: int)
    ensures
        initial_context(line, slice_qp).wf(),
        initial_context(line, slice_qp).state <= 62,
{
}

/// A slice quantiser out of range counts as the nearest one in range.
pub proof fn law_slice_quantiser_is_clipped(line: (i8, i8), slice_qp: int)
    ensures
        slice_qp <= 0 ==> initial_context(line, slice_qp) == initial_context(line, 0),
        slice_qp >= 51 ==> initial_context(line, slice_qp) == initial_context(line, 51),
{
}

/// A model starts as sure of its symbol as its line is far from the middle at the
/// quantiser of the slice: of 0 below it and of 1 above it.
pub proof fn law_models_start_on_their_line(line: (i8, i8), slice_qp: int)
    requires
        0 <= slice_qp <= 51,
    ensures
        ({
            let height = (line.0 * slice_qp) / 16 + line.1;
            let c = initial_context(line, slice_qp);
            &&& height <= 63 <==> c.mps == 0
            &&& height > 63 <==> c.mps == 1
            &&& 1 <= height <= 63 ==> c.state + height == 63
            &&& 64 <= height <= 126 ==> height - c.state == 64
            &&& height < 1 || height > 126 ==> c.state == 62
        }),
{
}

} // verus!
