//! Looking ahead in a slice header, as far as its quantiser deltas.
//!
//! `h264_reader` adds the deltas to the quantisers of the picture parameter set
//! before it looks at them, in 32 bits. A header in which such a sum does not fit
//! has to be told from the others before it is read, and so has a unit with more
//! zeros in a row than 32 bits can count.
use super::headers::{
    parameter_sets, pic_layout_of, read_pic_layout, read_seq_layout, seq_layout_of, OrderCount,
    PicLayout, SeqLayout, SetStore, SetUnit,
};
use super::slice::bit;
use vstd::prelude::*;

verus! {

// ---- Runs -------------------------------------------------------------------

/// Length of a run that is not read: `h264_reader` counts zero bits in 32 bits.
pub const LONG_RUN: usize = 0x1fff_ffff;

/// Whether a byte may be part of a run of zeros: it is one, or it may be there to
/// keep start codes out.
pub open spec fn quiet(b: u8) -> bool {
    b == 0 || b == 3
}

/// Whether `n` bytes from `from` on may be a run of zeros.
pub open spec fn is_run(s: Seq<u8>, from: int, n: int) -> bool {
    forall|i: int| from <= i < from + n ==> quiet(#[trigger] s[i])
}

/// No run of zeros is too long to be counted.
pub open spec fn runs_fit(s: Seq<u8>) -> bool {
    forall|from: int|
        0 <= from && from + LONG_RUN <= s.len() ==> !#[trigger] is_run(s, from, LONG_RUN as int)
}

/// Whether every run of zeros can be counted.
pub fn check_runs(s: &[u8]) -> (r: bool)
    ensures
        r == runs_fit(s@),
{
    let n: usize = s.len();
    let mut run: usize = 0;
    for i in 0..n
        invariant
            n == s@.len(),
            run <= i,
            run < LONG_RUN,
            is_run(s@, i - run, run as int),
            run < i ==> !quiet(s@[i - run - 1]),
            forall|from: int|
                0 <= from && from + LONG_RUN <= i ==> !#[trigger] is_run(
                    s@,
                    from,
                    LONG_RUN as int,
                ),
    {
        let ghost before = run;
        if s[i] == 0 || s[i] == 3 {
            run = run + 1;
            if run == LONG_RUN {
                assert(is_run(s@, i + 1 - LONG_RUN, LONG_RUN as int));
                return false;
            }
        } else {
            run = 0;
        }
        assert forall|from: int| 0 <= from && from + LONG_RUN <= i + 1 implies !#[trigger] is_run(
            s@,
            from,
            LONG_RUN as int,
        ) by {
            if from + LONG_RUN == i + 1 {
                if run == 0 {
                    assert(!quiet(s@[i as int]));
                } else {
                    assert(!quiet(s@[i - before - 1]));
                }
            }
        }
    }
    true
}

// ---- Codes ------------------------------------------------------------------

/// Zero bits from `pos` to the next one, or to the end.
pub open spec fn zeros(p: Seq<u8>, pos: int) -> int
    decreases p.len() * 8 - pos,
{
    if pos >= p.len() * 8 || bit(p, pos) {
        0
    } else {
        1 + zeros(p, pos + 1)
    }
}

/// The number in `n` bits from `pos` on.
pub open spec fn number(p: Seq<u8>, pos: int, n: int) -> int
    decreases n,
{
    if n <= 0 {
        0
    } else {
        2 * number(p, pos, n - 1) + if bit(p, pos + n - 1) {
            1int
        } else {
            0
        }
    }
}

/// Two to the power of `n`.
pub open spec fn power(n: int) -> int
    decreases n,
{
    if n <= 0 {
        1
    } else {
        2 * power(n - 1)
    }
}

/// A number that was read, and the place behind it.
pub struct Taken {
    pub value: int,
    pub next: int,
}

/// The Exp-Golomb code at `pos`: `n` zeros, a one, and `n` bits that are added to
/// `2^n - 1`. There is none of more than 31 zeros, nor one that is cut off.
pub open spec fn code_at(p: Seq<u8>, pos: int) -> Option<Taken> {
    let n = zeros(p, pos);
    if n > 31 || pos + 2 * n + 1 > p.len() * 8 {
        None
    } else {
        Some(Taken { value: power(n) - 1 + number(p, pos + n + 1, n), next: pos + 2 * n + 1 })
    }
}

/// The number that a code stands for where signs alternate: 0, 1, -1, 2, -2.
pub open spec fn signed(code: int) -> int {
    if code % 2 == 1 {
        (code + 1) / 2
    } else {
        -(code / 2)
    }
}

/// A place in a header, or none where it cannot be reached.
pub open spec fn place(at: Option<usize>) -> Option<int> {
    match at {
        Some(pos) => Some(pos as int),
        None => None,
    }
}

/// `n` bits on.
pub open spec fn skipped(p: Seq<u8>, at: Option<int>, n: int) -> Option<int> {
    match at {
        Some(pos) if pos + n <= p.len() * 8 => Some(pos + n),
        _ => None,
    }
}

/// One code on.
pub open spec fn code_skipped(p: Seq<u8>, at: Option<int>) -> Option<int> {
    match at {
        Some(pos) => match code_at(p, pos) {
            Some(taken) => Some(taken.next),
            None => None,
        },
        None => None,
    }
}

/// Whether the bit at a place is set.
pub open spec fn set_at(p: Seq<u8>, at: Option<int>) -> bool {
    at matches Some(pos) && pos < p.len() * 8 && bit(p, pos)
}

// ---- The parts of a header --------------------------------------------------

/// What a header begins with.
pub struct Opening {
    /// 0 to 9; the last digit of five says P, B, I, SP or SI.
    pub slice_type: int,
    pub pps_id: int,
    pub next: int,
}

/// The numbers that a header begins with: first macroblock, type and picture
/// parameter set.
pub open spec fn opening(p: Seq<u8>) -> Option<Opening> {
    match code_at(p, 0) {
        None => None,
        Some(mb) => match code_at(p, mb.next) {
            None => None,
            Some(kind) => match code_at(p, kind.next) {
                Some(set) if kind.value <= 9 && set.value <= 255 => Some(
                    Opening { slice_type: kind.value, pps_id: set.value, next: set.next },
                ),
                _ => None,
            },
        },
    }
}

/// Behind what says which picture the slice belongs to.
pub open spec fn picture_skipped(s: SeqLayout, c: PicLayout, idr: bool, p: Seq<u8>, pos: int) -> Option<int> {
    let planes = skipped(p, Some(pos), if s.separate_planes {
        2
    } else {
        0
    });
    let number = skipped(p, planes, s.frame_num_bits as int);
    let field = s.fields && set_at(p, number);
    let kind = skipped(p, number, if !s.fields {
        0
    } else if field {
        2
    } else {
        1
    });
    let id = if idr {
        code_skipped(p, kind)
    } else {
        kind
    };
    let first = match s.order_count {
        OrderCount::Lsb(n) => skipped(p, id, n + 4),
        OrderCount::Deltas { all_zero: false } => code_skipped(p, id),
        _ => id,
    };
    let second = if c.bottom_count && !field && (s.order_count is Lsb || s.order_count
        == (OrderCount::Deltas { all_zero: false })) {
        code_skipped(p, first)
    } else {
        first
    };
    if c.redundant_pics {
        code_skipped(p, second)
    } else {
        second
    }
}

/// How many entries the reference lists have beyond the first, and the place
/// behind what says so.
pub struct Counts {
    pub l0: int,
    pub l1: int,
    pub next: int,
}

/// The sizes of the reference lists, which the slice may overrule.
pub open spec fn counts(c: PicLayout, b: bool, p: Seq<u8>, at: Option<int>) -> Option<Counts> {
    match skipped(p, at, 1) {
        None => None,
        Some(next) => if !set_at(p, at) {
            Some(
                Counts {
                    l0: c.num_ref_idx_l0_minus1 as int,
                    l1: c.num_ref_idx_l1_minus1 as int,
                    next,
                },
            )
        } else {
            match code_at(p, next) {
                Some(l0) if l0.value <= 31 => if !b {
                    Some(Counts { l0: l0.value, l1: c.num_ref_idx_l1_minus1 as int, next: l0.next })
                } else {
                    match code_at(p, l0.next) {
                        Some(l1) if l1.value <= 31 => Some(
                            Counts { l0: l0.value, l1: l1.value, next: l1.next },
                        ),
                        _ => None,
                    }
                },
                _ => None,
            }
        },
    }
}

/// Behind the changes to a reference list: pairs of codes, up to a 3.
pub open spec fn changes_skipped(p: Seq<u8>, pos: int) -> Option<int>
    decreases p.len() * 8 - pos,
    via changes_end
{
    match code_at(p, pos) {
        Some(op) => if op.value == 3 {
            Some(op.next)
        } else if op.value > 3 {
            None
        } else {
            match code_at(p, op.next) {
                Some(amount) => changes_skipped(p, amount.next),
                None => None,
            }
        },
        None => None,
    }
}

#[via_fn]
proof fn changes_end(p: Seq<u8>, pos: int) {
    lemma_zeros(p, pos);
    if let Some(op) = code_at(p, pos) {
        lemma_zeros(p, op.next);
    }
}

/// Behind the changes to a reference list, if it says that there are any.
pub open spec fn list_skipped(p: Seq<u8>, at: Option<int>) -> Option<int> {
    match skipped(p, at, 1) {
        Some(next) => if set_at(p, at) {
            changes_skipped(p, next)
        } else {
            Some(next)
        },
        None => None,
    }
}

/// Behind a flag and, where it is set, `n` codes.
pub open spec fn weight_skipped(p: Seq<u8>, at: Option<int>, n: int) -> Option<int> {
    let flag = skipped(p, at, 1);
    if !set_at(p, at) {
        flag
    } else if n == 2 {
        code_skipped(p, code_skipped(p, flag))
    } else {
        code_skipped(p, code_skipped(p, code_skipped(p, code_skipped(p, flag))))
    }
}

/// Behind the weights of `n` entries.
pub open spec fn weights_skipped(p: Seq<u8>, at: Option<int>, n: int, chroma: bool) -> Option<int>
    decreases n,
{
    if n <= 0 {
        at
    } else {
        let luma = weight_skipped(p, at, 2);
        let both = if chroma {
            weight_skipped(p, luma, 4)
        } else {
            luma
        };
        weights_skipped(p, both, n - 1, chroma)
    }
}

/// Behind the operations on the reference buffer, up to a 0.
pub open spec fn operations_skipped(p: Seq<u8>, pos: int) -> Option<int>
    decreases p.len() * 8 - pos,
    via operations_end
{
    match code_at(p, pos) {
        Some(op) => if op.value == 0 {
            Some(op.next)
        } else if op.value > 6 {
            None
        } else if op.value == 5 {
            operations_skipped(p, op.next)
        } else {
            match code_at(p, op.next) {
                None => None,
                Some(a) => if op.value == 3 {
                    match code_at(p, a.next) {
                        Some(b) => operations_skipped(p, b.next),
                        None => None,
                    }
                } else {
                    operations_skipped(p, a.next)
                },
            }
        },
        None => None,
    }
}

#[via_fn]
proof fn operations_end(p: Seq<u8>, pos: int) {
    lemma_zeros(p, pos);
    if let Some(op) = code_at(p, pos) {
        lemma_zeros(p, op.next);
        if let Some(a) = code_at(p, op.next) {
            lemma_zeros(p, a.next);
        }
    }
}

/// Behind what becomes of the picture as a reference.
pub open spec fn marking_skipped(p: Seq<u8>, at: Option<int>, idr: bool) -> Option<int> {
    if idr {
        skipped(p, at, 2)
    } else {
        match skipped(p, at, 1) {
            Some(next) => if set_at(p, at) {
                operations_skipped(p, next)
            } else {
                Some(next)
            },
            None => None,
        }
    }
}

/// The place of the first quantiser delta; none where the header ends before it.
pub open spec fn delta_place(s: SeqLayout, c: PicLayout, first: u8, p: Seq<u8>, o: Opening) -> Option<int> {
    let family = o.slice_type % 5;
    let (b, idr) = (family == 1, first & 0x1f == 5);
    let inter = family != 2 && family != 4;
    let picture = picture_skipped(s, c, idr, p, o.next);
    let direct = skipped(p, picture, if b {
        1
    } else {
        0
    });
    let sizes = if inter {
        counts(c, b, p, direct)
    } else {
        match direct {
            Some(next) => Some(Counts { l0: 0, l1: 0, next }),
            None => None,
        }
    };
    match sizes {
        None => None,
        Some(n) => {
            let l0 = if inter {
                list_skipped(p, Some(n.next))
            } else {
                Some(n.next)
            };
            let l1 = if b {
                list_skipped(p, l0)
            } else {
                l0
            };
            let weights = if b && c.weighted_bipred_idc == 1 || inter && !b && c.weighted_pred {
                let chroma = !s.separate_planes && !s.monochrome;
                let shift = code_skipped(p, l1);
                let shifts = if chroma {
                    code_skipped(p, shift)
                } else {
                    shift
                };
                let w0 = weights_skipped(p, shifts, n.l0 + 1, chroma);
                if b {
                    weights_skipped(p, w0, n.l1 + 1, chroma)
                } else {
                    w0
                }
            } else {
                l1
            };
            let marking = if first & 0x60 != 0 {
                marking_skipped(p, weights, idr)
            } else {
                weights
            };
            if c.cabac && inter {
                code_skipped(p, marking)
            } else {
                marking
            }
        },
    }
}

/// A sum that 32 bits can hold.
pub open spec fn holds(sum: int) -> bool {
    i32::MIN <= sum <= i32::MAX
}

/// Whether the quantiser deltas from a place on can be added to the quantisers of
/// a picture parameter set. SP and SI slices have a second one, SP slices with a
/// flag before it.
pub open spec fn sums_hold(c: PicLayout, family: int, p: Seq<u8>, at: int) -> bool {
    match code_at(p, at) {
        None => true,
        Some(qp) => holds(26 + c.init_qp_minus26 + signed(qp.value)) && (family == 3 || family == 4
            ==> match skipped(p, Some(qp.next), 4 - family) {
            None => true,
            Some(next) => match code_at(p, next) {
                None => true,
                Some(qs) => holds(26 + c.init_qs_minus26 + signed(qs.value)),
            },
        }),
    }
}

/// Whether the quantiser deltas of a slice header can be added to the quantisers
/// of its picture parameter set, as far as the header reaches that point at all.
pub open spec fn deltas_fit(sets: Seq<SetUnit>, first: u8, p: Seq<u8>) -> bool {
    match opening(p) {
        None => true,
        Some(o) => match pic_layout_of(sets, o.pps_id as u8) {
            None => true,
            Some(c) => match seq_layout_of(sets, c.sps_id) {
                None => true,
                Some(s) => match delta_place(s, c, first, p, o) {
                    None => true,
                    Some(at) => sums_hold(c, o.slice_type % 5, p, at),
                },
            },
        },
    }
}

// ---- Looking ahead ----------------------------------------------------------

/// A run of zeros lies within the payload.
pub proof fn lemma_zeros(p: Seq<u8>, pos: int)
    ensures
        0 <= zeros(p, pos),
        pos <= p.len() * 8 ==> pos + zeros(p, pos) <= p.len() * 8,
    decreases p.len() * 8 - pos,
{
    if pos < p.len() * 8 && !bit(p, pos) {
        lemma_zeros(p, pos + 1);
    }
}

proof fn lemma_power(n: int)
    requires
        0 <= n <= 31,
    ensures
        1 <= power(n) <= 0x8000_0000,
        n <= 30 ==> power(n) <= 0x4000_0000,
    decreases 31 - n,
{
    if n == 31 {
        assert(power(31) == 0x8000_0000) by {
            reveal_with_fuel(power, 32);
        }
    } else {
        lemma_power(n + 1);
    }
}

fn bit_at(p: &[u8], pos: usize) -> (r: bool)
    requires
        pos < p@.len() * 8,
        p@.len() * 16 <= usize::MAX,
    ensures
        r == bit(p@, pos as int),
{
    let b: u8 = p[pos / 8];
    let n: u8 = (7 - pos % 8) as u8;
    (b >> n) & 1 == 1
}

/// The code at a place, and the place behind it.
fn take_code(p: &[u8], pos: usize) -> (r: Option<(u32, usize)>)
    requires
        pos <= p@.len() * 8,
        p@.len() * 16 <= usize::MAX,
    ensures
        match r {
            Some((value, next)) => code_at(p@, pos as int) == Some(
                Taken { value: value as int, next: next as int },
            ) && pos < next <= p@.len() * 8,
            None => code_at(p@, pos as int) is None,
        },
{
    let end: usize = p.len() * 8;
    let mut n: usize = 0;
    proof {
        lemma_zeros(p@, pos as int);
    }
    while pos + n < end && !bit_at(p, pos + n)
        invariant
            end == p@.len() * 8,
            p@.len() * 16 <= usize::MAX,
            pos + n <= end,
            zeros(p@, pos as int) == n + zeros(p@, pos + n),
        decreases end - n,
    {
        n = n + 1;
    }
    if n > 31 || pos + 2 * n + 1 > end {
        return None;
    }
    let mut value: u32 = 0;
    let mut top: u32 = 1;
    for i in 0..n
        invariant
            n <= 31,
            pos + 2 * n + 1 <= end,
            end == p@.len() * 8,
            p@.len() * 16 <= usize::MAX,
            value < top,
            top == power(i as int),
            value == number(p@, pos + n + 1, i as int),
    {
        proof {
            lemma_power(i as int);
            lemma_power(i + 1);
        }
        let one: bool = bit_at(p, pos + n + 1 + i);
        value = value * 2 + if one {
            1
        } else {
            0
        };
        top = top * 2;
    }
    proof {
        lemma_power(n as int);
    }
    Some((top - 1 + value, pos + 2 * n + 1))
}

fn skip(p: &[u8], at: Option<usize>, n: usize) -> (r: Option<usize>)
    requires
        p@.len() * 16 <= usize::MAX,
        n <= 0x1000,
        at matches Some(pos) ==> pos <= p@.len() * 8,
    ensures
        place(r) == skipped(p@, place(at), n as int),
        r matches Some(next) ==> next <= p@.len() * 8,
{
    match at {
        Some(pos) => {
            if pos + n <= p.len() * 8 {
                Some(pos + n)
            } else {
                None
            }
        },
        None => None,
    }
}

fn skip_code(p: &[u8], at: Option<usize>) -> (r: Option<usize>)
    requires
        p@.len() * 16 <= usize::MAX,
        at matches Some(pos) ==> pos <= p@.len() * 8,
    ensures
        place(r) == code_skipped(p@, place(at)),
        r matches Some(next) ==> next <= p@.len() * 8,
{
    match at {
        Some(pos) => match take_code(p, pos) {
            Some((_, next)) => Some(next),
            None => None,
        },
        None => None,
    }
}

fn is_set(p: &[u8], at: Option<usize>) -> (r: bool)
    requires
        p@.len() * 16 <= usize::MAX,
    ensures
        r == set_at(p@, place(at)),
{
    match at {
        Some(pos) => pos < p.len() * 8 && bit_at(p, pos),
        None => false,
    }
}

fn take_opening(p: &[u8]) -> (r: Option<(u8, u8, usize)>)
    requires
        p@.len() * 16 <= usize::MAX,
    ensures
        match r {
            Some((slice_type, pps_id, next)) => opening(p@) == Some(
                Opening {
                    slice_type: slice_type as int,
                    pps_id: pps_id as int,
                    next: next as int,
                },
            ) && next <= p@.len() * 8,
            None => opening(p@) is None,
        },
{
    let Some((_, a)) = take_code(p, 0) else {
        return None;
    };
    let Some((slice_type, b)) = take_code(p, a) else {
        return None;
    };
    let Some((pps_id, next)) = take_code(p, b) else {
        return None;
    };
    if slice_type <= 9 && pps_id <= 255 {
        Some((slice_type as u8, pps_id as u8, next))
    } else {
        None
    }
}

fn skip_picture(s: &SeqLayout, c: &PicLayout, idr: bool, p: &[u8], pos: usize) -> (r: Option<usize>)
    requires
        p@.len() * 16 <= usize::MAX,
        pos <= p@.len() * 8,
    ensures
        place(r) == picture_skipped(*s, *c, idr, p@, pos as int),
        r matches Some(next) ==> next <= p@.len() * 8,
{
    let planes: Option<usize> = skip(p, Some(pos), if s.separate_planes {
        2
    } else {
        0
    });
    let number: Option<usize> = skip(p, planes, s.frame_num_bits as usize);
    let field: bool = s.fields && is_set(p, number);
    let kind: Option<usize> = skip(p, number, if !s.fields {
        0
    } else if field {
        2
    } else {
        1
    });
    let id: Option<usize> = if idr {
        skip_code(p, kind)
    } else {
        kind
    };
    let (first, more): (Option<usize>, bool) = match s.order_count {
        OrderCount::Lsb(n) => (skip(p, id, n as usize + 4), true),
        OrderCount::Deltas { all_zero } => if all_zero {
            (id, false)
        } else {
            (skip_code(p, id), true)
        },
        OrderCount::Absent => (id, false),
    };
    let second: Option<usize> = if c.bottom_count && !field && more {
        skip_code(p, first)
    } else {
        first
    };
    if c.redundant_pics {
        skip_code(p, second)
    } else {
        second
    }
}

fn take_counts(c: &PicLayout, b: bool, p: &[u8], at: Option<usize>) -> (r: Option<(u32, u32, usize)>)
    requires
        p@.len() * 16 <= usize::MAX,
        at matches Some(pos) ==> pos <= p@.len() * 8,
    ensures
        match r {
            Some((l0, l1, next)) => counts(*c, b, p@, place(at)) == Some(
                Counts { l0: l0 as int, l1: l1 as int, next: next as int },
            ) && next <= p@.len() * 8,
            None => counts(*c, b, p@, place(at)) is None,
        },
{
    let Some(next) = skip(p, at, 1) else {
        return None;
    };
    if !is_set(p, at) {
        return Some((c.num_ref_idx_l0_minus1, c.num_ref_idx_l1_minus1, next));
    }
    let Some((l0, behind)) = take_code(p, next) else {
        return None;
    };
    if l0 > 31 {
        return None;
    }
    if !b {
        return Some((l0, c.num_ref_idx_l1_minus1, behind));
    }
    match take_code(p, behind) {
        Some((l1, last)) => if l1 > 31 {
            None
        } else {
            Some((l0, l1, last))
        },
        None => None,
    }
}

fn skip_list(p: &[u8], at: Option<usize>) -> (r: Option<usize>)
    requires
        p@.len() * 16 <= usize::MAX,
        at matches Some(pos) ==> pos <= p@.len() * 8,
    ensures
        place(r) == list_skipped(p@, place(at)),
        r matches Some(next) ==> next <= p@.len() * 8,
{
    let Some(from) = skip(p, at, 1) else {
        return None;
    };
    if !is_set(p, at) {
        return Some(from);
    }
    let mut pos: usize = from;
    loop
        invariant
            p@.len() * 16 <= usize::MAX,
            pos <= p@.len() * 8,
            list_skipped(p@, place(at)) == changes_skipped(p@, pos as int),
        decreases p@.len() * 8 - pos,
    {
        let Some((op, a)) = take_code(p, pos) else {
            return None;
        };
        if op == 3 {
            return Some(a);
        }
        if op > 3 {
            return None;
        }
        let Some((_, b)) = take_code(p, a) else {
            return None;
        };
        pos = b;
    }
}

fn skip_weight(p: &[u8], at: Option<usize>, n: usize) -> (r: Option<usize>)
    requires
        p@.len() * 16 <= usize::MAX,
        at matches Some(pos) ==> pos <= p@.len() * 8,
    ensures
        place(r) == weight_skipped(p@, place(at), n as int),
        r matches Some(next) ==> next <= p@.len() * 8,
{
    let flag: Option<usize> = skip(p, at, 1);
    if !is_set(p, at) {
        return flag;
    }
    let two: Option<usize> = skip_code(p, skip_code(p, flag));
    if n == 2 {
        two
    } else {
        skip_code(p, skip_code(p, two))
    }
}

fn skip_weights(p: &[u8], from: Option<usize>, n: u32, chroma: bool) -> (r: Option<usize>)
    requires
        p@.len() * 16 <= usize::MAX,
        from matches Some(pos) ==> pos <= p@.len() * 8,
    ensures
        place(r) == weights_skipped(p@, place(from), n as int, chroma),
        r matches Some(next) ==> next <= p@.len() * 8,
{
    let mut at: Option<usize> = from;
    for i in 0..n
        invariant
            p@.len() * 16 <= usize::MAX,
            at matches Some(pos) ==> pos <= p@.len() * 8,
            weights_skipped(p@, place(from), n as int, chroma) == weights_skipped(
                p@,
                place(at),
                n - i,
                chroma,
            ),
    {
        let luma: Option<usize> = skip_weight(p, at, 2);
        at = if chroma {
            skip_weight(p, luma, 4)
        } else {
            luma
        };
    }
    at
}

fn skip_marking(p: &[u8], at: Option<usize>, idr: bool) -> (r: Option<usize>)
    requires
        p@.len() * 16 <= usize::MAX,
        at matches Some(pos) ==> pos <= p@.len() * 8,
    ensures
        place(r) == marking_skipped(p@, place(at), idr),
        r matches Some(next) ==> next <= p@.len() * 8,
{
    if idr {
        return skip(p, at, 2);
    }
    let Some(from) = skip(p, at, 1) else {
        return None;
    };
    if !is_set(p, at) {
        return Some(from);
    }
    let mut pos: usize = from;
    loop
        invariant
            p@.len() * 16 <= usize::MAX,
            pos <= p@.len() * 8,
            marking_skipped(p@, place(at), false) == operations_skipped(p@, pos as int),
            !idr,
        decreases p@.len() * 8 - pos,
    {
        let Some((op, a)) = take_code(p, pos) else {
            return None;
        };
        if op == 0 {
            return Some(a);
        }
        if op > 6 {
            return None;
        }
        if op == 5 {
            pos = a;
        } else {
            let Some((_, b)) = take_code(p, a) else {
                return None;
            };
            if op == 3 {
                let Some((_, c)) = take_code(p, b) else {
                    return None;
                };
                pos = c;
            } else {
                pos = b;
            }
        }
    }
}

fn find_delta(
    s: &SeqLayout,
    c: &PicLayout,
    first: u8,
    p: &[u8],
    slice_type: u8,
    from: usize,
) -> (r: Option<usize>)
    requires
        p@.len() * 16 <= usize::MAX,
        from <= p@.len() * 8,
        c.num_ref_idx_l0_minus1 <= 31,
        c.num_ref_idx_l1_minus1 <= 31,
    ensures
        forall|id: int|
            place(r) == #[trigger] delta_place(
                *s,
                *c,
                first,
                p@,
                (Opening { slice_type: slice_type as int, pps_id: id, next: from as int }),
            ),
        r matches Some(next) ==> next <= p@.len() * 8,
{
    let family: u8 = slice_type % 5;
    let b: bool = family == 1;
    let idr: bool = first & 0x1f == 5;
    let inter: bool = family != 2 && family != 4;
    let picture: Option<usize> = skip_picture(s, c, idr, p, from);
    let direct: Option<usize> = skip(p, picture, if b {
        1
    } else {
        0
    });
    let sizes: Option<(u32, u32, usize)> = if inter {
        take_counts(c, b, p, direct)
    } else {
        match direct {
            Some(next) => Some((0, 0, next)),
            None => None,
        }
    };
    let Some((n0, n1, next)) = sizes else {
        return None;
    };
    let l0: Option<usize> = if inter {
        skip_list(p, Some(next))
    } else {
        Some(next)
    };
    let l1: Option<usize> = if b {
        skip_list(p, l0)
    } else {
        l0
    };
    let weights: Option<usize> = if b && c.weighted_bipred_idc == 1 || inter && !b
        && c.weighted_pred {
        let chroma: bool = !s.separate_planes && !s.monochrome;
        let shift: Option<usize> = skip_code(p, l1);
        let shifts: Option<usize> = if chroma {
            skip_code(p, shift)
        } else {
            shift
        };
        let w0: Option<usize> = skip_weights(p, shifts, n0 + 1, chroma);
        if b {
            skip_weights(p, w0, n1 + 1, chroma)
        } else {
            w0
        }
    } else {
        l1
    };
    let marking: Option<usize> = if first & 0x60 != 0 {
        skip_marking(p, weights, idr)
    } else {
        weights
    };
    if c.cabac && inter {
        skip_code(p, marking)
    } else {
        marking
    }
}

fn sum_holds(initial: i32, code: u32) -> (r: bool)
    requires
        -100 <= initial <= 25,
    ensures
        r == holds(26 + initial + signed(code as int)),
{
    let delta: i64 = if code % 2 == 1 {
        (code as i64 + 1) / 2
    } else {
        -(code as i64 / 2)
    };
    let sum: i64 = 26 + initial as i64 + delta;
    i32::MIN as i64 <= sum && sum <= i32::MAX as i64
}

/// Whether a slice header can be read: whether its quantiser deltas can be added
/// to the quantisers of its picture parameter set.
pub fn can_be_read(store: &SetStore, first: u8, p: &[u8]) -> (r: bool)
    requires
        p@.len() * 16 <= usize::MAX,
    ensures
        r == deltas_fit(parameter_sets(*store), first, p@),
{
    let Some((slice_type, pps_id, next)) = take_opening(p) else {
        return true;
    };
    let Some(c) = read_pic_layout(store, pps_id) else {
        return true;
    };
    let Some(s) = read_seq_layout(store, c.sps_id) else {
        return true;
    };
    let ghost o = opening(p@)->Some_0;
    let at: Option<usize> = find_delta(&s, &c, first, p, slice_type, next);
    assert(place(at) == delta_place(s, c, first, p@, o));
    let Some(pos) = at else {
        return true;
    };
    let family: u8 = slice_type % 5;
    let Some((qp, behind)) = take_code(p, pos) else {
        return true;
    };
    if !sum_holds(c.init_qp_minus26, qp) {
        return false;
    }
    if family != 3 && family != 4 {
        return true;
    }
    let Some(second) = skip(p, Some(behind), (4 - family) as usize) else {
        return true;
    };
    match take_code(p, second) {
        Some((qs, _)) => sum_holds(c.init_qs_minus26, qs),
        None => true,
    }
}

} // verus!
