//! A macroblock in words, for messages.
use vstd::prelude::*;
use super::mb::{MbType, Partitioning};
use super::state::{pairs, MbInfo, MbModel};
use crate::text::{numbered, signed};

verus! {

/// A truth value in words.
pub open spec fn truth(b: bool) -> Seq<char> {
    if b {
        "true"@
    } else {
        "false"@
    }
}

/// How a macroblock is divided, in words.
pub open spec fn division(p: Partitioning) -> Seq<char> {
    match p {
        Partitioning::P16x16 => "P16x16"@,
        Partitioning::P16x8 => "P16x8"@,
        Partitioning::P8x16 => "P8x16"@,
        Partitioning::P8x8 => "P8x8"@,
        Partitioning::P8x8Ref0 => "P8x8Ref0"@,
    }
}

/// What a macroblock is, in words.
pub open spec fn type_text(t: MbType) -> Seq<char> {
    match t {
        MbType::IntraNxN => "IntraNxN"@,
        MbType::Intra16x16 { mode, cbp_luma, cbp_chroma } => "Intra16x16 { mode: "@ + mode.called()
            + ", cbp_luma: "@ + signed(cbp_luma as int) + ", cbp_chroma: "@ + signed(
            cbp_chroma as int,
        ) + " }"@,
        MbType::IPcm => "IPcm"@,
        MbType::Inter(p) => "Inter("@ + division(p) + ")"@,
        MbType::PSkip => "PSkip"@,
    }
}

/// Texts one behind the other, with commas between.
pub open spec fn joined(parts: Seq<Seq<char>>) -> Seq<char>
    decreases parts.len(),
{
    if parts.len() == 0 {
        Seq::empty()
    } else if parts.len() == 1 {
        parts[0]
    } else {
        joined(parts.drop_last()) + ", "@ + parts.last()
    }
}

/// Texts in brackets.
pub open spec fn list_text(parts: Seq<Seq<char>>) -> Seq<char> {
    "["@ + joined(parts) + "]"@
}

/// Numbers in brackets.
pub open spec fn numbers_text(numbers: Seq<int>) -> Seq<char> {
    list_text(Seq::new(numbers.len(), |i: int| signed(numbers[i])))
}

/// Pairs of numbers in brackets.
pub open spec fn pairs_text(vectors: Seq<(i16, i16)>) -> Seq<char> {
    list_text(
        Seq::new(
            vectors.len(),
            |i: int| numbers_text(seq![vectors[i].0 as int, vectors[i].1 as int]),
        ),
    )
}

/// Truth values in brackets.
pub open spec fn truths_text(values: Seq<bool>) -> Seq<char> {
    list_text(Seq::new(values.len(), |i: int| truth(values[i])))
}

/// The number whose bits are these flags, the lowest first.
pub open spec fn flags_number(flags: Seq<bool>) -> int
    decreases flags.len(),
{
    if flags.len() == 0 {
        0
    } else {
        (if flags[0] {
            1int
        } else {
            0
        }) + 2 * flags_number(flags.drop_first())
    }
}

/// A macroblock in words: every field with its name.
pub open spec fn described(m: MbModel) -> Seq<char> {
    "MbInfo { mb_type: "@ + type_text(m.mb_type) + ", transform_8x8: "@ + truth(m.transform_8x8)
        + ", qp: "@ + signed(m.qp as int) + ", cbp_luma: "@ + signed(m.cbp_luma as int)
        + ", cbp_chroma: "@ + signed(m.cbp_chroma as int) + ", chroma_mode: "@ + signed(
        m.chroma_mode as int,
    ) + ", qp_delta_nonzero: "@ + truth(m.qp_delta_nonzero) + ", intra_modes: "@ + numbers_text(
        m.intra_modes.map_values(|v: u8| v as int),
    ) + ", mv: "@ + pairs_text(m.mv) + ", mvd: "@ + pairs_text(m.mvd) + ", ref_idx: "@
        + numbers_text(m.ref_idx.map_values(|v: i8| v as int)) + ", cbf_luma: "@ + signed(
        flags_number(m.cbf_luma),
    ) + ", cbf_luma_dc: "@ + truth(m.cbf_luma_dc) + ", cbf_chroma_dc: "@ + truths_text(
        m.cbf_chroma_dc,
    ) + ", cbf_chroma_ac: "@ + numbers_text(
        seq![
            flags_number(m.cbf_chroma_ac.take(4)),
            flags_number(m.cbf_chroma_ac.skip(4)),
        ],
    ) + " }"@
}

fn truth_word(b: bool) -> (r: &'static str)
    ensures
        r@ == truth(b),
{
    if b {
        "true"
    } else {
        "false"
    }
}

fn division_word(p: Partitioning) -> (r: &'static str)
    ensures
        r@ == division(p),
{
    match p {
        Partitioning::P16x16 => "P16x16",
        Partitioning::P16x8 => "P16x8",
        Partitioning::P8x16 => "P8x16",
        Partitioning::P8x8 => "P8x8",
        Partitioning::P8x8Ref0 => "P8x8Ref0",
    }
}

fn put_signed(text: &mut String, n: i64)
    ensures
        final(text)@ == old(text)@ + signed(n as int),
{
    let number = numbered("", n);
    proof {
        reveal_strlit("");
        assert(number@ =~= signed(n as int));
    }
    text.append(number.as_str());
}

fn type_words(t: MbType) -> (r: String)
    ensures
        r@ == type_text(t),
{
    match t {
        MbType::IntraNxN => "IntraNxN".to_owned(),
        MbType::Intra16x16 { mode, cbp_luma, cbp_chroma } => {
            let mut r = "Intra16x16 { mode: ".to_owned();
            r.append(mode.name());
            r.append(", cbp_luma: ");
            put_signed(&mut r, cbp_luma as i64);
            r.append(", cbp_chroma: ");
            put_signed(&mut r, cbp_chroma as i64);
            r.append(" }");
            r
        },
        MbType::IPcm => "IPcm".to_owned(),
        MbType::Inter(p) => {
            let mut r = "Inter(".to_owned();
            r.append(division_word(p));
            r.append(")");
            r
        },
        MbType::PSkip => "PSkip".to_owned(),
    }
}

/// Texts as mathematical values.
pub open spec fn texts(parts: Seq<String>) -> Seq<Seq<char>> {
    Seq::new(parts.len(), |i: int| parts[i]@)
}

fn list_words(parts: &Vec<String>) -> (r: String)
    ensures
        r@ == list_text(texts(parts@)),
{
    let mut inner = String::new();
    let n: usize = parts.len();
    let ghost all = texts(parts@);
    assert(inner@ =~= joined(all.take(0)));
    for i in 0..n
        invariant
            n == parts@.len(),
            all == texts(parts@),
            inner@ == joined(all.take(i as int)),
    {
        proof {
            assert(all.take(i + 1).drop_last() =~= all.take(i as int));
            assert(all.take(i + 1).last() == parts@[i as int]@);
        }
        if i > 0 {
            inner.append(", ");
        }
        let ghost before = inner@;
        inner.append(parts[i].as_str());
        assert(i == 0 ==> before + parts@[0]@ =~= parts@[0]@);
    }
    assert(all.take(n as int) =~= all);
    let mut r = "[".to_owned();
    r.append(inner.as_str());
    r.append("]");
    r
}

fn numbers_words(numbers: &Vec<i64>) -> (r: String)
    ensures
        r@ == numbers_text(numbers@.map_values(|v: i64| v as int)),
{
    let mut parts: Vec<String> = Vec::new();
    let n: usize = numbers.len();
    for i in 0..n
        invariant
            n == numbers@.len(),
            parts@.len() == i,
            forall|j: int| 0 <= j < i ==> (#[trigger] parts@[j])@ == signed(numbers@[j] as int),
    {
        let mut part = String::new();
        put_signed(&mut part, numbers[i]);
        assert(part@ =~= signed(numbers@[i as int] as int));
        parts.push(part);
    }
    let ghost values = numbers@.map_values(|v: i64| v as int);
    assert(texts(parts@) =~= Seq::new(values.len(), |i: int| signed(values[i])));
    list_words(&parts)
}

fn pairs_words(vectors: &[[i16; 2]; 16]) -> (r: String)
    ensures
        r@ == pairs_text(pairs(vectors@)),
{
    let ghost goal = pairs(vectors@);
    let mut parts: Vec<String> = Vec::new();
    for i in 0..16usize
        invariant
            goal == pairs(vectors@),
            vectors@.len() == 16,
            parts@.len() == i,
            forall|j: int|
                0 <= j < i ==> (#[trigger] parts@[j])@ == numbers_text(
                    seq![goal[j].0 as int, goal[j].1 as int],
                ),
    {
        let mut two: Vec<i64> = Vec::new();
        two.push(vectors[i][0] as i64);
        two.push(vectors[i][1] as i64);
        assert(two@.map_values(|v: i64| v as int) =~= seq![
            goal[i as int].0 as int,
            goal[i as int].1 as int,
        ]);
        parts.push(numbers_words(&two));
    }
    assert(texts(parts@) =~= Seq::new(
        goal.len(),
        |i: int| numbers_text(seq![goal[i].0 as int, goal[i].1 as int]),
    ));
    list_words(&parts)
}

/// The number whose bits are some flags.
fn number_of(flags: &Vec<bool>) -> (r: i64)
    requires
        flags@.len() <= 16,
    ensures
        r == flags_number(flags@),
{
    let mut r: i64 = 0;
    let mut limit: i64 = 1;
    let mut i: usize = flags.len();
    assert(flags@.skip(i as int) =~= Seq::<bool>::empty());
    while i > 0
        invariant
            i <= flags@.len() <= 16,
            r == flags_number(flags@.skip(i as int)),
            0 <= r < limit,
            limit <= power(flags@.len() - i),
        decreases i,
    {
        i = i - 1;
        proof {
            assert(flags@.skip(i as int).drop_first() =~= flags@.skip(i + 1));
            lemma_power(flags@.len() - i);
        }
        r = 2 * r + if flags[i] {
            1
        } else {
            0
        };
        limit = 2 * limit;
    }
    assert(flags@.skip(0) =~= flags@);
    r
}

spec fn power(n: int) -> int
    decreases n,
{
    if n <= 0 {
        1
    } else {
        2 * power(n - 1)
    }
}

proof fn lemma_power(n: int)
    requires
        n <= 16,
    ensures
        power(n) <= 0x1_0000,
    decreases 16 - n,
{
    if n == 16 {
        reveal_with_fuel(power, 17);
    } else {
        lemma_power(n + 1);
    }
}

fn truths_words(values: &[bool; 2]) -> (r: String)
    ensures
        r@ == truths_text(values@),
{
    let mut parts: Vec<String> = Vec::new();
    parts.push(truth_word(values[0]).to_owned());
    parts.push(truth_word(values[1]).to_owned());
    assert(texts(parts@) =~= Seq::new(values@.len(), |i: int| truth(values@[i])));
    list_words(&parts)
}

/// The coded flags of luma as a number.
fn luma_number(info: &MbInfo) -> (r: i64)
    ensures
        r == flags_number(info@.cbf_luma),
{
    let mut flags: Vec<bool> = Vec::new();
    for b in 0..16u8
        invariant
            flags@.len() == b,
            forall|j: int| 0 <= j < b ==> (#[trigger] flags@[j]) == info@.cbf_luma[j],
    {
        flags.push(info.luma_cbf(b));
    }
    assert(flags@ =~= info@.cbf_luma);
    number_of(&flags)
}

/// The coded flags of a chroma component as a number.
fn chroma_number(info: &MbInfo, comp: usize) -> (r: i64)
    requires
        comp < 2,
    ensures
        r == flags_number(info@.cbf_chroma_ac.subrange(comp * 4, comp * 4 + 4)),
{
    let mut flags: Vec<bool> = Vec::new();
    for b in 0..4u8
        invariant
            comp < 2,
            flags@.len() == b,
            forall|j: int| 0 <= j < b ==> (#[trigger] flags@[j]) == info@.cbf_chroma_ac[comp * 4 + j],
    {
        flags.push(info.chroma_cbf(comp, b));
    }
    assert(flags@ =~= info@.cbf_chroma_ac.subrange(comp * 4, comp * 4 + 4));
    number_of(&flags)
}

fn modes_words(modes: &[u8; 16]) -> (r: String)
    ensures
        r@ == numbers_text(modes@.map_values(|v: u8| v as int)),
{
    let mut numbers: Vec<i64> = Vec::new();
    for i in 0..16usize
        invariant
            numbers@.len() == i,
            forall|j: int| 0 <= j < i ==> (#[trigger] numbers@[j]) == modes@[j],
    {
        numbers.push(modes[i] as i64);
    }
    assert(numbers@.map_values(|v: i64| v as int) =~= modes@.map_values(|v: u8| v as int));
    numbers_words(&numbers)
}

fn indices_words(indices: &[i8; 4]) -> (r: String)
    ensures
        r@ == numbers_text(indices@.map_values(|v: i8| v as int)),
{
    let mut numbers: Vec<i64> = Vec::new();
    for i in 0..4usize
        invariant
            numbers@.len() == i,
            forall|j: int| 0 <= j < i ==> (#[trigger] numbers@[j]) == indices@[j],
    {
        numbers.push(indices[i] as i64);
    }
    assert(numbers@.map_values(|v: i64| v as int) =~= indices@.map_values(|v: i8| v as int));
    numbers_words(&numbers)
}

fn flags_words(info: &MbInfo) -> (r: String)
    ensures
        r@ == numbers_text(
            seq![
                flags_number(info@.cbf_chroma_ac.take(4)),
                flags_number(info@.cbf_chroma_ac.skip(4)),
            ],
        ),
{
    let mut numbers: Vec<i64> = Vec::new();
    numbers.push(chroma_number(info, 0));
    numbers.push(chroma_number(info, 1));
    let ghost flags = info@.cbf_chroma_ac;
    assert(flags.subrange(0, 4) =~= flags.take(4));
    assert(flags.subrange(4, 8) =~= flags.skip(4));
    assert(numbers@.map_values(|v: i64| v as int) =~= seq![
        flags_number(flags.take(4)),
        flags_number(flags.skip(4)),
    ]);
    numbers_words(&numbers)
}

/// A macroblock in words.
pub fn describe(info: &MbInfo) -> (r: String)
    ensures
        r@ == described(info@),
{
    let mut r = "MbInfo { mb_type: ".to_owned();
    r.append(type_words(info.mb_type).as_str());
    r.append(", transform_8x8: ");
    r.append(truth_word(info.transform_8x8));
    r.append(", qp: ");
    put_signed(&mut r, info.qp as i64);
    r.append(", cbp_luma: ");
    put_signed(&mut r, info.cbp_luma as i64);
    r.append(", cbp_chroma: ");
    put_signed(&mut r, info.cbp_chroma as i64);
    r.append(", chroma_mode: ");
    put_signed(&mut r, info.chroma_mode as i64);
    r.append(", qp_delta_nonzero: ");
    r.append(truth_word(info.qp_delta_nonzero));
    r.append(", intra_modes: ");
    r.append(modes_words(&info.intra_modes).as_str());
    r.append(", mv: ");
    r.append(pairs_words(&info.mv).as_str());
    r.append(", mvd: ");
    r.append(pairs_words(&info.mvd).as_str());
    r.append(", ref_idx: ");
    r.append(indices_words(&info.ref_idx).as_str());
    r.append(", cbf_luma: ");
    put_signed(&mut r, luma_number(info));
    r.append(", cbf_luma_dc: ");
    r.append(truth_word(info.cbf_luma_dc));
    r.append(", cbf_chroma_dc: ");
    r.append(truths_words(&info.cbf_chroma_dc).as_str());
    r.append(", cbf_chroma_ac: ");
    r.append(flags_words(info).as_str());
    r.append(" }");
    r
}

} // verus!
