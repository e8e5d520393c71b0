//! Text for people: numbers in decimal, and text compared and taken apart.
use vstd::prelude::*;

verus! {

/// The character of a decimal digit.
pub open spec fn digit(d: nat) -> char {
    (48 + d) as char
}

/// A number in decimal, without leading zeros.
pub open spec fn decimal(n: nat) -> Seq<char>
    decreases n,
{
    if n < 10 {
        seq![digit(n)]
    } else {
        decimal(n / 10).push(digit(n % 10))
    }
}

/// A number in decimal, with a minus sign where it is below zero.
pub open spec fn signed(n: int) -> Seq<char> {
    if n < 0 {
        "-"@ + decimal((-n) as nat)
    } else {
        decimal(n as nat)
    }
}

/// A number in decimal, with leading zeros up to a width.
pub open spec fn padded(n: nat, width: nat) -> Seq<char> {
    if decimal(n).len() >= width {
        decimal(n)
    } else {
        zeros((width - decimal(n).len()) as nat) + decimal(n)
    }
}

/// So many zeros.
pub open spec fn zeros(n: nat) -> Seq<char> {
    Seq::new(n, |i: int| '0')
}

/// Text with each ASCII capital made small.
pub open spec fn lower(s: Seq<char>) -> Seq<char> {
    Seq::new(s.len(), |i: int| lower_char(s[i]))
}

/// A character, made small where it is an ASCII capital.
pub open spec fn lower_char(c: char) -> char {
    if 65 <= c as int <= 90 {
        (c as int + 32) as char
    } else {
        c
    }
}

/// Whether a character is a decimal digit.
pub open spec fn is_digit(c: char) -> bool {
    48 <= c as int <= 57
}

/// What a run of decimal digits counts.
pub open spec fn counted(s: Seq<char>) -> nat
    decreases s.len(),
{
    if s.len() == 0 {
        0
    } else {
        counted(s.drop_last()) * 10 + (s.last() as int - 48) as nat
    }
}

/// The digits of a number that may carry a plus sign.
pub open spec fn unsigned(s: Seq<char>) -> Seq<char> {
    if s.len() > 0 && s[0] == '+' {
        s.skip(1)
    } else {
        s
    }
}

/// The whole number that text spells: digits only, after a plus sign at most.
pub open spec fn whole_number(s: Seq<char>) -> Option<nat> {
    let d = unsigned(s);
    if d.len() > 0 && (forall|i: int| 0 <= i < d.len() ==> is_digit(#[trigger] d[i])) {
        Some(counted(d))
    } else {
        None
    }
}

/// The digit as text.
fn digit_text(d: u128) -> (s: &'static str)
    requires
        d < 10,
    ensures
        s@ == seq![digit(d as nat)],
{
    proof {
        reveal_strlit("0");
        reveal_strlit("1");
        reveal_strlit("2");
        reveal_strlit("3");
        reveal_strlit("4");
        reveal_strlit("5");
        reveal_strlit("6");
        reveal_strlit("7");
        reveal_strlit("8");
        reveal_strlit("9");
    }
    match d {
        0 => "0",
        1 => "1",
        2 => "2",
        3 => "3",
        4 => "4",
        5 => "5",
        6 => "6",
        7 => "7",
        8 => "8",
        _ => "9",
    }
}

/// Writes a number in decimal behind some text.
pub fn put_number(text: &mut String, n: u128)
    ensures
        final(text)@ == old(text)@ + decimal(n as nat),
    decreases n,
{
    if n >= 10 {
        put_number(text, n / 10);
    }
    text.append(digit_text(n % 10));
}

/// Some text with a number behind it.
pub fn numbered(before: &str, n: i64) -> (r: String)
    ensures
        r@ == before@ + signed(n as int),
{
    let mut r = before.to_owned();
    if n < 0 {
        r.append("-");
        put_number(&mut r, (-(n as i128)) as u128);
        assert(r@ =~= before@ + signed(n as int));
    } else {
        put_number(&mut r, n as u128);
    }
    r
}

/// Writes a number in decimal behind some text, with leading zeros up to a
/// width.
pub fn put_padded(text: &mut String, n: u128, width: usize)
    ensures
        final(text)@ == old(text)@ + padded(n as nat, width as nat),
{
    let mut number = String::new();
    put_number(&mut number, n);
    let len: usize = number.as_str().unicode_len();
    let ghost before = text@;
    proof {
        reveal_strlit("0");
    }
    let mut have: usize = len;
    while have < width
        invariant
            number@ == decimal(n as nat),
            len == number@.len(),
            len <= have,
            have <= width || have == len,
            text@ == before + zeros((have - len) as nat),
            "0"@ == seq!['0'],
        decreases width - have,
    {
        text.append("0");
        have = have + 1;
        assert(zeros((have - 1 - len) as nat) + seq!['0'] =~= zeros((have - len) as nat));
    }
    text.append(number.as_str());
}

/// Text, with blanks behind it up to a width.
pub open spec fn left(s: Seq<char>, width: nat) -> Seq<char> {
    if s.len() >= width {
        s
    } else {
        s + Seq::new((width - s.len()) as nat, |i: int| ' ')
    }
}

/// Writes text behind some other, with blanks up to a width.
pub fn put_left(text: &mut String, s: &str, width: usize)
    ensures
        final(text)@ == old(text)@ + left(s@, width as nat),
{
    let len: usize = s.unicode_len();
    let ghost before = text@;
    text.append(s);
    proof {
        reveal_strlit(" ");
    }
    let mut have: usize = len;
    assert(text@ =~= before + s@ + Seq::new(0, |i: int| ' '));
    while have < width
        invariant
            len == s@.len(),
            len <= have,
            have <= width || have == len,
            text@ == before + s@ + Seq::new((have - len) as nat, |i: int| ' '),
            " "@ == seq![' '],
        decreases width - have,
    {
        text.append(" ");
        have = have + 1;
        assert(Seq::new((have - 1 - len) as nat, |i: int| ' ') + seq![' '] =~= Seq::new(
            (have - len) as nat,
            |i: int| ' ',
        ));
        assert(text@ =~= before + s@ + Seq::new((have - len) as nat, |i: int| ' '));
    }
    assert(text@ =~= before + left(s@, width as nat));
}

/// Whether two texts are the same.
pub fn same(a: &str, b: &str) -> (r: bool)
    ensures
        r == (a@ == b@),
{
    a.to_owned() == b.to_owned()
}

/// Whether two texts are the same but for the case of ASCII letters.
pub fn same_ignoring_case(a: &str, b: &str) -> (r: bool)
    ensures
        r == (lower(a@) == lower(b@)),
{
    let n: usize = a.unicode_len();
    if n != b.unicode_len() {
        assert(lower(a@).len() != lower(b@).len());
        return false;
    }
    let mut i: usize = 0;
    while i < n
        invariant
            n == a@.len() == b@.len(),
            i <= n,
            forall|j: int| 0 <= j < i ==> lower_char(#[trigger] a@[j]) == lower_char(b@[j]),
        decreases n - i,
    {
        let x: char = small(a.get_char(i));
        let y: char = small(b.get_char(i));
        if x != y {
            assert(lower(a@)[i as int] != lower(b@)[i as int]);
            return false;
        }
        i = i + 1;
    }
    assert(lower(a@) =~= lower(b@));
    true
}

/// The character, made small where it is an ASCII capital.
fn small(c: char) -> (r: char)
    ensures
        r == lower_char(c),
{
    let code: u32 = c as u32;
    if 65 <= code && code <= 90 {
        (code as u8 + 32) as char
    } else {
        c
    }
}

/// The whole number that text spells, if it is no larger than a bound.
pub fn number_up_to(s: &str, bound: u64) -> (r: Option<u64>)
    requires
        bound <= 0xffff_ffff,
    ensures
        match whole_number(s@) {
            Some(n) if n <= bound => r == Some(n as u64),
            _ => r is None,
        },
{
    let n: usize = s.unicode_len();
    let start: usize = if n > 0 && s.get_char(0) == '+' {
        1
    } else {
        0
    };
    let ghost d = unsigned(s@);
    assert(d =~= s@.skip(start as int));
    if start == n {
        return None;
    }
    let mut total: u64 = 0;
    let mut over: bool = false;
    let mut i: usize = start;
    while i < n
        invariant
            n == s@.len(),
            start <= i <= n,
            start <= 1,
            d == unsigned(s@),
            d == s@.skip(start as int),
            bound <= 0xffff_ffff,
            forall|j: int| 0 <= j < i - start ==> is_digit(#[trigger] d[j]),
            !over ==> total == counted(d.take(i - start)) && total <= bound,
            over ==> counted(d.take(i - start)) > bound,
        decreases n - i,
    {
        let c: char = s.get_char(i);
        let code: u32 = c as u32;
        assert(d[i - start] == c);
        if code < 48 || 57 < code {
            assert(!is_digit(d[i - start]));
            return None;
        }
        assert(d.take(i - start + 1).drop_last() =~= d.take(i - start));
        assert(d.take(i - start + 1).last() == c);
        if !over {
            let next: u64 = total * 10 + (code - 48) as u64;
            if next > bound {
                over = true;
            } else {
                total = next;
            }
        }
        i = i + 1;
    }
    assert(d.take(n - start) =~= d);
    if over {
        None
    } else {
        Some(total)
    }
}

/// Distinct numbers are written differently.
pub proof fn law_decimal_is_injective(a: nat, b: nat)
    ensures
        decimal(a) == decimal(b) ==> a == b,
    decreases a,
{
    if decimal(a) == decimal(b) {
        lemma_decimal(a);
        lemma_decimal(b);
        assert(decimal(a).last() == decimal(b).last());
        if a >= 10 && b >= 10 {
            assert(decimal(a).drop_last() =~= decimal(a / 10));
            assert(decimal(b).drop_last() =~= decimal(b / 10));
            law_decimal_is_injective(a / 10, b / 10);
        }
    }
}

/// A number in decimal ends in its last digit, and is a single digit only
/// below ten.
proof fn lemma_decimal(n: nat)
    ensures
        decimal(n).len() >= 1,
        decimal(n).last() == digit(n % 10),
        decimal(n).len() == 1 <==> n < 10,
    decreases n,
{
    if n >= 10 {
        lemma_decimal(n / 10);
    }
}

/// Reading a number back from its decimal text gives the number.
pub proof fn law_decimal_reads_back(n: nat)
    ensures
        whole_number(decimal(n)) == Some(n),
{
    lemma_reads_back(n);
    assert(is_digit(decimal(n)[0]));
    assert(unsigned(decimal(n)) =~= decimal(n));
}

proof fn lemma_reads_back(n: nat)
    ensures
        decimal(n).len() > 0,
        forall|i: int| 0 <= i < decimal(n).len() ==> is_digit(#[trigger] decimal(n)[i]),
        counted(decimal(n)) == n,
    decreases n,
{
    reveal_with_fuel(counted, 2);
    if n >= 10 {
        lemma_reads_back(n / 10);
        assert(decimal(n).drop_last() =~= decimal(n / 10));
    } else {
        assert(decimal(n).drop_last() =~= Seq::<char>::empty());
    }
}

} // verus!
