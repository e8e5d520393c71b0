//! How the numbers of a header are written, and how units are kept free of start
//! codes.
use vstd::prelude::*;
use vstd::arithmetic::div_mod::lemma_div_denominator;
use vstd::arithmetic::power2::{lemma_pow2_pos, lemma_pow2_unfold, pow2};
use super::headers::{payload_of, unescaped};
use super::lookahead::{code_at, number, power, signed, zeros};
use super::slice::bit;

verus! {

// ---- Exp-Golomb codes -------------------------------------------------------

/// The code of `v` stands at `pos`: the binary digits of `v + 1`, of which there are
/// `n + 1`, behind `n` zeros.
pub open spec fn written(p: Seq<u8>, pos: int, v: int, n: nat) -> bool {
    &&& pow2(n) <= v + 1 < pow2(n + 1)
    &&& forall|i: int| 0 <= i < n ==> !(#[trigger] bit(p, pos + i))
    &&& forall|i: int|
        0 <= i <= n ==> #[trigger] bit(p, pos + n + i) == ((v + 1) / pow2((n - i) as nat) as int
            % 2 == 1)
}

/// A code of up to 31 zeros is read back, and the next thing begins behind it.
pub proof fn law_codes_are_read_back(p: Seq<u8>, pos: int, v: int, n: nat)
    requires
        n <= 31,
        0 <= pos,
        pos + 2 * n + 1 <= p.len() * 8,
        written(p, pos, v, n),
    ensures
        code_at(p, pos) matches Some(taken) && taken.value == v && taken.next == pos + 2 * n + 1,
{
    lemma_pow2_pos(n);
    lemma_pow2_unfold(n + 1);
    assert((v + 1) / pow2(n) as int == 1) by {
        let d = pow2(n) as int;
        assert((v + 1) / d == 1) by (nonlinear_arith)
            requires
                d <= v + 1 < 2 * d,
        ;
    }
    assert(pos + n + 0 == pos + n);
    assert(bit(p, pos + n + 0));
    lemma_run(p, pos, n as int, 0);
    lemma_digits(p, pos, v, n, n);
    lemma_power(n);
    assert(pow2(0) == 1) by {
        vstd::arithmetic::power2::lemma2_to64();
    }
    assert((v + 1) / 1 == v + 1);
}

proof fn lemma_run(p: Seq<u8>, pos: int, n: int, i: int)
    requires
        0 <= i <= n,
        0 <= pos,
        pos + n < p.len() * 8,
        forall|i: int| 0 <= i < n ==> !(#[trigger] bit(p, pos + i)),
        bit(p, pos + n),
    ensures
        zeros(p, pos + i) == n - i,
    decreases n - i,
{
    if i < n {
        assert(!bit(p, pos + i));
        lemma_run(p, pos, n, i + 1);
    }
}

proof fn lemma_power(n: nat)
    ensures
        power(n as int) == pow2(n),
    decreases n,
{
    vstd::arithmetic::power2::lemma2_to64();
    if n > 0 {
        lemma_power((n - 1) as nat);
        lemma_pow2_unfold(n);
    }
}

proof fn lemma_digits(p: Seq<u8>, pos: int, v: int, n: nat, j: nat)
    requires
        j <= n,
        0 <= v,
        written(p, pos, v, n),
    ensures
        number(p, pos + n + 1, j as int) == (v + 1) / pow2((n - j) as nat) as int - pow2(j),
    decreases j,
{
    lemma_pow2_pos(n);
    lemma_pow2_unfold(n + 1);
    vstd::arithmetic::power2::lemma2_to64();
    if j == 0 {
        let d = pow2(n) as int;
        assert((v + 1) / d == 1) by (nonlinear_arith)
            requires
                d <= v + 1 < 2 * d,
        ;
    } else {
        lemma_digits(p, pos, v, n, (j - 1) as nat);
        let low = (n - j) as nat;
        lemma_pow2_pos(low);
        lemma_pow2_unfold(low + 1);
        lemma_pow2_unfold(j);
        lemma_div_denominator(v + 1, pow2(low) as int, 2);
        assert(pow2(low) * 2 == pow2(low + 1));
        let x = (v + 1) / pow2(low) as int;
        assert(x == 2 * (x / 2) + x % 2);
        assert(bit(p, pos + n + j) == (x % 2 == 1));
        assert(pos + n + 1 + j - 1 == pos + n + j);
    }
}

/// Codes for signed numbers count 0, 1, -1, 2, -2 and so on.
pub proof fn law_signs_alternate(k: int)
    requires
        k > 0,
    ensures
        signed(0) == 0,
        signed(2 * k - 1) == k,
        signed(2 * k) == -k,
{
}

// ---- Escapes ----------------------------------------------------------------

/// Bytes kept free of start codes, `zeros` being how many zeros stand just before: a
/// 3 goes before a byte of at most 3 that follows two zeros.
pub open spec fn escaped(payload: Seq<u8>, zeros: int) -> Seq<u8>
    decreases payload.len(),
{
    if payload.len() == 0 {
        Seq::empty()
    } else {
        let b = payload[0];
        let rest = payload.skip(1);
        if zeros == 2 && b <= 3 {
            seq![3u8, b] + escaped(rest, if b == 0 {
                1
            } else {
                0
            })
        } else {
            seq![b] + escaped(rest, if b == 0 {
                zeros + 1
            } else {
                0
            })
        }
    }
}

/// A unit gives back the payload that was escaped into it.
pub proof fn law_escapes_are_undone(first: u8, payload: Seq<u8>)
    ensures
        payload_of(seq![first] + escaped(payload, 0)) == Some(payload),
{
    let nal = seq![first] + escaped(payload, 0);
    assert(nal.skip(1) =~= escaped(payload, 0));
    lemma_unescaped(nal, 1, payload, 0);
}

proof fn lemma_unescaped(nal: Seq<u8>, at: int, payload: Seq<u8>, zeros: int)
    requires
        0 <= at <= nal.len(),
        0 <= zeros <= 2,
        nal.skip(at) == escaped(payload, zeros),
    ensures
        unescaped(nal, at, zeros) == Some(payload),
    decreases payload.len(),
{
    let tail = nal.skip(at);
    if payload.len() == 0 {
        assert(tail.len() == 0);
        assert(payload =~= Seq::empty());
    } else {
        let b = payload[0];
        let rest = payload.skip(1);
        assert(seq![b] + rest =~= payload);
        assert(escaped(payload, zeros).len() > 0);
        assert(tail[0] == nal[at]);
        if zeros == 2 && b <= 3 {
            let next = if b == 0 {
                1int
            } else {
                0
            };
            assert(tail[1] == nal[at + 1]);
            assert(nal[at] == 3 && nal[at + 1] == b);
            assert(nal.skip(at + 2) =~= tail.skip(2));
            assert(tail.skip(2) =~= escaped(rest, next));
            lemma_unescaped(nal, at + 2, rest, next);
            assert(unescaped(nal, at + 1, 0) == Some(seq![b] + rest));
        } else {
            let next = if b == 0 {
                zeros + 1
            } else {
                0
            };
            assert(nal[at] == b);
            assert(nal.skip(at + 1) =~= tail.skip(1));
            assert(tail.skip(1) =~= escaped(rest, next));
            lemma_unescaped(nal, at + 1, rest, next);
        }
    }
}

} // verus!
