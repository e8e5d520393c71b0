//! Threshold tables of the deblocking filter.
//!
//! The first sixteen entries of each are zero, which is what leaves finely
//! quantised pictures alone.
use vstd::prelude::*;

verus! {

/// `alpha` thresholds, by quantiser index.
pub const ALPHA: [u8; 52] = [
    0, 0, 0, 0, 0, 0, 0, 0, 0, 0, 0, 0, 0, 0, 0, 0, 4, 4, 5, 6, 7, 8, 9, 10, 12, 13, 15, 17, 20,
    22, 25, 28, 32, 36, 40, 45, 50, 56, 63, 71, 80, 90, 101, 113, 127, 144, 162, 182, 203, 226,
    255, 255,
];

/// `beta` thresholds, by quantiser index.
pub const BETA: [u8; 52] = [
    0, 0, 0, 0, 0, 0, 0, 0, 0, 0, 0, 0, 0, 0, 0, 0, 2, 2, 2, 3, 3, 3, 3, 4, 4, 4, 6, 6, 7, 7, 8, 8,
    9, 9, 10, 10, 11, 11, 12, 12, 13, 13, 14, 14, 15, 15, 16, 16, 17, 17, 18, 18,
];

/// `tC0`, by quantiser index and boundary strength less one. Strength 0 filters
/// nothing and strength 4 has no `tC0`.
pub const TC0: [[u8; 3]; 52] = [
    [0, 0, 0], [0, 0, 0], [0, 0, 0], [0, 0, 0], [0, 0, 0], [0, 0, 0], [0, 0, 0], [0, 0, 0],
    [0, 0, 0], [0, 0, 0], [0, 0, 0], [0, 0, 0], [0, 0, 0], [0, 0, 0], [0, 0, 0], [0, 0, 0],
    [0, 0, 0], [0, 0, 1], [0, 0, 1], [0, 0, 1], [0, 0, 1], [0, 1, 1], [0, 1, 1], [1, 1, 1],
    [1, 1, 1], [1, 1, 1], [1, 1, 1], [1, 1, 2], [1, 1, 2], [1, 1, 2], [1, 1, 2], [1, 2, 3],
    [1, 2, 3], [2, 2, 3], [2, 2, 4], [2, 3, 4], [2, 3, 4], [3, 3, 5], [3, 4, 6], [3, 4, 6],
    [4, 5, 7], [4, 5, 8], [4, 6, 9], [5, 7, 10], [6, 8, 11], [6, 8, 13], [7, 10, 14], [8, 11, 16],
    [9, 12, 18], [10, 13, 20], [11, 15, 23], [13, 17, 25],
];

/// `alpha` at a quantiser index.
#[verifier::opaque]
pub open spec fn alpha_at(i: int) -> int {
    ALPHA@[i] as int
}

/// `beta` at a quantiser index.
#[verifier::opaque]
pub open spec fn beta_at(i: int) -> int {
    BETA@[i] as int
}

/// `tC0` at a quantiser index, for a strength of 1, 2 or 3.
#[verifier::opaque]
pub open spec fn tc0_at(i: int, bs: int) -> int {
    TC0@[i]@[bs - 1] as int
}

/// Looks `alpha` up.
pub fn alpha(i: usize) -> (r: i32)
    requires
        i < 52,
    ensures
        r == alpha_at(i as int),
        0 <= r <= 255,
{
    proof {
        reveal(alpha_at);
    }
    ALPHA[i] as i32
}

/// Looks `beta` up.
pub fn beta(i: usize) -> (r: i32)
    requires
        i < 52,
    ensures
        r == beta_at(i as int),
        0 <= r <= 255,
{
    proof {
        reveal(beta_at);
    }
    BETA[i] as i32
}

/// Looks `tC0` up.
pub fn tc0(i: usize, bs: u8) -> (r: i32)
    requires
        i < 52,
        1 <= bs <= 3,
    ensures
        r == tc0_at(i as int, bs as int),
        0 <= r <= 255,
{
    proof {
        reveal(tc0_at);
    }
    TC0[i][bs as usize - 1] as i32
}

proof fn lemma_next(i: int)
    requires
        0 <= i < 51,
    ensures
        alpha_at(i) <= alpha_at(i + 1),
        beta_at(i) <= beta_at(i + 1),
{
    reveal(alpha_at);
    reveal(beta_at);
}

proof fn lemma_next_tc0(i: int, bs: int)
    requires
        0 <= i < 51,
        1 <= bs <= 3,
    ensures
        tc0_at(i, bs) <= tc0_at(i + 1, bs),
{
    reveal(tc0_at);
}

/// A coarser quantiser never narrows the filter: `alpha`, `beta` and `tC0` grow
/// with the quantiser index.
pub proof fn law_thresholds_grow_with_the_quantiser(i: int, j: int, bs: int)
    requires
        0 <= i <= j < 52,
        1 <= bs <= 3,
    ensures
        alpha_at(i) <= alpha_at(j),
        beta_at(i) <= beta_at(j),
        tc0_at(i, bs) <= tc0_at(j, bs),
    decreases j - i,
{
    if i < j {
        law_thresholds_grow_with_the_quantiser(i, j - 1, bs);
        lemma_next(j - 1);
        lemma_next_tc0(j - 1, bs);
    }
}

/// A stronger boundary never narrows the filter: `tC0` grows with the strength.
pub proof fn law_tc0_grows_with_strength(i: int, bs: int)
    requires
        0 <= i < 52,
        1 <= bs <= 2,
    ensures
        tc0_at(i, bs) <= tc0_at(i, bs + 1),
{
    reveal(tc0_at);
}

/// Below quantiser index sixteen the filter is off: `alpha` and `beta` are zero.
pub proof fn law_fine_quantisers_have_no_thresholds(i: int)
    requires
        0 <= i < 16,
    ensures
        alpha_at(i) == 0,
        beta_at(i) == 0,
{
    reveal(alpha_at);
    reveal(beta_at);
}

/// Every threshold is a sample difference.
pub proof fn lemma_threshold_range(i: int, bs: int)
    requires
        0 <= i < 52,
        1 <= bs <= 3,
    ensures
        0 <= alpha_at(i) <= 255,
        0 <= beta_at(i) <= 255,
        0 <= tc0_at(i, bs) <= 255,
{
    reveal(alpha_at);
    reveal(beta_at);
    reveal(tc0_at);
}

/// The thresholds of the filter, from the first quantiser that filters on. From the
/// twenty-sixth on, the second one grows by one every two steps.
pub proof fn law_thresholds_are_listed(i: int)
    requires
        0 <= i < 52,
    ensures
        i < 16 ==> alpha_at(i) == 0 && beta_at(i) == 0,
        i >= 16 ==> alpha_at(i) == seq![
            4int, 4, 5, 6, 7, 8, 9, 10, 12, 13, 15, 17, 20, 22, 25, 28, 32, 36, 40, 45, 50, 56, 63,
            71, 80, 90, 101, 113, 127, 144, 162, 182, 203, 226, 255, 255,
        ][i - 16],
        16 <= i < 26 ==> beta_at(i) == seq![2int, 2, 2, 3, 3, 3, 3, 4, 4, 4][i - 16],
        i >= 26 ==> beta_at(i) == i / 2 - 7,
{
    reveal(alpha_at);
    reveal(beta_at);
}

/// How far a normal edge may move a sample, for each strength, from the first
/// quantiser that moves any on.
pub proof fn law_reach_is_listed(i: int)
    requires
        0 <= i < 52,
    ensures
        i < 17 ==> tc0_at(i, 3) == 0,
        i >= 17 ==> tc0_at(i, 3) == seq![
            1int, 1, 1, 1, 1, 1, 1, 1, 1, 1, 2, 2, 2, 2, 3, 3, 3, 4, 4, 4, 5, 6, 6, 7, 8, 9, 10, 11,
            13, 14, 16, 18, 20, 23, 25,
        ][i - 17],
        i < 21 ==> tc0_at(i, 2) == 0,
        i >= 21 ==> tc0_at(i, 2) == seq![
            1int, 1, 1, 1, 1, 1, 1, 1, 1, 1, 2, 2, 2, 2, 3, 3, 3, 4, 4, 5, 5, 6, 7, 8, 8, 10, 11, 12,
            13, 15, 17,
        ][i - 21],
        i < 23 ==> tc0_at(i, 1) == 0,
        i >= 23 ==> tc0_at(i, 1) == seq![
            1int, 1, 1, 1, 1, 1, 1, 1, 1, 1, 2, 2, 2, 2, 3, 3, 3, 4, 4, 4, 5, 6, 6, 7, 8, 9, 10, 11,
            13,
        ][i - 23],
{
    reveal(tc0_at);
}

} // verus!
