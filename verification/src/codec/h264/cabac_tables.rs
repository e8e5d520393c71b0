//! Constant tables of the arithmetic decoder: how wide the least probable
//! symbol's share of the interval is, and how a probability state moves.
use vstd::prelude::*;

verus! {

/// Width of the least probable symbol's sub-interval, by probability state and
/// by the quarter of 256..512 the current width lies in.
pub const RANGE_TAB_LPS: [[u8; 4]; 64] = [
    [128, 176, 208, 240], [128, 167, 197, 227], [128, 158, 187, 216], [123, 150, 178, 205],
    [116, 142, 169, 195], [111, 135, 160, 185], [105, 128, 152, 175], [100, 122, 144, 166],
    [95, 116, 137, 158], [90, 110, 130, 150], [85, 104, 123, 142], [81, 99, 117, 135],
    [77, 94, 111, 128], [73, 89, 105, 122], [69, 85, 100, 116], [66, 80, 95, 110],
    [62, 76, 90, 104], [59, 72, 86, 99], [56, 69, 81, 94], [53, 65, 77, 89],
    [51, 62, 73, 85], [48, 59, 69, 80], [46, 56, 66, 76], [43, 53, 63, 72],
    [41, 50, 59, 69], [39, 48, 56, 65], [37, 45, 54, 62], [35, 43, 51, 59],
    [33, 41, 48, 56], [32, 39, 46, 53], [30, 37, 43, 50], [29, 35, 41, 48],
    [27, 33, 39, 45], [26, 31, 37, 43], [24, 30, 35, 41], [23, 28, 33, 39],
    [22, 27, 32, 37], [21, 26, 30, 35], [20, 24, 29, 33], [19, 23, 27, 31],
    [18, 22, 26, 30], [17, 21, 25, 28], [16, 20, 23, 27], [15, 19, 22, 25],
    [14, 18, 21, 24], [14, 17, 20, 23], [13, 16, 19, 22], [12, 15, 18, 21],
    [12, 14, 17, 20], [11, 14, 16, 19], [11, 13, 15, 18], [10, 12, 15, 17],
    [10, 12, 14, 16], [9, 11, 13, 15], [9, 11, 12, 14], [8, 10, 12, 14],
    [8, 9, 11, 13], [7, 9, 11, 12], [7, 9, 10, 12], [7, 8, 10, 11],
    [6, 8, 9, 11], [6, 7, 9, 10], [6, 7, 8, 9], [2, 2, 2, 2],
];

/// Next probability state after the least probable symbol.
pub const TRANS_IDX_LPS: [u8; 64] = [
    0, 0, 1, 2, 2, 4, 4, 5, 6, 7, 8, 9, 9, 11, 11, 12,
    13, 13, 15, 15, 16, 16, 18, 18, 19, 19, 21, 21, 22, 22, 23, 24,
    24, 25, 26, 26, 27, 27, 28, 29, 29, 30, 30, 30, 31, 32, 32, 33,
    33, 33, 34, 34, 35, 35, 35, 36, 36, 36, 37, 37, 37, 38, 38, 63,
];

/// Next probability state after the most probable symbol.
pub const TRANS_IDX_MPS: [u8; 64] = [
    1, 2, 3, 4, 5, 6, 7, 8, 9, 10, 11, 12, 13, 14, 15, 16,
    17, 18, 19, 20, 21, 22, 23, 24, 25, 26, 27, 28, 29, 30, 31, 32,
    33, 34, 35, 36, 37, 38, 39, 40, 41, 42, 43, 44, 45, 46, 47, 48,
    49, 50, 51, 52, 53, 54, 55, 56, 57, 58, 59, 60, 61, 62, 62, 63,
];

/// Width of the less probable symbol's share of the interval.
#[verifier::opaque]
pub open spec fn lps_width(state: int, quarter: int) -> int {
    RANGE_TAB_LPS[state][quarter] as int
}

/// Probability state after the less probable symbol.
#[verifier::opaque]
pub open spec fn state_after_lps(state: int) -> u8 {
    TRANS_IDX_LPS[state]
}

/// Probability state after the more probable symbol.
#[verifier::opaque]
pub open spec fn state_after_mps(state: int) -> u8 {
    TRANS_IDX_MPS[state]
}

/// The less probable symbol's share of the interval.
pub fn range_tab_lps(state: usize, quarter: usize) -> (width: u8)
    requires
        state < 64,
        quarter < 4,
    ensures
        width == lps_width(state as int, quarter as int),
{
    reveal(lps_width);
    RANGE_TAB_LPS[state][quarter]
}

/// The probability state after the less probable symbol.
pub fn trans_idx_lps(state: usize) -> (next: u8)
    requires
        state < 64,
    ensures
        next == state_after_lps(state as int),
{
    reveal(state_after_lps);
    TRANS_IDX_LPS[state]
}

/// The probability state after the more probable symbol.
pub fn trans_idx_mps(state: usize) -> (next: u8)
    requires
        state < 64,
    ensures
        next == state_after_mps(state as int),
{
    reveal(state_after_mps);
    TRANS_IDX_MPS[state]
}

/// The less probable symbol never gets nothing, nor the whole interval.
pub proof fn lemma_lps_width(state: int, quarter: int)
    requires
        0 <= state < 64,
        0 <= quarter < 4,
    ensures
        2 <= lps_width(state, quarter) <= 240,
{
    reveal(lps_width);
}

/// The transitions lead from states to states: the more probable symbol never
/// makes a model less confident, the less probable one never more.
pub proof fn lemma_transitions(state: int)
    requires
        0 <= state < 64,
    ensures
        state_after_lps(state) <= state,
        state <= state_after_mps(state) < 64,
{
    reveal(state_after_lps);
    reveal(state_after_mps);
}

proof fn lemma_next_state_narrower(state: int, quarter: int)
    requires
        0 <= state < 63,
        0 <= quarter < 4,
    ensures
        lps_width(state + 1, quarter) <= lps_width(state, quarter),
{
    reveal(lps_width);
}

/// The more confident a model, the smaller the less probable symbol's share.
pub proof fn law_confidence_narrows_the_share(state: int, other: int, quarter: int)
    requires
        0 <= state <= other < 64,
        0 <= quarter < 4,
    ensures
        lps_width(other, quarter) <= lps_width(state, quarter),
    decreases other - state,
{
    if state < other {
        law_confidence_narrows_the_share(state, other - 1, quarter);
        lemma_next_state_narrower(other - 1, quarter);
    }
}

/// The wider the interval, the wider the less probable symbol's share.
pub proof fn law_wider_intervals_give_wider_shares(state: int, quarter: int, other: int)
    requires
        0 <= state < 64,
        0 <= quarter <= other < 4,
    ensures
        lps_width(state, quarter) <= lps_width(state, other),
{
    reveal(lps_width);
}

/// A model that is not in the reserved last state never gets there, and one
/// that is stays there.
pub proof fn law_last_state_is_reserved(state: int)
    requires
        0 <= state < 64,
    ensures
        state_after_lps(state) == 63 <==> state == 63,
        state_after_mps(state) == 63 <==> state == 63,
{
    reveal(state_after_lps);
    reveal(state_after_mps);
}

/// What is expected makes a model one step surer, up to the last step but one; what
/// is not takes it back, never forward, and the further the surer it was.
pub proof fn law_models_learn_step_by_step(state: int)
    requires
        0 <= state < 63,
    ensures
        state < 62 ==> state_after_mps(state) == state + 1,
        state == 62 ==> state_after_mps(state) == 62,
        state_after_lps(state) == seq![
            0int, 0, 1, 2, 2, 4, 4, 5, 6, 7, 8, 9, 9, 11, 11, 12, 13, 13, 15, 15, 16, 16, 18, 18, 19,
            19, 21, 21, 22, 22, 23, 24, 24, 25, 26, 26, 27, 27, 28, 29, 29, 30, 30, 30, 31, 32, 32,
            33, 33, 33, 34, 34, 35, 35, 35, 36, 36, 36, 37, 37, 37, 38, 38,
        ][state],
{
    reveal(state_after_lps);
    reveal(state_after_mps);
}

} // verus!
