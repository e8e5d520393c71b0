//! How the transforms and the filter answer simple inputs.
//!
//! A transform is known by what it makes of a single coefficient, and the filter
//! by what it makes of a step between two flat sides.
use vstd::prelude::*;
use super::deblock::{
    chroma_filtered, luma_filtered, spec_boundary_strength, Across, EdgeBlock, EdgeKind, Limits,
};
use super::deblock_tables::{lemma_threshold_range, tc0_at};
use super::loopfilter::{
    beside, block_along, block_model, control_of, deblocked, edges_from, one_edge, one_macroblock,
    seam, strengths, FilterModel,
};
use super::math::{clip3, lemma_wrap, power, wrap32};
use super::neighbour::{
    law_scan_orders_round_trip, luma_4x4_x, luma_4x4_y, spec_luma_4x4_index,
};
use super::picture::Canvas;
use super::slice::Deblocking;
use super::state::{MbModel, PicModel};
use super::transform::{
    chroma_dc, chroma_hadamard, class_8x8, dequantised_4x4, dequantised_8x8, hadamard,
    hadamard_rows, inverse4, inverse8, luma_dc, norm_4x4, norm_8x8, rescaled, residual_4x4,
    residual_8x8, row_of_8, rows_4x4, rows_8x8,
};

verus! {

// ---- Transforms -------------------------------------------------------------

/// Twice the basis of the four-point transform: function `c` at place `x`.
pub open spec fn basis_4(c: int, x: int) -> int {
    if c == 0 {
        2
    } else if c == 1 {
        if x == 0 {
            2
        } else if x == 1 {
            1
        } else if x == 2 {
            -1
        } else {
            -2
        }
    } else if c == 2 {
        if x == 0 || x == 3 {
            2
        } else {
            -2
        }
    } else {
        if x == 0 {
            1
        } else if x == 1 {
            -2
        } else if x == 2 {
            2
        } else {
            -1
        }
    }
}

/// A number that fits in 32 bits stays as it is.
proof fn lemma_fits(v: int)
    requires
        -0x8000_0000 <= v < 0x8000_0000,
    ensures
        wrap32(v) == v,
{
    lemma_wrap(v, 0);
}

proof fn lemma_inverse4(c: int, m: int, x: int)
    requires
        0 <= c < 4,
        0 <= x < 4,
        -0x1000_0000 <= m <= 0x1000_0000,
    ensures
        inverse4(
            if c == 0 {
                2 * m
            } else {
                0
            },
            if c == 1 {
                2 * m
            } else {
                0
            },
            if c == 2 {
                2 * m
            } else {
                0
            },
            if c == 3 {
                2 * m
            } else {
                0
            },
            x,
        ) == (if basis_4(c, x) == 2 {
            2 * m
        } else if basis_4(c, x) == 1 {
            m
        } else if basis_4(c, x) == -1 {
            -m
        } else {
            -2 * m
        }),
{
    lemma_fits(0);
    lemma_fits(m);
    lemma_fits(-m);
    lemma_fits(2 * m);
    lemma_fits(-2 * m);
    assert((2 * m) / 2 == m);
}

/// A 4x4 block of one coefficient becomes the product of the basis function of its
/// column across and that of its row down.
pub proof fn law_one_coefficient_draws_its_pattern_4x4(b: Seq<i32>, at: int, k: int, p: int)
    requires
        b.len() == 16,
        0 <= at < 16,
        0 <= p < 16,
        -0x8_0000 <= k <= 0x8_0000,
        b[at] == 256 * k,
        forall|i: int| 0 <= i < 16 && i != at ==> (#[trigger] b[i]) == 0,
    ensures
        residual_4x4(b, p) == k * (basis_4(at % 4, p % 4) * basis_4(at / 4, p / 4)),
{
    reveal(residual_4x4);
    let (c, r) = (at % 4, at / 4);
    let (x, y) = (p % 4, p / 4);
    lemma_row_4(b, at, k, x, 0);
    lemma_row_4(b, at, k, x, 1);
    lemma_row_4(b, at, k, x, 2);
    lemma_row_4(b, at, k, x, 3);
    let m = 64 * (k * basis_4(c, x));
    assert(basis_4(c, x) == 2 || basis_4(c, x) == 1 || basis_4(c, x) == -1 || basis_4(c, x) == -2);
    assert(basis_4(r, y) == 2 || basis_4(r, y) == 1 || basis_4(r, y) == -1 || basis_4(r, y) == -2);
    lemma_inverse4(r, m, y);
    let v = k * basis_4(c, x);
    let f = basis_4(r, y);
    assert(k * (basis_4(c, x) * f) == v * f) by (nonlinear_arith)
        requires
            v == k * basis_4(c, x),
    ;
    let sum = 64 * (v * f);
    assert(v * f == (if f == 2 {
        2 * v
    } else if f == 1 {
        v
    } else if f == -1 {
        -v
    } else {
        -2 * v
    }));
    lemma_fits(sum + 32);
    assert((sum + 32) / 64 == v * f);
}

proof fn lemma_row_4(b: Seq<i32>, at: int, k: int, x: int, row: int)
    requires
        b.len() == 16,
        0 <= at < 16,
        0 <= x < 4,
        0 <= row < 4,
        -0x8_0000 <= k <= 0x8_0000,
        b[at] == 256 * k,
        forall|i: int| 0 <= i < 16 && i != at ==> (#[trigger] b[i]) == 0,
    ensures
        rows_4x4(b, x + 4 * row) == (if row == at / 4 {
            128 * (k * basis_4(at % 4, x))
        } else {
            0
        }),
{
    reveal(rows_4x4);
    let q = x + 4 * row;
    assert(q / 4 == row && q % 4 == x);
    let r = 4 * row;
    if row == at / 4 {
        lemma_inverse4(at % 4, 128 * k, x);
        let f = basis_4(at % 4, x);
        assert(f == 2 || f == 1 || f == -1 || f == -2);
        assert(k * f == (if f == 2 {
            2 * k
        } else if f == 1 {
            k
        } else if f == -1 {
            -k
        } else {
            -2 * k
        }));
    } else {
        assert(b[r] == 0 && b[r + 1] == 0 && b[r + 2] == 0 && b[r + 3] == 0);
        lemma_inverse4(0, 0, x);
    }
}

/// The signs of the four-point Hadamard transform.
pub open spec fn hadamard_sign(c: int, x: int) -> int {
    if c == 0 || x == 0 || (c == 1 && x == 1) || (c == 2 && x == 3) || (c == 3 && x == 2) {
        1
    } else {
        -1
    }
}

/// A DC level alone spreads to all blocks, with the signs of its row and column.
pub proof fn law_one_dc_level_spreads(b: Seq<i32>, at: int, p: int)
    requires
        b.len() == 16,
        0 <= at < 16,
        0 <= p < 16,
        -0x1000_0000 <= b[at] <= 0x1000_0000,
        forall|i: int| 0 <= i < 16 && i != at ==> (#[trigger] b[i]) == 0,
    ensures
        hadamard(b, p) == (if hadamard_sign(at % 4, p % 4) == hadamard_sign(at / 4, p / 4) {
            b[at] as int
        } else {
            -(b[at] as int)
        }),
{
    reveal(hadamard);
    reveal(hadamard_rows);
    let v = b[at] as int;
    lemma_fits(0);
    lemma_fits(v);
    lemma_fits(-v);
    let x = p % 4;
    assert forall|row: int| 0 <= row < 4 implies #[trigger] hadamard_rows(b, x + 4 * row) == (if row
        == at / 4 {
        hadamard_sign(at % 4, x) * v
    } else {
        0
    }) by {
        let q = x + 4 * row;
        assert(q / 4 == row && q % 4 == x);
        let r = 4 * row;
        if row != at / 4 {
            assert(b[r] == 0 && b[r + 1] == 0 && b[r + 2] == 0 && b[r + 3] == 0);
        }
    }
    assert(hadamard_rows(b, x + 4 * 0) == hadamard_rows(b, x));
    assert(hadamard_rows(b, x + 4 * 1) == hadamard_rows(b, x + 4));
    assert(hadamard_rows(b, x + 4 * 2) == hadamard_rows(b, x + 8));
    assert(hadamard_rows(b, x + 4 * 3) == hadamard_rows(b, x + 12));
}

/// The four chroma DC levels spread likewise: all, the left against the right, the
/// upper against the lower, and one diagonal against the other.
pub proof fn law_chroma_dc_levels_spread(b: Seq<i32>, p: int)
    requires
        b.len() == 4,
        0 <= p < 4,
        forall|i: int| 0 <= i < 4 ==> -0x1000_0000 <= (#[trigger] b[i]) <= 0x1000_0000,
    ensures
        chroma_hadamard(b, p) == b[0] + (if p % 2 == 0 {
            b[1] as int
        } else {
            -(b[1] as int)
        }) + (if p < 2 {
            b[2] as int
        } else {
            -(b[2] as int)
        }) + (if p == 0 || p == 3 {
            b[3] as int
        } else {
            -(b[3] as int)
        }),
{
    lemma_fits(b[0] + b[1] + b[2] + b[3]);
    lemma_fits(b[0] - b[1] + b[2] - b[3]);
    lemma_fits(b[0] + b[1] - b[2] - b[3]);
    lemma_fits(b[0] - b[1] - b[2] + b[3]);
}

// ---- Large transforms -------------------------------------------------------

/// Eight times the basis of the eight-point transform: function `c` at place `x`.
pub open spec fn basis_8(c: int, x: int) -> int {
    if c == 0 {
        8
    } else if c == 1 {
        seq![12int, 10, 6, 3, -3, -6, -10, -12][x]
    } else if c == 2 {
        seq![8int, 4, -4, -8, -8, -4, 4, 8][x]
    } else if c == 3 {
        seq![10int, -3, -12, -6, 6, 12, 3, -10][x]
    } else if c == 4 {
        seq![8int, -8, -8, 8, 8, -8, -8, 8][x]
    } else if c == 5 {
        seq![6int, -12, 3, 10, -10, -3, 12, -6][x]
    } else if c == 6 {
        seq![4int, -8, 8, -4, -4, 8, -8, 4][x]
    } else {
        seq![3int, -6, 10, -12, 12, -10, 6, -3][x]
    }
}

proof fn lemma_all_fit()
    ensures
        forall|v: int| -0x8000_0000 <= v < 0x8000_0000 ==> #[trigger] wrap32(v) == v,
{
    assert forall|v: int| -0x8000_0000 <= v < 0x8000_0000 implies #[trigger] wrap32(v) == v by {
        lemma_fits(v);
    }
}

proof fn lemma_even_8(d: Seq<int>, c: int, m: int, x: int)
    requires
        d.len() == 8,
        c == 0 || c == 2 || c == 4 || c == 6,
        0 <= x < 8,
        -0x100_0000 <= m <= 0x100_0000,
        d[c] == 8 * m,
        forall|i: int| 0 <= i < 8 && i != c ==> (#[trigger] d[i]) == 0,
    ensures
        inverse8(d, x) == basis_8(c, x) * m,
{
    lemma_all_fit();
    assert(d[1] == 0 && d[3] == 0 && d[5] == 0 && d[7] == 0);
    if c == 0 {
        assert(d[2] == 0 && d[4] == 0 && d[6] == 0);
    } else if c == 2 {
        assert(d[0] == 0 && d[4] == 0 && d[6] == 0);
        assert((8 * m) / 2 == 4 * m);
    } else if c == 4 {
        assert(d[0] == 0 && d[2] == 0 && d[6] == 0);
    } else {
        assert(d[0] == 0 && d[2] == 0 && d[4] == 0);
        assert((8 * m) / 2 == 4 * m);
    }
    assert(x == 0 || x == 1 || x == 2 || x == 3 || x == 4 || x == 5 || x == 6 || x == 7);
}

proof fn lemma_odd_8(d: Seq<int>, c: int, m: int, x: int)
    requires
        d.len() == 8,
        c == 1 || c == 3 || c == 5 || c == 7,
        0 <= x < 8,
        -0x100_0000 <= m <= 0x100_0000,
        d[c] == 8 * m,
        forall|i: int| 0 <= i < 8 && i != c ==> (#[trigger] d[i]) == 0,
    ensures
        inverse8(d, x) == basis_8(c, x) * m,
{
    lemma_all_fit();
    assert(d[0] == 0 && d[2] == 0 && d[4] == 0 && d[6] == 0);
    assert((8 * m) / 2 == 4 * m);
    assert((8 * m) / 4 == 2 * m && (-(8 * m)) / 4 == -(2 * m));
    assert((12 * m) / 4 == 3 * m && (-(12 * m)) / 4 == -(3 * m));
    let a1 = wrap32(-d[3] + d[5] - d[7] - d[7] / 2);
    let a3 = wrap32(d[1] + d[7] - d[3] - d[3] / 2);
    let a5 = wrap32(-d[1] + d[7] + d[5] + d[5] / 2);
    let a7 = wrap32(d[3] + d[5] + d[1] + d[1] / 2);
    let b1 = wrap32(a7 / 4 + a1);
    let b3 = wrap32(a3 + a5 / 4);
    let b5 = wrap32(a3 / 4 - a5);
    let b7 = wrap32(a7 - a1 / 4);
    if c == 1 {
        assert(d[3] == 0 && d[5] == 0 && d[7] == 0);
        assert(a1 == 0 && a3 == 8 * m && a5 == -(8 * m) && a7 == 12 * m);
        assert(b1 == 3 * m && b3 == 6 * m && b5 == 10 * m && b7 == 12 * m);
    } else if c == 3 {
        assert(d[1] == 0 && d[5] == 0 && d[7] == 0);
        assert(a1 == -(8 * m) && a3 == -(12 * m) && a5 == 0 && a7 == 8 * m);
        assert(b1 == -(6 * m) && b3 == -(12 * m) && b5 == -(3 * m) && b7 == 10 * m);
    } else if c == 5 {
        assert(d[1] == 0 && d[3] == 0 && d[7] == 0);
        assert(a1 == 8 * m && a3 == 0 && a5 == 12 * m && a7 == 8 * m);
        assert(b1 == 10 * m && b3 == 3 * m && b5 == -(12 * m) && b7 == 6 * m);
    } else {
        assert(d[1] == 0 && d[3] == 0 && d[5] == 0);
        assert(a1 == -(12 * m) && a3 == 8 * m && a5 == 8 * m && a7 == 0);
        assert(b1 == -(12 * m) && b3 == 10 * m && b5 == -(6 * m) && b7 == 3 * m);
    }
    assert(wrap32(d[0] + d[4]) == 0 && wrap32(d[0] - d[4]) == 0);
    assert(wrap32(d[2] / 2 - d[6]) == 0 && wrap32(d[6] / 2 + d[2]) == 0);
    assert(x == 0 || x == 1 || x == 2 || x == 3 || x == 4 || x == 5 || x == 6 || x == 7);
}

proof fn lemma_inverse8(d: Seq<int>, c: int, m: int, x: int)
    requires
        d.len() == 8,
        0 <= c < 8,
        0 <= x < 8,
        -0x100_0000 <= m <= 0x100_0000,
        d[c] == 8 * m,
        forall|i: int| 0 <= i < 8 && i != c ==> (#[trigger] d[i]) == 0,
    ensures
        inverse8(d, x) == basis_8(c, x) * m,
        -12 <= basis_8(c, x) <= 12,
{
    assert(x == 0 || x == 1 || x == 2 || x == 3 || x == 4 || x == 5 || x == 6 || x == 7);
    if c % 2 == 0 {
        lemma_even_8(d, c, m, x);
    } else {
        lemma_odd_8(d, c, m, x);
    }
}

/// An 8x8 block of one coefficient becomes the product of the basis function of its
/// column across and that of its row down.
pub proof fn law_one_coefficient_draws_its_pattern_8x8(b: Seq<i32>, at: int, k: int, p: int)
    requires
        b.len() == 64,
        0 <= at < 64,
        0 <= p < 64,
        -0x1000 <= k <= 0x1000,
        b[at] == 4096 * k,
        forall|i: int| 0 <= i < 64 && i != at ==> (#[trigger] b[i]) == 0,
    ensures
        residual_8x8(b, p) == k * (basis_8(at % 8, p % 8) * basis_8(at / 8, p / 8)),
{
    reveal(residual_8x8);
    let (c, r) = (at % 8, at / 8);
    let (x, y) = (p % 8, p / 8);
    let f = basis_8(c, x);
    let g = basis_8(r, y);
    let column = Seq::new(8, |i: int| rows_8x8(b, p % 8 + 8 * i));
    assert forall|i: int| 0 <= i < 8 implies #[trigger] column[i] == (if i == r {
        f * (512 * k)
    } else {
        0
    }) by {
        lemma_row_8(b, at, k, x, i);
    }
    lemma_inverse8(Seq::new(8, |i: int| if i == c { 8int } else { 0 }), c, 1, x);
    let m = 64 * (f * k);
    assert(f * (512 * k) == 8 * m) by (nonlinear_arith)
        requires
            m == 64 * (f * k),
    ;
    assert(-12 * 0x1000 <= f * k <= 12 * 0x1000) by (nonlinear_arith)
        requires
            -12 <= f <= 12,
            -0x1000 <= k <= 0x1000,
    ;
    lemma_inverse8(column, r, m, y);
    let v = k * (f * g);
    assert(g * m == 64 * v) by (nonlinear_arith)
        requires
            m == 64 * (f * k),
            v == k * (f * g),
    ;
    assert(-0x100_0000 <= v <= 0x100_0000) by (nonlinear_arith)
        requires
            v == k * (f * g),
            -12 <= f <= 12,
            -12 <= g <= 12,
            -0x1000 <= k <= 0x1000,
    {
        assert(-144 <= f * g <= 144) by (nonlinear_arith)
            requires
                -12 <= f <= 12,
                -12 <= g <= 12,
        ;
    }
    lemma_fits(64 * v + 32);
}

proof fn lemma_row_8(b: Seq<i32>, at: int, k: int, x: int, row: int)
    requires
        b.len() == 64,
        0 <= at < 64,
        0 <= x < 8,
        0 <= row < 8,
        -0x1000 <= k <= 0x1000,
        b[at] == 4096 * k,
        forall|i: int| 0 <= i < 64 && i != at ==> (#[trigger] b[i]) == 0,
    ensures
        rows_8x8(b, x + 8 * row) == (if row == at / 8 {
            basis_8(at % 8, x) * (512 * k)
        } else {
            0
        }),
{
    reveal(rows_8x8);
    let q = x + 8 * row;
    assert(q / 8 == row && q % 8 == x);
    let d = row_of_8(b, row);
    if row == at / 8 {
        assert forall|i: int| 0 <= i < 8 && i != at % 8 implies (#[trigger] d[i]) == 0 by {
            assert(b[8 * row + i] == 0);
        }
        assert(d[at % 8] == b[8 * row + at % 8]);
        lemma_inverse8(d, at % 8, 512 * k, x);
    } else {
        assert forall|i: int| 0 <= i < 8 implies (#[trigger] d[i]) == 0 by {
            assert(b[8 * row + i] == 0);
        }
        lemma_inverse8(d, 0, 0, x);
    }
}

/// What a level is worth at a place of an 8x8 block in the first octave of the
/// quantiser, with flat weights, in quarters.
pub open spec fn step_8x8(m: int, pos: int) -> int {
    let (i, j) = ((pos / 8) % 4, (pos % 8) % 4);
    if i == 0 && j == 0 {
        seq![20int, 22, 26, 28, 32, 36][m]
    } else if i % 2 == 1 && j % 2 == 1 {
        seq![18int, 19, 23, 25, 28, 32][m]
    } else if i == 2 && j == 2 {
        seq![32int, 35, 42, 45, 51, 58][m]
    } else if i + j == 2 {
        seq![25int, 28, 33, 35, 40, 46][m]
    } else if i == 0 || j == 0 {
        seq![19int, 21, 24, 26, 30, 34][m]
    } else {
        seq![24int, 26, 31, 33, 38, 43][m]
    }
}

/// A level rescaled with six bits of fraction, weights being flat.
proof fn lemma_quarters(v: int, qp: int)
    requires
        0 <= qp <= 51,
        -0x20_0000 <= v <= 0x20_0000,
    ensures
        rescaled(16 * v, qp, 6) == (v * power(qp / 6) + 2) / 4,
{
    lemma_all_fit();
    let octave = qp / 6;
    if octave == 0 {
        assert(rescaled(16 * v, qp, 6) == (16 * v + 32) / 64);
    } else if octave == 1 {
        assert(rescaled(16 * v, qp, 6) == (16 * v + 16) / 32);
    } else if octave == 2 {
        assert(rescaled(16 * v, qp, 6) == (16 * v + 8) / 16);
    } else if octave == 3 {
        assert(rescaled(16 * v, qp, 6) == (16 * v + 4) / 8);
    } else if octave == 4 {
        assert(rescaled(16 * v, qp, 6) == (16 * v + 2) / 4);
    } else if octave == 5 {
        assert(rescaled(16 * v, qp, 6) == (16 * v + 1) / 2);
    } else if octave == 6 {
        assert(rescaled(16 * v, qp, 6) == wrap32((16 * v) * 1));
    } else if octave == 7 {
        assert(rescaled(16 * v, qp, 6) == wrap32((16 * v) * 2));
    } else {
        assert(rescaled(16 * v, qp, 6) == wrap32((16 * v) * 4));
    }
}

/// With flat weights a level of an 8x8 block is worth its step, which doubles with
/// every octave of the quantiser, to the nearest whole.
pub proof fn law_flat_levels_are_worth_their_step_8x8(
    level: int,
    weights: Seq<u8>,
    qp: int,
    pos: int,
)
    requires
        0 <= qp <= 51,
        0 <= pos < 64,
        weights[pos] == 16,
        -0x8000 <= level <= 0x8000,
    ensures
        dequantised_8x8(level, weights, qp, pos) == (level * step_8x8(qp % 6, pos) * power(qp / 6)
            + 2) / 4,
{
    reveal(norm_8x8);
    let n = step_8x8(qp % 6, pos);
    let v = level * n;
    let (i, j) = (pos / 8, pos % 8);
    assert(18 <= n <= 58);
    assert(norm_8x8(qp % 6, class_8x8(pos)) == n);
    assert(-0x8000 * 58 <= v <= 0x8000 * 58) by (nonlinear_arith)
        requires
            v == level * n,
            18 <= n <= 58,
            -0x8000 <= level <= 0x8000,
    ;
    assert(level * (16 * n) == 16 * v) by (nonlinear_arith)
        requires
            v == level * n,
    ;
    lemma_fits(16 * v);
    lemma_quarters(v, qp);
}

/// With flat weights the DC levels of a macroblock predicted as a whole are worth a
/// quarter of the step of a corner, and chroma DC levels half of it, cut to a whole.
pub proof fn law_flat_dc_levels_are_worth_their_step(
    b: Seq<i32>,
    weights: Seq<u8>,
    qp: int,
    p: int,
)
    requires
        0 <= qp <= 51,
        weights[0] == 16,
    ensures
        -0x8000 <= hadamard(b, p) <= 0x8000 ==> luma_dc(b, weights, qp, p) == (hadamard(b, p)
            * step_4x4(qp % 6, 0) * power(qp / 6) + 2) / 4,
        -0x4000 <= chroma_hadamard(b, p) <= 0x4000 ==> chroma_dc(b, weights, qp, p) == (
        chroma_hadamard(b, p) * step_4x4(qp % 6, 0) * power(qp / 6)) / 2,
{
    reveal(norm_4x4);
    let n = step_4x4(qp % 6, 0);
    assert(10 <= n <= 18);
    assert(norm_4x4(qp % 6, 0) == n);
    if -0x8000 <= hadamard(b, p) <= 0x8000 {
        let h = hadamard(b, p);
        let v = h * n;
        assert(-0x8000 * 18 <= v <= 0x8000 * 18) by (nonlinear_arith)
            requires
                v == h * n,
                10 <= n <= 18,
                -0x8000 <= h <= 0x8000,
        ;
        assert(h * (16 * n) == 16 * v) by (nonlinear_arith)
            requires
                v == h * n,
        ;
        lemma_fits(16 * v);
        lemma_quarters(v, qp);
    }
    if -0x4000 <= chroma_hadamard(b, p) <= 0x4000 {
        let h = chroma_hadamard(b, p);
        let v = h * n;
        let q = power(qp / 6);
        assert(-0x4_8000 <= v <= 0x4_8000) by (nonlinear_arith)
            requires
                v == h * n,
                10 <= n <= 18,
                -0x4000 <= h <= 0x4000,
        ;
        assert(h * (16 * n) == 16 * v) by (nonlinear_arith)
            requires
                v == h * n,
        ;
        lemma_fits(16 * v);
        assert(1 <= q <= 256);
        let w = v * q;
        assert((16 * v) * q == 16 * w) by (nonlinear_arith)
            requires
                w == v * q,
        ;
        assert(-0x480_0000 <= w <= 0x480_0000) by (nonlinear_arith)
            requires
                w == v * q,
                1 <= q <= 256,
                -0x4_8000 <= v <= 0x4_8000,
        ;
        lemma_fits(16 * w);
        assert((16 * w) / 32 == w / 2);
    }
}

// ---- Steps ------------------------------------------------------------------

/// The step of the 4x4 transform at quantiser 0 to 5: where row and column are
/// both even, both odd, or one of each.
pub open spec fn step_4x4(m: int, pos: int) -> int {
    let odd_row = (pos / 4) % 2 == 1;
    let odd_column = pos % 2 == 1;
    if !odd_row && !odd_column {
        seq![10int, 11, 13, 14, 16, 18][m]
    } else if odd_row && odd_column {
        seq![16int, 18, 20, 23, 25, 29][m]
    } else {
        seq![13int, 14, 16, 18, 20, 23][m]
    }
}

/// With flat weights a level is worth its step, doubled every six quantisers.
pub proof fn law_flat_levels_are_worth_their_step(
    level: int,
    weights: Seq<u8>,
    qp: int,
    pos: int,
)
    requires
        0 <= qp <= 51,
        0 <= pos < 16,
        weights[pos] == 16,
        -0x8000 <= level <= 0x8000,
    ensures
        dequantised_4x4(level, weights, qp, pos) == level * step_4x4(qp % 6, pos) * power(qp / 6),
{
    reveal(norm_4x4);
    let n = step_4x4(qp % 6, pos);
    let v = level * n;
    assert(10 <= n <= 29);
    assert(-0x8000 * 29 <= v <= 0x8000 * 29) by (nonlinear_arith)
        requires
            v == level * n,
            10 <= n <= 29,
            -0x8000 <= level <= 0x8000,
    ;
    assert(level * (16 * n) == 16 * v) by (nonlinear_arith)
        requires
            v == level * n,
    ;
    lemma_fits(16 * v);
    lemma_flat(v, qp);
}

proof fn lemma_flat(v: int, qp: int)
    requires
        0 <= qp <= 51,
        -0x8000 * 29 <= v <= 0x8000 * 29,
    ensures
        rescaled(16 * v, qp, 4) == v * power(qp / 6),
{
    let octave = qp / 6;
    if octave == 0 {
        lemma_fits(16 * v + 8);
        assert(rescaled(16 * v, qp, 4) == (16 * v + 8) / 16);
    } else if octave == 1 {
        lemma_fits(16 * v + 4);
        assert(rescaled(16 * v, qp, 4) == (16 * v + 4) / 8);
    } else if octave == 2 {
        lemma_fits(16 * v + 2);
        assert(rescaled(16 * v, qp, 4) == (16 * v + 2) / 4);
    } else if octave == 3 {
        lemma_fits(16 * v + 1);
        assert(rescaled(16 * v, qp, 4) == (16 * v + 1) / 2);
    } else if octave == 4 {
        lemma_fits(16 * v);
        assert(rescaled(16 * v, qp, 4) == wrap32((16 * v) * 1));
    } else if octave == 5 {
        lemma_fits(32 * v);
        assert(rescaled(16 * v, qp, 4) == wrap32((16 * v) * 2));
    } else if octave == 6 {
        lemma_fits(64 * v);
        assert(rescaled(16 * v, qp, 4) == wrap32((16 * v) * 4));
    } else if octave == 7 {
        lemma_fits(128 * v);
        assert(rescaled(16 * v, qp, 4) == wrap32((16 * v) * 8));
    } else {
        lemma_fits(256 * v);
        assert(rescaled(16 * v, qp, 4) == wrap32((16 * v) * 16));
    }
}

// ---- The filter -------------------------------------------------------------

/// Two flat sides.
pub open spec fn two_sides(p: int, q: int) -> Across {
    Across { p0: p, p1: p, p2: p, p3: p, q0: q, q1: q, q2: q, q3: q }
}

/// The strong filter turns a small step between two flat luma sides into a ramp of
/// three samples on each: an eighth, a quarter and three eighths of the way.
pub proof fn law_strong_filter_ramps_a_step(p: int, q: int, t: Limits)
    requires
        0 <= p <= 255,
        0 <= q <= 255,
        t.beta > 0,
        t.alpha > 0,
        -t.alpha < p - q < t.alpha,
        -(t.alpha / 4 + 2) < p - q < t.alpha / 4 + 2,
    ensures
        ({
            let r = luma_filtered(two_sides(p, q), 4, t);
            &&& r.p3 == p && r.q3 == q
            &&& r.p2 == (7 * p + q + 4) / 8 && r.q2 == (7 * q + p + 4) / 8
            &&& r.p1 == (3 * p + q + 2) / 4 && r.q1 == (3 * q + p + 2) / 4
            &&& r.p0 == (5 * p + 3 * q + 4) / 8 && r.q0 == (5 * q + 3 * p + 4) / 8
        }),
{
}

/// A larger step that is still filtered moves the first sample of each side by a
/// quarter.
pub proof fn law_strong_filter_softens_a_large_step(p: int, q: int, t: Limits)
    requires
        0 <= p <= 255,
        0 <= q <= 255,
        t.beta > 0,
        -t.alpha < p - q < t.alpha,
        p - q <= -(t.alpha / 4 + 2) || p - q >= t.alpha / 4 + 2,
    ensures
        ({
            let r = luma_filtered(two_sides(p, q), 4, t);
            &&& r.p3 == p && r.q3 == q && r.p2 == p && r.q2 == q && r.p1 == p && r.q1 == q
            &&& r.p0 == (3 * p + q + 2) / 4 && r.q0 == (3 * q + p + 2) / 4
        }),
{
}

/// The normal filter pulls the first samples of two flat sides three eighths
/// towards each other, and the second ones half of half way, each no further than
/// the table allows: two more than that for the first, both sides being flat.
pub proof fn law_normal_filter_pulls_a_step(p: int, q: int, bs: int, t: Limits)
    requires
        0 <= p <= 255,
        0 <= q <= 255,
        1 <= bs <= 3,
        0 <= t.index_a < 52,
        t.beta > 0,
        -t.alpha < p - q < t.alpha,
    ensures
        ({
            let r = luma_filtered(two_sides(p, q), bs, t);
            let tc = tc0_at(t.index_a, bs);
            let first = clip3(-tc - 2, tc + 2, (3 * (q - p) + 4) / 8);
            &&& r.p3 == p && r.q3 == q && r.p2 == p && r.q2 == q
            &&& r.p0 == p + first && r.q0 == q - first
            &&& r.p1 == p + clip3(-tc, tc, ((p + q + 1) / 2 - p) / 2)
            &&& r.q1 == q + clip3(-tc, tc, ((p + q + 1) / 2 - q) / 2)
        }),
{
    lemma_threshold_range(t.index_a, bs);
}

/// Of chroma only the first sample of each side moves: by a quarter at strength 4,
/// and else three eighths, no further than one more than the table allows.
pub proof fn law_chroma_filter_pulls_a_step(p: int, q: int, bs: int, t: Limits)
    requires
        0 <= p <= 255,
        0 <= q <= 255,
        1 <= bs <= 4,
        0 <= t.index_a < 52,
        t.beta > 0,
        -t.alpha < p - q < t.alpha,
    ensures
        ({
            let r = chroma_filtered(two_sides(p, q), bs, t);
            let tc = tc0_at(t.index_a, bs) + 1;
            let first = clip3(-tc, tc, (3 * (q - p) + 4) / 8);
            &&& r.p1 == p && r.q1 == q && r.p2 == p && r.q2 == q
            &&& bs == 4 ==> r.p0 == (3 * p + q + 2) / 4 && r.q0 == (3 * q + p + 2) / 4
            &&& bs < 4 ==> r.p0 == p + first && r.q0 == q - first
        }),
{
    if bs < 4 {
        lemma_threshold_range(t.index_a, bs);
    }
}

/// How strongly an edge is filtered: most beside intra blocks, and there most
/// between macroblocks; then beside coefficients; then between different
/// references or vectors a whole sample apart; else not at all.
pub proof fn law_strength_goes_by_what_is_coded(p: EdgeBlock, q: EdgeBlock, between: bool)
    ensures
        ({
            let bs = spec_boundary_strength(p, q, between);
            let intra = p.intra || q.intra;
            let coded = p.has_coeffs || q.has_coeffs;
            let apart = p.ref_idx != q.ref_idx || p.mv.0 - q.mv.0 >= 4 || q.mv.0 - p.mv.0 >= 4
                || p.mv.1 - q.mv.1 >= 4 || q.mv.1 - p.mv.1 >= 4;
            &&& bs == 4 <==> intra && between
            &&& bs == 3 <==> intra && !between
            &&& bs == 2 <==> !intra && coded
            &&& bs == 1 <==> !intra && !coded && apart
            &&& bs == 0 <==> !intra && !coded && !apart
        }),
{
}

/// A 4x4 block as an edge sees it.
pub open spec fn seen_from_an_edge(info: MbModel, blk: int) -> EdgeBlock {
    EdgeBlock {
        intra: !(info.mb_type is Inter || info.mb_type is PSkip),
        has_coeffs: info.cbf_luma[blk],
        mv: (info.mv[blk].0 as i32, info.mv[blk].1 as i32),
        ref_idx: info.ref_idx[blk / 4],
    }
}

/// The strength of each quarter of an edge goes by the two blocks that touch there:
/// the block behind the edge, and the one before it, which at the outermost edge is
/// the last of the neighbouring macroblock.
pub proof fn law_edges_part_touching_blocks(
    pic: PicModel,
    addr: int,
    other: int,
    kind: EdgeKind,
    e: int,
    g: int,
    near: int,
    far: int,
)
    requires
        0 <= e < 4,
        0 <= g < 4,
        0 <= near < 16,
        0 <= far < 16,
        kind is Vertical ==> luma_4x4_y(near) == 4 * g && luma_4x4_y(far) == 4 * g && luma_4x4_x(
            far,
        ) == 4 * e && luma_4x4_x(near) == (if e == 0 {
            12
        } else {
            4 * e - 4
        }),
        kind is Horizontal ==> luma_4x4_x(near) == 4 * g && luma_4x4_x(far) == 4 * g && luma_4x4_y(
            far,
        ) == 4 * e && luma_4x4_y(near) == (if e == 0 {
            12
        } else {
            4 * e - 4
        }),
    ensures
        strengths(pic, addr, other, kind, e)[g] == spec_boundary_strength(
            seen_from_an_edge(pic.mbs[other], near),
            seen_from_an_edge(pic.mbs[addr], far),
            e == 0,
        ),
{
    lemma_block_there(near, luma_4x4_x(near), luma_4x4_y(near));
    lemma_block_there(far, luma_4x4_x(far), luma_4x4_y(far));
    let back = if e == 0 {
        12
    } else {
        (e - 1) * 4
    };
    assert(block_along(kind, back, g) == near);
    assert(block_along(kind, e * 4, g) == far);
    assert(block_model(pic.mbs[other], near) == seen_from_an_edge(pic.mbs[other], near));
    assert(block_model(pic.mbs[addr], far) == seen_from_an_edge(pic.mbs[addr], far));
    lemma_strength(pic, addr, other, kind, e, g, near, far);
}

proof fn lemma_block_there(b: int, x: int, y: int)
    requires
        0 <= b < 16,
        x == luma_4x4_x(b),
        y == luma_4x4_y(b),
    ensures
        spec_luma_4x4_index(x, y) == b,
{
    law_scan_orders_round_trip(b, 0, 0);
}

proof fn lemma_strength(
    pic: PicModel,
    addr: int,
    other: int,
    kind: EdgeKind,
    e: int,
    g: int,
    near: int,
    far: int,
)
    requires
        0 <= g < 4,
        block_along(kind, if e == 0 {
            12
        } else {
            (e - 1) * 4
        }, g) == near,
        block_along(kind, e * 4, g) == far,
    ensures
        strengths(pic, addr, other, kind, e)[g] == spec_boundary_strength(
            block_model(pic.mbs[other], near),
            block_model(pic.mbs[addr], far),
            e == 0,
        ),
{
}

/// Edges lie between the columns or the rows of 4x4 blocks, in chroma half as far
/// in; each strength holds for a quarter of the edge.
pub proof fn law_edges_lie_between_blocks(
    pic: PicModel,
    addr: int,
    e: int,
    stride: int,
    i: int,
    bs: Seq<u8>,
)
    requires
        0 <= e < 4,
        0 <= i < 16,
        bs.len() == 4,
    ensures
        ({
            let (left, top) = (16 * (addr % pic.grid.width), 16 * (addr / pic.grid.width));
            let v = seam(pic, addr, EdgeKind::Vertical, e * 4, 16, bs);
            let h = seam(pic, addr, EdgeKind::Horizontal, e * 4, 16, bs);
            &&& v.length == 16 && h.length == 16
            &&& v.place(stride, i) == (top + i) * stride + left + 4 * e && v.step(stride) == 1
            &&& h.place(stride, i) == (top + 4 * e) * stride + left + i && h.step(stride) == stride
            &&& v.strength(i) == bs[i / 4] && h.strength(i) == bs[i / 4]
        }),
        i < 8 ==> ({
            let (left, top) = (8 * (addr % pic.grid.width), 8 * (addr / pic.grid.width));
            let v = seam(pic, addr, EdgeKind::Vertical, e * 2, 8, bs);
            let h = seam(pic, addr, EdgeKind::Horizontal, e * 2, 8, bs);
            &&& v.length == 8 && h.length == 8
            &&& v.place(stride, i) == (top + i) * stride + left + 2 * e && v.step(stride) == 1
            &&& h.place(stride, i) == (top + 2 * e) * stride + left + i && h.step(stride) == stride
            &&& v.strength(i) == bs[i / 2] && h.strength(i) == bs[i / 2]
        }),
{
    let n = bs.len() as int;
    assert(i * n == 4 * i) by (nonlinear_arith)
        requires
            n == 4,
    ;
    let v = seam(pic, addr, EdgeKind::Vertical, e * 4, 16, bs);
    let h = seam(pic, addr, EdgeKind::Horizontal, e * 4, 16, bs);
    assert((i * n) / v.length == (4 * i) / 16 && (i * n) / h.length == (4 * i) / 16);
    assert((4 * i) / 16 == i / 4);
    let w = seam(pic, addr, EdgeKind::Vertical, e * 2, 8, bs);
    let l = seam(pic, addr, EdgeKind::Horizontal, e * 2, 8, bs);
    assert((i * n) / w.length == (4 * i) / 8 && (i * n) / l.length == (4 * i) / 8);
    assert((4 * i) / 8 == i / 2);
}

/// Macroblocks are filtered in the order of their numbers, each with its edges from
/// left to right first and from top to bottom then, so that a later edge sees what
/// the earlier ones left.
pub proof fn law_edges_are_filtered_in_order(
    c: Canvas,
    pic: PicModel,
    params: FilterModel,
    control: Deblocking,
    addr: int,
    kind: EdgeKind,
)
    requires
        0 <= addr < pic.mbs.len(),
        control_of(pic, params, addr) == Some(control),
        control.disable_idc != 1,
    ensures
        ({
            let left = |x: Canvas, k: EdgeKind, e: int|
                one_edge(x, pic, params, control, addr, k, e);
            let across = left(
                left(
                    left(left(c, EdgeKind::Vertical, 0), EdgeKind::Vertical, 1),
                    EdgeKind::Vertical,
                    2,
                ),
                EdgeKind::Vertical,
                3,
            );
            let down = left(
                left(
                    left(left(across, EdgeKind::Horizontal, 0), EdgeKind::Horizontal, 1),
                    EdgeKind::Horizontal,
                    2,
                ),
                EdgeKind::Horizontal,
                3,
            );
            &&& one_macroblock(c, pic, params, addr) == down
            &&& deblocked(c, pic, params, addr) == deblocked(down, pic, params, addr + 1)
        }),
{
    reveal_with_fuel(edges_from, 5);
}

/// The outermost edges face the macroblock to the left and the one above, where the
/// picture has them and a slice brought them; the others lie within a macroblock.
pub proof fn law_outermost_edges_face_the_neighbours(
    pic: PicModel,
    control: Deblocking,
    addr: int,
    kind: EdgeKind,
    e: int,
)
    requires
        pic.wf(),
        0 <= addr < pic.mbs.len(),
        0 <= e < 4,
        control.disable_idc == 0,
    ensures
        e > 0 ==> beside(pic, control, addr, kind, e) == Some(addr),
        e == 0 && kind is Vertical ==> beside(pic, control, addr, kind, e) == (if addr
            % pic.grid.width == 0 || pic.grid.slice[addr - 1] is None {
            None
        } else {
            Some(addr - 1)
        }),
        e == 0 && kind is Horizontal ==> beside(pic, control, addr, kind, e) == (if addr
            < pic.grid.width || pic.grid.slice[addr - pic.grid.width] is None {
            None
        } else {
            Some(addr - pic.grid.width)
        }),
{
    let w = pic.grid.width;
    assert(addr / w > 0 <==> addr >= w) by (nonlinear_arith)
        requires
            w > 0,
            0 <= addr,
    ;
    assert(addr % w > 0 ==> addr >= 1) by (nonlinear_arith)
        requires
            w > 0,
            0 <= addr,
    ;
}

} // verus!
