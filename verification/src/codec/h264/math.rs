//! Small integer helpers shared by the decoding stages, with the facts about
//! shifts that tie them to ordinary division.
use vstd::prelude::*;

verus! {

/// `v` limited to `lo..=hi`.
pub open spec fn clip3(lo: int, hi: int, v: int) -> int {
    if v < lo {
        lo
    } else if v > hi {
        hi
    } else {
        v
    }
}

/// `v` limited to the range of an eight-bit sample.
pub open spec fn clip_sample(v: int) -> int {
    clip3(0, 255, v)
}

/// The distance of `v` from zero.
pub open spec fn magnitude(v: int) -> int {
    if v < 0 {
        -v
    } else {
        v
    }
}

/// Limit `v` to `lo..=hi`.
pub fn clamp_i32(lo: i32, hi: i32, v: i32) -> (r: i32)
    requires
        lo <= hi,
    ensures
        r == clip3(lo as int, hi as int, v as int),
{
    if v < lo {
        lo
    } else if v > hi {
        hi
    } else {
        v
    }
}

/// Limit `v` to the range of an eight-bit sample.
pub fn clip1(v: i32) -> (r: u8)
    ensures
        r as int == clip_sample(v as int),
{
    if v < 0 {
        0
    } else if v > 255 {
        255
    } else {
        v as u8
    }
}

/// The distance of `v` from zero.
pub fn abs_i32(v: i32) -> (r: i32)
    requires
        v > i32::MIN,
    ensures
        r == magnitude(v as int),
{
    if v < 0 {
        -v
    } else {
        v
    }
}

/// The `i32` that `v` wraps to.
#[verifier::opaque]
pub open spec fn wrap32(v: int) -> int {
    (v + 0x8000_0000) % 0x1_0000_0000 - 0x8000_0000
}

/// `a + b` in wrapping 32-bit arithmetic.
pub fn wadd(a: i32, b: i32) -> (r: i32)
    ensures
        r == wrap32(a + b),
{
    reveal(wrap32);
    a.wrapping_add(b)
}

/// `a - b` in wrapping 32-bit arithmetic.
pub fn wsub(a: i32, b: i32) -> (r: i32)
    ensures
        r == wrap32(a - b),
{
    reveal(wrap32);
    a.wrapping_sub(b)
}

/// `a * b` in wrapping 32-bit arithmetic.
pub fn wmul(a: i32, b: i32) -> (r: i32)
    ensures
        r == wrap32(a * b),
{
    reveal(wrap32);
    a.wrapping_mul(b)
}

/// A `u32` taken as an `i32` wraps.
pub proof fn lemma_u32_as_i32(v: u32)
    ensures
        (v as i32) as int == wrap32(v as int),
{
    reveal(wrap32);
    assert((v as i32) as int == if v < 0x8000_0000u32 {
        v as int
    } else {
        v - 0x1_0000_0000
    }) by (bit_vector);
}

/// Row and column of a place in a grid `width` wide, found back from its index
/// in raster order.
pub proof fn lemma_raster(width: int, x: int, y: int)
    requires
        0 <= x < width,
        0 <= y,
    ensures
        0 <= y * width + x < (y + 1) * width,
        (y * width + x) % width == x,
        (y * width + x) / width == y,
        (y + 1) * width == y * width + width,
{
    assert(0 <= y * width && (y + 1) * width == y * width + width) by (nonlinear_arith)
        requires
            0 <= y,
            0 < width,
    ;
    vstd::arithmetic::div_mod::lemma_fundamental_div_mod_converse(y * width + x, width, y, x);
}

/// Rows come one after another: those of a lower grid end earlier.
pub proof fn lemma_rows(width: int, y: int, height: int)
    requires
        0 <= width,
        0 <= y <= height,
    ensures
        0 <= y * width <= height * width,
        y < height ==> (y + 1) * width <= height * width,
{
    assert(0 <= y * width <= height * width) by (nonlinear_arith)
        requires
            0 <= width,
            0 <= y <= height,
    ;
    if y < height {
        assert((y + 1) * width <= height * width) by (nonlinear_arith)
            requires
                0 <= width,
                y + 1 <= height,
        ;
    }
}

/// Every index of a grid has a row and a column inside it.
pub proof fn lemma_raster_inverse(width: int, height: int, k: int)
    requires
        0 <= k < width * height,
        0 < width,
    ensures
        0 <= k % width < width,
        0 <= k / width < height,
        k == (k / width) * width + k % width,
{
    vstd::arithmetic::div_mod::lemma_fundamental_div_mod(k, width);
    assert(0 <= k / width < height && k == (k / width) * width + k % width) by (nonlinear_arith)
        requires
            k == width * (k / width) + k % width,
            0 <= k % width < width,
            0 <= k < width * height,
            0 < width,
    ;
}

/// Whether place `k` of a plane lies in the `w` by `h` window at `(x0, y0)`.
pub open spec fn in_window(k: int, stride: int, x0: int, y0: int, w: int, h: int) -> bool {
    x0 <= k % stride < x0 + w && y0 <= k / stride < y0 + h
}

/// Which place of a `w` wide block at `(x0, y0)` place `k` of a plane is.
pub open spec fn window_index(k: int, stride: int, x0: int, y0: int, w: int) -> int {
    (k / stride - y0) * w + (k % stride - x0)
}

/// Two places of a plane with the same row and column are the same.
pub proof fn lemma_same_place(stride: int, k: int, x: int, y: int)
    requires
        0 < stride,
        k % stride == x,
        k / stride == y,
    ensures
        k == y * stride + x,
{
    vstd::arithmetic::div_mod::lemma_fundamental_div_mod(k, stride);
    assert(stride * (k / stride) == y * stride) by (nonlinear_arith)
        requires
            k / stride == y,
    ;
}

/// An arithmetic right shift by up to six bits.
pub fn shr(x: i32, n: u32) -> (r: i32)
    requires
        n <= 6,
    ensures
        r as int == x as int / power(n as int),
{
    proof {
        lemma_shr_i32(x);
    }
    if n == 0 {
        x
    } else if n == 1 {
        x >> 1
    } else if n == 2 {
        x >> 2
    } else if n == 3 {
        x >> 3
    } else if n == 4 {
        x >> 4
    } else if n == 5 {
        x >> 5
    } else {
        x >> 6
    }
}

/// Two to the power of a small number.
pub open spec fn power(n: int) -> int {
    if n <= 0 {
        1
    } else if n == 1 {
        2
    } else if n == 2 {
        4
    } else if n == 3 {
        8
    } else if n == 4 {
        16
    } else if n == 5 {
        32
    } else if n == 6 {
        64
    } else if n == 7 {
        128
    } else {
        256
    }
}

/// Two to the power of a small number.
pub fn small_power(n: u32) -> (r: i32)
    requires
        n <= 8,
    ensures
        r == power(n as int),
{
    if n == 0 {
        1
    } else if n == 1 {
        2
    } else if n == 2 {
        4
    } else if n == 3 {
        8
    } else if n == 4 {
        16
    } else if n == 5 {
        32
    } else if n == 6 {
        64
    } else if n == 7 {
        128
    } else {
        256
    }
}

/// Numbers a multiple of the range apart wrap to the same.
proof fn lemma_wrap_shift(a: int, k: int)
    ensures
        wrap32(a + 0x1_0000_0000 * k) == wrap32(a),
{
    reveal(wrap32);
    vstd::arithmetic::div_mod::lemma_mod_multiples_vanish(k, a + 0x8000_0000, 0x1_0000_0000);
}

/// Wrapping once or at every step of a sum comes to the same.
pub proof fn lemma_wrap(a: int, b: int)
    ensures
        wrap32(wrap32(a) + b) == wrap32(a + b),
        wrap32(wrap32(a) - b) == wrap32(a - b),
        wrap32(a - wrap32(b)) == wrap32(a - b),
        wrap32(a + wrap32(b)) == wrap32(a + b),
        -0x8000_0000 <= wrap32(a) < 0x8000_0000,
        -0x8000_0000 <= a < 0x8000_0000 ==> wrap32(a) == a,
{
    let p = (a + 0x8000_0000) / 0x1_0000_0000;
    let q = (b + 0x8000_0000) / 0x1_0000_0000;
    assert(wrap32(a) == a - 0x1_0000_0000 * p) by {
        reveal(wrap32);
    }
    assert(wrap32(b) == b - 0x1_0000_0000 * q) by {
        reveal(wrap32);
    }
    lemma_wrap_shift(a + b, -p);
    lemma_wrap_shift(a - b, -p);
    lemma_wrap_shift(a - b, q);
    lemma_wrap_shift(a + b, -q);
}

/// A right shift of an `i32` and the bits it drops make up the number.
proof fn lemma_shr_split(x: i32)
    by (bit_vector)
    ensures
        x == (x >> 1i32) * 2 + (x & 1i32),
        0 <= (x & 1i32) <= 1,
        x == (x >> 2i32) * 4 + (x & 3i32),
        0 <= (x & 3i32) <= 3,
        x == (x >> 3i32) * 8 + (x & 7i32),
        0 <= (x & 7i32) <= 7,
        x == (x >> 4i32) * 16 + (x & 15i32),
        0 <= (x & 15i32) <= 15,
        x == (x >> 5i32) * 32 + (x & 31i32),
        0 <= (x & 31i32) <= 31,
        x == (x >> 6i32) * 64 + (x & 63i32),
        0 <= (x & 63i32) <= 63,
        x == (x >> 10i32) * 1024 + (x & 1023i32),
        0 <= (x & 1023i32) <= 1023,
{
}

/// An arithmetic right shift of an `i32` is a division that rounds down, and
/// the low bits are its remainder.
pub proof fn lemma_shr_i32(x: i32)
    ensures
        (x >> 1i32) as int == x as int / 2,
        (x >> 2i32) as int == x as int / 4,
        (x >> 3i32) as int == x as int / 8,
        (x >> 4i32) as int == x as int / 16,
        (x >> 5i32) as int == x as int / 32,
        (x >> 6i32) as int == x as int / 64,
        (x >> 10i32) as int == x as int / 1024,
        (x & 1i32) as int == x as int % 2,
        (x & 3i32) as int == x as int % 4,
        (x & 7i32) as int == x as int % 8,
{
    lemma_shr_split(x);
}

/// Shifting a bit into the low end of a `u32` drops the top bit.
pub proof fn lemma_shift_in(v: u32, bit: u32)
    by (bit_vector)
    requires
        bit <= 1,
    ensures
        ((v << 1u32) | bit) as int == (2 * v + bit) % 0x1_0000_0000int,
{
}

} // verus!
