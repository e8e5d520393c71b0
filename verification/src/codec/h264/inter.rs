//! Inter prediction: motion compensation and motion vector prediction.
//!
//! Luma is predicted from quarter-sample positions: half-sample positions come
//! from a six-tap filter, quarter positions from averaging two of the others.
//! Chroma is interpolated bilinearly between eighth-sample positions. The
//! filters run over a patch of the reference that is gathered once per block;
//! what each sample comes out as is said sample by sample.
use vstd::prelude::*;
use super::math::{
    clip1, clip3, clip_sample, lemma_raster, lemma_raster_inverse, lemma_rows, lemma_shr_i32,
};

verus! {

/// A reference picture plane.
#[derive(Debug, Clone, Copy)]
pub struct Plane<'a> {
    pub data: &'a [u8],
    pub width: usize,
    pub height: usize,
    pub stride: usize,
}

/// A plane as a mathematical value: rows of `stride` samples of which `width`
/// belong to the picture.
#[verifier::ext_equal]
pub struct Samples {
    pub data: Seq<u8>,
    pub width: int,
    pub height: int,
    pub stride: int,
}

impl Samples {
    /// There is a sample at every place of the picture.
    pub open spec fn wf(self) -> bool {
        &&& 0 < self.width <= self.stride
        &&& self.width <= i32::MAX
        &&& 0 < self.height <= i32::MAX
        &&& (self.height - 1) * self.stride + self.width <= self.data.len()
    }

    /// The sample at a place, the edge sample repeated outside the picture.
    pub open spec fn at(self, x: int, y: int) -> int {
        self.data[clip3(0, self.height - 1, y) * self.stride + clip3(0, self.width - 1, x)] as int
    }

    /// Horizontal half-sample position to the right of `(x, y)`, unrounded.
    #[verifier::opaque]
    pub open spec fn half_h(self, x: int, y: int) -> int {
        spec_tap6(
            self.at(x - 2, y),
            self.at(x - 1, y),
            self.at(x, y),
            self.at(x + 1, y),
            self.at(x + 2, y),
            self.at(x + 3, y),
        )
    }

    /// Vertical half-sample position below `(x, y)`, unrounded.
    #[verifier::opaque]
    pub open spec fn half_v(self, x: int, y: int) -> int {
        spec_tap6(
            self.at(x, y - 2),
            self.at(x, y - 1),
            self.at(x, y),
            self.at(x, y + 1),
            self.at(x, y + 2),
            self.at(x, y + 3),
        )
    }

    /// Half-sample position to the right of and below `(x, y)`, unrounded.
    #[verifier::opaque]
    pub open spec fn centre(self, x: int, y: int) -> int {
        spec_tap6(
            self.half_h(x, y - 2),
            self.half_h(x, y - 1),
            self.half_h(x, y),
            self.half_h(x, y + 1),
            self.half_h(x, y + 2),
            self.half_h(x, y + 3),
        )
    }

    /// The luma sample a quarter-sample offset `(xfrac, yfrac)` away from
    /// `(x, y)`.
    pub open spec fn luma(self, xfrac: int, yfrac: int, x: int, y: int) -> int {
        let right = spec_round_half(self.half_h(x, y));
        let below = spec_round_half(self.half_v(x, y));
        let right_one_down = spec_round_half(self.half_h(x, y + 1));
        let below_one_right = spec_round_half(self.half_v(x + 1, y));
        let middle = spec_round_centre(self.centre(x, y));
        if yfrac == 0 {
            if xfrac == 0 {
                self.at(x, y)
            } else if xfrac == 1 {
                average(self.at(x, y), right)
            } else if xfrac == 2 {
                right
            } else {
                average(self.at(x + 1, y), right)
            }
        } else if xfrac == 0 {
            if yfrac == 1 {
                average(self.at(x, y), below)
            } else if yfrac == 2 {
                below
            } else {
                average(self.at(x, y + 1), below)
            }
        } else if xfrac == 2 {
            if yfrac == 1 {
                average(right, middle)
            } else if yfrac == 2 {
                middle
            } else {
                average(right_one_down, middle)
            }
        } else if yfrac == 2 {
            average(
                if xfrac == 1 {
                    below
                } else {
                    below_one_right
                },
                middle,
            )
        } else {
            average(
                if yfrac == 1 {
                    right
                } else {
                    right_one_down
                },
                if xfrac == 1 {
                    below
                } else {
                    below_one_right
                },
            )
        }
    }

    /// The chroma sample an eighth-sample offset `(xfrac, yfrac)` away from
    /// `(x, y)`.
    pub open spec fn chroma(self, xfrac: int, yfrac: int, x: int, y: int) -> int {
        ((8 - xfrac) * (8 - yfrac) * self.at(x, y) + xfrac * (8 - yfrac) * self.at(x + 1, y) + (8
            - xfrac) * yfrac * self.at(x, y + 1) + xfrac * yfrac * self.at(x + 1, y + 1) + 32) / 64
    }
}

impl<'a> View for Plane<'a> {
    type V = Samples;

    open spec fn view(&self) -> Samples {
        Samples {
            data: self.data@,
            width: self.width as int,
            height: self.height as int,
            stride: self.stride as int,
        }
    }
}

/// The six-tap filter, unrounded.
pub open spec fn spec_tap6(a: int, b: int, c: int, d: int, e: int, f: int) -> int {
    a - 5 * b + 20 * c + 20 * d - 5 * e + f
}

/// A half-sample position rounded to a sample.
pub open spec fn spec_round_half(v: int) -> int {
    clip_sample((v + 16) / 32)
}

/// A centre position, filtered twice, rounded to a sample.
pub open spec fn spec_round_centre(v: int) -> int {
    clip_sample((v + 512) / 1024)
}

/// The rounded mean of two samples.
pub open spec fn average(a: int, b: int) -> int {
    (a + b + 1) / 2
}

/// A place inside a plane has its sample inside the data.
proof fn lemma_place(s: Samples, x: int, y: int)
    requires
        s.wf(),
        0 <= x < s.width,
        0 <= y < s.height,
    ensures
        0 <= y * s.stride + x < s.data.len(),
        y * s.stride + s.width <= s.data.len(),
{
    lemma_rows(s.stride, y, s.height - 1);
}

impl<'a> Plane<'a> {
    /// Fetch a sample, clamping coordinates into the picture.
    pub fn at(&self, x: i32, y: i32) -> (v: u8)
        requires
            self@.wf(),
        ensures
            v == self@.at(x as int, y as int),
    {
        let len: usize = self.data.len();
        let cx: usize = clamp_index(x, self.width);
        let cy: usize = clamp_index(y, self.height);
        proof {
            lemma_place(self@, cx as int, cy as int);
            lemma_rows(self.stride as int, 0, cy as int);
            assert(0 <= cy * self.stride <= len);
        }
        self.data[cy * self.stride + cx]
    }
}

fn clamp_index(v: i32, len: usize) -> (i: usize)
    requires
        0 < len <= i32::MAX,
    ensures
        i as int == clip3(0, len - 1, v as int),
{
    if v < 0 {
        0
    } else if v as usize >= len {
        len - 1
    } else {
        v as usize
    }
}

/// The six-tap filter. Unrounded because the centre position applies it twice
/// and rounds once.
fn tap6(a: i32, b: i32, c: i32, d: i32, e: i32, f: i32) -> (r: i32)
    requires
        -20_000 <= a <= 20_000,
        -20_000 <= b <= 20_000,
        -20_000 <= c <= 20_000,
        -20_000 <= d <= 20_000,
        -20_000 <= e <= 20_000,
        -20_000 <= f <= 20_000,
    ensures
        r == spec_tap6(a as int, b as int, c as int, d as int, e as int, f as int),
{
    a - 5 * b + 20 * c + 20 * d - 5 * e + f
}

fn round_half(v: i32) -> (r: i32)
    requires
        v <= 0x1000_0000,
    ensures
        r == spec_round_half(v as int),
        0 <= r <= 255,
{
    proof {
        lemma_shr_i32((v + 16) as i32);
    }
    clip1((v + 16) >> 5) as i32
}

fn round_centre(v: i32) -> (r: i32)
    requires
        v <= 0x1000_0000,
    ensures
        r == spec_round_centre(v as int),
        0 <= r <= 255,
{
    proof {
        lemma_shr_i32((v + 512) as i32);
    }
    clip1((v + 512) >> 10) as i32
}

/// The six-tap filter reaches two samples back and three forward.
const MARGIN: usize = 5;

/// The bilinear filter reads one sample past the block on each axis.
const CHROMA_MARGIN: usize = 1;

/// Samples gathered from a reference: `width` by `height` of them, the first at
/// `(x, y)` of the reference.
struct Patch {
    data: Vec<u8>,
    width: usize,
    height: usize,
    x: i32,
    y: i32,
}

impl Patch {
    spec fn is_from(self, s: Samples) -> bool {
        &&& self.width > 0
        &&& self.data@.len() == self.width * self.height
        &&& forall|k: int|
            0 <= k < self.data@.len() ==> (#[trigger] self.data@[k]) == s.at(
                self.x + k % self.width as int,
                self.y + k / self.width as int,
            )
    }

    fn at(&self, Ghost(s): Ghost<Samples>, i: usize, j: usize) -> (v: i32)
        requires
            self.is_from(s),
            i < self.width,
            j < self.height,
        ensures
            v == s.at(self.x + i, self.y + j),
            0 <= v <= 255,
    {
        let len: usize = self.data.len();
        proof {
            lemma_raster(self.width as int, i as int, j as int);
            lemma_rows(self.width as int, j as int, self.height as int);
            lemma_rows(self.width as int, 0, j as int);
            assert(self.width * self.height == self.height * self.width) by (nonlinear_arith);
        }
        self.data[j * self.width + i] as i32
    }

    /// Horizontal six-tap over patch row `r`, from column `i` on.
    fn horizontal(&self, Ghost(s): Ghost<Samples>, i: usize, r: usize) -> (v: i32)
        requires
            self.is_from(s),
            i + 5 < self.width,
            r < self.height,
        ensures
            v == s.half_h(self.x + i + 2, self.y + r),
            -13_260 <= v <= 13_260,
    {
        reveal(Samples::half_h);
        tap6(
            self.at(Ghost(s), i, r),
            self.at(Ghost(s), i + 1, r),
            self.at(Ghost(s), i + 2, r),
            self.at(Ghost(s), i + 3, r),
            self.at(Ghost(s), i + 4, r),
            self.at(Ghost(s), i + 5, r),
        )
    }

    /// Vertical six-tap over patch column `c`, from row `j` on.
    fn vertical(&self, Ghost(s): Ghost<Samples>, c: usize, j: usize) -> (v: i32)
        requires
            self.is_from(s),
            c < self.width,
            j + 5 < self.height,
        ensures
            v == s.half_v(self.x + c, self.y + j + 2),
            -13_260 <= v <= 13_260,
    {
        reveal(Samples::half_v);
        tap6(
            self.at(Ghost(s), c, j),
            self.at(Ghost(s), c, j + 1),
            self.at(Ghost(s), c, j + 2),
            self.at(Ghost(s), c, j + 3),
            self.at(Ghost(s), c, j + 4),
            self.at(Ghost(s), c, j + 5),
        )
    }
}

/// Copies a patch out of the reference, clamping to its edges.
fn gather(p: &Plane<'_>, x0: i32, y0: i32, pw: usize, ph: usize) -> (patch: Patch)
    requires
        p@.wf(),
        0 < pw,
        pw <= 0x4000_0010,
        ph <= 0x4000_0010,
        pw * ph <= usize::MAX,
        x0 + pw <= i32::MAX,
        y0 + ph <= i32::MAX,
    ensures
        patch.is_from(p@),
        patch.width == pw,
        patch.height == ph,
        patch.x == x0,
        patch.y == y0,
{
    let mut data: Vec<u8> = Vec::new();
    let len: usize = p.data.len();
    assert(0 * pw == 0);
    // The common case by far: the patch lies wholly inside the reference, so
    // no coordinate needs clamping and each row is one copy.
    let inside: bool = x0 >= 0 && y0 >= 0 && (x0 as i64 + pw as i64) <= p.width as i64 && (y0 as i64
        + ph as i64) <= p.height as i64;
    for j in 0..ph
        invariant
            p@.wf(),
            p@.data.len() == len,
            0 < pw,
            pw <= 0x4000_0010,
            ph <= 0x4000_0010,
            x0 + pw <= i32::MAX,
            y0 + ph <= i32::MAX,
            inside ==> x0 >= 0 && y0 >= 0 && x0 + pw <= p.width && y0 + ph <= p.height,
            data@.len() == j * pw,
            forall|k: int|
                0 <= k < data@.len() ==> (#[trigger] data@[k]) == p@.at(
                    x0 + k % pw as int,
                    y0 + k / pw as int,
                ),
    {
        let ghost rows = data@;
        proof {
            lemma_raster(pw as int, 0, j as int);
        }
        if inside {
            let row: usize = y0 as usize + j;
            proof {
                lemma_place(p@, x0 as int, row as int);
                lemma_rows(p.stride as int, 0, row as int);
            }
            assert(0 <= row * p.stride <= len);
            let start: usize = row * p.stride + x0 as usize;
            data.extend_from_slice(&p.data[start..start + pw]);
            assert forall|k: int| 0 <= k < data@.len() implies (#[trigger] data@[k]) == p@.at(
                x0 + k % pw as int,
                y0 + k / pw as int,
            ) by {
                if k < rows.len() {
                    assert(data@[k] == rows[k]);
                } else {
                    lemma_raster(pw as int, k - j * pw, j as int);
                }
            }
        } else {
            for i in 0..pw
                invariant
                    p@.wf(),
                    0 < pw,
                    pw <= 0x4000_0010,
                    ph <= 0x4000_0010,
                    j < ph,
                    x0 + pw <= i32::MAX,
                    y0 + ph <= i32::MAX,
                    data@.len() == j * pw + i,
                    forall|k: int|
                        0 <= k < data@.len() ==> (#[trigger] data@[k]) == p@.at(
                            x0 + k % pw as int,
                            y0 + k / pw as int,
                        ),
            {
                proof {
                    lemma_raster(pw as int, i as int, j as int);
                }
                data.push(p.at(x0 + i as i32, y0 + j as i32));
            }
        }
        proof {
            lemma_raster(pw as int, 0, j as int);
        }
    }
    assert(pw * ph == ph * pw) by (nonlinear_arith);
    Patch { data, width: pw, height: ph, x: x0, y: y0 }
}

/// Copies a block of full samples.
fn copy_block(p: &Plane<'_>, x0: i32, y0: i32, bw: usize, bh: usize, out: &mut [u8])
    requires
        p@.wf(),
        bw <= 0x4000_0000,
        bh <= 0x4000_0000,
        bw * bh <= old(out)@.len(),
        x0 + bw <= i32::MAX,
        y0 + bh <= i32::MAX,
    ensures
        final(out)@.len() == old(out)@.len(),
        forall|k: int|
            0 <= k < bw * bh ==> (#[trigger] final(out)@[k]) == p@.at(
                x0 + k % bw as int,
                y0 + k / bw as int,
            ),
        forall|k: int|
            bw * bh <= k < old(out)@.len() ==> (#[trigger] final(out)@[k]) == old(out)@[k],
{
    let len: usize = out.len();
    assert(len == old(out)@.len());
    let n: usize = bw * bh;
    for k in 0..n
        invariant
            p@.wf(),
            bw <= 0x4000_0000,
            bh <= 0x4000_0000,
            n == bw * bh,
            out@.len() == old(out)@.len(),
            n <= out@.len(),
            x0 + bw <= i32::MAX,
            y0 + bh <= i32::MAX,
            forall|l: int|
                0 <= l < k ==> (#[trigger] out@[l]) == p@.at(
                    x0 + l % bw as int,
                    y0 + l / bw as int,
                ),
            forall|l: int| k <= l < out@.len() ==> (#[trigger] out@[l]) == old(out)@[l],
    {
        assert(bw > 0) by (nonlinear_arith)
            requires
                0 <= k < bw * bh,
        ;
        proof {
            lemma_raster_inverse(bw as int, bh as int, k as int);
        }
        out[k] = p.at(x0 + (k % bw) as i32, y0 + (k / bw) as i32);
    }
}

/// Predict one luma block from a reference plane.
///
/// `x0`, `y0` are the block's position in the current picture, and `mv` is in
/// quarter-sample units. The first `bw * bh` samples of `out` receive the block
/// in raster order.
pub fn predict_luma(
    reference: &Plane<'_>,
    x0: i32,
    y0: i32,
    mv: (i32, i32),
    bw: usize,
    bh: usize,
    out: &mut [u8],
)
    requires
        reference@.wf(),
        bw <= 0x4000_0000,
        bh <= 0x4000_0000,
        bw * bh <= old(out)@.len(),
        (bw + 5) * (bh + 5) <= usize::MAX,
        i32::MIN + 2 <= x0 + mv.0 as int / 4,
        i32::MIN + 2 <= y0 + mv.1 as int / 4,
        x0 + mv.0 as int / 4 + bw + 3 <= i32::MAX,
        y0 + mv.1 as int / 4 + bh + 3 <= i32::MAX,
    ensures
        final(out)@.len() == old(out)@.len(),
        forall|k: int|
            0 <= k < bw * bh ==> (#[trigger] final(out)@[k]) == reference@.luma(
                mv.0 as int % 4,
                mv.1 as int % 4,
                x0 + mv.0 as int / 4 + k % bw as int,
                y0 + mv.1 as int / 4 + k / bw as int,
            ),
        forall|k: int|
            bw * bh <= k < old(out)@.len() ==> (#[trigger] final(out)@[k]) == old(out)@[k],
{
    let (mvx, mvy) = mv;
    proof {
        lemma_shr_i32(mvx);
        lemma_shr_i32(mvy);
    }
    // Shift, not division: vectors are signed and positions round down.
    let base_x: i32 = x0 + (mvx >> 2);
    let base_y: i32 = y0 + (mvy >> 2);
    let xfrac: i32 = mvx & 3;
    let yfrac: i32 = mvy & 3;
    if xfrac == 0 && yfrac == 0 {
        copy_block(reference, base_x, base_y, bw, bh, out);
        return ;
    }
    let pw: usize = bw + MARGIN;
    let ph: usize = bh + MARGIN;
    let ghost s = reference@;
    let patch: Patch = gather(reference, base_x - 2, base_y - 2, pw, ph);
    // The centre position filters vertically over unrounded horizontal
    // positions, so those are computed once for the whole patch.
    let mut rows: Vec<i32> = Vec::new();
    let needs_rows: bool = xfrac == 2 && yfrac != 0 || yfrac == 2 && xfrac != 0;
    assert(0 * bw == 0);
    if needs_rows && bw > 0 {
        for r in 0..ph
            invariant
                patch.is_from(s),
                patch.width == pw,
                patch.height == ph,
                patch.x == base_x - 2,
                patch.y == base_y - 2,
                pw == bw + 5,
                bw > 0,
                rows@.len() == r * bw,
                forall|k: int|
                    0 <= k < rows@.len() ==> (#[trigger] rows@[k]) == s.half_h(
                        base_x + k % bw as int,
                        base_y - 2 + k / bw as int,
                    ) && -13_260 <= rows@[k] <= 13_260,
        {
            for i in 0..bw
                invariant
                    patch.is_from(s),
                    patch.width == pw,
                    patch.height == ph,
                    patch.x == base_x - 2,
                    patch.y == base_y - 2,
                    pw == bw + 5,
                    bw > 0,
                    r < ph,
                    rows@.len() == r * bw + i,
                    forall|k: int|
                        0 <= k < rows@.len() ==> (#[trigger] rows@[k]) == s.half_h(
                            base_x + k % bw as int,
                            base_y - 2 + k / bw as int,
                        ) && -13_260 <= rows@[k] <= 13_260,
            {
                proof {
                    lemma_raster(bw as int, i as int, r as int);
                }
                rows.push(patch.horizontal(Ghost(s), i, r));
            }
            proof {
                lemma_raster(bw as int, 0, r as int);
            }
        }
    }
    let len: usize = out.len();
    assert(len == old(out)@.len());
    let n: usize = bw * bh;
    for k in 0..n
        invariant
            n == bw * bh,
            out@.len() == old(out)@.len(),
            n <= out@.len(),
            s == reference@,
            patch.is_from(s),
            patch.width == bw + 5,
            patch.height == bh + 5,
            patch.x == base_x - 2,
            patch.y == base_y - 2,
            ph == bh + 5,
            base_x == x0 + mv.0 as int / 4,
            base_y == y0 + mv.1 as int / 4,
            xfrac == mv.0 as int % 4,
            yfrac == mv.1 as int % 4,
            xfrac != 0 || yfrac != 0,
            needs_centre(xfrac as int, yfrac as int) && bw > 0 ==> rows_are(
                rows@,
                s,
                base_x as int,
                base_y as int,
                bw as int,
                bh as int,
            ),
            forall|l: int|
                0 <= l < k ==> (#[trigger] out@[l]) == s.luma(
                    mv.0 as int % 4,
                    mv.1 as int % 4,
                    base_x + l % bw as int,
                    base_y + l / bw as int,
                ),
            forall|l: int| k <= l < out@.len() ==> (#[trigger] out@[l]) == old(out)@[l],
    {
        assert(bw > 0) by (nonlinear_arith)
            requires
                0 <= k < bw * bh,
        ;
        proof {
            lemma_raster_inverse(bw as int, bh as int, k as int);
        }
        out[k] = luma_at(
            &patch,
            &rows,
            Ghost(s),
            (base_x, base_y),
            (xfrac, yfrac),
            (bw, bh),
            (k % bw, k / bw),
        );
    }
}

/// One sample of a luma block, from the patch around it and, where the position
/// needs the centre, from the horizontal half positions.
fn luma_at(
    patch: &Patch,
    rows: &Vec<i32>,
    Ghost(s): Ghost<Samples>,
    base: (i32, i32),
    frac: (i32, i32),
    size: (usize, usize),
    place: (usize, usize),
) -> (sample: u8)
    requires
        patch.is_from(s),
        patch.width == size.0 + 5,
        patch.height == size.1 + 5,
        patch.x == base.0 - 2,
        patch.y == base.1 - 2,
        0 <= frac.0 < 4,
        0 <= frac.1 < 4,
        frac.0 != 0 || frac.1 != 0,
        place.0 < size.0,
        place.1 < size.1,
        needs_centre(frac.0 as int, frac.1 as int) ==> rows_are(
            rows@,
            s,
            base.0 as int,
            base.1 as int,
            size.0 as int,
            size.1 as int,
        ),
    ensures
        sample == s.luma(
            frac.0 as int,
            frac.1 as int,
            base.0 + place.0,
            base.1 + place.1,
        ),
{
    let (xfrac, yfrac) = frac;
    let (i, j) = place;
    let needs_centre: bool = xfrac == 2 && yfrac != 0 || yfrac == 2 && xfrac != 0;
    let v: i32 = if needs_centre {
        let middle: i32 = centre_at(&rows, Ghost(s), Ghost((base.0 as int, base.1 as int)), size, i, j);
        if xfrac == 2 && yfrac == 2 {
            middle
        } else if xfrac == 2 {
            let r: usize = if yfrac == 1 {
                j + 2
            } else {
                j + 3
            };
            (round_half(patch.horizontal(Ghost(s), i, r)) + middle + 1) / 2
        } else {
            let c: usize = if xfrac == 1 {
                i + 2
            } else {
                i + 3
            };
            (round_half(patch.vertical(Ghost(s), c, j)) + middle + 1) / 2
        }
    } else if yfrac == 0 {
        let right: i32 = round_half(patch.horizontal(Ghost(s), i, j + 2));
        if xfrac == 1 {
            (patch.at(Ghost(s), i + 2, j + 2) + right + 1) / 2
        } else if xfrac == 2 {
            right
        } else {
            (patch.at(Ghost(s), i + 3, j + 2) + right + 1) / 2
        }
    } else if xfrac == 0 {
        let below: i32 = round_half(patch.vertical(Ghost(s), i + 2, j));
        if yfrac == 1 {
            (patch.at(Ghost(s), i + 2, j + 2) + below + 1) / 2
        } else if yfrac == 2 {
            below
        } else {
            (patch.at(Ghost(s), i + 2, j + 3) + below + 1) / 2
        }
    } else {
        // Diagonal quarter positions: the mean of the two adjacent half
        // positions, never the centre.
        let r: usize = if yfrac == 1 {
            j + 2
        } else {
            j + 3
        };
        let c: usize = if xfrac == 1 {
            i + 2
        } else {
            i + 3
        };
        (round_half(patch.horizontal(Ghost(s), i, r)) + round_half(
            patch.vertical(Ghost(s), c, j),
        ) + 1) / 2
    };
    v as u8
}

/// Whether a quarter-sample offset is resolved with the centre position.
spec fn needs_centre(xfrac: int, yfrac: int) -> bool {
    xfrac == 2 && yfrac != 0 || yfrac == 2 && xfrac != 0
}

/// The unrounded horizontal half positions of a block and of the rows around
/// it.
spec fn rows_are(rows: Seq<i32>, s: Samples, x: int, y: int, bw: int, bh: int) -> bool {
    &&& rows.len() == (bh + 5) * bw
    &&& forall|k: int|
        0 <= k < rows.len() ==> (#[trigger] rows[k]) == s.half_h(x + k % bw, y - 2 + k / bw)
            && -13_260 <= rows[k] <= 13_260
}

/// One horizontal half position of a patch.
fn row_at(
    rows: &Vec<i32>,
    Ghost(s): Ghost<Samples>,
    Ghost(base): Ghost<(int, int)>,
    size: (usize, usize),
    i: usize,
    r: usize,
) -> (v: i32)
    requires
        i < size.0,
        r < size.1 + 5,
        rows_are(rows@, s, base.0, base.1, size.0 as int, size.1 as int),
    ensures
        v == s.half_h(base.0 + i, base.1 - 2 + r),
        -13_260 <= v <= 13_260,
{
    let len: usize = rows.len();
    let ghost bw = size.0 as int;
    proof {
        lemma_rows(bw, r as int, size.1 + 5);
        lemma_rows(bw, 0, r as int);
        lemma_raster(bw, i as int, r as int);
        assert(0 <= r * bw <= len);
    }
    rows[r * size.0 + i]
}

/// The rounded centre position from the horizontal half positions of a patch.
fn centre_at(
    rows: &Vec<i32>,
    Ghost(s): Ghost<Samples>,
    Ghost(base): Ghost<(int, int)>,
    size: (usize, usize),
    i: usize,
    j: usize,
) -> (v: i32)
    requires
        i < size.0,
        j < size.1,
        size.1 + 5 <= usize::MAX,
        rows_are(rows@, s, base.0, base.1, size.0 as int, size.1 as int),
    ensures
        v == spec_round_centre(s.centre(base.0 + i, base.1 + j)),
        0 <= v <= 255,
{
    reveal(Samples::centre);
    round_centre(
        tap6(
            row_at(rows, Ghost(s), Ghost(base), size, i, j),
            row_at(rows, Ghost(s), Ghost(base), size, i, j + 1),
            row_at(rows, Ghost(s), Ghost(base), size, i, j + 2),
            row_at(rows, Ghost(s), Ghost(base), size, i, j + 3),
            row_at(rows, Ghost(s), Ghost(base), size, i, j + 4),
            row_at(rows, Ghost(s), Ghost(base), size, i, j + 5),
        ),
    )
}

/// Predict one chroma block.
///
/// `mv` is the luma motion vector in quarter-sample units; chroma has half the
/// resolution, so the same vector addresses eighth-sample positions.
pub fn predict_chroma(
    reference: &Plane<'_>,
    x0: i32,
    y0: i32,
    mv: (i32, i32),
    bw: usize,
    bh: usize,
    out: &mut [u8],
)
    requires
        reference@.wf(),
        bw <= 0x4000_0000,
        bh <= 0x4000_0000,
        bw * bh <= old(out)@.len(),
        (bw + 1) * (bh + 1) <= usize::MAX,
        i32::MIN <= x0 + mv.0 as int / 8,
        i32::MIN <= y0 + mv.1 as int / 8,
        x0 + mv.0 as int / 8 + bw + 1 <= i32::MAX,
        y0 + mv.1 as int / 8 + bh + 1 <= i32::MAX,
    ensures
        final(out)@.len() == old(out)@.len(),
        forall|k: int|
            0 <= k < bw * bh ==> (#[trigger] final(out)@[k]) == reference@.chroma(
                mv.0 as int % 8,
                mv.1 as int % 8,
                x0 + mv.0 as int / 8 + k % bw as int,
                y0 + mv.1 as int / 8 + k / bw as int,
            ),
        forall|k: int|
            bw * bh <= k < old(out)@.len() ==> (#[trigger] final(out)@[k]) == old(out)@[k],
{
    let (mvx, mvy) = mv;
    proof {
        lemma_shr_i32(mvx);
        lemma_shr_i32(mvy);
    }
    let base_x: i32 = x0 + (mvx >> 3);
    let base_y: i32 = y0 + (mvy >> 3);
    let xfrac: i32 = mvx & 7;
    let yfrac: i32 = mvy & 7;
    let ghost s = reference@;
    if xfrac == 0 && yfrac == 0 {
        copy_block(reference, base_x, base_y, bw, bh, out);
        assert forall|k: int| 0 <= k < bw * bh implies (#[trigger] out@[k]) == s.chroma(
            0,
            0,
            base_x + k % bw as int,
            base_y + k / bw as int,
        ) by {
            law_full_sample_position_copies_the_reference(
                s,
                base_x + k % bw as int,
                base_y + k / bw as int,
            );
        }
        return ;
    }
    let patch: Patch = gather(reference, base_x, base_y, bw + CHROMA_MARGIN, bh + CHROMA_MARGIN);
    let len: usize = out.len();
    assert(len == old(out)@.len());
    let n: usize = bw * bh;
    for k in 0..n
        invariant
            n == bw * bh,
            out@.len() == old(out)@.len(),
            n <= out@.len(),
            s == reference@,
            patch.is_from(s),
            patch.width == bw + 1,
            patch.height == bh + 1,
            patch.x == base_x,
            patch.y == base_y,
            0 <= xfrac < 8,
            0 <= yfrac < 8,
            forall|l: int|
                0 <= l < k ==> (#[trigger] out@[l]) == s.chroma(
                    xfrac as int,
                    yfrac as int,
                    base_x + l % bw as int,
                    base_y + l / bw as int,
                ),
            forall|l: int| k <= l < out@.len() ==> (#[trigger] out@[l]) == old(out)@[l],
    {
        assert(bw > 0) by (nonlinear_arith)
            requires
                0 <= k < bw * bh,
        ;
        proof {
            lemma_raster_inverse(bw as int, bh as int, k as int);
        }
        let i: usize = k % bw;
        let j: usize = k / bw;
        out[k] = bilinear(
            xfrac,
            yfrac,
            patch.at(Ghost(s), i, j),
            patch.at(Ghost(s), i + 1, j),
            patch.at(Ghost(s), i, j + 1),
            patch.at(Ghost(s), i + 1, j + 1),
        );
    }
}

/// Four samples weighted by how near a position between them is to each.
fn bilinear(xfrac: i32, yfrac: i32, a: i32, b: i32, c: i32, d: i32) -> (v: u8)
    requires
        0 <= xfrac < 8,
        0 <= yfrac < 8,
        0 <= a <= 255,
        0 <= b <= 255,
        0 <= c <= 255,
        0 <= d <= 255,
    ensures
        v == ((8 - xfrac) * (8 - yfrac) * a + xfrac * (8 - yfrac) * b + (8 - xfrac) * yfrac * c
            + xfrac * yfrac * d + 32) / 64,
{
    assert(0 <= (8 - xfrac) * (8 - yfrac) <= 64 && 0 <= xfrac * (8 - yfrac) <= 64 && 0 <= (8
        - xfrac) * yfrac <= 64 && 0 <= xfrac * yfrac <= 64) by (nonlinear_arith)
        requires
            0 <= xfrac < 8,
            0 <= yfrac < 8,
    ;
    assert((8 - xfrac) * (8 - yfrac) + xfrac * (8 - yfrac) + (8 - xfrac) * yfrac + xfrac * yfrac
        == 64) by (nonlinear_arith);
    let w_a: i32 = (8 - xfrac) * (8 - yfrac);
    let w_b: i32 = xfrac * (8 - yfrac);
    let w_c: i32 = (8 - xfrac) * yfrac;
    let w_d: i32 = xfrac * yfrac;
    proof {
        lemma_weighted(w_a, a);
        lemma_weighted(w_b, b);
        lemma_weighted(w_c, c);
        lemma_weighted(w_d, d);
    }
    ((w_a * a + w_b * b + w_c * c + w_d * d + 32) / 64) as u8
}

proof fn lemma_weighted(w: i32, sample: i32)
    by (nonlinear_arith)
    requires
        0 <= w <= 64,
        0 <= sample <= 255,
    ensures
        0 <= w * sample <= 255 * w,
{
}

/// One neighbouring partition's motion, for the predictor. A negative
/// `ref_idx` means the neighbour is unavailable or intra coded.
#[derive(Debug, Clone, Copy, PartialEq, Eq)]
pub struct Neighbour {
    pub mv: (i32, i32),
    pub ref_idx: i8,
}

impl Neighbour {
    /// What stands for an unavailable or intra neighbour.
    pub open spec fn spec_unavailable() -> Neighbour {
        Neighbour { mv: (0, 0), ref_idx: -1i8 }
    }

    /// What stands for an unavailable or intra neighbour.
    pub fn unavailable() -> (n: Neighbour)
        ensures
            n == Neighbour::spec_unavailable(),
    {
        Neighbour { mv: (0, 0), ref_idx: -1 }
    }
}

/// Which partition of a macroblock is being predicted.
#[derive(Debug, Clone, Copy, PartialEq, Eq, Structural)]
pub enum Partition {
    /// Any shape that uses the plain median rule.
    Other,
    /// Upper half of a 16x8 split.
    Top16x8,
    /// Lower half of a 16x8 split.
    Bottom16x8,
    /// Left half of an 8x16 split.
    Left8x16,
    /// Right half of an 8x16 split.
    Right8x16,
}

/// The middle one of three numbers.
pub open spec fn spec_median(a: int, b: int, c: int) -> int {
    if (a <= b <= c) || (c <= b <= a) {
        b
    } else if (b <= a <= c) || (c <= a <= b) {
        a
    } else {
        c
    }
}

/// The neighbour on a split's own side, which is taken outright if it refers to
/// the same picture.
pub open spec fn preferred(
    a: Neighbour,
    b: Neighbour,
    c: Neighbour,
    partition: Partition,
) -> Option<Neighbour> {
    match partition {
        Partition::Other => None,
        Partition::Top16x8 => Some(b),
        Partition::Bottom16x8 | Partition::Left8x16 => Some(a),
        Partition::Right8x16 => Some(c),
    }
}

/// The vector predicted from three neighbours: the one neighbour that refers to
/// picture `ref_idx` if there is exactly one, else the component-wise median.
pub open spec fn median_prediction(a: Neighbour, b: Neighbour, c: Neighbour, ref_idx: i8) -> (
    i32,
    i32,
) {
    let am = a.ref_idx == ref_idx;
    let bm = b.ref_idx == ref_idx;
    let cm = c.ref_idx == ref_idx;
    if am && !bm && !cm {
        a.mv
    } else if !am && bm && !cm {
        b.mv
    } else if !am && !bm && cm {
        c.mv
    } else {
        (
            spec_median(a.mv.0 as int, b.mv.0 as int, c.mv.0 as int) as i32,
            spec_median(a.mv.1 as int, b.mv.1 as int, c.mv.1 as int) as i32,
        )
    }
}

/// The motion vector predictor. When only the left neighbour is there, it
/// stands in for all three.
pub open spec fn spec_predict_mv(
    a: Neighbour,
    b: Neighbour,
    c: Neighbour,
    ref_idx: i8,
    partition: Partition,
) -> (i32, i32) {
    match preferred(a, b, c, partition) {
        Some(n) if n.ref_idx == ref_idx => n.mv,
        _ => if b.ref_idx < 0 && c.ref_idx < 0 && a.ref_idx >= 0 {
            median_prediction(a, a, a, ref_idx)
        } else {
            median_prediction(a, b, c, ref_idx)
        },
    }
}

/// The motion vector of a skipped macroblock: zero next to a missing or
/// stationary neighbour.
pub open spec fn spec_predict_skip_mv(
    a: Neighbour,
    b: Neighbour,
    c: Neighbour,
    a_present: bool,
    b_present: bool,
) -> (i32, i32) {
    if !a_present || !b_present || (a.ref_idx == 0 && a.mv == (0i32, 0i32)) || (b.ref_idx == 0
        && b.mv == (0i32, 0i32)) {
        (0, 0)
    } else {
        spec_predict_mv(a, b, c, 0, Partition::Other)
    }
}

fn median(a: i32, b: i32, c: i32) -> (m: i32)
    ensures
        m == spec_median(a as int, b as int, c as int),
{
    if (a <= b && b <= c) || (c <= b && b <= a) {
        b
    } else if (b <= a && a <= c) || (c <= a && a <= b) {
        a
    } else {
        c
    }
}

/// Derive the motion vector predictor. `a` is the left neighbour, `b` the one
/// above, and `c` the one above and to the right, or above and to the left
/// where that is unavailable.
pub fn predict_mv(
    a: Neighbour,
    b: Neighbour,
    c: Neighbour,
    ref_idx: i8,
    partition: Partition,
) -> (mv: (i32, i32))
    ensures
        mv == spec_predict_mv(a, b, c, ref_idx, partition),
{
    match partition {
        Partition::Top16x8 => {
            if b.ref_idx == ref_idx {
                return b.mv;
            }
        },
        Partition::Bottom16x8 | Partition::Left8x16 => {
            if a.ref_idx == ref_idx {
                return a.mv;
            }
        },
        Partition::Right8x16 => {
            if c.ref_idx == ref_idx {
                return c.mv;
            }
        },
        Partition::Other => {},
    }
    let (b, c) = if b.ref_idx < 0 && c.ref_idx < 0 && a.ref_idx >= 0 {
        (a, a)
    } else {
        (b, c)
    };
    let am: bool = a.ref_idx == ref_idx;
    let bm: bool = b.ref_idx == ref_idx;
    let cm: bool = c.ref_idx == ref_idx;
    if am && !bm && !cm {
        return a.mv;
    }
    if !am && bm && !cm {
        return b.mv;
    }
    if !am && !bm && cm {
        return c.mv;
    }
    (median(a.mv.0, b.mv.0, c.mv.0), median(a.mv.1, b.mv.1, c.mv.1))
}

/// Derive the motion vector for a skipped macroblock. `a_present` and
/// `b_present` say whether the macroblocks to the left and above belong to this
/// slice: an intra neighbour is present without having motion.
pub fn predict_skip_mv(
    a: Neighbour,
    b: Neighbour,
    c: Neighbour,
    a_present: bool,
    b_present: bool,
) -> (mv: (i32, i32))
    ensures
        mv == spec_predict_skip_mv(a, b, c, a_present, b_present),
{
    if !a_present || !b_present || (a.ref_idx == 0 && a.mv.0 == 0 && a.mv.1 == 0) || (b.ref_idx == 0
        && b.mv.0 == 0 && b.mv.1 == 0) {
        return (0, 0);
    }
    predict_mv(a, b, c, 0, Partition::Other)
}

/// A constant reference predicts the constant, whatever the vector.
pub proof fn law_constant_reference_predicts_the_constant(
    s: Samples,
    v: u8,
    xfrac: int,
    yfrac: int,
    x: int,
    y: int,
)
    requires
        s.wf(),
        forall|x: int, y: int| #[trigger] s.at(x, y) == v,
        0 <= xfrac < 8,
        0 <= yfrac < 8,
    ensures
        xfrac < 4 && yfrac < 4 ==> s.luma(xfrac, yfrac, x, y) == v,
        s.chroma(xfrac, yfrac, x, y) == v,
{
    reveal(Samples::half_h);
    reveal(Samples::half_v);
    reveal(Samples::centre);
    assert((8 - xfrac) * (8 - yfrac) * v + xfrac * (8 - yfrac) * v + (8 - xfrac) * yfrac * v + xfrac
        * yfrac * v == 64 * v) by (nonlinear_arith);
}

/// A whole-sample vector copies the reference.
pub proof fn law_full_sample_position_copies_the_reference(s: Samples, x: int, y: int)
    ensures
        s.luma(0, 0, x, y) == s.at(x, y),
        s.chroma(0, 0, x, y) == s.at(x, y),
{
    let a = s.at(x, y);
    let b = s.at(x + 1, y);
    let c = s.at(x, y + 1);
    let d = s.at(x + 1, y + 1);
    assert((8 - 0) * (8 - 0) * a + 0 * (8 - 0) * b + (8 - 0) * 0 * c + 0 * 0 * d == 64 * a)
        by (nonlinear_arith);
}

/// The centre position is the same whether the rows or the columns are filtered
/// first.
pub proof fn law_centre_is_order_independent(s: Samples, x: int, y: int)
    ensures
        s.centre(x, y) == spec_tap6(
            s.half_v(x - 2, y),
            s.half_v(x - 1, y),
            s.half_v(x, y),
            s.half_v(x + 1, y),
            s.half_v(x + 2, y),
            s.half_v(x + 3, y),
        ),
{
    reveal(Samples::half_h);
    reveal(Samples::half_v);
    reveal(Samples::centre);
}

/// Outside the picture the edge sample is repeated.
pub proof fn law_motion_outside_clamps_to_the_edge(s: Samples, x: int, y: int)
    requires
        s.wf(),
    ensures
        s.at(x, y) == s.at(clip3(0, s.width - 1, x), clip3(0, s.height - 1, y)),
{
}

/// The predicted vector is bounded by its neighbours' in each component.
pub proof fn law_prediction_stays_between_neighbours(
    a: Neighbour,
    b: Neighbour,
    c: Neighbour,
    ref_idx: i8,
    partition: Partition,
    lo: int,
    hi: int,
)
    requires
        lo <= a.mv.0 <= hi,
        lo <= b.mv.0 <= hi,
        lo <= c.mv.0 <= hi,
        lo <= a.mv.1 <= hi,
        lo <= b.mv.1 <= hi,
        lo <= c.mv.1 <= hi,
    ensures
        lo <= spec_predict_mv(a, b, c, ref_idx, partition).0 <= hi,
        lo <= spec_predict_mv(a, b, c, ref_idx, partition).1 <= hi,
{
}

/// A half sample is six samples in a row or column weighted 1, -5, 20, 20, -5 and
/// 1, the middle ones being those next to it; the centre of four is such a sum in
/// both directions. Both are rounded and brought into range.
pub proof fn law_half_samples_weigh_six_neighbours(s: Samples, x: int, y: int)
    ensures
        s.luma(2, 0, x, y) == clip3(
            0,
            255,
            (s.at(x - 2, y) + s.at(x + 3, y) - 5 * (s.at(x - 1, y) + s.at(x + 2, y)) + 20 * (s.at(
                x,
                y,
            ) + s.at(x + 1, y)) + 16) / 32,
        ),
        s.luma(0, 2, x, y) == clip3(
            0,
            255,
            (s.at(x, y - 2) + s.at(x, y + 3) - 5 * (s.at(x, y - 1) + s.at(x, y + 2)) + 20 * (s.at(
                x,
                y,
            ) + s.at(x, y + 1)) + 16) / 32,
        ),
        s.luma(2, 2, x, y) == clip3(
            0,
            255,
            (six_wide(s, x, y - 2) + six_wide(s, x, y + 3) - 5 * (six_wide(s, x, y - 1) + six_wide(
                s,
                x,
                y + 2,
            )) + 20 * (six_wide(s, x, y) + six_wide(s, x, y + 1)) + 512) / 1024,
        ),
{
    lemma_six(s, x, y);
    lemma_centre(s, x, y);
}

proof fn lemma_six(s: Samples, x: int, y: int)
    ensures
        s.half_h(x, y) == six_wide(s, x, y),
        s.half_v(x, y) == s.at(x, y - 2) + s.at(x, y + 3) - 5 * (s.at(x, y - 1) + s.at(x, y + 2))
            + 20 * (s.at(x, y) + s.at(x, y + 1)),
{
    reveal(Samples::half_h);
    reveal(Samples::half_v);
}

proof fn lemma_centre(s: Samples, x: int, y: int)
    ensures
        s.centre(x, y) == six_wide(s, x, y - 2) + six_wide(s, x, y + 3) - 5 * (six_wide(
            s,
            x,
            y - 1,
        ) + six_wide(s, x, y + 2)) + 20 * (six_wide(s, x, y) + six_wide(s, x, y + 1)),
{
    assert(s.centre(x, y) == s.half_h(x, y - 2) - 5 * s.half_h(x, y - 1) + 20 * s.half_h(x, y) + 20
        * s.half_h(x, y + 1) - 5 * s.half_h(x, y + 2) + s.half_h(x, y + 3)) by {
        reveal(Samples::centre);
    }
    assert(s.half_h(x, y - 2) == six_wide(s, x, y - 2)) by {
        lemma_six(s, x, y - 2);
    }
    assert(s.half_h(x, y - 1) == six_wide(s, x, y - 1)) by {
        lemma_six(s, x, y - 1);
    }
    assert(s.half_h(x, y) == six_wide(s, x, y)) by {
        lemma_six(s, x, y);
    }
    assert(s.half_h(x, y + 1) == six_wide(s, x, y + 1)) by {
        lemma_six(s, x, y + 1);
    }
    assert(s.half_h(x, y + 2) == six_wide(s, x, y + 2)) by {
        lemma_six(s, x, y + 2);
    }
    assert(s.half_h(x, y + 3) == six_wide(s, x, y + 3)) by {
        lemma_six(s, x, y + 3);
    }
}

/// Six samples of a row around the place between `x` and the next, weighted.
pub open spec fn six_wide(s: Samples, x: int, y: int) -> int {
    s.at(x - 2, y) + s.at(x + 3, y) - 5 * (s.at(x - 1, y) + s.at(x + 2, y)) + 20 * (s.at(x, y)
        + s.at(x + 1, y))
}

/// A quarter sample is the mean, rounded up, of the two nearest samples at whole
/// and half places: to the left and right of it, above and below it, or at the
/// ends of the diagonal through it that joins two half places.
pub proof fn law_quarter_samples_are_means(s: Samples, x: int, y: int)
    ensures
        s.luma(1, 0, x, y) == rounded_mean(s.luma(0, 0, x, y), s.luma(2, 0, x, y)),
        s.luma(3, 0, x, y) == rounded_mean(s.luma(2, 0, x, y), s.luma(0, 0, x + 1, y)),
        s.luma(0, 1, x, y) == rounded_mean(s.luma(0, 0, x, y), s.luma(0, 2, x, y)),
        s.luma(0, 3, x, y) == rounded_mean(s.luma(0, 2, x, y), s.luma(0, 0, x, y + 1)),
        s.luma(2, 1, x, y) == rounded_mean(s.luma(2, 0, x, y), s.luma(2, 2, x, y)),
        s.luma(2, 3, x, y) == rounded_mean(s.luma(2, 2, x, y), s.luma(2, 0, x, y + 1)),
        s.luma(1, 2, x, y) == rounded_mean(s.luma(0, 2, x, y), s.luma(2, 2, x, y)),
        s.luma(3, 2, x, y) == rounded_mean(s.luma(2, 2, x, y), s.luma(0, 2, x + 1, y)),
        s.luma(1, 1, x, y) == rounded_mean(s.luma(2, 0, x, y), s.luma(0, 2, x, y)),
        s.luma(3, 1, x, y) == rounded_mean(s.luma(2, 0, x, y), s.luma(0, 2, x + 1, y)),
        s.luma(1, 3, x, y) == rounded_mean(s.luma(0, 2, x, y), s.luma(2, 0, x, y + 1)),
        s.luma(3, 3, x, y) == rounded_mean(s.luma(0, 2, x + 1, y), s.luma(2, 0, x, y + 1)),
{
}

/// The mean of two numbers, rounded up.
pub open spec fn rounded_mean(a: int, b: int) -> int {
    if (a + b) % 2 == 0 {
        (a + b) / 2
    } else {
        (a + b + 1) / 2
    }
}

/// A chroma sample is the mean of the four around it, each weighted by how near
/// it is in eighths, rounded to the nearest and up from the middle.
pub proof fn law_chroma_samples_weigh_four_neighbours(
    s: Samples,
    xfrac: int,
    yfrac: int,
    x: int,
    y: int,
)
    requires
        0 <= xfrac < 8,
        0 <= yfrac < 8,
    ensures
        ({
            let upper = (8 - xfrac) * s.at(x, y) + xfrac * s.at(x + 1, y);
            let lower = (8 - xfrac) * s.at(x, y + 1) + xfrac * s.at(x + 1, y + 1);
            let total = (8 - yfrac) * upper + yfrac * lower;
            &&& 64 * s.chroma(xfrac, yfrac, x, y) - 32 <= total
            &&& total < 64 * s.chroma(xfrac, yfrac, x, y) + 32
        }),
{
    let (a, b, c, d) = (s.at(x, y), s.at(x + 1, y), s.at(x, y + 1), s.at(x + 1, y + 1));
    let (m, n) = (8 - xfrac, 8 - yfrac);
    assert(m * n * a == n * (m * a)) by (nonlinear_arith);
    assert(xfrac * n * b == n * (xfrac * b)) by (nonlinear_arith);
    assert(m * yfrac * c == yfrac * (m * c)) by (nonlinear_arith);
    assert(xfrac * yfrac * d == yfrac * (xfrac * d)) by (nonlinear_arith);
    assert(n * (m * a + xfrac * b) == n * (m * a) + n * (xfrac * b)) by (nonlinear_arith);
    assert(yfrac * (m * c + xfrac * d) == yfrac * (m * c) + yfrac * (xfrac * d))
        by (nonlinear_arith);
}

/// A vector is predicted from the one neighbour with the same reference, if it is
/// the only one; from the left one where there is none above and to the right;
/// and else component by component as the one in the middle of three.
pub proof fn law_vectors_are_predicted_from_three(
    a: Neighbour,
    b: Neighbour,
    c: Neighbour,
    ref_idx: i8,
)
    ensures
        ({
            let r = spec_predict_mv(a, b, c, ref_idx, Partition::Other);
            let only_left = a.ref_idx >= 0 && b.ref_idx < 0 && c.ref_idx < 0;
            let (same_a, same_b, same_c) = (
                a.ref_idx == ref_idx,
                b.ref_idx == ref_idx,
                c.ref_idx == ref_idx,
            );
            &&& only_left ==> r == a.mv
            &&& !only_left && same_a && !same_b && !same_c ==> r == a.mv
            &&& !only_left && !same_a && same_b && !same_c ==> r == b.mv
            &&& !only_left && !same_a && !same_b && same_c ==> r == c.mv
            &&& !only_left && (same_a && same_b || same_a && same_c || same_b && same_c || !same_a
                && !same_b && !same_c) ==> {
                &&& in_the_middle(
                    r.0 as int,
                    a.mv.0 as int,
                    b.mv.0 as int,
                    c.mv.0 as int,
                )
                &&& in_the_middle(
                    r.1 as int,
                    a.mv.1 as int,
                    b.mv.1 as int,
                    c.mv.1 as int,
                )
            }
        }),
{
}

/// One of three numbers with no more than one below it and no more than one above
/// it.
pub open spec fn in_the_middle(m: int, a: int, b: int, c: int) -> bool {
    &&& m == a || m == b || m == c
    &&& (a <= m && b <= m) || (a <= m && c <= m) || (b <= m && c <= m)
    &&& (a >= m && b >= m) || (a >= m && c >= m) || (b >= m && c >= m)
}

/// Of a macroblock in two halves, the upper one looks above first, the lower and
/// the left one to the left, and the right one above and to the right: with the
/// same reference there, that vector is the prediction; else it is as without
/// halves.
pub proof fn law_halves_look_to_their_side_first(
    a: Neighbour,
    b: Neighbour,
    c: Neighbour,
    ref_idx: i8,
)
    ensures
        ({
            let other = spec_predict_mv(a, b, c, ref_idx, Partition::Other);
            let top = spec_predict_mv(a, b, c, ref_idx, Partition::Top16x8);
            let bottom = spec_predict_mv(a, b, c, ref_idx, Partition::Bottom16x8);
            let left = spec_predict_mv(a, b, c, ref_idx, Partition::Left8x16);
            let right = spec_predict_mv(a, b, c, ref_idx, Partition::Right8x16);
            &&& top == (if b.ref_idx == ref_idx {
                b.mv
            } else {
                other
            })
            &&& bottom == (if a.ref_idx == ref_idx {
                a.mv
            } else {
                other
            })
            &&& left == (if a.ref_idx == ref_idx {
                a.mv
            } else {
                other
            })
            &&& right == (if c.ref_idx == ref_idx {
                c.mv
            } else {
                other
            })
        }),
{
}

/// A skipped macroblock stands still where there is nothing to its left or above
/// it, or where one of these stands still on the first reference; else it moves as
/// a macroblock on the first reference is predicted to.
pub proof fn law_skipped_macroblocks_stand_still_or_follow(
    a: Neighbour,
    b: Neighbour,
    c: Neighbour,
    a_present: bool,
    b_present: bool,
)
    ensures
        ({
            let r = spec_predict_skip_mv(a, b, c, a_present, b_present);
            let still = |n: Neighbour| n.ref_idx == 0 && n.mv.0 == 0 && n.mv.1 == 0;
            &&& !(a_present && b_present) ==> r.0 == 0 && r.1 == 0
            &&& still(a) || still(b) ==> r.0 == 0 && r.1 == 0
            &&& a_present && b_present && !still(a) && !still(b) ==> r == spec_predict_mv(
                a,
                b,
                c,
                0,
                Partition::Other,
            )
        }),
{
}

} // verus!
