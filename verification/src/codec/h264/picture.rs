//! Decoded pictures and the reference picture buffer.
//!
//! Output order is decode order and there are no long-term references, so the
//! buffer is a short queue of recent pictures: reference index 0 is the most
//! recent one, and the oldest is dropped when it fills.
use vstd::prelude::*;
use std::time::Duration;
use super::inter::{Plane, Samples};
use super::math::{
    in_window, lemma_raster, lemma_raster_inverse, lemma_rows, lemma_same_place,
};
use super::neighbour::{Grid, Neighbourhood};
use crate::error::Error;
use crate::text::{numbered, signed};
use crate::media::Frame;

verus! {

/// A decoded picture, in 4:2:0 planar 8-bit. Dimensions are the coded ones, a
/// whole number of macroblocks; cropping happens on the way out.
#[derive(Debug, Clone)]
pub struct Picture {
    pub width: usize,
    pub height: usize,
    pub planes: [Vec<u8>; 3],
    pub strides: [usize; 3],
    /// The slice header's `frame_num`, which reference lists are ordered by.
    pub frame_num: u16,
}

/// The samples of a picture as a mathematical value: rows follow each other
/// without gaps.
#[verifier::ext_equal]
pub struct Canvas {
    pub width: int,
    pub height: int,
    pub planes: Seq<Seq<u8>>,
}

impl Canvas {
    /// Samples per row of a plane.
    pub open spec fn stride(self, plane: int) -> int {
        if plane == 0 {
            self.width
        } else {
            self.width / 2
        }
    }

    /// Rows of a plane.
    pub open spec fn rows(self, plane: int) -> int {
        if plane == 0 {
            self.height
        } else {
            self.height / 2
        }
    }

    /// Whole macroblocks, and a sample at every place of the three planes.
    pub open spec fn wf(self) -> bool {
        &&& self.width % 16 == 0
        &&& self.height % 16 == 0
        &&& 0 <= self.width
        &&& 0 <= self.height
        &&& self.width * self.height <= usize::MAX
        &&& self.planes.len() == 3
        &&& self.planes[0].len() == self.width * self.height
        &&& self.planes[1].len() == (self.width / 2) * (self.height / 2)
        &&& self.planes[2].len() == (self.width / 2) * (self.height / 2)
    }

    /// A plane as inter prediction reads it.
    pub open spec fn samples(self, plane: int) -> Samples {
        Samples {
            data: self.planes[plane],
            width: self.stride(plane),
            height: self.rows(plane),
            stride: self.stride(plane),
        }
    }

    /// One plane replaced.
    pub open spec fn with_plane(self, plane: int, data: Seq<u8>) -> Canvas {
        Canvas { planes: self.planes.update(plane, data), ..self }
    }
}

/// Side of a macroblock in samples of a plane.
pub open spec fn mb_side(plane: int) -> int {
    if plane == 0 {
        16
    } else {
        8
    }
}

/// The macroblock that place `k` of a plane belongs to.
pub open spec fn mb_of(width_mbs: int, plane: int, k: int) -> int {
    let side = mb_side(plane);
    let stride = width_mbs * side;
    (k / stride / side) * width_mbs + (k % stride) / side
}

/// How many of the first `n` macroblocks no slice claimed.
pub open spec fn unclaimed(slice: Seq<Option<u32>>, n: nat) -> nat
    decreases n,
{
    if n == 0 {
        0
    } else {
        unclaimed(slice, (n - 1) as nat) + if slice[n - 1] is None {
            1nat
        } else {
            0
        }
    }
}

/// Sample `k` of a plane with every macroblock that no slice claimed painted
/// grey.
pub open spec fn greyed(c: Canvas, grid: Grid, plane: int, k: int) -> u8 {
    if grid.spec_slice_of(mb_of(grid.width, plane, k)) is None {
        128
    } else {
        c.planes[plane][k]
    }
}

impl View for Picture {
    type V = Canvas;

    open spec fn view(&self) -> Canvas {
        Canvas {
            width: self.width as int,
            height: self.height as int,
            planes: Seq::new(3, |i: int| self.planes@[i]@),
        }
    }
}

/// Fill the `w` by `h` window of a plane at `(x0, y0)` with one value.
fn fill_window(plane: &mut Vec<u8>, stride: usize, x0: usize, y0: usize, w: usize, h: usize, v: u8)
    requires
        0 < stride,
        x0 + w <= stride,
        (y0 + h) * stride <= old(plane)@.len(),
    ensures
        final(plane)@.len() == old(plane)@.len(),
        forall|k: int|
            0 <= k < old(plane)@.len() ==> (#[trigger] final(plane)@[k]) == if in_window(
                k,
                stride as int,
                x0 as int,
                y0 as int,
                w as int,
                h as int,
            ) {
                v
            } else {
                old(plane)@[k]
            },
{
    let len: usize = plane.len();
    for i in 0..h
        invariant
            0 < stride,
            x0 + w <= stride,
            (y0 + h) * stride <= len,
            plane@.len() == len,
            len == old(plane)@.len(),
            forall|k: int|
                0 <= k < len ==> (#[trigger] plane@[k]) == if in_window(
                    k,
                    stride as int,
                    x0 as int,
                    y0 as int,
                    w as int,
                    i as int,
                ) {
                    v
                } else {
                    old(plane)@[k]
                },
    {
        proof {
            lemma_rows(stride as int, y0 + i, y0 + h);
            lemma_raster(stride as int, 0, y0 + i);
        }
        let row: usize = (y0 + i) * stride;
        for j in 0..w
            invariant
                0 < stride,
                x0 + w <= stride,
                i < h,
                row == (y0 + i) * stride,
                row + stride <= len,
                plane@.len() == len,
                len == old(plane)@.len(),
                forall|k: int|
                    0 <= k < len ==> (#[trigger] plane@[k]) == if in_window(
                        k,
                        stride as int,
                        x0 as int,
                        y0 as int,
                        w as int,
                        i as int,
                    ) || in_window(k, stride as int, x0 as int, y0 + i, j as int, 1) {
                        v
                    } else {
                        old(plane)@[k]
                    },
        {
            let ghost before = plane@;
            let at: usize = row + x0 + j;
            plane[at] = v;
            proof {
                lemma_raster(stride as int, x0 + j, y0 + i);
            }
            assert forall|k: int| 0 <= k < len implies (#[trigger] plane@[k]) == if in_window(
                k,
                stride as int,
                x0 as int,
                y0 as int,
                w as int,
                i as int,
            ) || in_window(k, stride as int, x0 as int, y0 + i, j + 1, 1) {
                v
            } else {
                old(plane)@[k]
            } by {
                if k != at {
                    assert(plane@[k] == before[k]);
                    if k % stride as int == x0 + j && k / stride as int == y0 + i {
                        lemma_same_place(stride as int, k, x0 + j, y0 + i);
                    }
                }
            }
        }
    }
}

/// A place lies in a macroblock's window exactly if it belongs to the
/// macroblock.
proof fn lemma_mb_window(width_mbs: int, height_mbs: int, plane: int, addr: int, k: int)
    requires
        0 < width_mbs,
        0 <= addr < width_mbs * height_mbs,
        0 <= plane < 3,
        0 <= k,
    ensures
        ({
            let side = mb_side(plane);
            in_window(
                k,
                width_mbs * side,
                (addr % width_mbs) * side,
                (addr / width_mbs) * side,
                side,
                side,
            ) <==> mb_of(width_mbs, plane, k) == addr
        }),
{
    let side = mb_side(plane);
    let stride = width_mbs * side;
    assert(stride > 0) by (nonlinear_arith)
        requires
            width_mbs > 0,
            side > 0,
            stride == width_mbs * side,
    ;
    let x = k % stride;
    let y = k / stride;
    let (rx, ry) = (x / side, y / side);
    vstd::arithmetic::div_mod::lemma_div_pos_is_pos(k, stride);
    assert(0 <= rx < width_mbs) by (nonlinear_arith)
        requires
            0 <= x < width_mbs * side,
            rx == x / side,
            side > 0,
    ;
    lemma_raster(width_mbs, rx, ry);
    lemma_raster_inverse(width_mbs, height_mbs, addr);
    if side == 16 {
        assert(x / 16 == addr % width_mbs <==> (addr % width_mbs) * 16 <= x < (addr % width_mbs) * 16
            + 16);
        assert(y / 16 == addr / width_mbs <==> (addr / width_mbs) * 16 <= y < (addr / width_mbs) * 16
            + 16);
    } else {
        assert(x / 8 == addr % width_mbs <==> (addr % width_mbs) * 8 <= x < (addr % width_mbs) * 8
            + 8);
        assert(y / 8 == addr / width_mbs <==> (addr / width_mbs) * 8 <= y < (addr / width_mbs) * 8
            + 8);
    }
}

/// The window of a macroblock lies inside its plane.
pub proof fn lemma_mb_inside(width_mbs: int, height_mbs: int, addr: int, side: int)
    requires
        0 < width_mbs,
        0 <= addr < width_mbs * height_mbs,
        0 < side,
    ensures
        0 <= addr % width_mbs < width_mbs,
        0 <= addr / width_mbs < height_mbs,
        (addr % width_mbs) * side + side <= width_mbs * side,
        (addr / width_mbs) * side + side <= height_mbs * side,
        ((addr / width_mbs) * side + side) * (width_mbs * side) <= (height_mbs * side) * (width_mbs
            * side),
{
    lemma_raster_inverse(width_mbs, height_mbs, addr);
    let (x, y) = (addr % width_mbs, addr / width_mbs);
    assert(x * side + side <= width_mbs * side) by (nonlinear_arith)
        requires
            x + 1 <= width_mbs,
            side > 0,
    ;
    assert(y * side + side <= height_mbs * side) by (nonlinear_arith)
        requires
            y + 1 <= height_mbs,
            side > 0,
    ;
    assert(0 <= width_mbs * side) by (nonlinear_arith)
        requires
            0 < width_mbs,
            0 < side,
    ;
    assert((y * side + side) * (width_mbs * side) <= (height_mbs * side) * (width_mbs * side))
        by (nonlinear_arith)
        requires
            y * side + side <= height_mbs * side,
            0 <= width_mbs * side,
    ;
}

impl Picture {
    /// Whole macroblocks, and the rows of the planes follow without gaps.
    pub open spec fn wf(self) -> bool {
        &&& self@.wf()
        &&& self.strides@[0] == self.width
        &&& self.strides@[1] == self.width / 2
        &&& self.strides@[2] == self.width / 2
    }

    /// Whether this picture is the size a stream needs.
    pub fn is_sized(&self, width_mbs: usize, height_mbs: usize) -> (r: bool)
        ensures
            r <==> self.width == width_mbs * 16 && self.height == height_mbs * 16,
    {
        self.width % 16 == 0 && self.width / 16 == width_mbs && self.height % 16 == 0 && self.height
            / 16 == height_mbs
    }

    /// Makes a recycled picture ready for a new decode. The planes keep what they
    /// hold: a complete picture overwrites every sample.
    pub fn reset(&mut self)
        ensures
            *final(self) == (Picture { frame_num: 0, ..*old(self) }),
    {
        self.frame_num = 0;
    }

    /// Paints mid-grey into every macroblock no slice claimed, and counts them.
    pub fn grey_uncovered(&mut self, neighbourhood: &Neighbourhood) -> (count: usize)
        requires
            old(self).wf(),
            neighbourhood.wf(),
            neighbourhood.width * 16 == old(self).width,
            neighbourhood.height * 16 == old(self).height,
        ensures
            final(self).wf(),
            final(self).width == old(self).width,
            final(self).height == old(self).height,
            final(self).frame_num == old(self).frame_num,
            forall|p: int, k: int|
                0 <= p < 3 && 0 <= k < old(self)@.planes[p].len() ==> (
                #[trigger] final(self)@.planes[p][k]) == greyed(
                    old(self)@,
                    neighbourhood@,
                    p,
                    k,
                ),
            count == unclaimed(neighbourhood@.slice, neighbourhood@.slice.len()),
    {
        let ghost c = self@;
        let ghost (wm, hm) = (neighbourhood.width as int, neighbourhood.height as int);
        let n: usize = neighbourhood.len();
        let mut count: usize = 0;
        assert(c.width / 2 == wm * 8 && c.height / 2 == hm * 8);
        assert forall|p: int, k: int| 0 <= p < 3 && 0 <= k < (
        #[trigger] c.planes[p]).len() implies 0 <= #[trigger] mb_of(wm, p, k) < n by {
            lemma_place_has_mb(wm, hm, p, k);
        }
        for addr in 0..n
            invariant
                c == old(self)@,
                c.wf(),
                self.wf(),
                neighbourhood.wf(),
                n == neighbourhood@.slice.len(),
                wm == neighbourhood.width,
                hm == neighbourhood.height,
                self.width == wm * 16,
                self.height == hm * 16,
                self.width == old(self).width,
                self.height == old(self).height,
                self.frame_num == old(self).frame_num,
                count <= addr,
                count == unclaimed(neighbourhood@.slice, addr as nat),
                forall|p: int, k: int|
                    0 <= p < 3 && 0 <= k < c.planes[p].len() ==> (#[trigger] self@.planes[p][k])
                        == if mb_of(wm, p, k) < addr {
                        greyed(c, neighbourhood@, p, k)
                    } else {
                        c.planes[p][k]
                    },
        {
            proof {
                assert(wm > 0) by (nonlinear_arith)
                    requires
                        0 <= addr < wm * hm,
                        wm >= 0,
                ;
            }
            let ghost before = self@;
            if neighbourhood.slice_of(addr).is_none() {
                proof {
                    lemma_mb_inside(wm, hm, addr as int, 16);
                    lemma_mb_inside(wm, hm, addr as int, 8);
                    assert((hm * 16) * (wm * 16) == self.width * self.height) by (nonlinear_arith)
                        requires
                            self.width == wm * 16,
                            self.height == hm * 16,
                    ;
                    assert((hm * 8) * (wm * 8) == (self.width / 2) * (self.height / 2)) by {
                        assert(self.width / 2 == wm * 8 && self.height / 2 == hm * 8);
                        assert((hm * 8) * (wm * 8) == (wm * 8) * (hm * 8)) by (nonlinear_arith);
                    }
                }
                let (x, y) = neighbourhood.origin(addr);
                let stride: usize = self.strides[0];
                fill_window(&mut self.planes[0], stride, x, y, 16, 16, 128);
                let stride: usize = self.strides[1];
                fill_window(&mut self.planes[1], stride, x / 2, y / 2, 8, 8, 128);
                fill_window(&mut self.planes[2], stride, x / 2, y / 2, 8, 8, 128);
                count = count + 1;
                assert forall|p: int, k: int| 0 <= p < 3 && 0 <= k < c.planes[p].len() implies (
                #[trigger] self@.planes[p][k]) == if mb_of(wm, p, k) < addr + 1 {
                    greyed(c, neighbourhood@, p, k)
                } else {
                    c.planes[p][k]
                } by {
                    lemma_mb_window(wm, hm, p, addr as int, k);
                    assert(before.planes[p][k] == if mb_of(wm, p, k) < addr {
                        greyed(c, neighbourhood@, p, k)
                    } else {
                        c.planes[p][k]
                    });
                }
            } else {
                assert forall|p: int, k: int| 0 <= p < 3 && 0 <= k < c.planes[p].len() implies (
                #[trigger] self@.planes[p][k]) == if mb_of(wm, p, k) < addr + 1 {
                    greyed(c, neighbourhood@, p, k)
                } else {
                    c.planes[p][k]
                } by {}
            }
        }
        assert forall|p: int, k: int| 0 <= p < 3 && 0 <= k < c.planes[p].len() implies (
        #[trigger] self@.planes[p][k]) == greyed(c, neighbourhood@, p, k) by {
            assert(0 <= mb_of(wm, p, k) < n);
        }
        count
    }

    /// An all-grey picture of `width_mbs` by `height_mbs` macroblocks.
    pub fn new(width_mbs: usize, height_mbs: usize) -> (r: Self)
        requires
            width_mbs * 16 <= usize::MAX,
            height_mbs * 16 <= usize::MAX,
            (width_mbs * 16) * (height_mbs * 16) <= usize::MAX,
        ensures
            r.wf(),
            r.width == width_mbs * 16,
            r.height == height_mbs * 16,
            r.frame_num == 0,
            forall|p: int, k: int|
                0 <= p < 3 && 0 <= k < r@.planes[p].len() ==> (#[trigger] r@.planes[p][k]) == 128,
    {
        let width: usize = width_mbs * 16;
        let height: usize = height_mbs * 16;
        let cw: usize = width / 2;
        let ch: usize = height / 2;
        assert(cw * ch <= width * height) by (nonlinear_arith)
            requires
                0 <= cw <= width,
                0 <= ch <= height,
        ;
        Picture {
            width,
            height,
            planes: [grey(width * height), grey(cw * ch), grey(cw * ch)],
            strides: [width, cw, cw],
            frame_num: 0,
        }
    }

    /// The luma plane, as inter prediction reads it.
    pub fn luma(&self) -> (p: Plane<'_>)
        requires
            self.wf(),
        ensures
            p@ == self@.samples(0),
            p.width == self.width,
            p.height == self.height,
            p.stride == self.strides@[0],
    {
        Plane {
            data: self.planes[0].as_slice(),
            width: self.width,
            height: self.height,
            stride: self.strides[0],
        }
    }

    /// One chroma plane, `comp` being 0 for the first.
    pub fn chroma(&self, comp: usize) -> (p: Plane<'_>)
        requires
            self.wf(),
            comp < 2,
        ensures
            p@ == self@.samples(comp + 1),
            p.width == self.width / 2,
            p.height == self.height / 2,
            p.stride == self.strides@[comp + 1],
    {
        Plane {
            data: self.planes[comp + 1].as_slice(),
            width: self.width / 2,
            height: self.height / 2,
            stride: self.strides[comp + 1],
        }
    }

    /// Copies out the display rectangle as a [`Frame`].
    pub fn to_frame(&self, crop: Cropping, pts: Duration) -> (frame: Frame)
        requires
            self.wf(),
            crop.fits(self.width as int, self.height as int),
            self.width <= u32::MAX,
            self.height <= u32::MAX,
        ensures
            frame.pts == pts,
            (frame.width as int, frame.height as int) == crop.spec_display_size(
                self.width as int,
                self.height as int,
            ),
            frame.concealed_macroblocks == 0,
            frame.strides@[0] == frame.width,
            frame.strides@[1] == (frame.width as int + 1) / 2,
            frame.strides@[2] == (frame.width as int + 1) / 2,
            frame.planes@[0]@ == cropped(
                self@,
                0,
                crop.left as int,
                crop.top as int,
                frame.width as int,
                frame.height as int,
            ),
            forall|p: int|
                1 <= p < 3 ==> (#[trigger] frame.planes@[p])@ == cropped(
                    self@,
                    p,
                    crop.left as int / 2,
                    crop.top as int / 2,
                    (frame.width as int + 1) / 2,
                    (frame.height as int + 1) / 2,
                ),
    {
        let (width, height) = crop.display_size(self.width, self.height);
        let cw: usize = width / 2 + width % 2;
        let ch: usize = height / 2 + height % 2;
        let y: Vec<u8> = self.crop_plane(0, crop.left, crop.top, width, height);
        let u: Vec<u8> = self.crop_plane(1, crop.left / 2, crop.top / 2, cw, ch);
        let v: Vec<u8> = self.crop_plane(2, crop.left / 2, crop.top / 2, cw, ch);
        Frame {
            pts,
            width: width as u32,
            height: height as u32,
            planes: [y, u, v],
            strides: [width, cw, cw],
            concealed_macroblocks: 0,
        }
    }

    /// Copies a rectangle of one plane out, row by row.
    fn crop_plane(&self, plane: usize, x: usize, y: usize, width: usize, height: usize) -> (out: Vec<
        u8,
    >)
        requires
            self.wf(),
            plane < 3,
            0 < width,
            0 < height,
            window_fits(
                x as int,
                y as int,
                width as int,
                height as int,
                self@.stride(plane as int),
                self@.rows(plane as int),
            ),
        ensures
            out@ == cropped(
                self@,
                plane as int,
                x as int,
                y as int,
                width as int,
                height as int,
            ),
    {
        let stride: usize = self.strides[plane];
        let len: usize = self.planes[plane].len();
        let ghost target = cropped(
            self@,
            plane as int,
            x as int,
            y as int,
            width as int,
            height as int,
        );
        let ghost data = self@.planes[plane as int];
        let mut out: Vec<u8> = Vec::new();
        assert(0 * width == 0);
        for row in 0..height
            invariant
                self.wf(),
                plane < 3,
                0 < width,
                stride == self@.stride(plane as int),
                data == self@.planes[plane as int],
                data.len() == len,
                len == self.planes@[plane as int]@.len(),
                len == stride * self@.rows(plane as int),
                (y + height - 1) * stride + x + width <= len,
                out@.len() == row * width,
                forall|k: int|
                    0 <= k < out@.len() ==> (#[trigger] out@[k]) == data[(y + k / width as int)
                        * stride + x + k % width as int],
        {
            let ghost before = out@;
            proof {
                lemma_row_before(stride as int, y + row, y + height - 1);
                assert(stride > 0) by (nonlinear_arith)
                    requires
                        0 <= stride,
                        0 < stride * self@.rows(plane as int),
                ;
                assert(y + row <= (y + row) * stride) by (nonlinear_arith)
                    requires
                        0 <= y + row,
                        stride >= 1,
                ;
                lemma_raster(width as int, 0, row as int);
            }
            let start: usize = (y + row) * stride + x;
            out.extend_from_slice(&self.planes[plane][start..start + width]);
            assert forall|k: int| 0 <= k < out@.len() implies (#[trigger] out@[k]) == data[(y + k
                / width as int) * stride + x + k % width as int] by {
                if k < before.len() {
                    assert(out@[k] == before[k]);
                } else {
                    lemma_raster(width as int, k - row * width, row as int);
                }
            }
        }
        assert(width * height == height * width) by (nonlinear_arith);
        assert(out@ =~= target);
        out
    }
}

/// A row begins no later than one behind it.
proof fn lemma_row_before(stride: int, row: int, last: int)
    by (nonlinear_arith)
    requires
        0 <= stride,
        row <= last,
    ensures
        row * stride <= last * stride,
{
}

/// A plane of `n` mid-grey samples.
fn grey(n: usize) -> (plane: Vec<u8>)
    ensures
        plane@.len() == n,
        forall|k: int| 0 <= k < n ==> (#[trigger] plane@[k]) == 128,
{
    vec![128u8; n]
}

/// Every place of a plane belongs to a macroblock of the picture.
proof fn lemma_place_has_mb(width_mbs: int, height_mbs: int, plane: int, k: int)
    requires
        0 <= width_mbs,
        0 <= height_mbs,
        0 <= plane < 3,
        0 <= k < (width_mbs * mb_side(plane)) * (height_mbs * mb_side(plane)),
    ensures
        0 <= mb_of(width_mbs, plane, k) < width_mbs * height_mbs,
{
    let side = mb_side(plane);
    let stride = width_mbs * side;
    let area = (width_mbs * side) * (height_mbs * side);
    assert(width_mbs == 0 || height_mbs == 0 ==> area == 0) by (nonlinear_arith)
        requires
            area == (width_mbs * side) * (height_mbs * side),
    ;
    assert(stride > 0) by (nonlinear_arith)
        requires
            width_mbs > 0,
            side > 0,
            stride == width_mbs * side,
    ;
    lemma_raster_inverse(stride, height_mbs * side, k);
    let x = k % stride;
    let y = k / stride;
    assert(0 <= x / side < width_mbs) by (nonlinear_arith)
        requires
            0 <= x < width_mbs * side,
            side > 0,
    ;
    assert(0 <= y / side < height_mbs) by (nonlinear_arith)
        requires
            0 <= y < height_mbs * side,
            side > 0,
    ;
    lemma_raster(width_mbs, x / side, y / side);
    lemma_rows(width_mbs, y / side, height_mbs);
    assert(width_mbs * height_mbs == height_mbs * width_mbs) by (nonlinear_arith);
}

/// A rectangle of a plane, row by row.
pub open spec fn cropped(
    c: Canvas,
    plane: int,
    x: int,
    y: int,
    width: int,
    height: int,
) -> Seq<u8> {
    Seq::new(
        (width * height) as nat,
        |k: int| c.planes[plane][(y + k / width) * c.stride(plane) + x + k % width],
    )
}

/// The last row of a rectangle ends within a plane of the given size.
pub open spec fn window_fits(
    x: int,
    y: int,
    width: int,
    height: int,
    stride: int,
    rows: int,
) -> bool {
    (y + height - 1) * stride + x + width <= stride * rows
}

/// Whether the last row of a rectangle ends within a plane of the given size.
fn check_window(
    x: usize,
    y: usize,
    width: usize,
    height: usize,
    stride: usize,
    rows: usize,
) -> (r: bool)
    requires
        height > 0,
        stride <= 0x4000_0000,
        rows <= 0x4000_0000,
    ensures
        r == window_fits(
            x as int,
            y as int,
            width as int,
            height as int,
            stride as int,
            rows as int,
        ),
{
    let last: u128 = y as u128 + height as u128 - 1;
    let (s, n): (u128, u128) = (stride as u128, rows as u128);
    assert(last * s <= 0x2_0000_0000_0000_0000 * 0x4000_0000) by (nonlinear_arith)
        requires
            last <= 0x2_0000_0000_0000_0000,
            s <= 0x4000_0000,
    ;
    assert(s * n <= 0x4000_0000 * 0x4000_0000) by (nonlinear_arith)
        requires
            s <= 0x4000_0000,
            n <= 0x4000_0000,
    ;
    last * s + x as u128 + width as u128 <= s * n
}

/// The display rectangle, as an inset from the coded picture in luma samples.
#[derive(Debug, Clone, Copy, PartialEq, Eq, Structural)]
pub struct Cropping {
    pub left: usize,
    pub right: usize,
    pub top: usize,
    pub bottom: usize,
}

impl Default for Cropping {
    fn default() -> (c: Self)
        ensures
            c == (Cropping { left: 0, right: 0, top: 0, bottom: 0 }),
    {
        Cropping { left: 0, right: 0, top: 0, bottom: 0 }
    }
}

impl Cropping {
    /// The visible size of a coded picture, never less than one sample.
    pub open spec fn spec_display_size(self, width: int, height: int) -> (int, int) {
        (
            if width - (self.left + self.right) > 1 {
                width - (self.left + self.right)
            } else {
                1
            },
            if height - (self.top + self.bottom) > 1 {
                height - (self.top + self.bottom)
            } else {
                1
            },
        )
    }

    /// The offsets can be added.
    pub open spec fn adds(self) -> bool {
        &&& self.left + self.right <= usize::MAX
        &&& self.top + self.bottom <= usize::MAX
    }

    /// The samples of the display rectangle are there in a picture of the given
    /// size.
    pub open spec fn fits(self, width: int, height: int) -> bool {
        let (w, h) = self.spec_display_size(width, height);
        &&& self.adds()
        &&& window_fits(self.left as int, self.top as int, w, h, width, height)
        &&& window_fits(
            self.left as int / 2,
            self.top as int / 2,
            (w + 1) / 2,
            (h + 1) / 2,
            width / 2,
            height / 2,
        )
    }

    /// Whether the samples of the display rectangle are there.
    pub fn check(&self, width: usize, height: usize) -> (r: bool)
        requires
            self.adds(),
            width <= 0x4000_0000,
            height <= 0x4000_0000,
        ensures
            r == self.fits(width as int, height as int),
    {
        let (w, h) = self.display_size(width, height);
        check_window(self.left, self.top, w, h, width, height) && check_window(
            self.left / 2,
            self.top / 2,
            w / 2 + w % 2,
            h / 2 + h % 2,
            width / 2,
            height / 2,
        )
    }

    /// The crop that offsets in chroma samples ask for: each is worth two luma
    /// samples.
    pub fn from_sps_offsets(left: u32, right: u32, top: u32, bottom: u32) -> (c: Self)
        requires
            left * 2 <= usize::MAX,
            right * 2 <= usize::MAX,
            top * 2 <= usize::MAX,
            bottom * 2 <= usize::MAX,
        ensures
            c.left == left * 2,
            c.right == right * 2,
            c.top == top * 2,
            c.bottom == bottom * 2,
    {
        Cropping {
            left: left as usize * 2,
            right: right as usize * 2,
            top: top as usize * 2,
            bottom: bottom as usize * 2,
        }
    }

    /// The visible size of a coded picture of the given dimensions.
    pub fn display_size(&self, width: usize, height: usize) -> (r: (usize, usize))
        requires
            self.adds(),
        ensures
            (r.0 as int, r.1 as int) == self.spec_display_size(width as int, height as int),
    {
        let across: usize = self.left + self.right;
        let down: usize = self.top + self.bottom;
        (
            if width > across && width - across > 1 {
                width - across
            } else {
                1
            },
            if height > down && height - down > 1 {
                height - down
            } else {
                1
            },
        )
    }
}

/// One command of a reference list modification: how the predicted picture
/// number moves before it names a picture. Long-term commands do not occur.
#[derive(Debug, Clone, Copy, PartialEq, Eq, Structural)]
pub enum RefListMod {
    /// Down by one more than the number.
    Subtract(u32),
    /// Up by one more than the number.
    Add(u32),
}

/// How a decoded picture updates the reference buffer.
#[derive(Debug, Clone, PartialEq, Eq)]
pub enum RefMarking {
    /// Display only, never a reference.
    NonReference,
    /// A reference; the oldest goes when the buffer is full.
    SlidingWindow,
    /// A reference, after explicit operations.
    Adaptive(Vec<MmcoOp>),
    /// A reference after which nothing earlier is one.
    Idr,
}

/// Memory management control operations this decoder accepts.
#[derive(Debug, Clone, Copy, PartialEq, Eq, Structural)]
pub enum MmcoOp {
    /// The picture one more than this number before the current one is no longer
    /// a reference.
    ShortTermUnused { difference_of_pic_nums_minus1: u32 },
    /// No picture is a reference any longer.
    AllUnused,
}

/// The reference pictures available for prediction, most recent first.
#[derive(Debug)]
pub struct Dpb {
    pub refs: Vec<Picture>,
    pub capacity: usize,
    pub max_frame_num: u32,
}

/// A picture's number relative to the current one, so that order survives the
/// counter wrapping.
pub open spec fn spec_pic_num(frame_num: int, current: int, max_frame_num: int) -> int {
    if frame_num > current {
        frame_num - max_frame_num
    } else {
        frame_num
    }
}

/// Spec-level numbers of the stored pictures.
pub open spec fn pic_nums(refs: Seq<Picture>, current: int, max_frame_num: int) -> Seq<int> {
    Seq::new(
        refs.len(),
        |i: int| spec_pic_num(refs[i].frame_num as int, current, max_frame_num),
    )
}

/// The first place a number stands at, or the length if it stands nowhere.
pub open spec fn place_of(nums: Seq<int>, num: int) -> int
    decreases nums.len(),
{
    if nums.len() == 0 {
        0
    } else if nums[0] == num {
        0
    } else {
        1 + place_of(nums.drop_first(), num)
    }
}

/// `place_of` is the first place with the number.
pub proof fn lemma_place_of(nums: Seq<int>, num: int)
    ensures
        0 <= place_of(nums, num) <= nums.len(),
        place_of(nums, num) < nums.len() ==> nums[place_of(nums, num)] == num,
        forall|i: int| 0 <= i < place_of(nums, num) ==> nums[i] != num,
    decreases nums.len(),
{
    if nums.len() > 0 && nums[0] != num {
        lemma_place_of(nums.drop_first(), num);
        assert forall|i: int| 0 <= i < place_of(nums, num) implies nums[i] != num by {
            if i > 0 {
                assert(nums[i] == nums.drop_first()[i - 1]);
            }
        }
    }
}

/// A place with the number, none before it having it, is the first.
proof fn lemma_is_place_of(nums: Seq<int>, num: int, at: int)
    requires
        0 <= at <= nums.len(),
        at < nums.len() ==> nums[at] == num,
        forall|i: int| 0 <= i < at ==> nums[i] != num,
    ensures
        place_of(nums, num) == at,
{
    lemma_place_of(nums, num);
}

/// The first place of the smallest number.
pub open spec fn is_first_minimum(nums: Seq<int>, at: int) -> bool {
    &&& 0 <= at < nums.len()
    &&& forall|i: int| 0 <= i < nums.len() ==> nums[at] <= #[trigger] nums[i]
    &&& forall|i: int| 0 <= i < at ==> nums[at] < #[trigger] nums[i]
}

/// The predicted picture number after a modification command, kept inside the
/// counter's range.
pub open spec fn moved_prediction(pred: int, command: RefListMod, max_pic_num: int) -> int {
    match command {
        RefListMod::Subtract(v) => if pred - (v + 1) < 0 {
            pred - (v + 1) + max_pic_num
        } else {
            pred - (v + 1)
        },
        RefListMod::Add(v) => if pred + (v + 1) >= max_pic_num {
            pred + (v + 1) - max_pic_num
        } else {
            pred + (v + 1)
        },
    }
}

/// The entries of part of a list that name a picture other than number `num`,
/// in order.
pub open spec fn others(list: Seq<Option<int>>, nums: Seq<int>, num: int) -> Seq<Option<int>>
    decreases list.len(),
{
    if list.len() == 0 {
        Seq::empty()
    } else {
        let rest = others(list.drop_last(), nums, num);
        if list.last() is Some && nums[list.last()->0] != num {
            rest.push(list.last())
        } else {
            rest
        }
    }
}

/// A list of places extended with nothing to a length.
pub open spec fn padded(list: Seq<Option<int>>, len: nat) -> Seq<Option<int>> {
    Seq::new(
        len,
        |i: int|
            if i < list.len() {
                list[i]
            } else {
                None
            },
    )
}

/// A list with the picture at place `found` moved to place `at`: what follows
/// shifts up, and the picture's other occurrences close up.
pub open spec fn moved_to(
    list: Seq<Option<int>>,
    at: int,
    found: int,
    nums: Seq<int>,
    num_active: int,
) -> Seq<Option<int>> {
    padded(
        list.take(at).push(Some(found)) + others(
            list.subrange(at, num_active),
            nums,
            nums[found],
        ),
        (num_active + 1) as nat,
    )
}

/// A list after the modification commands from the `at`-th on; `None` if one of
/// them names a picture that is not there.
pub open spec fn modified(
    list: Seq<Option<int>>,
    at: int,
    pred: int,
    mods: Seq<RefListMod>,
    nums: Seq<int>,
    current: int,
    max_pic_num: int,
    num_active: int,
) -> Option<Seq<Option<int>>>
    decreases mods.len() - at,
{
    if at >= mods.len() {
        Some(list)
    } else {
        let next = moved_prediction(pred, mods[at], max_pic_num);
        let num = if next > current {
            next - max_pic_num
        } else {
            next
        };
        let found = place_of(nums, num);
        if found >= nums.len() {
            None
        } else {
            modified(
                moved_to(list, at, found, nums, num_active),
                at + 1,
                next,
                mods,
                nums,
                current,
                max_pic_num,
                num_active,
            )
        }
    }
}

/// The number of the first picture that the modification commands from the
/// `at`-th on name and that is not there.
pub open spec fn absent_in_mods(
    at: int,
    pred: int,
    mods: Seq<RefListMod>,
    nums: Seq<int>,
    current: int,
    max_pic_num: int,
) -> int
    decreases mods.len() - at,
{
    if at >= mods.len() {
        0
    } else {
        let next = moved_prediction(pred, mods[at], max_pic_num);
        let num = if next > current {
            next - max_pic_num
        } else {
            next
        };
        if place_of(nums, num) >= nums.len() {
            num
        } else {
            absent_in_mods(at + 1, next, mods, nums, current, max_pic_num)
        }
    }
}

/// The message for modification commands that name a picture that is not there.
pub open spec fn bad_modification(
    mods: Seq<RefListMod>,
    nums: Seq<int>,
    current: int,
    max_pic_num: int,
) -> Seq<char> {
    "ref_pic_list_modification targets missing PicNum "@ + signed(
        absent_in_mods(0, current, mods, nums, current, max_pic_num),
    )
}

/// The places of a list up to the first that is empty, `limit` of them at most.
pub open spec fn leading(list: Seq<Option<int>>, limit: int) -> Seq<int>
    decreases limit,
{
    if limit <= 0 {
        Seq::empty()
    } else {
        let before = leading(list, limit - 1);
        if before.len() == limit - 1 && list[limit - 1] is Some {
            before.push(list[limit - 1]->0)
        } else {
            before
        }
    }
}

/// Reference list 0 as places among the stored pictures: their own order,
/// modified, cut to the number of active references.
pub open spec fn spec_list0(
    nums: Seq<int>,
    current: int,
    max_pic_num: int,
    mods: Seq<RefListMod>,
    num_active: int,
) -> Option<Seq<int>> {
    let active = if num_active > 1 {
        num_active
    } else {
        1
    };
    let plain = padded(Seq::new(nums.len(), |i: int| Some(i)), (active + 1) as nat);
    match modified(plain, 0, current, mods, nums, current, max_pic_num, active) {
        Some(list) => Some(leading(list, active)),
        None => None,
    }
}

/// The buffer and what left it after operations: the pictures still referenced,
/// those no longer referenced, and whether every operation found its picture.
pub open spec fn after_mmco(
    refs: Seq<Picture>,
    freed: Seq<Picture>,
    ops: Seq<MmcoOp>,
    current: int,
    max_frame_num: int,
) -> (Seq<Picture>, Seq<Picture>, bool)
    decreases ops.len(),
{
    if ops.len() == 0 {
        (refs, freed, true)
    } else {
        match ops[0] {
            MmcoOp::AllUnused => after_mmco(
                Seq::empty(),
                freed + refs,
                ops.drop_first(),
                current,
                max_frame_num,
            ),
            MmcoOp::ShortTermUnused { difference_of_pic_nums_minus1 } => {
                let found = place_of(
                    pic_nums(refs, current, max_frame_num),
                    current - (difference_of_pic_nums_minus1 + 1),
                );
                if found >= refs.len() {
                    (refs, freed, false)
                } else {
                    after_mmco(
                        refs.remove(found),
                        freed.push(refs[found]),
                        ops.drop_first(),
                        current,
                        max_frame_num,
                    )
                }
            },
        }
    }
}

/// The number of the first picture that operations name and that is not there.
pub open spec fn absent_in_mmco(
    refs: Seq<Picture>,
    ops: Seq<MmcoOp>,
    current: int,
    max_frame_num: int,
) -> int
    decreases ops.len(),
{
    if ops.len() == 0 {
        0
    } else {
        match ops[0] {
            MmcoOp::AllUnused => absent_in_mmco(
                Seq::empty(),
                ops.drop_first(),
                current,
                max_frame_num,
            ),
            MmcoOp::ShortTermUnused { difference_of_pic_nums_minus1 } => {
                let num = current - (difference_of_pic_nums_minus1 + 1);
                let found = place_of(pic_nums(refs, current, max_frame_num), num);
                if found >= refs.len() {
                    num
                } else {
                    absent_in_mmco(refs.remove(found), ops.drop_first(), current, max_frame_num)
                }
            },
        }
    }
}

/// The message for operations that name a picture that is not there.
pub open spec fn bad_mmco(
    refs: Seq<Picture>,
    ops: Seq<MmcoOp>,
    current: int,
    max_frame_num: int,
) -> Seq<char> {
    "MMCO targets missing PicNum "@ + signed(absent_in_mmco(refs, ops, current, max_frame_num))
}

impl Dpb {
    /// The buffer holds no more than it may.
    pub open spec fn wf(self) -> bool {
        &&& self.capacity >= 1
        &&& self.refs@.len() <= self.capacity
    }

    /// Numbers of the stored pictures relative to the current one.
    pub open spec fn nums(self, current: int) -> Seq<int> {
        pic_nums(self.refs@, current, self.max_frame_num as int)
    }

    /// An empty buffer. It holds at least one picture, or P slices would have
    /// nothing to predict from.
    pub fn new(capacity: usize, max_frame_num: u32) -> (dpb: Self)
        ensures
            dpb.wf(),
            dpb.refs@.len() == 0,
            dpb.capacity == if capacity > 1 {
                capacity
            } else {
                1
            },
            dpb.max_frame_num == max_frame_num,
    {
        Dpb {
            refs: Vec::new(),
            capacity: if capacity > 1 {
                capacity
            } else {
                1
            },
            max_frame_num,
        }
    }

    /// Empties the buffer.
    pub fn clear(&mut self)
        ensures
            final(self).refs@.len() == 0,
            final(self).capacity == old(self).capacity,
            final(self).max_frame_num == old(self).max_frame_num,
    {
        self.refs.clear();
    }

    /// Whether the buffer holds no picture.
    pub fn is_empty(&self) -> (r: bool)
        ensures
            r <==> self.refs@.len() == 0,
    {
        self.refs.len() == 0
    }

    /// How many pictures the buffer holds.
    pub fn len(&self) -> (n: usize)
        ensures
            n == self.refs@.len(),
    {
        self.refs.len()
    }

    /// The picture at index `idx` of the unmodified list.
    pub fn get(&self, idx: usize) -> (r: Option<&Picture>)
        ensures
            r is Some <==> idx < self.refs@.len(),
            r is Some ==> *r->0 == self.refs@[idx as int],
    {
        if idx < self.refs.len() {
            Some(&self.refs[idx])
        } else {
            None
        }
    }

    /// The first stored picture with a number, or the length if there is none.
    fn find(&self, current: u16, num: i64) -> (at: usize)
        ensures
            at == place_of(self.nums(current as int), num as int),
            at <= self.refs@.len(),
    {
        let ghost nums = self.nums(current as int);
        let n: usize = self.refs.len();
        let mut i: usize = 0;
        while i < n
            invariant
                i <= n,
                n == self.refs@.len(),
                nums == self.nums(current as int),
                forall|j: int| 0 <= j < i ==> nums[j] != num,
            decreases n - i,
        {
            if pic_num_of(self.refs[i].frame_num, current, self.max_frame_num) == num {
                proof {
                    lemma_is_place_of(nums, num as int, i as int);
                }
                return i;
            }
            i = i + 1;
        }
        proof {
            lemma_is_place_of(nums, num as int, n as int);
        }
        n
    }

    /// Builds reference list 0 for the current picture: the stored order, the
    /// modifications applied, cut to `num_active` entries.
    pub fn list0(&self, curr_pic_num: u16, mods: &[RefListMod], num_active: usize) -> (r: Result<
        Vec<&Picture>,
        Error,
    >)
        requires
            num_active < usize::MAX,
            mods@.len() <= num_active + 1 || num_active == 0 && mods@.len() <= 2,
        ensures
            match spec_list0(
                self.nums(curr_pic_num as int),
                curr_pic_num as int,
                self.max_frame_num as int,
                mods@,
                num_active as int,
            ) {
                Some(places) => r matches Ok(list) && picks(list@, self.refs@, places),
                None => r matches Err(e) && e.is_decode(
                    bad_modification(
                        mods@,
                        self.nums(curr_pic_num as int),
                        curr_pic_num as int,
                        self.max_frame_num as int,
                    ),
                ),
            },
    {
        let ghost nums = self.nums(curr_pic_num as int);
        let active: usize = if num_active > 1 {
            num_active
        } else {
            1
        };
        let stored: usize = self.refs.len();
        let mut list: Vec<Option<usize>> = Vec::new();
        for i in 0..active + 1
            invariant
                active < usize::MAX,
                list@.len() == i,
                stored == self.refs@.len(),
                forall|j: int|
                    0 <= j < i ==> (#[trigger] list@[j]) == if j < stored {
                        Some(j as usize)
                    } else {
                        None
                    },
        {
            list.push(
                if i < stored {
                    Some(i)
                } else {
                    None
                },
            );
        }
        let ghost plain = padded(Seq::new(nums.len(), |i: int| Some(i)), (active + 1) as nat);
        assert(places(list@) =~= plain);
        let max_pic_num: i64 = self.max_frame_num as i64;
        let current: i64 = curr_pic_num as i64;
        let ghost goal = modified(
            plain,
            0,
            current as int,
            mods@,
            nums,
            current as int,
            max_pic_num as int,
            active as int,
        );
        let mut pred: i64 = current;
        for at in 0..mods.len()
            invariant
                active < usize::MAX,
                active >= 1,
                active == if num_active > 1 {
                    num_active
                } else {
                    1
                },
                mods@.len() <= active + 1,
                nums == self.nums(curr_pic_num as int),
                stored == self.refs@.len(),
                nums.len() == stored,
                list@.len() == active + 1,
                all_below(list@, stored as int),
                max_pic_num == self.max_frame_num,
                current == curr_pic_num,
                -0x1_0000_0000 <= pred <= 0x2_0000_0000,
                goal == modified(
                    places(list@),
                    at as int,
                    pred as int,
                    mods@,
                    nums,
                    current as int,
                    max_pic_num as int,
                    active as int,
                ),
                absent_in_mods(0, current as int, mods@, nums, current as int, max_pic_num as int)
                    == absent_in_mods(
                    at as int,
                    pred as int,
                    mods@,
                    nums,
                    current as int,
                    max_pic_num as int,
                ),
                spec_list0(nums, current as int, max_pic_num as int, mods@, num_active as int)
                    == match goal {
                    Some(list) => Some(leading(list, active as int)),
                    None => None,
                },
        {
            pred = match mods[at] {
                RefListMod::Subtract(v) => {
                    let down: i64 = pred - (v as i64 + 1);
                    if down < 0 {
                        down + max_pic_num
                    } else {
                        down
                    }
                },
                RefListMod::Add(v) => {
                    let up: i64 = pred + (v as i64 + 1);
                    if up >= max_pic_num {
                        up - max_pic_num
                    } else {
                        up
                    }
                },
            };
            let num: i64 = if pred > current {
                pred - max_pic_num
            } else {
                pred
            };
            let found: usize = self.find(curr_pic_num, num);
            proof {
                lemma_place_of(nums, num as int);
            }
            if found >= stored {
                return Err(
                    Error::decode(
                        numbered("ref_pic_list_modification targets missing PicNum ", num).as_str(),
                    ),
                );
            }
            list = self.move_to(&list, at, found, curr_pic_num, active);
        }
        let mut out: Vec<&Picture> = Vec::new();
        let mut i: usize = 0;
        let ghost final_list = places(list@);
        while i < active
            invariant_except_break
                i <= active,
                active < usize::MAX,
                stored == self.refs@.len(),
                list@.len() == active + 1,
                all_below(list@, stored as int),
                final_list == places(list@),
                leading(final_list, i as int).len() == i,
                picks(out@, self.refs@, leading(final_list, i as int)),
            ensures
                picks(out@, self.refs@, leading(final_list, active as int)),
            decreases active - i,
        {
            let Some(place) = list[i] else {
                proof {
                    lemma_leading_stops(final_list, i as int, active as int);
                }
                break;
            };
            proof {
                lemma_picks_push(
                    out@,
                    self.refs@,
                    leading(final_list, i as int),
                    &self.refs@[place as int],
                    place as int,
                );
                assert(leading(final_list, i + 1) =~= leading(final_list, i as int).push(
                    place as int,
                ));
            }
            out.push(&self.refs[place]);
            i = i + 1;
        }
        Ok(out)
    }

    /// A list with the picture at place `found` moved to place `at`.
    fn move_to(
        &self,
        list: &Vec<Option<usize>>,
        at: usize,
        found: usize,
        current: u16,
        active: usize,
    ) -> (r: Vec<Option<usize>>)
        requires
            active < usize::MAX,
            at <= active,
            list@.len() == active + 1,
            found < self.refs@.len(),
            all_below(list@, self.refs@.len() as int),
        ensures
            r@.len() == active + 1,
            all_below(r@, self.refs@.len() as int),
            places(r@) == moved_to(
                places(list@),
                at as int,
                found as int,
                self.nums(current as int),
                active as int,
            ),
    {
        let ghost nums = self.nums(current as int);
        let ghost old_list = places(list@);
        let num: i64 = pic_num_of(self.refs[found].frame_num, current, self.max_frame_num);
        let mut r: Vec<Option<usize>> = Vec::new();
        for i in 0..at
            invariant
                at <= active,
                list@.len() == active + 1,
                all_below(list@, self.refs@.len() as int),
                r@ == list@.take(i as int),
        {
            r.push(list[i]);
            assert(r@ =~= list@.take(i + 1));
        }
        r.push(Some(found));
        let ghost head = old_list.take(at as int).push(Some(found as int));
        assert(places(r@) =~= head);
        assert(old_list.subrange(at as int, at as int) =~= Seq::<Option<int>>::empty());
        assert(head + others(old_list.subrange(at as int, at as int), nums, num as int) =~= head);
        for i in at..active
            invariant
                at <= active < usize::MAX,
                list@.len() == active + 1,
                old_list == places(list@),
                nums == self.nums(current as int),
                head.len() == at + 1,
                r@.len() <= i + 1,
                all_below(list@, self.refs@.len() as int),
                all_below(r@, self.refs@.len() as int),
                places(r@) == head + others(
                    old_list.subrange(at as int, i as int),
                    nums,
                    num as int,
                ),
        {
            let ghost before = r@;
            assert(old_list.subrange(at as int, i + 1).drop_last() =~= old_list.subrange(
                at as int,
                i as int,
            ));
            assert(old_list.subrange(at as int, i + 1).last() == old_list[i as int]);
            if let Some(place) = list[i] {
                if pic_num_of(self.refs[place].frame_num, current, self.max_frame_num) != num {
                    r.push(Some(place));
                    assert(places(r@) =~= places(before).push(Some(place as int)));
                }
            }
            assert(places(r@) =~= head + others(
                old_list.subrange(at as int, i + 1),
                nums,
                num as int,
            ));
        }
        let ghost kept = places(r@);
        while r.len() < active + 1
            invariant
                active < usize::MAX,
                kept.len() <= r@.len() <= active + 1,
                all_below(r@, self.refs@.len() as int),
                forall|i: int|
                    0 <= i < r@.len() ==> (#[trigger] places(r@)[i]) == if i < kept.len() {
                        kept[i]
                    } else {
                        None
                    },
            decreases active + 1 - r@.len(),
        {
            let ghost before = r@;
            r.push(None);
            assert(places(r@) =~= places(before).push(None));
        }
        assert(places(r@) =~= padded(kept, (active + 1) as nat));
        r
    }

    /// Adds a picture as the most recent reference. If the buffer is full, the
    /// oldest picture by number, not by arrival, is handed back.
    pub fn push(&mut self, picture: Picture) -> (evicted: Option<Picture>)
        requires
            old(self).wf(),
        ensures
            final(self).wf(),
            final(self).capacity == old(self).capacity,
            final(self).max_frame_num == old(self).max_frame_num,
            enters(
                old(self).refs@,
                Seq::empty(),
                picture,
                *old(self),
                final(self).refs@,
                at_most_one(evicted),
            ),
    {
        let n: usize = self.refs.len();
        if n < self.capacity {
            self.refs.insert(0, picture);
            return None;
        }
        let current: u16 = picture.frame_num;
        let ghost all = self.refs@.insert(0, picture);
        let ghost nums = pic_nums(all, current as int, self.max_frame_num as int);
        // The new picture is number 0, the stored ones follow.
        let mut oldest: usize = 0;
        let mut least: i64 = frame_num_wrap(current, current, self.max_frame_num);
        assert(nums.take(1) =~= seq![nums[0]]);
        for i in 0..n
            invariant
                n == self.refs@.len(),
                *self == *old(self),
                all == self.refs@.insert(0, picture),
                current == picture.frame_num,
                nums == pic_nums(all, current as int, self.max_frame_num as int),
                oldest <= i,
                least == nums[oldest as int],
                is_first_minimum(nums.take(i + 1), oldest as int),
        {
            let ghost before = nums.take(i + 1);
            let ghost now = nums.take(i + 2);
            assert(all[i + 1] == self.refs@[i as int]);
            assert(now =~= before.push(nums[i + 1]));
            let num: i64 = frame_num_wrap(self.refs[i].frame_num, current, self.max_frame_num);
            assert(num == nums[i + 1] && least == before[oldest as int]);
            if num < least {
                assert forall|j: int| 0 <= j < i + 1 implies nums[i + 1] < #[trigger] now[j] by {
                    assert(now[j] == before[j]);
                }
                oldest = i + 1;
                least = num;
            } else {
                assert forall|j: int| 0 <= j < now.len() implies now[oldest as int]
                    <= #[trigger] now[j] by {
                    if j < i + 1 {
                        assert(now[j] == before[j]);
                    }
                }
                assert forall|j: int| 0 <= j < oldest implies now[oldest as int]
                    < #[trigger] now[j] by {
                    assert(now[j] == before[j]);
                }
            }
        }
        assert(nums.take(n + 1) =~= nums);
        assert(is_first_minimum(nums, oldest as int));
        assert(seq![all[oldest as int]] =~= Seq::empty().push(all[oldest as int]));
        if oldest == 0 {
            assert(all.remove(0) =~= self.refs@);
            return Some(picture);
        }
        let evicted: Picture = self.refs.remove(oldest - 1);
        self.refs.insert(0, picture);
        assert(self.refs@ =~= all.remove(oldest as int));
        Some(evicted)
    }

    /// Applies operations for the picture that just finished, handing back the
    /// pictures that are no longer references. Call before pushing the current
    /// picture. After an error the operations before the failing one have been
    /// applied.
    pub fn apply_mmco(&mut self, curr_pic_num: u16, ops: &[MmcoOp]) -> (r: Result<
        Vec<Picture>,
        Error,
    >)
        ensures
            final(self).capacity == old(self).capacity,
            final(self).max_frame_num == old(self).max_frame_num,
            final(self).refs@.len() <= old(self).refs@.len(),
            ({
                let (refs, freed, ok) = after_mmco(
                    old(self).refs@,
                    Seq::empty(),
                    ops@,
                    curr_pic_num as int,
                    old(self).max_frame_num as int,
                );
                &&& final(self).refs@ == refs
                &&& r is Ok <==> ok
                &&& r matches Ok(v) ==> v@ == freed
                &&& r matches Err(e) ==> e.is_decode(
                    bad_mmco(
                        old(self).refs@,
                        ops@,
                        curr_pic_num as int,
                        old(self).max_frame_num as int,
                    ),
                )
            }),
    {
        let ghost goal = after_mmco(
            self.refs@,
            Seq::empty(),
            ops@,
            curr_pic_num as int,
            self.max_frame_num as int,
        );
        let mut recycled: Vec<Picture> = Vec::new();
        assert(ops@.skip(0) =~= ops@);
        for i in 0..ops.len()
            invariant
                self.capacity == old(self).capacity,
                self.max_frame_num == old(self).max_frame_num,
                self.refs@.len() <= old(self).refs@.len(),
                goal == after_mmco(
                    old(self).refs@,
                    Seq::empty(),
                    ops@,
                    curr_pic_num as int,
                    old(self).max_frame_num as int,
                ),
                goal == after_mmco(
                    self.refs@,
                    recycled@,
                    ops@.skip(i as int),
                    curr_pic_num as int,
                    self.max_frame_num as int,
                ),
                absent_in_mmco(
                    old(self).refs@,
                    ops@,
                    curr_pic_num as int,
                    old(self).max_frame_num as int,
                ) == absent_in_mmco(
                    self.refs@,
                    ops@.skip(i as int),
                    curr_pic_num as int,
                    self.max_frame_num as int,
                ),
        {
            assert(ops@.skip(i as int).drop_first() =~= ops@.skip(i + 1));
            assert(ops@.skip(i as int)[0] == ops@[i as int]);
            match ops[i] {
                MmcoOp::AllUnused => {
                    recycled.append(&mut self.refs);
                    assert(self.refs@ =~= Seq::empty());
                },
                MmcoOp::ShortTermUnused { difference_of_pic_nums_minus1 } => {
                    let num: i64 = curr_pic_num as i64 - (difference_of_pic_nums_minus1 as i64 + 1);
                    let at: usize = self.find(curr_pic_num, num);
                    if at >= self.refs.len() {
                        return Err(
                            Error::decode(numbered("MMCO targets missing PicNum ", num).as_str()),
                        );
                    }
                    recycled.push(self.refs.remove(at));
                },
            }
        }
        assert(ops@.skip(ops@.len() as int) =~= Seq::empty());
        Ok(recycled)
    }

    /// Marks a picture as a reference: explicit operations first, then the
    /// picture enters the buffer. Hands back every picture freed.
    pub fn mark_reference(&mut self, picture: Picture, marking: &RefMarking) -> (r: Result<
        Vec<Picture>,
        Error,
    >)
        requires
            old(self).wf(),
        ensures
            final(self).wf(),
            final(self).capacity == old(self).capacity,
            final(self).max_frame_num == old(self).max_frame_num,
            marks(*old(self), picture, *marking, *final(self), r),
    {
        let mut recycled: Vec<Picture> = match marking {
            RefMarking::NonReference => {
                return Err(Error::decode("non-reference picture cannot enter the DPB"));
            },
            RefMarking::Adaptive(ops) => match self.apply_mmco(picture.frame_num, ops.as_slice()) {
                Ok(freed) => freed,
                Err(e) => {
                    return Err(e);
                },
            },
            RefMarking::SlidingWindow | RefMarking::Idr => Vec::new(),
        };
        let ghost between = *self;
        let ghost freed = recycled@;
        assert(!(marking is Adaptive) ==> freed =~= Seq::empty());
        match self.push(picture) {
            Some(evicted) => {
                recycled.push(evicted);
                proof {
                    lemma_enters(between.refs@, freed, picture, between, self.refs@, Some(evicted));
                    assert(recycled@ =~= freed + at_most_one(Some(evicted)));
                }
            },
            None => {
                proof {
                    lemma_enters(between.refs@, freed, picture, between, self.refs@, None);
                    assert(recycled@ =~= freed + at_most_one::<Picture>(None));
                }
            },
        }
        Ok(recycled)
    }
}

/// What an option holds, as a list.
pub open spec fn at_most_one<T>(item: Option<T>) -> Seq<T> {
    match item {
        Some(t) => seq![t],
        None => Seq::empty(),
    }
}

proof fn lemma_enters(
    refs: Seq<Picture>,
    freed: Seq<Picture>,
    picture: Picture,
    buffer: Dpb,
    left: Seq<Picture>,
    evicted: Option<Picture>,
)
    requires
        enters(refs, Seq::empty(), picture, buffer, left, at_most_one(evicted)),
    ensures
        enters(refs, freed, picture, buffer, left, freed + at_most_one(evicted)),
{
    let all = refs.insert(0, picture);
    let one = at_most_one(evicted);
    let nums = pic_nums(all, picture.frame_num as int, buffer.max_frame_num as int);
    if all.len() <= buffer.capacity {
        assert(freed + one =~= freed);
    } else {
        let at = choose|at: int| #[trigger]
            is_first_minimum(nums, at) && one == Seq::empty().push(all[at]) && left == all.remove(at);
        assert(is_first_minimum(nums, at));
        assert(freed + one =~= freed.push(all[at]));
    }
}

/// How a picture is marked as a reference.
pub open spec fn marks(
    before: Dpb,
    picture: Picture,
    marking: RefMarking,
    after: Dpb,
    r: Result<Vec<Picture>, Error>,
) -> bool {
    let (refs, freed, ok) = match marking {
        RefMarking::Adaptive(ops) => after_mmco(
            before.refs@,
            Seq::empty(),
            ops@,
            picture.frame_num as int,
            before.max_frame_num as int,
        ),
        RefMarking::NonReference => (before.refs@, Seq::empty(), false),
        _ => (before.refs@, Seq::empty(), true),
    };
    if !ok {
        &&& after.refs@ == refs
        &&& r matches Err(e)
        &&& e.is_decode(
            match marking {
                RefMarking::Adaptive(ops) => bad_mmco(
                    before.refs@,
                    ops@,
                    picture.frame_num as int,
                    before.max_frame_num as int,
                ),
                _ => "non-reference picture cannot enter the DPB"@,
            },
        )
    } else {
        &&& r matches Ok(v)
        &&& enters(refs, freed, picture, before, after.refs@, v@)
    }
}

/// How a picture enters a buffer that holds `refs`: first in the list, and if
/// there are then too many the oldest by number joins those freed.
pub open spec fn enters(
    refs: Seq<Picture>,
    freed: Seq<Picture>,
    picture: Picture,
    buffer: Dpb,
    left: Seq<Picture>,
    out: Seq<Picture>,
) -> bool {
    let all = refs.insert(0, picture);
    if all.len() <= buffer.capacity {
        out == freed && left == all
    } else {
        exists|at: int| #[trigger]
            is_first_minimum(
                pic_nums(all, picture.frame_num as int, buffer.max_frame_num as int),
                at,
            ) && out == freed.push(all[at]) && left == all.remove(at)
    }
}

/// A list of pictures names those at the given places of the buffer.
pub open spec fn picks(list: Seq<&Picture>, refs: Seq<Picture>, places: Seq<int>) -> bool {
    &&& list.len() == places.len()
    &&& forall|i: int|
        #![trigger places[i]]
        0 <= i < places.len() ==> 0 <= places[i] < refs.len() && *list[i] == refs[places[i]]
}

proof fn lemma_picks_push(
    list: Seq<&Picture>,
    refs: Seq<Picture>,
    places: Seq<int>,
    next: &Picture,
    place: int,
)
    requires
        picks(list, refs, places),
        0 <= place < refs.len(),
        *next == refs[place],
    ensures
        picks(list.push(next), refs, places.push(place)),
{
    let longer = list.push(next);
    let more = places.push(place);
    assert forall|i: int| #![trigger more[i]] 0 <= i < more.len() implies 0 <= more[i] < refs.len()
        && *longer[i] == refs[more[i]] by {
        if i < list.len() {
            assert(0 <= places[i] < refs.len() && *list[i] == refs[places[i]]);
        }
    }
}

/// A list that is empty at one place ends there.
proof fn lemma_leading_stops(list: Seq<Option<int>>, at: int, limit: int)
    requires
        0 <= at < limit,
        leading(list, at).len() == at,
        list[at] is None,
    ensures
        leading(list, limit) == leading(list, at),
    decreases limit,
{
    if limit > at + 1 {
        lemma_leading_stops(list, at, limit - 1);
    }
}

/// Lists of places among the stored pictures, as numbers.
spec fn places(list: Seq<Option<usize>>) -> Seq<Option<int>> {
    Seq::new(
        list.len(),
        |i: int|
            match list[i] {
                Some(p) => Some(p as int),
                None => None,
            },
    )
}

/// Every entry of a list is a place below `n`.
spec fn all_below(list: Seq<Option<usize>>, n: int) -> bool {
    forall|i: int| 0 <= i < list.len() && (#[trigger] list[i]) is Some ==> list[i]->0 < n
}

/// A picture's number relative to the current one.
pub fn pic_num_of(frame_num: u16, current: u16, max_frame_num: u32) -> (num: i64)
    ensures
        num == spec_pic_num(frame_num as int, current as int, max_frame_num as int),
{
    if frame_num > current {
        frame_num as i64 - max_frame_num as i64
    } else {
        frame_num as i64
    }
}

/// A picture's number relative to the current one, which pictures are aged by.
pub fn frame_num_wrap(frame_num: u16, current: u16, max_frame_num: u32) -> (num: i64)
    ensures
        num == spec_pic_num(frame_num as int, current as int, max_frame_num as int),
{
    pic_num_of(frame_num, current, max_frame_num)
}

/// The buffer never holds more pictures than its capacity, whatever enters.
pub proof fn law_buffer_never_exceeds_its_capacity(
    buffer: Dpb,
    picture: Picture,
    left: Seq<Picture>,
    out: Seq<Picture>,
)
    requires
        buffer.wf(),
        enters(buffer.refs@, Seq::empty(), picture, buffer, left, out),
    ensures
        left.len() <= buffer.capacity,
        left.len() + out.len() == buffer.refs@.len() + 1,
{
}

/// Pictures that leave the buffer through operations are those it held before:
/// none is lost and none appears twice.
proof fn lemma_mmco_keeps(
    refs: Seq<Picture>,
    freed: Seq<Picture>,
    ops: Seq<MmcoOp>,
    current: int,
    max_frame_num: int,
)
    ensures
        ({
            let (left, out, _) = after_mmco(refs, freed, ops, current, max_frame_num);
            &&& left.to_multiset().add(out.to_multiset()) == refs.to_multiset().add(
                freed.to_multiset(),
            )
            &&& left.len() <= refs.len()
        }),
    decreases ops.len(),
{
    broadcast use vstd::seq_lib::group_to_multiset_ensures;

    if ops.len() > 0 {
        match ops[0] {
            MmcoOp::AllUnused => {
                lemma_mmco_keeps(
                    Seq::empty(),
                    freed + refs,
                    ops.drop_first(),
                    current,
                    max_frame_num,
                );
                vstd::seq_lib::lemma_multiset_commutative(freed, refs);
                let none = Seq::<Picture>::empty();
                assert(none.to_multiset().add((freed + refs).to_multiset())
                    =~= refs.to_multiset().add(freed.to_multiset())) by {
                    assert(none.to_multiset().len() == 0);
                    assert(none.to_multiset() =~= vstd::multiset::Multiset::empty());
                }
            },
            MmcoOp::ShortTermUnused { difference_of_pic_nums_minus1 } => {
                let nums = pic_nums(refs, current, max_frame_num);
                let found = place_of(nums, current - (difference_of_pic_nums_minus1 + 1));
                if found < refs.len() {
                    lemma_place_of(nums, current - (difference_of_pic_nums_minus1 + 1));
                    lemma_mmco_keeps(
                        refs.remove(found),
                        freed.push(refs[found]),
                        ops.drop_first(),
                        current,
                        max_frame_num,
                    );
                    assert(refs.contains(refs[found]));
                    assert(refs.to_multiset().remove(refs[found]).add(
                        freed.to_multiset().insert(refs[found]),
                    ) =~= refs.to_multiset().add(freed.to_multiset()));
                }
            },
        }
    }
}

/// Marking a picture as a reference loses none and doubles none: the pictures
/// stored before and the new one are those stored after and those freed. One is
/// always left, and never more than the capacity. A picture that is no reference
/// is refused and changes nothing, and without explicit operations at most one
/// picture is freed.
pub proof fn law_marking_keeps_every_picture(
    before: Dpb,
    picture: Picture,
    marking: RefMarking,
    after: Dpb,
    r: Result<Vec<Picture>, Error>,
)
    requires
        before.wf(),
        marks(before, picture, marking, after, r),
    ensures
        r matches Ok(freed) ==> {
            &&& before.refs@.to_multiset().insert(picture) == after.refs@.to_multiset().add(
                freed@.to_multiset(),
            )
            &&& 1 <= after.refs@.len() <= before.capacity
        },
        marking is NonReference ==> r is Err && after.refs@ == before.refs@,
        marking is SlidingWindow || marking is Idr ==> (r matches Ok(freed) && freed@.len() <= 1),
{
    broadcast use vstd::seq_lib::group_to_multiset_ensures;

    let none = Seq::<Picture>::empty();
    assert(none.to_multiset() =~= vstd::multiset::Multiset::empty()) by {
        assert(none.to_multiset().len() == 0);
    }
    if let Ok(out) = r {
        let (refs, freed) = match marking {
            RefMarking::Adaptive(ops) => {
                let (current, max) = (picture.frame_num as int, before.max_frame_num as int);
                lemma_mmco_keeps(before.refs@, none, ops@, current, max);
                let (refs, freed, _) = after_mmco(before.refs@, none, ops@, current, max);
                (refs, freed)
            },
            _ => (before.refs@, none),
        };
        assert(refs.to_multiset().add(freed.to_multiset()) =~= before.refs@.to_multiset());
        let all = refs.insert(0, picture);
        vstd::seq_lib::to_multiset_insert(refs, 0, picture);
        if all.len() <= before.capacity {
            assert(after.refs@.to_multiset().add(out@.to_multiset())
                =~= before.refs@.to_multiset().insert(picture));
        } else {
            let at = choose|at: int| #[trigger]
                is_first_minimum(
                    pic_nums(all, picture.frame_num as int, before.max_frame_num as int),
                    at,
                ) && out@ == freed.push(all[at]) && after.refs@ == all.remove(at);
            assert(all.contains(all[at]));
            assert(all.to_multiset().remove(all[at]).add(freed.to_multiset().insert(all[at]))
                =~= before.refs@.to_multiset().insert(picture));
        }
    }
}

/// The picture that entered last is reference 0, unless another stored picture
/// carries its number or a later one.
pub proof fn law_latest_picture_is_reference_zero(
    buffer: Dpb,
    picture: Picture,
    left: Seq<Picture>,
    out: Seq<Picture>,
)
    requires
        buffer.wf(),
        enters(buffer.refs@, Seq::empty(), picture, buffer, left, out),
        buffer.refs@.len() >= 1,
        forall|i: int|
            0 <= i < buffer.refs@.len() ==> #[trigger] buffer.nums(picture.frame_num as int)[i]
                < picture.frame_num,
    ensures
        left[0] == picture,
{
    let all = buffer.refs@.insert(0, picture);
    let current = picture.frame_num as int;
    let nums = pic_nums(all, current, buffer.max_frame_num as int);
    if all.len() > buffer.capacity {
        assert(nums[1] == buffer.nums(current)[0]);
        assert(nums[0] == current);
    }
}

/// Numbers relative to the current picture put every stored picture in the past:
/// no number exceeds the current one.
pub proof fn law_frame_numbers_order_across_the_wrap(
    frame_num: int,
    current: int,
    max_frame_num: int,
)
    requires
        0 <= frame_num < max_frame_num,
        0 <= current < max_frame_num,
    ensures
        spec_pic_num(frame_num, current, max_frame_num) <= current,
        spec_pic_num(frame_num, current, max_frame_num) > current - max_frame_num,
        spec_pic_num(frame_num, current, max_frame_num) == current <==> frame_num == current,
{
}

/// Without modifications reference list 0 is the stored order, cut to the number
/// of active references.
pub proof fn law_unmodified_list_is_the_stored_order(
    nums: Seq<int>,
    current: int,
    max_pic_num: int,
    num_active: int,
)
    requires
        1 <= num_active,
    ensures
        spec_list0(nums, current, max_pic_num, Seq::empty(), num_active) == Some(
            Seq::new(
                if nums.len() <= num_active {
                    nums.len()
                } else {
                    num_active as nat
                },
                |i: int| i,
            ),
        ),
{
    let plain = padded(Seq::new(nums.len(), |i: int| Some(i)), (num_active + 1) as nat);
    lemma_leading_plain(nums, plain, num_active, num_active);
}

proof fn lemma_leading_plain(
    nums: Seq<int>,
    plain: Seq<Option<int>>,
    num_active: int,
    limit: int,
)
    requires
        plain == padded(Seq::new(nums.len(), |i: int| Some(i)), (num_active + 1) as nat),
        0 <= limit <= num_active,
    ensures
        leading(plain, limit) == Seq::new(
            if nums.len() <= limit {
                nums.len()
            } else {
                limit as nat
            },
            |i: int| i,
        ),
    decreases limit,
{
    if limit > 0 {
        lemma_leading_plain(nums, plain, num_active, limit - 1);
    }
    assert(leading(plain, limit) =~= Seq::new(
        if nums.len() <= limit {
            nums.len()
        } else {
            limit as nat
        },
        |i: int| i,
    ));
}

/// A command moves the expected number by one more than it says, down or up, in
/// the circle of numbers.
pub proof fn law_commands_move_in_a_circle(pred: int, v: u32, max_pic_num: int)
    requires
        0 <= pred < max_pic_num,
        v < max_pic_num,
    ensures
        ({
            let down = moved_prediction(pred, RefListMod::Subtract(v), max_pic_num);
            let up = moved_prediction(pred, RefListMod::Add(v), max_pic_num);
            &&& 0 <= down < max_pic_num
            &&& 0 <= up < max_pic_num
            &&& pred - down == v + 1 || pred - down == v + 1 - max_pic_num
            &&& up - pred == v + 1 || up - pred == v + 1 - max_pic_num
        }),
{
}

/// The first command, which moves from the current picture, puts the picture that
/// is one more than its number behind the current one in front of the list. The
/// others keep their order behind it.
pub proof fn law_a_named_picture_comes_first(
    nums: Seq<int>,
    current: int,
    max_pic_num: int,
    v: u32,
    num_active: int,
    at: int,
)
    requires
        0 <= current < max_pic_num,
        v + 1 < max_pic_num,
        nums.len() <= num_active,
        0 <= at < nums.len(),
        nums[at] == current - (v + 1),
        forall|i: int, j: int| 0 <= i < j < nums.len() ==> #[trigger] nums[i] != #[trigger] nums[j],
    ensures
        spec_list0(nums, current, max_pic_num, seq![RefListMod::Subtract(v)], num_active) == Some(
            Seq::new(
                nums.len(),
                |i: int|
                    if i == 0 {
                        at
                    } else if i <= at {
                        i - 1
                    } else {
                        i
                    },
            ),
        ),
{
    let mods = seq![RefListMod::Subtract(v)];
    let n = nums.len();
    let plain = padded(Seq::new(n, |i: int| Some(i)), (num_active + 1) as nat);
    let next = moved_prediction(current, mods[0], max_pic_num);
    let num = current - (v + 1);
    assert((if next > current {
        next - max_pic_num
    } else {
        next
    }) == num);
    lemma_is_place_of(nums, num, at);
    let head = plain.subrange(0, num_active);
    let moved = moved_to(plain, 0, at, nums, num_active);
    lemma_others(nums, num, at, head, num_active as nat);
    assert(head.take(num_active) =~= head);
    assert(modified(moved, 1, next, mods, nums, current, max_pic_num, num_active) == Some(moved));
    let want = Seq::new(
        n,
        |i: int|
            if i == 0 {
                at
            } else if i <= at {
                i - 1
            } else {
                i
            },
    );
    assert forall|i: int| 0 <= i < n implies #[trigger] moved[i] == Some(want[i]) by {
    }
    assert forall|i: int| n <= i < num_active implies (#[trigger] moved[i]) is None by {
    }
    lemma_leading_all(moved, want, num_active);
}

/// What is left of the plain list without one picture.
proof fn lemma_others(nums: Seq<int>, num: int, at: int, head: Seq<Option<int>>, len: nat)
    requires
        0 <= at < nums.len() <= head.len(),
        len <= head.len(),
        nums[at] == num,
        forall|i: int, j: int| 0 <= i < j < nums.len() ==> #[trigger] nums[i] != #[trigger] nums[j],
        forall|i: int| 0 <= i < nums.len() ==> (#[trigger] head[i]) == Some(i),
        forall|i: int| nums.len() <= i < head.len() ==> (#[trigger] head[i]) is None,
    ensures
        ({
            let seen: nat = if len <= nums.len() {
                len
            } else {
                nums.len()
            };
            others(head.take(len as int), nums, num) == Seq::new(
                (if seen > at {
                    seen - 1
                } else {
                    seen as int
                }) as nat,
                |i: int|
                    Some(
                        if i < at {
                            i
                        } else {
                            i + 1
                        },
                    ),
            )
        }),
    decreases len,
{
    let part = head.take(len as int);
    let seen: nat = if len <= nums.len() {
        len
    } else {
        nums.len()
    };
    let want = Seq::new(
        (if seen > at {
            seen - 1
        } else {
            seen as int
        }) as nat,
        |i: int|
            Some(
                if i < at {
                    i
                } else {
                    i + 1
                },
            ),
    );
    if len == 0 {
        assert(others(part, nums, num) =~= want);
    } else {
        lemma_others(nums, num, at, head, (len - 1) as nat);
        assert(part.drop_last() =~= head.take(len - 1));
        assert(part.last() == head[len - 1]);
        if len - 1 < nums.len() {
            assert(head[len - 1] == Some(len - 1));
            if len - 1 < at {
                assert(nums[len - 1] != nums[at]);
            } else if len - 1 > at {
                assert(nums[at] != nums[len - 1]);
            }
        }
        assert(others(part, nums, num) =~= want);
    }
}

/// A list that begins with places and then has nothing gives those places.
proof fn lemma_leading_all(list: Seq<Option<int>>, want: Seq<int>, limit: int)
    requires
        0 <= limit <= list.len(),
        forall|i: int| 0 <= i < want.len() && i < limit ==> #[trigger] list[i] == Some(want[i]),
        forall|i: int| want.len() <= i < limit ==> (#[trigger] list[i]) is None,
    ensures
        leading(list, limit) == want.take(
            if want.len() <= limit {
                want.len() as int
            } else {
                limit
            },
        ),
        want.len() <= limit ==> leading(list, limit) == want,
    decreases limit,
{
    if limit > 0 {
        lemma_leading_all(list, want, limit - 1);
        let before = leading(list, limit - 1);
        if limit - 1 < want.len() {
            assert(list[limit - 1] == Some(want[limit - 1]));
            assert(leading(list, limit) =~= want.take(limit));
        } else {
            assert(list[limit - 1] is None);
            assert(leading(list, limit) =~= want.take(want.len() as int));
        }
    }
    assert(want.take(want.len() as int) =~= want);
    if limit == 0 {
        assert(leading(list, limit) =~= want.take(0));
    }
}

/// An operation takes the picture that is one more than its number behind the
/// current one out of the buffer, if there is one, and leaves the others in order.
pub proof fn law_operations_free_the_picture_they_name(
    refs: Seq<Picture>,
    v: u32,
    current: int,
    max_frame_num: int,
)
    ensures
        ({
            let op = MmcoOp::ShortTermUnused { difference_of_pic_nums_minus1: v };
            let (left, freed, ok) = after_mmco(
                refs,
                Seq::empty(),
                seq![op],
                current,
                max_frame_num,
            );
            let named = |p: Picture|
                spec_pic_num(p.frame_num as int, current, max_frame_num) == current - v - 1;
            &&& ok <==> exists|i: int| 0 <= i < refs.len() && named(#[trigger] refs[i])
            &&& !ok ==> left == refs && freed.len() == 0
            &&& ok ==> freed.len() == 1 && named(freed[0]) && exists|i: int|
                0 <= i < refs.len() && #[trigger] refs[i] == freed[0] && left == refs.remove(i)
        }),
        after_mmco(refs, Seq::empty(), seq![MmcoOp::AllUnused], current, max_frame_num) == (
            Seq::<Picture>::empty(),
            refs,
            true,
        ),
{
    let op = MmcoOp::ShortTermUnused { difference_of_pic_nums_minus1: v };
    let ops = seq![op];
    let nums = pic_nums(refs, current, max_frame_num);
    let num = current - (v + 1);
    lemma_place_of(nums, num);
    let found = place_of(nums, num);
    let none = Seq::<Picture>::empty();
    assert(ops.drop_first() =~= Seq::empty());
    reveal_with_fuel(after_mmco, 2);
    if found < refs.len() {
        assert(nums[found] == num);
        assert(none.push(refs[found]) =~= seq![refs[found]]);
        assert(after_mmco(refs, none, ops, current, max_frame_num) == (
            refs.remove(found),
            none.push(refs[found]),
            true,
        ));
    } else {
        assert forall|i: int| 0 <= i < refs.len() implies spec_pic_num(
            (#[trigger] refs[i]).frame_num as int,
            current,
            max_frame_num,
        ) != num by {
            assert(nums[i] != num);
        }
    }
    let all = seq![MmcoOp::AllUnused];
    assert(all.drop_first() =~= Seq::empty());
    assert(none + refs =~= refs);
}

/// A picture that leaves a full buffer is the oldest: none that stays is behind
/// it.
pub proof fn law_the_oldest_picture_leaves(
    buffer: Dpb,
    picture: Picture,
    left: Seq<Picture>,
    out: Seq<Picture>,
    i: int,
)
    requires
        enters(buffer.refs@, Seq::empty(), picture, buffer, left, out),
        0 <= i < left.len(),
    ensures
        ({
            let number = |p: Picture|
                spec_pic_num(
                    p.frame_num as int,
                    picture.frame_num as int,
                    buffer.max_frame_num as int,
                );
            &&& out.len() <= 1
            &&& out.len() == 0 <==> buffer.refs@.len() < buffer.capacity
            &&& out.len() == 1 ==> number(out[0]) <= number(left[i])
        }),
{
    let all = buffer.refs@.insert(0, picture);
    let nums = pic_nums(all, picture.frame_num as int, buffer.max_frame_num as int);
    if all.len() > buffer.capacity {
        let at = choose|at: int| #[trigger]
            is_first_minimum(nums, at) && out == Seq::<Picture>::empty().push(all[at]) && left
                == all.remove(at);
        assert(out[0] == all[at]);
        if i < at {
            assert(left[i] == all[i]);
            assert(nums[at] <= nums[i]);
        } else {
            assert(left[i] == all[i + 1]);
            assert(nums[at] <= nums[i + 1]);
        }
    }
}

/// A picture is numbered by its frame number, less a full round where that lies ahead
/// of the current one.
pub proof fn law_picture_numbers_count_frames(frame_num: int, current: int, max_frame_num: int)
    ensures
        frame_num <= current ==> spec_pic_num(frame_num, current, max_frame_num) == frame_num,
        frame_num > current ==> spec_pic_num(frame_num, current, max_frame_num) == frame_num
            - max_frame_num,
{
}

} // verus!
