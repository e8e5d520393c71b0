//! Macroblock addressing and neighbour derivation.
//!
//! Which block is to the left and above, and may it be looked at? A neighbour
//! is available only if it exists within the picture, belongs to the same slice
//! and has already been decoded; `None` always means "not available".
use super::math::{lemma_raster, lemma_raster_inverse, lemma_rows};
use vstd::prelude::*;

verus! {

/// A macroblock address: its index in raster scan order across the picture.
pub type MbAddr = usize;

/// A neighbouring block: `blk` is an index within `mb`, not within the
/// macroblock that asked.
#[derive(Debug, Clone, Copy, PartialEq, Eq, Structural)]
pub struct BlockRef {
    pub mb: MbAddr,
    pub blk: u8,
}

/// A neighbouring sample, in the coordinates of the macroblock that contains
/// it.
#[derive(Debug, Clone, Copy, PartialEq, Eq, Structural)]
pub struct SampleRef {
    pub mb: MbAddr,
    pub x: usize,
    pub y: usize,
}

/// Which macroblocks of the current picture have been decoded, and by which
/// slice.
#[derive(Debug)]
pub struct Neighbourhood {
    /// Macroblocks per row.
    pub width: usize,
    /// Rows of macroblocks.
    pub height: usize,
    /// Slice each macroblock belongs to; `None` until it is decoded.
    pub slice: Vec<Option<u32>>,
}

/// Which macroblocks of a picture have been decoded, and by which slice, as a
/// mathematical value.
#[verifier::ext_equal]
pub struct Grid {
    pub width: int,
    pub height: int,
    pub slice: Seq<Option<u32>>,
}

impl Grid {
    /// There is one entry per macroblock of the picture.
    pub open spec fn wf(self) -> bool {
        self.slice.len() == self.width * self.height
    }

    /// The slice a decoded macroblock belongs to.
    pub open spec fn spec_slice_of(self, addr: int) -> Option<u32> {
        if 0 <= addr < self.slice.len() {
            self.slice[addr]
        } else {
            None
        }
    }

    /// Whether `addr` may be used when decoding `curr`.
    pub open spec fn spec_available(self, addr: int, curr: int) -> bool {
        &&& self.spec_slice_of(addr) is Some
        &&& self.spec_slice_of(addr) == self.spec_slice_of(curr)
    }

    /// `addr` where it may be used when decoding `curr`.
    pub open spec fn if_available(self, addr: int, curr: int) -> Option<usize> {
        if self.spec_available(addr, curr) {
            Some(addr as usize)
        } else {
            None
        }
    }

    /// The macroblock to the left. In column zero there is none, and the raster
    /// address before it is the end of the row above.
    pub open spec fn spec_mb_a(self, curr: int) -> Option<usize> {
        if curr % self.width > 0 {
            self.if_available(curr - 1, curr)
        } else {
            None
        }
    }

    /// The macroblock above.
    pub open spec fn spec_mb_b(self, curr: int) -> Option<usize> {
        self.if_available(curr - self.width, curr)
    }

    /// The macroblock above and to the right.
    pub open spec fn spec_mb_c(self, curr: int) -> Option<usize> {
        if curr % self.width + 1 < self.width {
            self.if_available(curr - (self.width - 1), curr)
        } else {
            None
        }
    }

    /// The macroblock above and to the left.
    pub open spec fn spec_mb_d(self, curr: int) -> Option<usize> {
        if curr % self.width > 0 {
            self.if_available(curr - (self.width + 1), curr)
        } else {
            None
        }
    }

    /// The macroblock that holds the sample at `(x, y)` relative to `curr`,
    /// macroblocks being `size` samples wide. Below `curr`, or to its right on
    /// the same rows, nothing is decoded yet.
    pub open spec fn spec_location(self, curr: int, x: int, y: int, size: int) -> Option<SampleRef> {
        let mb = if y >= size || (x >= size && y >= 0) {
            None
        } else if x < 0 && y < 0 {
            self.spec_mb_d(curr)
        } else if x < 0 {
            self.spec_mb_a(curr)
        } else if y < 0 && x < size {
            self.spec_mb_b(curr)
        } else if y < 0 {
            self.spec_mb_c(curr)
        } else {
            Some(curr as usize)
        };
        match mb {
            Some(mb) => Some(SampleRef { mb, x: (x % size) as usize, y: (y % size) as usize }),
            None => None,
        }
    }

    /// The 4x4 luma block at a location, if block `blk` of `curr` may look at
    /// it.
    pub open spec fn luma_4x4_at(self, curr: int, x: int, y: int, blk: int) -> Option<BlockRef> {
        match self.spec_location(curr, x, y, 16) {
            Some(at) => seen_before(
                at.mb,
                spec_luma_4x4_index(at.x as int, at.y as int) as u8,
                curr,
                blk,
            ),
            None => None,
        }
    }

    /// The 4x4 luma block at an offset from the corner of block `blk`.
    pub open spec fn spec_luma_4x4_neighbour(self, curr: int, blk: int, dx: int, dy: int) -> Option<
        BlockRef,
    > {
        self.luma_4x4_at(curr, luma_4x4_x(blk) + dx, luma_4x4_y(blk) + dy, blk)
    }

    /// The 8x8 luma block at an offset from the corner of block `blk`.
    pub open spec fn spec_luma_8x8_neighbour(self, curr: int, blk: int, dx: int, dy: int) -> Option<
        BlockRef,
    > {
        match self.spec_location(curr, (blk % 2) * 8 + dx, (blk / 2) * 8 + dy, 16) {
            Some(at) => seen_before(
                at.mb,
                spec_luma_8x8_index(at.x as int, at.y as int) as u8,
                curr,
                blk,
            ),
            None => None,
        }
    }

    /// The 4x4 chroma block at an offset from the corner of block `blk`.
    pub open spec fn spec_chroma_4x4_neighbour(
        self,
        curr: int,
        blk: int,
        dx: int,
        dy: int,
    ) -> Option<BlockRef> {
        match self.spec_location(curr, (blk % 2) * 4 + dx, (blk / 2) * 4 + dy, 8) {
            Some(at) => seen_before(
                at.mb,
                spec_chroma_4x4_index(at.x as int, at.y as int) as u8,
                curr,
                blk,
            ),
            None => None,
        }
    }
}

impl View for Neighbourhood {
    type V = Grid;

    open spec fn view(&self) -> Grid {
        Grid { width: self.width as int, height: self.height as int, slice: self.slice@ }
    }
}

impl Neighbourhood {
    /// There is one entry per macroblock of the picture.
    pub open spec fn wf(self) -> bool {
        self@.wf()
    }

    /// A picture of `width` by `height` macroblocks, none of them decoded.
    pub fn new(width: usize, height: usize) -> (r: Self)
        requires
            width * height <= usize::MAX,
        ensures
            r.wf(),
            r.width == width,
            r.height == height,
            forall|i: int| 0 <= i < r.slice@.len() ==> #[trigger] r.slice@[i] is None,
    {
        let n: usize = width * height;
        let mut slice: Vec<Option<u32>> = Vec::new();
        for i in 0..n
            invariant
                slice@.len() == i,
                forall|j: int| 0 <= j < i ==> #[trigger] slice@[j] is None,
        {
            slice.push(None);
        }
        Neighbourhood { width, height, slice }
    }

    /// Macroblocks per row.
    pub fn width_mbs(&self) -> (r: usize)
        ensures
            r == self.width,
    {
        self.width
    }

    /// Rows of macroblocks.
    pub fn height_mbs(&self) -> (r: usize)
        ensures
            r == self.height,
    {
        self.height
    }

    /// Macroblocks in the picture.
    pub fn len(&self) -> (r: usize)
        ensures
            r == self.slice@.len(),
    {
        self.slice.len()
    }

    /// Whether the picture has no macroblocks.
    pub fn is_empty(&self) -> (r: bool)
        ensures
            r <==> self.slice@.len() == 0,
    {
        self.slice.len() == 0
    }

    /// Forgets every macroblock, for the start of a new picture.
    pub fn begin_picture(&mut self)
        ensures
            final(self).width == old(self).width,
            final(self).height == old(self).height,
            final(self).slice@.len() == old(self).slice@.len(),
            forall|i: int|
                0 <= i < final(self).slice@.len() ==> #[trigger] final(self).slice@[i] is None,
    {
        let n: usize = self.slice.len();
        for i in 0..n
            invariant
                n == self.slice@.len(),
                n == old(self).slice@.len(),
                self.width == old(self).width,
                self.height == old(self).height,
                forall|j: int| 0 <= j < i ==> #[trigger] self.slice@[j] is None,
        {
            self.slice[i] = None;
        }
    }

    /// Records that `addr` is being decoded as part of slice `slice_id`.
    pub fn begin_macroblock(&mut self, addr: MbAddr, slice_id: u32)
        requires
            addr < old(self).slice@.len(),
        ensures
            final(self).width == old(self).width,
            final(self).height == old(self).height,
            final(self).slice@ == old(self).slice@.update(addr as int, Some(slice_id)),
    {
        self.slice[addr] = Some(slice_id);
    }

    /// The slice a decoded macroblock belongs to, or `None` if it is not
    /// decoded.
    pub fn slice_of(&self, addr: MbAddr) -> (r: Option<u32>)
        ensures
            r == self@.spec_slice_of(addr as int),
    {
        if addr < self.slice.len() {
            self.slice[addr]
        } else {
            None
        }
    }

    /// Whether `addr` may be used when decoding `curr`.
    pub fn available(&self, addr: MbAddr, curr: MbAddr) -> (r: bool)
        ensures
            r == self@.spec_available(addr as int, curr as int),
    {
        match (self.slice_of(addr), self.slice_of(curr)) {
            (Some(a), Some(b)) => a == b,
            _ => false,
        }
    }

    /// Column of `addr`.
    pub fn mb_x(&self, addr: MbAddr) -> (r: usize)
        requires
            self.width > 0,
        ensures
            r == addr as int % self.width as int,
    {
        addr % self.width
    }

    /// Row of `addr`.
    pub fn mb_y(&self, addr: MbAddr) -> (r: usize)
        requires
            self.width > 0,
        ensures
            r == addr as int / self.width as int,
    {
        addr / self.width
    }

    /// The luma sample coordinates of a macroblock's top-left corner within the
    /// picture.
    pub fn origin(&self, addr: MbAddr) -> (r: (usize, usize))
        requires
            self.width > 0,
            self.width * 16 <= usize::MAX,
            (addr as int / self.width as int) * 16 <= usize::MAX,
        ensures
            r.0 == (addr as int % self.width as int) * 16,
            r.1 == (addr as int / self.width as int) * 16,
    {
        (self.mb_x(addr) * 16, self.mb_y(addr) * 16)
    }

    fn keep_available(&self, addr: MbAddr, curr: MbAddr) -> (r: Option<MbAddr>)
        ensures
            r == self@.if_available(addr as int, curr as int),
    {
        if self.available(addr, curr) {
            Some(addr)
        } else {
            None
        }
    }

    /// The macroblock to the left.
    pub fn mb_a(&self, curr: MbAddr) -> (r: Option<MbAddr>)
        requires
            self.width > 0,
        ensures
            r == self@.spec_mb_a(curr as int),
    {
        if self.mb_x(curr) > 0 {
            assert(curr > 0) by {
                vstd::arithmetic::div_mod::lemma_small_mod(0, self.width as nat);
            }
            self.keep_available(curr - 1, curr)
        } else {
            None
        }
    }

    /// The macroblock above.
    pub fn mb_b(&self, curr: MbAddr) -> (r: Option<MbAddr>)
        ensures
            r == self@.spec_mb_b(curr as int),
    {
        if curr >= self.width {
            self.keep_available(curr - self.width, curr)
        } else {
            None
        }
    }

    /// The macroblock above and to the right.
    pub fn mb_c(&self, curr: MbAddr) -> (r: Option<MbAddr>)
        requires
            self.width > 0,
        ensures
            r == self@.spec_mb_c(curr as int),
    {
        if self.mb_x(curr) < self.width - 1 && curr >= self.width - 1 {
            self.keep_available(curr - (self.width - 1), curr)
        } else {
            None
        }
    }

    /// The macroblock above and to the left.
    pub fn mb_d(&self, curr: MbAddr) -> (r: Option<MbAddr>)
        requires
            self.width > 0,
        ensures
            r == self@.spec_mb_d(curr as int),
    {
        if self.mb_x(curr) > 0 && curr > self.width {
            self.keep_available(curr - self.width - 1, curr)
        } else {
            None
        }
    }

    /// The luma sample at `(x, y)` relative to the top-left corner of `curr`,
    /// which may be negative or past its edge.
    pub fn luma_location(&self, curr: MbAddr, x: i32, y: i32) -> (r: Option<SampleRef>)
        requires
            self.width > 0,
        ensures
            r == self@.spec_location(curr as int, x as int, y as int, 16),
    {
        self.location(curr, x, y, 16)
    }

    /// The chroma sample at `(x, y)` relative to the top-left corner of `curr`.
    pub fn chroma_location(&self, curr: MbAddr, x: i32, y: i32) -> (r: Option<SampleRef>)
        requires
            self.width > 0,
        ensures
            r == self@.spec_location(curr as int, x as int, y as int, 8),
    {
        self.location(curr, x, y, 8)
    }

    fn location(&self, curr: MbAddr, x: i32, y: i32, size: i32) -> (r: Option<SampleRef>)
        requires
            self.width > 0,
            size == 8 || size == 16,
        ensures
            r == self@.spec_location(curr as int, x as int, y as int, size as int),
    {
        let mb: Option<MbAddr> = if y >= size || (x >= size && y >= 0) {
            None
        } else if x < 0 && y < 0 {
            self.mb_d(curr)
        } else if x < 0 {
            self.mb_a(curr)
        } else if y < 0 && x < size {
            self.mb_b(curr)
        } else if y < 0 {
            self.mb_c(curr)
        } else {
            Some(curr)
        };
        match mb {
            Some(mb) => Some(SampleRef { mb, x: wrap_into(x, size), y: wrap_into(y, size) }),
            None => None,
        }
    }

    /// The 4x4 luma block containing the sample at `(dx, dy)` relative to the
    /// top-left corner of block `blk`.
    pub fn luma_4x4_neighbour(&self, curr: MbAddr, blk: u8, dx: i32, dy: i32) -> (r: Option<
        BlockRef,
    >)
        requires
            self.width > 0,
            dx <= i32::MAX - 256,
            dy <= i32::MAX - 256,
        ensures
            r == self@.spec_luma_4x4_neighbour(curr as int, blk as int, dx as int, dy as int),
    {
        let (bx, by) = luma_4x4_origin(blk);
        match self.luma_location(curr, bx as i32 + dx, by as i32 + dy) {
            Some(at) => self.decoded_before(at.mb, luma_4x4_index(at.x, at.y), curr, blk),
            None => None,
        }
    }

    /// The 4x4 luma block to the left.
    pub fn luma_4x4_a(&self, curr: MbAddr, blk: u8) -> (r: Option<BlockRef>)
        requires
            self.width > 0,
        ensures
            r == self@.spec_luma_4x4_neighbour(curr as int, blk as int, -1, 0),
    {
        self.luma_4x4_neighbour(curr, blk, -1, 0)
    }

    /// The 4x4 luma block above.
    pub fn luma_4x4_b(&self, curr: MbAddr, blk: u8) -> (r: Option<BlockRef>)
        requires
            self.width > 0,
        ensures
            r == self@.spec_luma_4x4_neighbour(curr as int, blk as int, 0, -1),
    {
        self.luma_4x4_neighbour(curr, blk, 0, -1)
    }

    /// The 4x4 luma block above and to the right. For half the blocks it is one
    /// decoded later, and so not available.
    pub fn luma_4x4_c(&self, curr: MbAddr, blk: u8) -> (r: Option<BlockRef>)
        requires
            self.width > 0,
        ensures
            r == self@.spec_luma_4x4_neighbour(curr as int, blk as int, 4, -1),
    {
        self.luma_4x4_neighbour(curr, blk, 4, -1)
    }

    /// The 4x4 luma block above and to the left.
    pub fn luma_4x4_d(&self, curr: MbAddr, blk: u8) -> (r: Option<BlockRef>)
        requires
            self.width > 0,
        ensures
            r == self@.spec_luma_4x4_neighbour(curr as int, blk as int, -1, -1),
    {
        self.luma_4x4_neighbour(curr, blk, -1, -1)
    }

    /// The 4x4 luma block at an offset from a partition's corner `(x, y)`. The
    /// upper right neighbour of a wide partition is not that of its first
    /// block.
    pub fn luma_partition_neighbour(
        &self,
        curr: MbAddr,
        x: usize,
        y: usize,
        dx: i32,
        dy: i32,
    ) -> (r: Option<BlockRef>)
        requires
            self.width > 0,
            x < 128,
            y < 128,
            dx <= i32::MAX - 128,
            dy <= i32::MAX - 128,
        ensures
            r == self@.luma_4x4_at(
                curr as int,
                x + dx,
                y + dy,
                spec_luma_4x4_index(x as int, y as int),
            ),
    {
        match self.luma_location(curr, x as i32 + dx, y as i32 + dy) {
            Some(at) => self.decoded_before(
                at.mb,
                luma_4x4_index(at.x, at.y),
                curr,
                luma_4x4_index(x, y),
            ),
            None => None,
        }
    }

    /// The 8x8 luma block containing the sample at `(dx, dy)` relative to the
    /// top-left corner of block `blk`.
    pub fn luma_8x8_neighbour(&self, curr: MbAddr, blk: u8, dx: i32, dy: i32) -> (r: Option<
        BlockRef,
    >)
        requires
            self.width > 0,
            dx <= i32::MAX - 1024,
            dy <= i32::MAX - 1024,
        ensures
            r == self@.spec_luma_8x8_neighbour(curr as int, blk as int, dx as int, dy as int),
    {
        let (bx, by) = luma_8x8_origin(blk);
        match self.luma_location(curr, bx as i32 + dx, by as i32 + dy) {
            Some(at) => self.decoded_before(at.mb, luma_8x8_index(at.x, at.y), curr, blk),
            None => None,
        }
    }

    /// The chroma 4x4 block containing the sample at `(dx, dy)` relative to the
    /// top-left corner of block `blk`.
    pub fn chroma_4x4_neighbour(&self, curr: MbAddr, blk: u8, dx: i32, dy: i32) -> (r: Option<
        BlockRef,
    >)
        requires
            self.width > 0,
            dx <= i32::MAX - 1024,
            dy <= i32::MAX - 1024,
        ensures
            r == self@.spec_chroma_4x4_neighbour(curr as int, blk as int, dx as int, dy as int),
    {
        let (bx, by) = chroma_4x4_origin(blk);
        match self.chroma_location(curr, bx as i32 + dx, by as i32 + dy) {
            Some(at) => self.decoded_before(at.mb, chroma_4x4_index(at.x, at.y), curr, blk),
            None => None,
        }
    }

    /// Rejects a block inside the current macroblock that has not been decoded
    /// yet. Scan order is decoding order, so "later" is a larger index.
    fn decoded_before(&self, mb: MbAddr, found: u8, curr: MbAddr, blk: u8) -> (r: Option<BlockRef>)
        ensures
            r == seen_before(mb, found, curr as int, blk as int),
    {
        if mb != curr || found < blk {
            Some(BlockRef { mb, blk: found })
        } else {
            None
        }
    }
}

/// A block reference, unless it names a block of `curr` that comes no earlier
/// than `blk`.
pub open spec fn seen_before(mb: usize, found: u8, curr: int, blk: int) -> Option<BlockRef> {
    if mb != curr || found < blk {
        Some(BlockRef { mb, blk: found })
    } else {
        None
    }
}

/// The remainder of a coordinate that may be negative.
fn wrap_into(v: i32, size: i32) -> (r: usize)
    requires
        size == 8 || size == 16,
    ensures
        r as int == v as int % size as int,
{
    if v >= 0 {
        (v % size) as usize
    } else {
        let up: i32 = v + size;
        if up >= 0 {
            up as usize
        } else {
            let back: i32 = (-(up + 1)) % size;
            (size - 1 - back) as usize
        }
    }
}

/// Column of a 4x4 block's corner. Blocks are grouped into 8x8 quadrants in
/// raster order, and the four blocks of a quadrant are in raster order again.
pub open spec fn luma_4x4_x(blk: int) -> int {
    ((blk / 4) % 2) * 8 + ((blk % 4) % 2) * 4
}

/// Row of a 4x4 block's corner.
pub open spec fn luma_4x4_y(blk: int) -> int {
    ((blk / 4) / 2) * 8 + ((blk % 4) / 2) * 4
}

/// The 4x4 block containing a luma sample.
pub open spec fn spec_luma_4x4_index(x: int, y: int) -> int {
    8 * (y / 8) + 4 * (x / 8) + 2 * ((y % 8) / 4) + (x % 8) / 4
}

/// The 8x8 block containing a luma sample.
pub open spec fn spec_luma_8x8_index(x: int, y: int) -> int {
    2 * (y / 8) + x / 8
}

/// The 4x4 block containing a chroma sample.
pub open spec fn spec_chroma_4x4_index(x: int, y: int) -> int {
    2 * (y / 4) + x / 4
}

/// The luma sample offset of a 4x4 block within its macroblock.
pub fn luma_4x4_origin(blk: u8) -> (r: (usize, usize))
    ensures
        r.0 == luma_4x4_x(blk as int),
        r.1 == luma_4x4_y(blk as int),
{
    let quadrant: usize = blk as usize / 4;
    let within: usize = blk as usize % 4;
    ((quadrant % 2) * 8 + (within % 2) * 4, (quadrant / 2) * 8 + (within / 2) * 4)
}

/// The 4x4 block containing a luma sample.
pub fn luma_4x4_index(x: usize, y: usize) -> (blk: u8)
    requires
        spec_luma_4x4_index(x as int, y as int) <= u8::MAX,
    ensures
        blk as int == spec_luma_4x4_index(x as int, y as int),
{
    (8 * (y / 8) + 4 * (x / 8) + 2 * ((y % 8) / 4) + (x % 8) / 4) as u8
}

/// The luma sample offset of an 8x8 block. Plain raster order.
pub fn luma_8x8_origin(blk: u8) -> (r: (usize, usize))
    ensures
        r.0 == (blk as int % 2) * 8,
        r.1 == (blk as int / 2) * 8,
{
    ((blk as usize % 2) * 8, (blk as usize / 2) * 8)
}

/// The 8x8 block containing a luma sample.
pub fn luma_8x8_index(x: usize, y: usize) -> (blk: u8)
    requires
        spec_luma_8x8_index(x as int, y as int) <= u8::MAX,
    ensures
        blk as int == spec_luma_8x8_index(x as int, y as int),
{
    (2 * (y / 8) + x / 8) as u8
}

/// The chroma sample offset of a chroma 4x4 block. Plain raster order.
pub fn chroma_4x4_origin(blk: u8) -> (r: (usize, usize))
    ensures
        r.0 == (blk as int % 2) * 4,
        r.1 == (blk as int / 2) * 4,
{
    ((blk as usize % 2) * 4, (blk as usize / 2) * 4)
}

/// The chroma 4x4 block containing a chroma sample.
pub fn chroma_4x4_index(x: usize, y: usize) -> (blk: u8)
    requires
        spec_chroma_4x4_index(x as int, y as int) <= u8::MAX,
    ensures
        blk as int == spec_chroma_4x4_index(x as int, y as int),
{
    (2 * (y / 4) + x / 4) as u8
}

/// Origins and indices of the three block scans undo each other, for the corner
/// and for every other sample of a block.
pub proof fn law_scan_orders_round_trip(blk: int, dx: int, dy: int)
    requires
        0 <= blk < 16,
        0 <= dx < 4,
        0 <= dy < 4,
    ensures
        0 <= luma_4x4_x(blk) <= 12,
        0 <= luma_4x4_y(blk) <= 12,
        spec_luma_4x4_index(luma_4x4_x(blk) + dx, luma_4x4_y(blk) + dy) == blk,
        blk < 4 ==> spec_luma_8x8_index((blk % 2) * 8 + dx, (blk / 2) * 8 + dy) == blk,
        blk < 4 ==> spec_luma_8x8_index((blk % 2) * 8 + 4 + dx, (blk / 2) * 8 + 4 + dy) == blk,
        blk < 4 ==> spec_chroma_4x4_index((blk % 2) * 4 + dx, (blk / 2) * 4 + dy) == blk,
{
    // Column and row are each four times a two-bit number.
    let cx = 2 * ((blk / 4) % 2) + blk % 2;
    let cy = 2 * (blk / 8) + (blk / 2) % 2;
    assert(luma_4x4_x(blk) == 4 * cx && luma_4x4_y(blk) == 4 * cy && 0 <= cx < 4 && 0 <= cy < 4);
    let x = 4 * cx + dx;
    let y = 4 * cy + dy;
    assert(x / 8 == (blk / 4) % 2 && (x % 8) / 4 == blk % 2);
    assert(y / 8 == blk / 8 && (y % 8) / 4 == (blk / 2) % 2);
}

/// Every luma sample of a macroblock lies in exactly the 4x4 block its index
/// names, within that block's four rows and columns.
pub proof fn law_every_sample_has_a_block(x: int, y: int)
    requires
        0 <= x < 16,
        0 <= y < 16,
    ensures
        0 <= spec_luma_4x4_index(x, y) < 16,
        luma_4x4_x(spec_luma_4x4_index(x, y)) <= x < luma_4x4_x(spec_luma_4x4_index(x, y)) + 4,
        luma_4x4_y(spec_luma_4x4_index(x, y)) <= y < luma_4x4_y(spec_luma_4x4_index(x, y)) + 4,
        spec_luma_8x8_index(x, y) == spec_luma_4x4_index(x, y) / 4,
{
}

/// A neighbour of another slice is never available, nor one not yet decoded.
pub proof fn law_neighbours_share_the_slice(n: Grid, curr: int, x: int, y: int, size: int)
    requires
        n.wf(),
        n.width > 0,
        n.slice.len() <= usize::MAX,
        0 <= curr < n.slice.len(),
        size == 8 || size == 16,
    ensures
        match n.spec_location(curr, x, y, size) {
            Some(at) => at.mb == curr || {
                &&& at.mb < curr
                &&& n.slice[at.mb as int] is Some
                &&& n.slice[at.mb as int] == n.slice[curr]
            },
            None => true,
        },
        n.spec_location(curr, x, y, size) matches Some(at) ==> at.x < size && at.y < size,
{
    assert(n.width == 1 ==> curr % n.width == 0);
}

/// The macroblock of the picture that holds the sample at `(x, y)` relative to
/// `curr`, decoded or not.
pub open spec fn holder(n: Grid, curr: int, x: int, y: int, size: int) -> Option<int> {
    let col = curr % n.width + x / size;
    let row = curr / n.width + y / size;
    if 0 <= col < n.width && 0 <= row < n.height {
        Some(row * n.width + col)
    } else {
        None
    }
}

/// One macroblock away in the picture is one address away in its row, and a row
/// of addresses away above.
proof fn lemma_holder(n: Grid, curr: int, dx: int, dy: int)
    requires
        n.wf(),
        n.width > 0,
        0 <= curr < n.slice.len(),
        0 <= curr % n.width + dx < n.width,
        dy == 0 || dy == -1,
        0 <= curr / n.width + dy,
    ensures
        curr / n.width < n.height,
        ({
            let addr = curr + dy * n.width + dx;
            &&& addr % n.width == curr % n.width + dx
            &&& addr / n.width == curr / n.width + dy
            &&& addr == (curr / n.width + dy) * n.width + (curr % n.width + dx)
            &&& 0 <= addr < n.slice.len()
        }),
{
    lemma_raster_inverse(n.width, n.height, curr);
    let (col, row) = (curr % n.width + dx, curr / n.width + dy);
    lemma_raster(n.width, col, row);
    lemma_rows(n.width, row, n.height);
    assert((curr / n.width + dy) * n.width == (curr / n.width) * n.width + dy * n.width)
        by (nonlinear_arith);
    assert(n.height * n.width == n.width * n.height) by (nonlinear_arith);
}

/// A location names the sample of the picture that was asked for: the place that
/// is found, from the corner of its macroblock, is the place asked for, from the
/// corner of the current one. Nothing is found exactly below the current
/// macroblock, to its right on the same rows, outside the picture, and in a
/// macroblock that may not be used.
pub proof fn law_locations_name_the_sample_asked_for(n: Grid, curr: int, x: int, y: int, size: int)
    requires
        n.wf(),
        n.width > 0,
        n.slice.len() <= usize::MAX,
        0 <= curr < n.slice.len(),
        size == 8 || size == 16,
        -size <= x < 2 * size,
        -size <= y < 2 * size,
    ensures
        match n.spec_location(curr, x, y, size) {
            Some(at) => {
                &&& at.x < size
                &&& at.y < size
                &&& (at.mb as int % n.width) * size + at.x == (curr % n.width) * size + x
                &&& (at.mb as int / n.width) * size + at.y == (curr / n.width) * size + y
                &&& at.mb == curr || n.spec_available(at.mb as int, curr)
            },
            None => true,
        },
        n.spec_location(curr, x, y, size) is None <==> y >= size || (x >= size && y >= 0)
            || match holder(n, curr, x, y, size) {
            None => true,
            Some(addr) => addr != curr && !n.spec_available(addr, curr),
        },
{
    let (w, h) = (n.width, n.height);
    lemma_raster_inverse(w, h, curr);
    if y < size && !(x >= size && y >= 0) {
        let (dx, dy) = (x / size, y / size);
        assert(x / size == if size == 8 {
            x / 8
        } else {
            x / 16
        });
        assert(y / size == if size == 8 {
            y / 8
        } else {
            y / 16
        });
        assert(x % size == x - dx * size) by (nonlinear_arith)
            requires
                dx == x / size,
                size > 0,
        ;
        assert(y % size == y - dy * size) by (nonlinear_arith)
            requires
                dy == y / size,
                size > 0,
        ;
        assert(dy == 0 || dy == -1);
        assert(dy * w == if dy == 0 {
            0
        } else {
            -w
        }) by (nonlinear_arith)
            requires
                dy == 0 || dy == -1,
        ;
        if 0 <= curr % w + dx < w && 0 <= curr / w + dy {
            lemma_holder(n, curr, dx, dy);
            assert(holder(n, curr, x, y, size) == Some(curr + dy * w + dx));
            assert((curr % w + dx) * size == (curr % w) * size + dx * size) by (nonlinear_arith);
            assert((curr / w + dy) * size == (curr / w) * size + dy * size) by (nonlinear_arith);
        } else if 0 <= curr % w + dx < w {
            assert(curr < w) by {
                lemma_raster(w, curr % w, 0);
            }
        }
    }
}

/// Once a new picture has begun, no macroblock but the current one can be read.
pub proof fn law_new_picture_forgets(n: Grid, addr: int, curr: int)
    requires
        forall|i: int| 0 <= i < n.slice.len() ==> #[trigger] n.slice[i] is None,
    ensures
        !n.spec_available(addr, curr),
{
}

/// A block reference names one of `count` blocks of the current macroblock that
/// comes before `blk`, or of an earlier macroblock.
pub open spec fn names_earlier(b: Option<BlockRef>, curr: int, blk: int, count: int) -> bool {
    b matches Some(b) ==> {
        &&& b.blk < count
        &&& b.mb <= curr
        &&& b.mb == curr ==> b.blk < blk
    }
}

/// What a neighbour query answers is a block of a macroblock that may be read:
/// the current one or an earlier one of the same slice.
pub proof fn lemma_neighbours_exist(n: Grid, curr: int)
    requires
        n.wf(),
        n.width > 0,
        n.slice.len() <= usize::MAX,
        0 <= curr < n.slice.len(),
    ensures
        forall|x: int, y: int, blk: int|
            names_earlier(#[trigger] n.luma_4x4_at(curr, x, y, blk), curr, blk, 16),
        forall|blk: int, dx: int, dy: int|
            names_earlier(
                #[trigger] n.spec_luma_4x4_neighbour(curr, blk, dx, dy),
                curr,
                blk,
                16,
            ),
        forall|blk: int, dx: int, dy: int|
            names_earlier(
                #[trigger] n.spec_luma_8x8_neighbour(curr, blk, dx, dy),
                curr,
                blk,
                4,
            ),
        forall|blk: int, dx: int, dy: int|
            names_earlier(
                #[trigger] n.spec_chroma_4x4_neighbour(curr, blk, dx, dy),
                curr,
                blk,
                4,
            ),
        n.spec_mb_a(curr) matches Some(m) ==> m < curr,
        n.spec_mb_b(curr) matches Some(m) ==> m < curr,
        n.spec_mb_c(curr) matches Some(m) ==> m < curr,
        n.spec_mb_d(curr) matches Some(m) ==> m < curr,
{
    assert forall|x: int, y: int, blk: int|
        names_earlier(#[trigger] n.luma_4x4_at(curr, x, y, blk), curr, blk, 16) by {
        law_neighbours_share_the_slice(n, curr, x, y, 16);
        if n.spec_location(curr, x, y, 16) is Some {
            let at = n.spec_location(curr, x, y, 16)->0;
            law_every_sample_has_a_block(at.x as int, at.y as int);
        }
    }
    assert forall|blk: int, dx: int, dy: int|
        names_earlier(#[trigger] n.spec_luma_8x8_neighbour(curr, blk, dx, dy), curr, blk, 4) by {
        law_neighbours_share_the_slice(n, curr, (blk % 2) * 8 + dx, (blk / 2) * 8 + dy, 16);
    }
    assert forall|blk: int, dx: int, dy: int|
        names_earlier(#[trigger] n.spec_chroma_4x4_neighbour(curr, blk, dx, dy), curr, blk, 4) by {
        law_neighbours_share_the_slice(n, curr, (blk % 2) * 4 + dx, (blk / 2) * 4 + dy, 8);
    }
    law_neighbours_share_the_slice(n, curr, -1, 0, 16);
    law_neighbours_share_the_slice(n, curr, 0, -1, 16);
    law_neighbours_share_the_slice(n, curr, 16, -1, 16);
    law_neighbours_share_the_slice(n, curr, -1, -1, 16);
    assert(n.width == 1 ==> curr % n.width == 0);
}

/// The 4x4 blocks of a macroblock go by quadrants, and in each by rows of two: the
/// next block of an even one is to its right, the one two further below it, the
/// one four further a quadrant to the right, the one eight further a quadrant
/// down. Those of an 8x8 block and of chroma go by rows of two.
pub proof fn law_blocks_go_by_quadrants(blk: int, x: int, y: int)
    requires
        0 <= blk < 16,
        0 <= x < 16,
        0 <= y < 16,
    ensures
        luma_4x4_x(0) == 0 && luma_4x4_y(0) == 0,
        blk % 2 == 0 ==> luma_4x4_x(blk + 1) == luma_4x4_x(blk) + 4 && luma_4x4_y(blk + 1)
            == luma_4x4_y(blk),
        blk % 4 < 2 ==> luma_4x4_x(blk + 2) == luma_4x4_x(blk) && luma_4x4_y(blk + 2)
            == luma_4x4_y(blk) + 4,
        blk % 8 < 4 ==> luma_4x4_x(blk + 4) == luma_4x4_x(blk) + 8 && luma_4x4_y(blk + 4)
            == luma_4x4_y(blk),
        blk < 8 ==> luma_4x4_x(blk + 8) == luma_4x4_x(blk) && luma_4x4_y(blk + 8) == luma_4x4_y(
            blk,
        ) + 8,
        spec_luma_8x8_index(x, y) == (if y < 8 {
            0int
        } else {
            2
        }) + (if x < 8 {
            0int
        } else {
            1
        }),
        x < 8 && y < 8 ==> spec_chroma_4x4_index(x, y) == (if y < 4 {
            0int
        } else {
            2
        }) + (if x < 4 {
            0int
        } else {
            1
        }),
{
}

} // verus!
