//! Deblocking a whole picture.
//!
//! The filter runs once every macroblock is reconstructed: intra prediction
//! reads unfiltered neighbours, inter prediction filtered references. The order
//! is fixed as well, because later edges read what earlier ones wrote:
//! macroblocks in raster order, in each the vertical edges from left to right,
//! then the horizontal ones from top to bottom.
use vstd::prelude::*;
use super::deblock::{
    boundary_strength, filter_chroma_edge, filter_luma_edge, law_flat_plane_is_kept, limits,
    spec_boundary_strength, Edge,
    EdgeBlock, EdgeKind, Filter, Limits, Seam, Thresholds,
};
use super::math::lemma_shr_i32;
use super::mb::{chroma_qp, spec_chroma_qp};
use super::neighbour::{luma_4x4_index, spec_luma_4x4_index, MbAddr};
use super::picture::{Canvas, Picture};
use super::recon::{lemma_windows, matched, mb_left, mb_top, repainted, same_frame};
use super::slice::Deblocking;
use super::state::{MbInfo, MbModel, PicModel, PictureState};

verus! {

/// What the filter needs beside the macroblocks.
pub struct FilterParams<'a> {
    /// Control of the filter per slice, by slice number.
    pub slices: &'a [Deblocking],
    /// Chroma quantiser offset of each component.
    pub chroma_qp_offset: [i32; 2],
}

/// What the filter needs beside the macroblocks, as a mathematical value.
pub struct FilterModel {
    pub slices: Seq<Deblocking>,
    pub chroma_qp_offset: Seq<i32>,
}

impl<'a> View for FilterParams<'a> {
    type V = FilterModel;

    open spec fn view(&self) -> FilterModel {
        FilterModel { slices: self.slices@, chroma_qp_offset: self.chroma_qp_offset@ }
    }
}

impl FilterModel {
    /// Every slice shifts the thresholds within bounds.
    pub open spec fn wf(self) -> bool {
        forall|i: int| 0 <= i < self.slices.len() ==> (#[trigger] self.slices[i]).wf()
    }
}

/// Control of the filter for a macroblock; none for one that no slice claimed.
pub open spec fn control_of(pic: PicModel, params: FilterModel, addr: int) -> Option<Deblocking> {
    match pic.grid.spec_slice_of(addr) {
        Some(id) => if id < params.slices.len() {
            Some(params.slices[id as int])
        } else {
            None
        },
        None => None,
    }
}

/// Whether the edge between a macroblock and its neighbour is filtered: the
/// neighbour was claimed, and by the same slice where edges between slices are
/// left alone.
pub open spec fn joined(pic: PicModel, control: Deblocking, addr: int, other: int) -> bool {
    &&& pic.grid.spec_slice_of(other) is Some
    &&& control.spec_crosses_slices() || pic.grid.spec_slice_of(other) == pic.grid.spec_slice_of(
        addr,
    )
}

/// The macroblock on the near side of edge `e`, if that edge is filtered.
pub open spec fn beside(
    pic: PicModel,
    control: Deblocking,
    addr: int,
    kind: EdgeKind,
    e: int,
) -> Option<int> {
    let width = pic.grid.width;
    if e > 0 {
        Some(addr)
    } else if kind is Vertical {
        if addr % width > 0 && joined(pic, control, addr, addr - 1) {
            Some(addr - 1)
        } else {
            None
        }
    } else {
        if addr / width > 0 && joined(pic, control, addr, addr - width) {
            Some(addr - width)
        } else {
            None
        }
    }
}

/// A 4x4 block as the strength of an edge depends on it.
pub open spec fn block_model(info: MbModel, blk: int) -> EdgeBlock {
    EdgeBlock {
        intra: info.is_intra(),
        has_coeffs: info.cbf_luma[blk],
        mv: (info.mv[blk].0 as i32, info.mv[blk].1 as i32),
        ref_idx: info.ref_idx[blk / 4],
    }
}

/// The 4x4 block at distance `across` from the left or top of a macroblock, in
/// group `group` along the edge.
pub open spec fn block_along(kind: EdgeKind, across: int, group: int) -> int {
    match kind {
        EdgeKind::Vertical => spec_luma_4x4_index(across, group * 4),
        EdgeKind::Horizontal => spec_luma_4x4_index(group * 4, across),
    }
}

/// Strengths of the four groups of lines along edge `e`. The near block of the
/// outermost edge is the last of the neighbour.
pub open spec fn strengths(pic: PicModel, addr: int, other: int, kind: EdgeKind, e: int) -> Seq<u8> {
    let back = if e == 0 {
        12
    } else {
        (e - 1) * 4
    };
    Seq::new(
        4,
        |g: int|
            spec_boundary_strength(
                block_model(pic.mbs[other], block_along(kind, back, g)),
                block_model(pic.mbs[addr], block_along(kind, e * 4, g)),
                e == 0,
            ),
    )
}

/// Mean of two quantisers, rounded up.
pub open spec fn mean_qp(p: int, q: int) -> int {
    (p + q + 1) / 2
}

/// An edge of a macroblock in a plane whose macroblocks have `side` samples.
pub open spec fn seam(
    pic: PicModel,
    addr: int,
    kind: EdgeKind,
    offset: int,
    side: int,
    bs: Seq<u8>,
) -> Seam {
    let (x, y) = (mb_left(pic, addr, side), mb_top(pic, addr, side));
    match kind {
        EdgeKind::Vertical => Seam { kind, x: x + offset, y, length: side, bs },
        EdgeKind::Horizontal => Seam { kind, x, y: y + offset, length: side, bs },
    }
}

/// A plane of a canvas with an edge filtered.
pub open spec fn smoothed(c: Canvas, plane: int, f: Filter, edge: Seam, t: Limits) -> Canvas {
    c.with_plane(plane, edge.filtered(f, c.planes[plane], c.stride(plane), t, 0))
}

/// Whether luma edge `e` exists: the 8x8 transform has none at 4 and 12.
pub open spec fn luma_edge_exists(info: MbModel, e: int) -> bool {
    e == 0 || !info.transform_8x8 || e % 2 == 0
}

/// The thresholds of a luma edge.
pub open spec fn luma_limits(pic: PicModel, control: Deblocking, addr: int, other: int) -> Limits {
    limits(
        mean_qp(pic.mbs[addr].qp as int, pic.mbs[other].qp as int),
        control.alpha_offset as int,
        control.beta_offset as int,
    )
}

/// The thresholds of an edge of a chroma component.
pub open spec fn chroma_limits(
    pic: PicModel,
    params: FilterModel,
    control: Deblocking,
    addr: int,
    other: int,
    comp: int,
) -> Limits {
    let offset = params.chroma_qp_offset[comp] as int;
    limits(
        mean_qp(
            spec_chroma_qp(pic.mbs[addr].qp as int, offset),
            spec_chroma_qp(pic.mbs[other].qp as int, offset),
        ),
        control.alpha_offset as int,
        control.beta_offset as int,
    )
}

/// A canvas after the luma part of edge `e`.
pub open spec fn luma_edge(
    c: Canvas,
    pic: PicModel,
    control: Deblocking,
    addr: int,
    other: int,
    kind: EdgeKind,
    e: int,
) -> Canvas {
    if luma_edge_exists(pic.mbs[addr], e) {
        smoothed(
            c,
            0,
            Filter::Luma,
            seam(pic, addr, kind, e * 4, 16, strengths(pic, addr, other, kind, e)),
            luma_limits(pic, control, addr, other),
        )
    } else {
        c
    }
}

/// A canvas after component `comp` of edge `e`.
pub open spec fn chroma_edge(
    c: Canvas,
    pic: PicModel,
    params: FilterModel,
    control: Deblocking,
    addr: int,
    other: int,
    kind: EdgeKind,
    e: int,
    comp: int,
) -> Canvas {
    smoothed(
        c,
        comp + 1,
        Filter::Chroma,
        seam(pic, addr, kind, e * 2, 8, strengths(pic, addr, other, kind, e)),
        chroma_limits(pic, params, control, addr, other, comp),
    )
}

/// A canvas after edge `e` of a macroblock: luma, and chroma where a chroma
/// block begins.
pub open spec fn one_edge(
    c: Canvas,
    pic: PicModel,
    params: FilterModel,
    control: Deblocking,
    addr: int,
    kind: EdgeKind,
    e: int,
) -> Canvas {
    match beside(pic, control, addr, kind, e) {
        None => c,
        Some(other) => {
            let luma = luma_edge(c, pic, control, addr, other, kind, e);
            if e % 2 != 0 {
                luma
            } else {
                let cb = chroma_edge(luma, pic, params, control, addr, other, kind, e, 0);
                chroma_edge(cb, pic, params, control, addr, other, kind, e, 1)
            }
        },
    }
}

/// The four edges of one direction, from edge `e` on.
pub open spec fn edges_from(
    c: Canvas,
    pic: PicModel,
    params: FilterModel,
    control: Deblocking,
    addr: int,
    kind: EdgeKind,
    e: int,
) -> Canvas
    decreases 4 - e,
{
    if e >= 4 {
        c
    } else {
        edges_from(
            one_edge(c, pic, params, control, addr, kind, e),
            pic,
            params,
            control,
            addr,
            kind,
            e + 1,
        )
    }
}

/// A canvas after the edges of one macroblock.
pub open spec fn one_macroblock(c: Canvas, pic: PicModel, params: FilterModel, addr: int) -> Canvas {
    match control_of(pic, params, addr) {
        None => c,
        Some(control) => if control.spec_enabled() {
            let vertical = edges_from(c, pic, params, control, addr, EdgeKind::Vertical, 0);
            edges_from(vertical, pic, params, control, addr, EdgeKind::Horizontal, 0)
        } else {
            c
        },
    }
}

/// A canvas after the macroblocks from `addr` on.
pub open spec fn deblocked(c: Canvas, pic: PicModel, params: FilterModel, addr: int) -> Canvas
    decreases pic.mbs.len() - addr,
{
    if addr >= pic.mbs.len() {
        c
    } else {
        deblocked(one_macroblock(c, pic, params, addr), pic, params, addr + 1)
    }
}

// ---- Filtering --------------------------------------------------------------

/// An edge far enough from the border of a plane can be filtered.
proof fn lemma_fits(f: Filter, len: int, width: int, height: int, edge: Seam)
    requires
        0 < width,
        forall|y: int| 0 <= y <= height ==> 0 <= #[trigger] (y * width) <= len,
        0 <= edge.x,
        0 <= edge.y,
        ({
            let far: int = if f is Luma {
                4
            } else {
                2
            };
            match edge.kind {
                EdgeKind::Vertical => edge.x >= far && edge.x + far <= width && edge.y + edge.length
                    <= height,
                EdgeKind::Horizontal => edge.y >= far && edge.y + far <= height && edge.x
                    + edge.length <= width,
            }
        }),
    ensures
        edge.fits(f, len, width),
{
    assert forall|i: int| 0 <= i < edge.length implies super::deblock::line_fits(
        f,
        len,
        #[trigger] edge.place(width, i),
        edge.step(width),
        edge.strength(i),
    ) by {
        let (x, y) = (edge.x, edge.y);
        match edge.kind {
            EdgeKind::Vertical => {
                assert((y + i + 1) * width == (y + i) * width + width) by (nonlinear_arith);
                assert(0 <= (y + i) * width <= len);
                assert(0 <= (y + i + 1) * width <= len);
            },
            EdgeKind::Horizontal => {
                assert((y - 4) * width == y * width - 4 * width) by (nonlinear_arith);
                assert((y - 3) * width == y * width - 3 * width) by (nonlinear_arith);
                assert((y - 2) * width == y * width - 2 * width) by (nonlinear_arith);
                assert((y + 4) * width == y * width + 4 * width) by (nonlinear_arith);
                assert((y + 3) * width == y * width + 3 * width) by (nonlinear_arith);
                assert((y + 2) * width == y * width + 2 * width) by (nonlinear_arith);
                assert(0 <= (y - 2) * width <= len);
                assert(0 <= (y + 2) * width <= len);
                if f is Luma {
                    assert(0 <= (y - 4) * width <= len);
                    assert(0 <= (y + 4) * width <= len);
                }
            },
        }
    }
}

/// Mean of two quantisers, rounded up.
fn average_qp(p: u8, q: u8) -> (r: i32)
    ensures
        r == mean_qp(p as int, q as int),
        0 <= r <= 255,
{
    let sum: i32 = p as i32 + q as i32 + 1;
    proof {
        lemma_shr_i32(sum);
    }
    sum >> 1
}

fn edge_block(info: &MbInfo, blk: u8) -> (r: EdgeBlock)
    requires
        blk < 16,
    ensures
        r == block_model(info@, blk as int),
        i16::MIN <= r.mv.0 <= i16::MAX,
        i16::MIN <= r.mv.1 <= i16::MAX,
{
    let mv: [i16; 2] = info.mv[blk as usize];
    EdgeBlock {
        intra: info.is_intra(),
        has_coeffs: info.luma_cbf(blk),
        mv: (mv[0] as i32, mv[1] as i32),
        ref_idx: info.ref_idx_of_block(blk),
    }
}

fn block_at(kind: EdgeKind, across: usize, group: usize) -> (r: u8)
    requires
        across < 16,
        group < 4,
    ensures
        r == block_along(kind, across as int, group as int),
        r < 16,
{
    match kind {
        EdgeKind::Vertical => luma_4x4_index(across, group * 4),
        EdgeKind::Horizontal => luma_4x4_index(group * 4, across),
    }
}

/// Strength of each of the four groups of lines along an edge. Chroma edges
/// share them with luma.
fn edge_strengths(
    state: &PictureState,
    addr: MbAddr,
    other: MbAddr,
    kind: EdgeKind,
    e: usize,
) -> (bs: [u8; 4])
    requires
        addr < state@.mbs.len(),
        other < state@.mbs.len(),
        e < 4,
    ensures
        bs@ == strengths(state@, addr as int, other as int, kind, e as int),
{
    let cur: &MbInfo = state.get(addr);
    let neighbour: &MbInfo = state.get(other);
    let mut bs: [u8; 4] = [0u8;4];
    let back: usize = if e == 0 {
        12
    } else {
        (e - 1) * 4
    };
    let ghost want = strengths(state@, addr as int, other as int, kind, e as int);
    for group in 0..4usize
        invariant
            e < 4,
            back == (if e == 0 {
                12
            } else {
                (e - 1) * 4
            }),
            cur@ == state@.mbs[addr as int],
            neighbour@ == state@.mbs[other as int],
            want == strengths(state@, addr as int, other as int, kind, e as int),
            forall|g: int| 0 <= g < group ==> bs@[g] == want[g],
    {
        let p: EdgeBlock = edge_block(neighbour, block_at(kind, back, group));
        let q: EdgeBlock = edge_block(cur, block_at(kind, e * 4, group));
        bs[group] = boundary_strength(p, q, e == 0);
    }
    assert(bs@ =~= want);
    bs
}

/// What the steps over a macroblock share.
struct Pass<'a> {
    state: &'a PictureState,
    params: &'a FilterParams<'a>,
    addr: MbAddr,
    control: Deblocking,
}

impl<'a> Pass<'a> {
    spec fn on(self, picture: Picture) -> bool {
        &&& self.state.wf()
        &&& picture.wf()
        &&& matched(picture@, self.state@, self.addr as int)
        &&& self.control.wf()
    }

    /// Filters edge `e` of one plane.
    fn plane_edge(
        &self,
        picture: &mut Picture,
        plane: usize,
        kind: EdgeKind,
        offset: usize,
        bs: &[u8; 4],
        t: &Thresholds,
    )
        requires
            self.on(*old(picture)),
            plane < 3,
            t.wf(),
            plane == 0 ==> offset <= 12 && offset % 4 == 0,
            plane != 0 ==> offset <= 4 && offset % 4 == 0,
            offset == 0 ==> match kind {
                EdgeKind::Vertical => self.addr as int % self.state@.grid.width > 0,
                EdgeKind::Horizontal => self.addr as int / self.state@.grid.width > 0,
            },
        ensures
            self.on(*final(picture)),
            repainted(
                *old(picture),
                *final(picture),
                smoothed(
                    old(picture)@,
                    plane as int,
                    if plane == 0 {
                        Filter::Luma
                    } else {
                        Filter::Chroma
                    },
                    seam(
                        self.state@,
                        self.addr as int,
                        kind,
                        offset as int,
                        if plane == 0 {
                            16
                        } else {
                            8
                        },
                        bs@,
                    ),
                    t@,
                ),
            ),
    {
        proof {
            lemma_windows(picture@, self.state@, self.addr as int);
        }
        let (mb_x, mb_y) = self.state.neighbours.origin(self.addr);
        let luma: bool = plane == 0;
        let side: usize = if luma {
            16
        } else {
            8
        };
        let (left, top): (usize, usize) = if luma {
            (mb_x, mb_y)
        } else {
            (mb_x / 2, mb_y / 2)
        };
        let (x, y): (usize, usize) = match kind {
            EdgeKind::Vertical => (left + offset, top),
            EdgeKind::Horizontal => (left, top + offset),
        };
        let edge = Edge { kind, x, y, length: side, bs: bs.as_slice() };
        let ghost f = if luma {
            Filter::Luma
        } else {
            Filter::Chroma
        };
        let ghost c = picture@;
        let ghost w = c.stride(plane as int);
        proof {
            assert(edge@ == seam(
                self.state@,
                self.addr as int,
                kind,
                offset as int,
                side as int,
                bs@,
            ));
            lemma_fits(
                f,
                c.planes[plane as int].len() as int,
                w,
                c.rows(plane as int),
                edge@,
            );
        }
        let stride: usize = picture.strides[plane];
        if luma {
            filter_luma_edge(picture.planes[plane].as_mut_slice(), stride, &edge, t);
        } else {
            filter_chroma_edge(picture.planes[plane].as_mut_slice(), stride, &edge, t);
        }
        proof {
            let goal = smoothed(c, plane as int, f, edge@, t@);
            assert(picture@.planes =~= goal.planes);
        }
    }

    /// Whether `other` lies on the near side of edge `e`.
    spec fn meets(self, other: MbAddr, kind: EdgeKind, e: usize) -> bool {
        &&& e < 4
        &&& other < self.state@.mbs.len()
        &&& e == 0 ==> match kind {
            EdgeKind::Vertical => self.addr as int % self.state@.grid.width > 0,
            EdgeKind::Horizontal => self.addr as int / self.state@.grid.width > 0,
        }
    }

    /// Filters the luma part of edge `e`.
    fn luma_edge(
        &self,
        picture: &mut Picture,
        other: MbAddr,
        kind: EdgeKind,
        e: usize,
        bs: &[u8; 4],
    )
        requires
            self.on(*old(picture)),
            self.meets(other, kind, e),
            bs@ == strengths(self.state@, self.addr as int, other as int, kind, e as int),
        ensures
            self.on(*final(picture)),
            repainted(
                *old(picture),
                *final(picture),
                luma_edge(
                    old(picture)@,
                    self.state@,
                    self.control,
                    self.addr as int,
                    other as int,
                    kind,
                    e as int,
                ),
            ),
    {
        let cur: &MbInfo = self.state.get(self.addr);
        let near: &MbInfo = self.state.get(other);
        if e == 0 || !cur.transform_8x8 || e % 2 == 0 {
            let t = Thresholds::new(
                average_qp(cur.qp, near.qp),
                self.control.alpha_offset,
                self.control.beta_offset,
            );
            self.plane_edge(picture, 0, kind, e * 4, bs, &t);
        }
    }

    /// Filters component `comp` of edge `e`.
    fn chroma_edge(
        &self,
        picture: &mut Picture,
        other: MbAddr,
        kind: EdgeKind,
        e: usize,
        bs: &[u8; 4],
        comp: usize,
    )
        requires
            self.on(*old(picture)),
            self.meets(other, kind, e),
            e % 2 == 0,
            comp < 2,
            bs@ == strengths(self.state@, self.addr as int, other as int, kind, e as int),
        ensures
            self.on(*final(picture)),
            repainted(
                *old(picture),
                *final(picture),
                chroma_edge(
                    old(picture)@,
                    self.state@,
                    self.params@,
                    self.control,
                    self.addr as int,
                    other as int,
                    kind,
                    e as int,
                    comp as int,
                ),
            ),
    {
        let cur: &MbInfo = self.state.get(self.addr);
        let near: &MbInfo = self.state.get(other);
        let offset: i32 = self.params.chroma_qp_offset[comp];
        let t = Thresholds::new(
            average_qp(chroma_qp(cur.qp, offset), chroma_qp(near.qp, offset)),
            self.control.alpha_offset,
            self.control.beta_offset,
        );
        self.plane_edge(picture, comp + 1, kind, e * 2, bs, &t);
    }

    /// Filters edge `e`, whose near side lies in macroblock `other`.
    fn edge(&self, picture: &mut Picture, other: MbAddr, kind: EdgeKind, e: usize)
        requires
            self.on(*old(picture)),
            self.meets(other, kind, e),
            beside(self.state@, self.control, self.addr as int, kind, e as int) == Some(
                other as int,
            ),
        ensures
            self.on(*final(picture)),
            repainted(
                *old(picture),
                *final(picture),
                one_edge(
                    old(picture)@,
                    self.state@,
                    self.params@,
                    self.control,
                    self.addr as int,
                    kind,
                    e as int,
                ),
            ),
    {
        let bs: [u8; 4] = edge_strengths(self.state, self.addr, other, kind, e);
        self.luma_edge(picture, other, kind, e, &bs);
        if e % 2 == 0 {
            self.chroma_edge(picture, other, kind, e, &bs, 0);
            self.chroma_edge(picture, other, kind, e, &bs, 1);
        }
    }

    /// Filters the four edges of one direction; `outer` is the macroblock
    /// beyond the first of them, if that edge is filtered.
    fn edges(&self, picture: &mut Picture, outer: Option<MbAddr>, kind: EdgeKind)
        requires
            self.on(*old(picture)),
            outer matches Some(other) ==> other < self.state@.mbs.len(),
            beside(self.state@, self.control, self.addr as int, kind, 0) == (match outer {
                Some(other) => Some(other as int),
                None => None::<int>,
            }),
        ensures
            self.on(*final(picture)),
            repainted(
                *old(picture),
                *final(picture),
                edges_from(
                    old(picture)@,
                    self.state@,
                    self.params@,
                    self.control,
                    self.addr as int,
                    kind,
                    0,
                ),
            ),
    {
        let ghost goal = edges_from(
            picture@,
            self.state@,
            self.params@,
            self.control,
            self.addr as int,
            kind,
            0,
        );
        for e in 0..4usize
            invariant
                self.on(*picture),
                same_frame(*old(picture), *picture),
                outer matches Some(other) ==> other < self.state@.mbs.len(),
                beside(self.state@, self.control, self.addr as int, kind, 0) == (match outer {
                    Some(other) => Some(other as int),
                    None => None::<int>,
                }),
                goal == edges_from(
                    picture@,
                    self.state@,
                    self.params@,
                    self.control,
                    self.addr as int,
                    kind,
                    e as int,
                ),
        {
            if e > 0 {
                self.edge(picture, self.addr, kind, e);
            } else {
                // Without a macroblock beyond it the outermost edge is not
                // filtered.
                match outer {
                    Some(other) => {
                        self.edge(picture, other, kind, e);
                    },
                    None => {},
                }
            }
        }
    }

    /// `other` where the edge between it and the macroblock is filtered.
    fn across(&self, other: MbAddr) -> (r: Option<MbAddr>)
        ensures
            r == (if joined(self.state@, self.control, self.addr as int, other as int) {
                Some(other)
            } else {
                None
            }),
    {
        let n = &self.state.neighbours;
        match n.slice_of(other) {
            None => None,
            Some(theirs) => {
                let same: bool = match n.slice_of(self.addr) {
                    Some(ours) => ours == theirs,
                    None => false,
                };
                if self.control.crosses_slices() || same {
                    Some(other)
                } else {
                    None
                }
            },
        }
    }

    fn macroblock(&self, picture: &mut Picture)
        requires
            self.on(*old(picture)),
            control_of(self.state@, self.params@, self.addr as int) == Some(self.control),
            self.control.spec_enabled(),
        ensures
            self.on(*final(picture)),
            repainted(
                *old(picture),
                *final(picture),
                one_macroblock(old(picture)@, self.state@, self.params@, self.addr as int),
            ),
    {
        let n = &self.state.neighbours;
        proof {
            let w = self.state@.grid.width;
            let a = self.addr as int;
            assert(a / w > 0 ==> a >= w) by (nonlinear_arith)
                requires
                    w > 0,
                    a >= 0,
            ;
        }
        let left: Option<MbAddr> = if n.mb_x(self.addr) > 0 {
            proof {
                let w = self.state@.grid.width;
                let a = self.addr as int;
                assert(a % w <= a) by (nonlinear_arith)
                    requires
                        w > 0,
                        a >= 0,
                ;
            }
            self.across(self.addr - 1)
        } else {
            None
        };
        let above: Option<MbAddr> = if n.mb_y(self.addr) > 0 {
            self.across(self.addr - n.width_mbs())
        } else {
            None
        };
        self.edges(picture, left, EdgeKind::Vertical);
        self.edges(picture, above, EdgeKind::Horizontal);
    }
}

/// The control that governs a macroblock.
fn slice_control(state: &PictureState, params: &FilterParams<'_>, addr: MbAddr) -> (r: Option<
    Deblocking,
>)
    ensures
        r == control_of(state@, params@, addr as int),
{
    match state.neighbours.slice_of(addr) {
        None => None,
        Some(id) => {
            if (id as usize) < params.slices.len() {
                Some(params.slices[id as usize])
            } else {
                None
            }
        },
    }
}

/// Applies the deblocking filter to a fully reconstructed picture.
pub fn filter_picture(picture: &mut Picture, state: &PictureState, params: &FilterParams<'_>)
    requires
        old(picture).wf(),
        state.wf(),
        state@.mbs.len() > 0 ==> matched(old(picture)@, state@, 0),
        params@.wf(),
    ensures
        repainted(*old(picture), *final(picture), deblocked(old(picture)@, state@, params@, 0)),
{
    let ghost goal = deblocked(picture@, state@, params@, 0);
    let n: usize = state.neighbours.len();
    for addr in 0..n
        invariant
            n == state@.mbs.len(),
            state.wf(),
            params@.wf(),
            picture.wf(),
            same_frame(*old(picture), *picture),
            state@.mbs.len() > 0 ==> matched(picture@, state@, 0),
            goal == deblocked(picture@, state@, params@, addr as int),
    {
        match slice_control(state, params, addr) {
            None => {},
            Some(control) => {
                if control.enabled() {
                    Pass { state, params, addr, control }.macroblock(picture);
                }
            },
        }
    }
}

// ---- Laws -------------------------------------------------------------------

/// A picture all of whose slices turn the filter off is left as it is.
pub proof fn law_disabled_slices_are_not_filtered(
    c: Canvas,
    pic: PicModel,
    params: FilterModel,
    from: int,
)
    requires
        forall|i: int|
            0 <= i < params.slices.len() ==> !(#[trigger] params.slices[i]).spec_enabled(),
    ensures
        deblocked(c, pic, params, from) == c,
    decreases pic.mbs.len() - from,
{
    if from < pic.mbs.len() {
        law_disabled_slices_are_not_filtered(c, pic, params, from + 1);
    }
}

/// A canvas each of whose planes holds one value.
pub open spec fn flat(c: Canvas, values: Seq<u8>) -> bool {
    forall|p: int, k: int|
        0 <= p < 3 && 0 <= k < c.planes[p].len() ==> (#[trigger] c.planes[p][k]) == values[p]
}

proof fn lemma_flat_edge(
    c: Canvas,
    pic: PicModel,
    addr: int,
    plane: int,
    kind: EdgeKind,
    offset: int,
    bs: Seq<u8>,
    t: Limits,
    values: Seq<u8>,
)
    requires
        matched(c, pic, addr),
        flat(c, values),
        0 <= plane < 3,
        0 <= t.index_a < 52,
        offset % 4 == 0,
        plane == 0 ==> 0 <= offset <= 12,
        plane != 0 ==> 0 <= offset <= 4,
        offset == 0 ==> match kind {
            EdgeKind::Vertical => addr % pic.grid.width > 0,
            EdgeKind::Horizontal => addr / pic.grid.width > 0,
        },
    ensures
        ({
            let f = if plane == 0 {
                Filter::Luma
            } else {
                Filter::Chroma
            };
            let side: int = if plane == 0 {
                16
            } else {
                8
            };
            smoothed(c, plane, f, seam(pic, addr, kind, offset, side, bs), t) == c
        }),
{
    let f = if plane == 0 {
        Filter::Luma
    } else {
        Filter::Chroma
    };
    let side: int = if plane == 0 {
        16
    } else {
        8
    };
    let edge = seam(pic, addr, kind, offset, side, bs);
    lemma_windows(c, pic, addr);
    lemma_fits(f, c.planes[plane].len() as int, c.stride(plane), c.rows(plane), edge);
    law_flat_plane_is_kept(f, edge, c.planes[plane], c.stride(plane), t, 0, values[plane]);
    assert(smoothed(c, plane, f, edge, t).planes =~= c.planes);
}

proof fn lemma_flat_edges(
    c: Canvas,
    pic: PicModel,
    params: FilterModel,
    control: Deblocking,
    addr: int,
    kind: EdgeKind,
    e: int,
    values: Seq<u8>,
)
    requires
        matched(c, pic, addr),
        flat(c, values),
        0 <= e,
    ensures
        edges_from(c, pic, params, control, addr, kind, e) == c,
    decreases 4 - e,
{
    if e < 4 {
        match beside(pic, control, addr, kind, e) {
            None => {},
            Some(other) => {
                let bs = strengths(pic, addr, other, kind, e);
                lemma_flat_edge(
                    c,
                    pic,
                    addr,
                    0,
                    kind,
                    e * 4,
                    bs,
                    luma_limits(pic, control, addr, other),
                    values,
                );
                if e % 2 == 0 {
                    let t0 = chroma_limits(pic, params, control, addr, other, 0);
                    let t1 = chroma_limits(pic, params, control, addr, other, 1);
                    lemma_flat_edge(c, pic, addr, 1, kind, e * 2, bs, t0, values);
                    lemma_flat_edge(c, pic, addr, 2, kind, e * 2, bs, t1, values);
                }
            },
        }
        lemma_flat_edges(c, pic, params, control, addr, kind, e + 1, values);
    }
}

/// A picture whose planes are flat has no seams, and the filter keeps it.
pub proof fn law_flat_pictures_are_kept(
    c: Canvas,
    pic: PicModel,
    params: FilterModel,
    from: int,
    values: Seq<u8>,
)
    requires
        0 <= from,
        from < pic.mbs.len() ==> matched(c, pic, from),
        flat(c, values),
    ensures
        deblocked(c, pic, params, from) == c,
    decreases pic.mbs.len() - from,
{
    if from < pic.mbs.len() {
        match control_of(pic, params, from) {
            None => {},
            Some(control) => {
                lemma_flat_edges(c, pic, params, control, from, EdgeKind::Vertical, 0, values);
                lemma_flat_edges(c, pic, params, control, from, EdgeKind::Horizontal, 0, values);
            },
        }
        law_flat_pictures_are_kept(c, pic, params, from + 1, values);
    }
}

/// Two pictures alike but for how they are cut into slices: every macroblock is
/// claimed in both, and with the same control.
pub open spec fn cut_alike(
    pic: PicModel,
    params: FilterModel,
    other: PicModel,
    others: FilterModel,
) -> bool {
    &&& other.mbs == pic.mbs
    &&& other.grid.width == pic.grid.width
    &&& other.grid.height == pic.grid.height
    &&& others.chroma_qp_offset == params.chroma_qp_offset
    &&& pic.grid.width > 0
    &&& forall|a: int| #![trigger pic.grid.spec_slice_of(a)]
        0 <= a < pic.mbs.len() ==> {
            &&& pic.grid.spec_slice_of(a) matches Some(i) && 0 <= i < params.slices.len()
            &&& other.grid.spec_slice_of(a) matches Some(j) && 0 <= j < others.slices.len()
            &&& params.slices[pic.grid.spec_slice_of(a)->0 as int]
                == others.slices[other.grid.spec_slice_of(a)->0 as int]
        }
}

/// Where every slice asks for all edges to be filtered, how the picture is cut
/// into slices does not matter: edges between slices are filtered as those within
/// one.
pub proof fn law_filtering_all_edges_ignores_the_slices(
    c: Canvas,
    pic: PicModel,
    params: FilterModel,
    other: PicModel,
    others: FilterModel,
    from: int,
)
    requires
        0 <= from,
        cut_alike(pic, params, other, others),
        forall|i: int| 0 <= i < params.slices.len() ==> (#[trigger] params.slices[i]).disable_idc == 0,
        forall|i: int| 0 <= i < others.slices.len() ==> (#[trigger] others.slices[i]).disable_idc == 0,
    ensures
        deblocked(c, pic, params, from) == deblocked(c, other, others, from),
    decreases pic.mbs.len() - from,
{
    if from < pic.mbs.len() {
        let one = pic.grid.spec_slice_of(from)->0 as int;
        let two = other.grid.spec_slice_of(from)->0 as int;
        let control = params.slices[one];
        assert(others.slices[two] == control);
        lemma_edges_ignore_slices(
            c,
            pic,
            params,
            other,
            others,
            control,
            from,
            EdgeKind::Vertical,
            0,
        );
        let vertical = edges_from(c, pic, params, control, from, EdgeKind::Vertical, 0);
        lemma_edges_ignore_slices(
            vertical,
            pic,
            params,
            other,
            others,
            control,
            from,
            EdgeKind::Horizontal,
            0,
        );
        law_filtering_all_edges_ignores_the_slices(
            one_macroblock(c, pic, params, from),
            pic,
            params,
            other,
            others,
            from + 1,
        );
    }
}

proof fn lemma_edges_ignore_slices(
    c: Canvas,
    pic: PicModel,
    params: FilterModel,
    other: PicModel,
    others: FilterModel,
    control: Deblocking,
    addr: int,
    kind: EdgeKind,
    e: int,
)
    requires
        cut_alike(pic, params, other, others),
        control.disable_idc == 0,
        0 <= addr < pic.mbs.len(),
        0 <= e,
    ensures
        edges_from(c, pic, params, control, addr, kind, e) == edges_from(
            c,
            other,
            others,
            control,
            addr,
            kind,
            e,
        ),
    decreases 4 - e,
{
    if e < 4 {
        let w = pic.grid.width;
        assert((addr % w > 0 ==> addr >= 1) && (addr / w > 0 ==> addr >= w)) by (nonlinear_arith)
            requires
                w > 0,
                addr >= 0,
        ;
        if e == 0 {
            let near = if kind is Vertical {
                addr - 1
            } else {
                addr - w
            };
            if 0 <= near {
                assert(pic.grid.spec_slice_of(near) is Some);
                assert(other.grid.spec_slice_of(near) is Some);
            }
        }
        assert(beside(pic, control, addr, kind, e) == beside(other, control, addr, kind, e));
        assert(one_edge(c, pic, params, control, addr, kind, e) == one_edge(
            c,
            other,
            others,
            control,
            addr,
            kind,
            e,
        ));
        lemma_edges_ignore_slices(
            one_edge(c, pic, params, control, addr, kind, e),
            pic,
            params,
            other,
            others,
            control,
            addr,
            kind,
            e + 1,
        );
    }
}

/// The edge against another slice is left as it is where the slice asks for that,
/// and only there: where all edges are to be filtered, it is as if the two
/// macroblocks were of one slice. Edges within a macroblock do not depend on it.
pub proof fn law_slice_edges_are_kept_on_request(
    c: Canvas,
    pic: PicModel,
    params: FilterModel,
    control: Deblocking,
    addr: int,
    kind: EdgeKind,
    e: int,
)
    requires
        0 <= addr < pic.mbs.len(),
        pic.grid.width > 0,
        e >= 0,
    ensures
        ({
            let near = if kind is Vertical {
                addr - 1
            } else {
                addr - pic.grid.width
            };
            let two = Deblocking { disable_idc: 2, ..control };
            let zero = Deblocking { disable_idc: 0, ..control };
            let differ = pic.grid.spec_slice_of(near) != pic.grid.spec_slice_of(addr);
            &&& e == 0 && differ ==> one_edge(c, pic, params, two, addr, kind, e) == c
            &&& !differ || e > 0 ==> one_edge(c, pic, params, two, addr, kind, e) == one_edge(
                c,
                pic,
                params,
                zero,
                addr,
                kind,
                e,
            )
        }),
{
}

/// A macroblock with the 8x8 transform has no edges in the middle of its blocks:
/// of the four in a direction the second and the last are left as they are.
pub proof fn law_large_transforms_have_two_edges(
    c: Canvas,
    pic: PicModel,
    params: FilterModel,
    control: Deblocking,
    addr: int,
    kind: EdgeKind,
    e: int,
)
    requires
        pic.mbs[addr].transform_8x8,
        e == 1 || e == 3,
    ensures
        one_edge(c, pic, params, control, addr, kind, e) == c,
{
}

/// Chroma has half as many edges: the second and the last of four change luma
/// only.
pub proof fn law_chroma_has_every_second_edge(
    c: Canvas,
    pic: PicModel,
    params: FilterModel,
    control: Deblocking,
    addr: int,
    kind: EdgeKind,
    e: int,
)
    requires
        c.planes.len() == 3,
        e == 1 || e == 3,
    ensures
        one_edge(c, pic, params, control, addr, kind, e).planes[1] == c.planes[1],
        one_edge(c, pic, params, control, addr, kind, e).planes[2] == c.planes[2],
{
}

/// The thresholds of an edge are those of the mean of the two quantisers, rounded
/// up, moved by the offsets of the slice.
pub proof fn law_thresholds_go_by_the_mean_quantiser(
    pic: PicModel,
    control: Deblocking,
    addr: int,
    other: int,
)
    ensures
        ({
            let t = luma_limits(pic, control, addr, other);
            let both = pic.mbs[addr].qp + pic.mbs[other].qp;
            forall|q: int|
                both == 2 * q || both + 1 == 2 * q ==> t == #[trigger] limits(
                    q,
                    control.alpha_offset as int,
                    control.beta_offset as int,
                )
        }),
{
}

} // verus!
