//! The deblocking filter on one edge.
//!
//! Three stages: how hard to filter an edge ([`boundary_strength`]), within
//! which thresholds ([`Thresholds`]), and the sample filters themselves
//! ([`filter_luma_edge`] and [`filter_chroma_edge`]). The order of the edges is
//! the caller's business.
use vstd::prelude::*;
use super::deblock_tables::{
    alpha, alpha_at, beta, beta_at, law_fine_quantisers_have_no_thresholds, lemma_threshold_range,
    tc0, tc0_at,
};
use super::math::{
    abs_i32, clamp_i32, clip1, clip3, clip_sample, lemma_raster, lemma_raster_inverse,
    lemma_shr_i32, magnitude,
};

verus! {

// ---- Thresholds -------------------------------------------------------------

/// The thresholds of an edge, as numbers.
pub struct Limits {
    pub alpha: int,
    pub beta: int,
    /// Index into the `tC0` table.
    pub index_a: int,
}

/// The thresholds for an average quantiser and the offsets of a slice.
pub open spec fn limits(qp_av: int, alpha_offset: int, beta_offset: int) -> Limits {
    let index_a = clip3(0, 51, qp_av + alpha_offset);
    let index_b = clip3(0, 51, qp_av + beta_offset);
    Limits { alpha: alpha_at(index_a), beta: beta_at(index_b), index_a }
}

/// Filter thresholds of one edge.
#[derive(Debug, Clone, Copy, PartialEq, Eq, Structural)]
pub struct Thresholds {
    pub alpha: i32,
    pub beta: i32,
    /// `tC0` depends on the strength as well, so its row is kept.
    pub index_a: usize,
}

impl View for Thresholds {
    type V = Limits;

    open spec fn view(&self) -> Limits {
        Limits { alpha: self.alpha as int, beta: self.beta as int, index_a: self.index_a as int }
    }
}

impl Thresholds {
    /// Thresholds of which the table has a row, and that are sample differences.
    pub open spec fn wf(self) -> bool {
        &&& 0 <= self.alpha <= 255
        &&& 0 <= self.beta <= 255
        &&& self.index_a < 52
    }

    /// The thresholds for the average quantiser of the two sides, rounded up by
    /// the caller, and the offsets of the slice.
    pub fn new(qp_av: i32, alpha_offset: i32, beta_offset: i32) -> (t: Self)
        requires
            i32::MIN <= qp_av + alpha_offset <= i32::MAX,
            i32::MIN <= qp_av + beta_offset <= i32::MAX,
        ensures
            t@ == limits(qp_av as int, alpha_offset as int, beta_offset as int),
            t.wf(),
    {
        let index_a: usize = clamp_i32(0, 51, qp_av + alpha_offset) as usize;
        let index_b: usize = clamp_i32(0, 51, qp_av + beta_offset) as usize;
        Thresholds { alpha: alpha(index_a), beta: beta(index_b), index_a }
    }

    fn tc0(&self, bs: u8) -> (r: i32)
        requires
            self.wf(),
            1 <= bs <= 3,
        ensures
            r == tc0_at(self@.index_a, bs as int),
            0 <= r <= 255,
    {
        tc0(self.index_a, bs)
    }
}

// ---- Strength ---------------------------------------------------------------

/// How a block beside an edge was coded.
#[derive(Debug, Clone, Copy, PartialEq, Eq)]
pub struct EdgeBlock {
    /// Whether the block is intra coded.
    pub intra: bool,
    /// Whether the block has coefficients.
    pub has_coeffs: bool,
    /// Motion vector in quarter samples; means nothing for an intra block.
    pub mv: (i32, i32),
    /// Reference index, -1 for an intra block.
    pub ref_idx: i8,
}

/// Motion that jumps across an edge: another reference, or vectors a whole
/// sample apart.
pub open spec fn motion_jumps(p: EdgeBlock, q: EdgeBlock) -> bool {
    ||| p.ref_idx != q.ref_idx
    ||| magnitude(p.mv.0 - q.mv.0) >= 4
    ||| magnitude(p.mv.1 - q.mv.1) >= 4
}

/// The strength with which an edge is filtered.
pub open spec fn spec_boundary_strength(p: EdgeBlock, q: EdgeBlock, macroblock_edge: bool) -> u8 {
    if p.intra || q.intra {
        if macroblock_edge {
            4
        } else {
            3
        }
    } else if p.has_coeffs || q.has_coeffs {
        2
    } else if motion_jumps(p, q) {
        1
    } else {
        0
    }
}

/// The strength with which an edge is filtered: 0 not at all, 4 by the strong
/// filter. `macroblock_edge` says that the edge is one of a macroblock rather
/// than one inside it.
pub fn boundary_strength(p: EdgeBlock, q: EdgeBlock, macroblock_edge: bool) -> (bs: u8)
    requires
        -i32::MAX <= p.mv.0 - q.mv.0 <= i32::MAX,
        -i32::MAX <= p.mv.1 - q.mv.1 <= i32::MAX,
    ensures
        bs == spec_boundary_strength(p, q, macroblock_edge),
        bs <= 4,
{
    if p.intra || q.intra {
        return if macroblock_edge {
            4
        } else {
            3
        };
    }
    if p.has_coeffs || q.has_coeffs {
        return 2;
    }
    if p.ref_idx != q.ref_idx || abs_i32(p.mv.0 - q.mv.0) >= 4 || abs_i32(p.mv.1 - q.mv.1) >= 4 {
        return 1;
    }
    0
}

/// The two sides of an edge may change places without changing its strength.
pub proof fn law_strength_is_symmetric(p: EdgeBlock, q: EdgeBlock, macroblock_edge: bool)
    ensures
        spec_boundary_strength(p, q, macroblock_edge) == spec_boundary_strength(
            q,
            p,
            macroblock_edge,
        ),
{
}

/// Intra content is always filtered, and a block next to one of its own kind of
/// motion without residual never is.
pub proof fn law_strength_extremes(p: EdgeBlock, q: EdgeBlock)
    ensures
        p.intra ==> spec_boundary_strength(p, q, true) == 4 && spec_boundary_strength(p, q, false)
            == 3,
        !p.intra && !p.has_coeffs ==> spec_boundary_strength(p, p, false) == 0,
{
}

// ---- Samples across an edge -------------------------------------------------

/// Four samples on each side of an edge, counted away from it.
pub struct Across {
    pub p0: int,
    pub p1: int,
    pub p2: int,
    pub p3: int,
    pub q0: int,
    pub q1: int,
    pub q2: int,
    pub q3: int,
}

/// The samples of a plane across an edge; `q` is the place of the first on the
/// far side, `step` the distance from one to the next.
pub open spec fn across(s: Seq<u8>, q: int, step: int) -> Across {
    Across {
        p0: s[q - step] as int,
        p1: s[q - 2 * step] as int,
        p2: s[q - 3 * step] as int,
        p3: s[q - 4 * step] as int,
        q0: s[q] as int,
        q1: s[q + step] as int,
        q2: s[q + 2 * step] as int,
        q3: s[q + 3 * step] as int,
    }
}

/// A step shallow enough to come from coding rather than from the picture.
pub open spec fn shallow(a: Across, t: Limits) -> bool {
    &&& magnitude(a.p0 - a.q0) < t.alpha
    &&& magnitude(a.p1 - a.p0) < t.beta
    &&& magnitude(a.q1 - a.q0) < t.beta
}

/// How far the samples beside the edge move towards each other.
pub open spec fn pull(a: Across, tc: int) -> int {
    clip3(-tc, tc, ((a.q0 - a.p0) * 4 + (a.p1 - a.q1) + 4) / 8)
}

/// How far the second sample of a side moves.
pub open spec fn second_pull(x2: int, x1: int, p0: int, q0: int, tc0: int) -> int {
    clip3(-tc0, tc0, (x2 + (p0 + q0 + 1) / 2 - 2 * x1) / 2)
}

/// The side of the first samples is flat.
pub open spec fn flat_side(x2: int, x0: int, t: Limits) -> bool {
    magnitude(x2 - x0) < t.beta
}

/// Luma samples after the normal filter.
pub open spec fn luma_normal(a: Across, bs: int, t: Limits) -> Across {
    let tc0 = tc0_at(t.index_a, bs);
    let wide_p: int = if flat_side(a.p2, a.p0, t) {
        1
    } else {
        0
    };
    let wide_q: int = if flat_side(a.q2, a.q0, t) {
        1
    } else {
        0
    };
    let delta = pull(a, tc0 + wide_p + wide_q);
    Across {
        p0: clip_sample(a.p0 + delta),
        q0: clip_sample(a.q0 - delta),
        p1: if flat_side(a.p2, a.p0, t) {
            clip_sample(a.p1 + second_pull(a.p2, a.p1, a.p0, a.q0, tc0))
        } else {
            a.p1
        },
        q1: if flat_side(a.q2, a.q0, t) {
            clip_sample(a.q1 + second_pull(a.q2, a.q1, a.p0, a.q0, tc0))
        } else {
            a.q1
        },
        ..a
    }
}

/// A step so small that the strong filter may reach its third sample.
pub open spec fn tiny(a: Across, t: Limits) -> bool {
    magnitude(a.p0 - a.q0) < t.alpha / 4 + 2
}

/// Luma samples after the strong filter.
pub open spec fn luma_strong(a: Across, t: Limits) -> Across {
    let deep_p = flat_side(a.p2, a.p0, t) && tiny(a, t);
    let deep_q = flat_side(a.q2, a.q0, t) && tiny(a, t);
    Across {
        p0: if deep_p {
            (a.p2 + 2 * a.p1 + 2 * a.p0 + 2 * a.q0 + a.q1 + 4) / 8
        } else {
            (2 * a.p1 + a.p0 + a.q1 + 2) / 4
        },
        p1: if deep_p {
            (a.p2 + a.p1 + a.p0 + a.q0 + 2) / 4
        } else {
            a.p1
        },
        p2: if deep_p {
            (2 * a.p3 + 3 * a.p2 + a.p1 + a.p0 + a.q0 + 4) / 8
        } else {
            a.p2
        },
        q0: if deep_q {
            (a.q2 + 2 * a.q1 + 2 * a.q0 + 2 * a.p0 + a.p1 + 4) / 8
        } else {
            (2 * a.q1 + a.q0 + a.p1 + 2) / 4
        },
        q1: if deep_q {
            (a.q2 + a.q1 + a.q0 + a.p0 + 2) / 4
        } else {
            a.q1
        },
        q2: if deep_q {
            (2 * a.q3 + 3 * a.q2 + a.q1 + a.q0 + a.p0 + 4) / 8
        } else {
            a.q2
        },
        ..a
    }
}

/// Luma samples across an edge after the filter.
pub open spec fn luma_filtered(a: Across, bs: int, t: Limits) -> Across {
    if bs == 0 || !shallow(a, t) {
        a
    } else if bs < 4 {
        luma_normal(a, bs, t)
    } else {
        luma_strong(a, t)
    }
}

/// Chroma samples across an edge after the filter, which never moves more than
/// the first sample of a side.
pub open spec fn chroma_filtered(a: Across, bs: int, t: Limits) -> Across {
    if bs == 0 || !shallow(a, t) {
        a
    } else if bs < 4 {
        let delta = pull(a, tc0_at(t.index_a, bs) + 1);
        Across { p0: clip_sample(a.p0 + delta), q0: clip_sample(a.q0 - delta), ..a }
    } else {
        Across {
            p0: (2 * a.p1 + a.p0 + a.q1 + 2) / 4,
            q0: (2 * a.q1 + a.q0 + a.p1 + 2) / 4,
            ..a
        }
    }
}

/// A plane with the first three samples on either side of an edge replaced.
pub open spec fn with_six(s: Seq<u8>, q: int, step: int, a: Across) -> Seq<u8> {
    with_two(s, q, step, a).update(q - 2 * step, a.p1 as u8).update(q + step, a.q1 as u8).update(
        q - 3 * step,
        a.p2 as u8,
    ).update(q + 2 * step, a.q2 as u8)
}

/// A plane with the first sample on either side of an edge replaced.
pub open spec fn with_two(s: Seq<u8>, q: int, step: int, a: Across) -> Seq<u8> {
    s.update(q - step, a.p0 as u8).update(q, a.q0 as u8)
}

/// Whether the filter of a plane is the luma one.
pub enum Filter {
    Luma,
    Chroma,
}

/// A plane with one line across an edge filtered.
pub open spec fn line(f: Filter, s: Seq<u8>, q: int, step: int, bs: u8, t: Limits) -> Seq<u8> {
    if bs == 0 {
        s
    } else {
        match f {
            Filter::Luma => with_six(s, q, step, luma_filtered(across(s, q, step), bs as int, t)),
            Filter::Chroma => with_two(s, q, step, chroma_filtered(across(s, q, step), bs as int, t)),
        }
    }
}

/// How far from an edge the filter of a line touches or reads samples.
pub open spec fn reach(f: Filter, step: int, bs: u8) -> int {
    if f is Chroma {
        2 * step
    } else if bs < 4 {
        3 * step
    } else {
        4 * step
    }
}

/// A line within a plane.
pub open spec fn line_fits(f: Filter, len: int, q: int, step: int, bs: u8) -> bool {
    bs != 0 ==> {
        &&& step > 0
        &&& q - reach(f, step, bs) >= 0
        &&& q + reach(f, step, bs) - step < len
    }
}

/// Six samples of a line are six places.
proof fn lemma_six(s: Seq<u8>, q: int, step: int, a: Across)
    requires
        step > 0,
        q - 3 * step >= 0,
        q + 2 * step < s.len(),
    ensures
        with_six(s, q, step, a).len() == s.len(),
        with_six(s, q, step, a)[q - step] == a.p0 as u8,
        with_six(s, q, step, a)[q - 2 * step] == a.p1 as u8,
        with_six(s, q, step, a)[q - 3 * step] == a.p2 as u8,
        with_six(s, q, step, a)[q] == a.q0 as u8,
        with_six(s, q, step, a)[q + step] == a.q1 as u8,
        with_six(s, q, step, a)[q + 2 * step] == a.q2 as u8,
        forall|k: int|
            0 <= k < s.len() && k != q - step && k != q - 2 * step && k != q - 3 * step && k != q
                && k != q + step && k != q + 2 * step ==> #[trigger] with_six(s, q, step, a)[k]
                == s[k],
{
}

/// Whether a line is smooth enough to be filtered.
fn should_filter(data: &[u8], q: usize, step: usize, t: &Thresholds) -> (r: bool)
    requires
        t.wf(),
        step > 0,
        q - 2 * step >= 0,
        q + step < data@.len(),
    ensures
        r == shallow(across(data@, q as int, step as int), t@),
{
    let p0: i32 = data[q - step] as i32;
    let p1: i32 = data[q - step - step] as i32;
    let q0: i32 = data[q] as i32;
    let q1: i32 = data[q + step] as i32;
    abs_i32(p0 - q0) < t.alpha && abs_i32(p1 - p0) < t.beta && abs_i32(q1 - q0) < t.beta
}

fn step_delta(p0: i32, p1: i32, q0: i32, q1: i32, tc: i32) -> (r: i32)
    requires
        0 <= p0 <= 255,
        0 <= p1 <= 255,
        0 <= q0 <= 255,
        0 <= q1 <= 255,
        0 <= tc <= 300,
    ensures
        r == clip3(-tc as int, tc as int, ((q0 - p0) * 4 + (p1 - q1) + 4) as int / 8),
        -300 <= r <= 300,
{
    let sum: i32 = (q0 - p0) * 4 + (p1 - q1) + 4;
    proof {
        lemma_shr_i32(sum);
    }
    clamp_i32(-tc, tc, sum >> 3)
}

fn second_delta(x2: i32, x1: i32, p0: i32, q0: i32, tc0: i32) -> (r: i32)
    requires
        0 <= x2 <= 255,
        0 <= x1 <= 255,
        0 <= p0 <= 255,
        0 <= q0 <= 255,
        0 <= tc0 <= 255,
    ensures
        r == second_pull(x2 as int, x1 as int, p0 as int, q0 as int, tc0 as int),
        -255 <= r <= 255,
{
    let mean: i32 = p0 + q0 + 1;
    proof {
        lemma_shr_i32(mean);
    }
    let sum: i32 = x2 + (mean >> 1) - 2 * x1;
    proof {
        lemma_shr_i32(sum);
    }
    clamp_i32(-tc0, tc0, sum >> 1)
}

fn eighth(sum: i32) -> (r: u8)
    requires
        0 <= sum < 2048,
    ensures
        r == sum as int / 8,
{
    proof {
        lemma_shr_i32(sum);
    }
    (sum >> 3) as u8
}

fn quarter(sum: i32) -> (r: u8)
    requires
        0 <= sum < 1024,
    ensures
        r == sum as int / 4,
{
    proof {
        lemma_shr_i32(sum);
    }
    (sum >> 2) as u8
}

/// The samples of a line.
struct Taps {
    p0: i32,
    p1: i32,
    p2: i32,
    p3: i32,
    q0: i32,
    q1: i32,
    q2: i32,
    q3: i32,
}

impl Taps {
    spec fn model(self) -> Across {
        Across {
            p0: self.p0 as int,
            p1: self.p1 as int,
            p2: self.p2 as int,
            p3: self.p3 as int,
            q0: self.q0 as int,
            q1: self.q1 as int,
            q2: self.q2 as int,
            q3: self.q3 as int,
        }
    }

    spec fn wf(self) -> bool {
        &&& 0 <= self.p0 <= 255
        &&& 0 <= self.p1 <= 255
        &&& 0 <= self.p2 <= 255
        &&& 0 <= self.p3 <= 255
        &&& 0 <= self.q0 <= 255
        &&& 0 <= self.q1 <= 255
        &&& 0 <= self.q2 <= 255
        &&& 0 <= self.q3 <= 255
    }

    fn flat_p(&self, t: &Thresholds) -> (r: bool)
        requires
            self.wf(),
        ensures
            r == flat_side(self.model().p2, self.model().p0, t@),
    {
        abs_i32(self.p2 - self.p0) < t.beta
    }

    fn flat_q(&self, t: &Thresholds) -> (r: bool)
        requires
            self.wf(),
        ensures
            r == flat_side(self.model().q2, self.model().q0, t@),
    {
        abs_i32(self.q2 - self.q0) < t.beta
    }

    /// The normal filter.
    fn normal(&self, bs: u8, t: &Thresholds) -> (r: Taps)
        requires
            self.wf(),
            t.wf(),
            1 <= bs <= 3,
        ensures
            r.wf(),
            r.model() == luma_normal(self.model(), bs as int, t@),
    {
        let flat_p: bool = self.flat_p(t);
        let flat_q: bool = self.flat_q(t);
        let tc0: i32 = t.tc0(bs);
        let mut tc: i32 = tc0;
        if flat_p {
            tc = tc + 1;
        }
        if flat_q {
            tc = tc + 1;
        }
        let delta: i32 = step_delta(self.p0, self.p1, self.q0, self.q1, tc);
        let p1: i32 = if flat_p {
            clip1(self.p1 + second_delta(self.p2, self.p1, self.p0, self.q0, tc0)) as i32
        } else {
            self.p1
        };
        let q1: i32 = if flat_q {
            clip1(self.q1 + second_delta(self.q2, self.q1, self.p0, self.q0, tc0)) as i32
        } else {
            self.q1
        };
        Taps {
            p0: clip1(self.p0 + delta) as i32,
            p1,
            p2: self.p2,
            p3: self.p3,
            q0: clip1(self.q0 - delta) as i32,
            q1,
            q2: self.q2,
            q3: self.q3,
        }
    }

    /// The strong filter.
    fn strong(&self, t: &Thresholds) -> (r: Taps)
        requires
            self.wf(),
            t.wf(),
        ensures
            r.wf(),
            r.model() == luma_strong(self.model(), t@),
    {
        proof {
            lemma_shr_i32(t.alpha);
        }
        let (p0, p1, p2, p3) = (self.p0, self.p1, self.p2, self.p3);
        let (q0, q1, q2, q3) = (self.q0, self.q1, self.q2, self.q3);
        let tiny_step: bool = abs_i32(p0 - q0) < (t.alpha >> 2) + 2;
        let (n0, n1, n2): (i32, i32, i32) = if self.flat_p(t) && tiny_step {
            (
                eighth(p2 + 2 * p1 + 2 * p0 + 2 * q0 + q1 + 4) as i32,
                quarter(p2 + p1 + p0 + q0 + 2) as i32,
                eighth(2 * p3 + 3 * p2 + p1 + p0 + q0 + 4) as i32,
            )
        } else {
            (quarter(2 * p1 + p0 + q1 + 2) as i32, p1, p2)
        };
        let (f0, f1, f2): (i32, i32, i32) = if self.flat_q(t) && tiny_step {
            (
                eighth(q2 + 2 * q1 + 2 * q0 + 2 * p0 + p1 + 4) as i32,
                quarter(q2 + q1 + q0 + p0 + 2) as i32,
                eighth(2 * q3 + 3 * q2 + q1 + q0 + p0 + 4) as i32,
            )
        } else {
            (quarter(2 * q1 + q0 + p1 + 2) as i32, q1, q2)
        };
        Taps { p0: n0, p1: n1, p2: n2, p3, q0: f0, q1: f1, q2: f2, q3 }
    }
}

/// Equal in the six samples that the filter may move.
spec fn same_six(a: Across, b: Across) -> bool {
    &&& a.p0 == b.p0
    &&& a.p1 == b.p1
    &&& a.p2 == b.p2
    &&& a.q0 == b.q0
    &&& a.q1 == b.q1
    &&& a.q2 == b.q2
}

/// Reads a line; only the strong filter needs the fourth sample of a side.
fn read_line(data: &[u8], q: usize, step: usize, bs: u8) -> (r: Taps)
    requires
        bs != 0,
        line_fits(Filter::Luma, data@.len() as int, q as int, step as int, bs),
    ensures
        r.wf(),
        same_six(r.model(), across(data@, q as int, step as int)),
        bs >= 4 ==> r.model() == across(data@, q as int, step as int),
{
    let (s2, s3): (usize, usize) = (step + step, step + step + step);
    let (p3, q3): (i32, i32) = if bs < 4 {
        (0, 0)
    } else {
        (data[q - s3 - step] as i32, data[q + s3] as i32)
    };
    Taps {
        p0: data[q - step] as i32,
        p1: data[q - s2] as i32,
        p2: data[q - s3] as i32,
        p3,
        q0: data[q] as i32,
        q1: data[q + step] as i32,
        q2: data[q + s2] as i32,
        q3,
    }
}

fn write_line(data: &mut [u8], q: usize, step: usize, r: &Taps)
    requires
        r.wf(),
        step > 0,
        q - 3 * step >= 0,
        q + 2 * step < old(data)@.len(),
    ensures
        final(data)@ == with_six(old(data)@, q as int, step as int, r.model()),
        final(data)@.len() == old(data)@.len(),
{
    data[q - step] = r.p0 as u8;
    data[q] = r.q0 as u8;
    data[q - step - step] = r.p1 as u8;
    data[q + step] = r.q1 as u8;
    data[q - step - step - step] = r.p2 as u8;
    data[q + step + step] = r.q2 as u8;
}

/// Filters one line of a luma edge.
fn filter_luma_line(data: &mut [u8], q: usize, step: usize, bs: u8, t: &Thresholds)
    requires
        t.wf(),
        bs != 0,
        line_fits(Filter::Luma, old(data)@.len() as int, q as int, step as int, bs),
    ensures
        final(data)@ == line(Filter::Luma, old(data)@, q as int, step as int, bs, t@),
        final(data)@.len() == old(data)@.len(),
{
    let ghost s = data@;
    let ghost a = across(s, q as int, step as int);
    if !should_filter(data, q, step, t) {
        assert(with_six(s, q as int, step as int, a) =~= s) by {
            lemma_six(s, q as int, step as int, a);
        }
        return;
    }
    let taps: Taps = read_line(data, q, step, bs);
    let r: Taps = if bs < 4 {
        taps.normal(bs, t)
    } else {
        taps.strong(t)
    };
    write_line(data, q, step, &r);
    assert(same_six(r.model(), luma_filtered(a, bs as int, t@)));
}

/// Filters one line of a chroma edge.
fn filter_chroma_line(data: &mut [u8], q: usize, step: usize, bs: u8, t: &Thresholds)
    requires
        t.wf(),
        bs != 0,
        line_fits(Filter::Chroma, old(data)@.len() as int, q as int, step as int, bs),
    ensures
        final(data)@ == line(Filter::Chroma, old(data)@, q as int, step as int, bs, t@),
        final(data)@.len() == old(data)@.len(),
{
    let ghost s = data@;
    if !should_filter(data, q, step, t) {
        assert(data@ =~= with_two(s, q as int, step as int, across(s, q as int, step as int)));
        return;
    }
    let p0: i32 = data[q - step] as i32;
    let p1: i32 = data[q - step - step] as i32;
    let q0: i32 = data[q] as i32;
    let q1: i32 = data[q + step] as i32;
    if bs < 4 {
        let delta: i32 = step_delta(p0, p1, q0, q1, t.tc0(bs) + 1);
        data[q - step] = clip1(p0 + delta);
        data[q] = clip1(q0 - delta);
    } else {
        data[q - step] = quarter(2 * p1 + p0 + q1 + 2);
        data[q] = quarter(2 * q1 + q0 + p1 + 2);
    }
}

// ---- Edges ------------------------------------------------------------------

/// How an edge runs through the plane.
#[derive(Debug, Clone, Copy, PartialEq, Eq, Structural)]
pub enum EdgeKind {
    /// Samples cross the edge horizontally, lines run downward.
    Vertical,
    /// Samples cross the edge vertically, lines run rightward.
    Horizontal,
}

/// One edge to filter.
#[derive(Debug, Clone, Copy)]
pub struct Edge<'a> {
    pub kind: EdgeKind,
    /// Column of the first sample on the far side of the edge.
    pub x: usize,
    /// Row of the first sample on the far side of the edge.
    pub y: usize,
    /// How many lines cross the edge.
    pub length: usize,
    /// One strength per equal group of lines.
    pub bs: &'a [u8],
}

/// One edge, as a mathematical value.
pub struct Seam {
    pub kind: EdgeKind,
    pub x: int,
    pub y: int,
    pub length: int,
    pub bs: Seq<u8>,
}

impl<'a> View for Edge<'a> {
    type V = Seam;

    open spec fn view(&self) -> Seam {
        Seam {
            kind: self.kind,
            x: self.x as int,
            y: self.y as int,
            length: self.length as int,
            bs: self.bs@,
        }
    }
}

impl Seam {
    /// Distance between the samples that cross the edge.
    pub open spec fn step(self, stride: int) -> int {
        match self.kind {
            EdgeKind::Vertical => 1,
            EdgeKind::Horizontal => stride,
        }
    }

    /// The place of the first far sample of line `i`.
    pub open spec fn place(self, stride: int, i: int) -> int {
        match self.kind {
            EdgeKind::Vertical => (self.y + i) * stride + self.x,
            EdgeKind::Horizontal => self.y * stride + self.x + i,
        }
    }

    /// The strength of line `i`.
    pub open spec fn strength(self, i: int) -> u8 {
        self.bs[(i * self.bs.len()) / self.length]
    }

    /// A plane filtered from line `i` of the edge on.
    pub open spec fn filtered(self, f: Filter, s: Seq<u8>, stride: int, t: Limits, i: int) -> Seq<u8>
        decreases self.length - i,
    {
        if i >= self.length {
            s
        } else {
            self.filtered(
                f,
                line(f, s, self.place(stride, i), self.step(stride), self.strength(i), t),
                stride,
                t,
                i + 1,
            )
        }
    }

    /// Every line lies within a plane of `len` samples.
    pub open spec fn fits(self, f: Filter, len: int, stride: int) -> bool {
        forall|i: int|
            0 <= i < self.length ==> line_fits(
                f,
                len,
                #[trigger] self.place(stride, i),
                self.step(stride),
                self.strength(i),
            )
    }

    /// An edge with a strength for each of its lines.
    pub open spec fn wf(self) -> bool {
        0 < self.length ==> 0 < self.bs.len() && self.length * self.bs.len() <= usize::MAX
    }
}

proof fn lemma_group(i: int, groups: int, length: int)
    requires
        0 <= i < length,
        0 < groups,
    ensures
        0 <= i * groups < length * groups,
        0 <= (i * groups) / length < groups,
{
    assert(0 <= i * groups < length * groups) by (nonlinear_arith)
        requires
            0 <= i < length,
            0 < groups,
    ;
    assert(0 <= (i * groups) / length < groups) by (nonlinear_arith)
        requires
            0 <= i * groups < length * groups,
            length > 0,
    ;
}

/// The place of a line within a plane is no less than each of the terms it is
/// the sum of.
proof fn lemma_place(edge: Seam, stride: int, i: int, len: int)
    requires
        0 <= edge.y,
        0 <= edge.x,
        0 <= i,
        0 < stride || edge.kind is Horizontal,
        0 <= stride,
        0 <= edge.place(stride, i) < len,
    ensures
        edge.kind is Vertical ==> edge.y + i <= len && (edge.y + i) * stride <= len,
        0 <= edge.y * stride,
        0 <= (edge.y + i) * stride,
        edge.kind is Horizontal ==> edge.y * stride <= len,
{
    let y = edge.y;
    assert(0 <= y * stride) by (nonlinear_arith)
        requires
            0 <= y,
            0 <= stride,
    ;
    assert(0 <= (y + i) * stride) by (nonlinear_arith)
        requires
            0 <= y + i,
            0 <= stride,
    ;
    if edge.kind is Vertical {
        assert(y + i <= (y + i) * stride) by (nonlinear_arith)
            requires
                0 <= y + i,
                0 < stride,
        ;
    }
}

/// Filters the lines of an edge one after the other.
fn filter_edge(plane: &mut [u8], stride: usize, edge: &Edge<'_>, t: &Thresholds, luma: bool)
    requires
        t.wf(),
        stride > 0,
        edge@.wf(),
        edge@.fits(
            if luma {
                Filter::Luma
            } else {
                Filter::Chroma
            },
            old(plane)@.len() as int,
            stride as int,
        ),
    ensures
        final(plane)@ == edge@.filtered(
            if luma {
                Filter::Luma
            } else {
                Filter::Chroma
            },
            old(plane)@,
            stride as int,
            t@,
            0,
        ),
        final(plane)@.len() == old(plane)@.len(),
{
    let ghost f = if luma {
        Filter::Luma
    } else {
        Filter::Chroma
    };
    let ghost goal = edge@.filtered(f, plane@, stride as int, t@, 0);
    let ghost st = stride as int;
    let vertical: bool = edge.kind == EdgeKind::Vertical;
    let step: usize = if vertical {
        1
    } else {
        stride
    };
    let groups: usize = edge.bs.len();
    for i in 0..edge.length
        invariant
            t.wf(),
            stride > 0,
            edge@.wf(),
            groups == edge.bs@.len(),
            vertical == (edge.kind is Vertical),
            step == edge@.step(stride as int),
            st == stride,
            f == (if luma {
                Filter::Luma
            } else {
                Filter::Chroma
            }),
            plane@.len() == old(plane)@.len(),
            edge@.fits(f, plane@.len() as int, stride as int),
            goal == edge@.filtered(f, plane@, stride as int, t@, i as int),
    {
        proof {
            lemma_group(i as int, groups as int, edge.length as int);
        }
        let strength: u8 = edge.bs[(i * groups) / edge.length];
        assert(line_fits(
            f,
            plane@.len() as int,
            edge@.place(st, i as int),
            edge@.step(st),
            edge@.strength(i as int),
        ));
        if strength != 0 {
            let len: usize = plane.len();
            proof {
                lemma_place(edge@, st, i as int, len as int);
            }
            let q: usize = if vertical {
                (edge.y + i) * stride + edge.x
            } else {
                edge.y * stride + edge.x + i
            };
            if luma {
                filter_luma_line(plane, q, step, strength, t);
            } else {
                filter_chroma_line(plane, q, step, strength, t);
            }
        }
    }
}

/// Filters a luma edge.
pub fn filter_luma_edge(plane: &mut [u8], stride: usize, edge: &Edge<'_>, t: &Thresholds)
    requires
        t.wf(),
        stride > 0,
        edge@.wf(),
        edge@.fits(Filter::Luma, old(plane)@.len() as int, stride as int),
    ensures
        final(plane)@ == edge@.filtered(Filter::Luma, old(plane)@, stride as int, t@, 0),
        final(plane)@.len() == old(plane)@.len(),
{
    filter_edge(plane, stride, edge, t, true);
}

/// Filters a chroma edge.
pub fn filter_chroma_edge(plane: &mut [u8], stride: usize, edge: &Edge<'_>, t: &Thresholds)
    requires
        t.wf(),
        stride > 0,
        edge@.wf(),
        edge@.fits(Filter::Chroma, old(plane)@.len() as int, stride as int),
    ensures
        final(plane)@ == edge@.filtered(Filter::Chroma, old(plane)@, stride as int, t@, 0),
        final(plane)@.len() == old(plane)@.len(),
{
    filter_edge(plane, stride, edge, t, false);
}

// ---- What filtering keeps ---------------------------------------------------

/// Filtering a line changes no sample but the nearest of each side.
proof fn lemma_line(f: Filter, s: Seq<u8>, q: int, step: int, bs: u8, t: Limits)
    requires
        line_fits(f, s.len() as int, q, step, bs),
    ensures
        line(f, s, q, step, bs, t).len() == s.len(),
        forall|k: int|
            0 <= k < s.len() && !near(f, q, step, bs, k) ==> #[trigger] line(f, s, q, step, bs, t)[k]
                == s[k],
{
    if bs != 0 && f is Luma {
        lemma_six(s, q, step, luma_filtered(across(s, q, step), bs as int, t));
    }
}

/// Whether place `k` is one of those that the filter of a line may change: none
/// at strength 0, one of each side for chroma, two for luma and three at strength
/// 4.
pub open spec fn near(f: Filter, q: int, step: int, bs: u8, k: int) -> bool {
    bs != 0 && {
        ||| k == q - step
        ||| k == q
        ||| f is Luma && (k == q - 2 * step || k == q + step)
        ||| f is Luma && bs >= 4 && (k == q - 3 * step || k == q + 2 * step)
    }
}

/// How many samples of each side the filter of a line may change.
pub open spec fn width(f: Filter, bs: u8) -> int {
    if bs == 0 {
        0
    } else if f is Chroma {
        1
    } else if bs < 4 {
        2
    } else {
        3
    }
}

/// A line whose samples come out as they went in leaves the plane alone.
proof fn lemma_line_idle(f: Filter, s: Seq<u8>, q: int, step: int, bs: u8, t: Limits)
    requires
        line_fits(f, s.len() as int, q, step, bs),
        bs != 0 && f is Luma ==> same_six(
            luma_filtered(across(s, q, step), bs as int, t),
            across(s, q, step),
        ),
        bs != 0 && f is Chroma ==> same_six(
            chroma_filtered(across(s, q, step), bs as int, t),
            across(s, q, step),
        ),
    ensures
        line(f, s, q, step, bs, t) == s,
{
    if bs != 0 {
        match f {
            Filter::Luma => {
                let b = luma_filtered(across(s, q, step), bs as int, t);
                lemma_six(s, q, step, b);
                assert(with_six(s, q, step, b) =~= s);
            },
            Filter::Chroma => {
                let b = chroma_filtered(across(s, q, step), bs as int, t);
                assert(with_two(s, q, step, b) =~= s);
            },
        }
    }
}

/// Filtering an edge keeps the lines of strength 0 and every sample away from it:
/// beyond the second of each side for luma, or the third at strength 4, and
/// beyond the first for chroma.
pub proof fn law_filter_stays_near_the_edge(
    f: Filter,
    edge: Seam,
    s: Seq<u8>,
    stride: int,
    t: Limits,
    from: int,
    k: int,
)
    requires
        0 <= from,
        edge.fits(f, s.len() as int, stride),
        0 <= k < s.len(),
        forall|i: int|
            0 <= i < edge.length ==> !near(
                f,
                #[trigger] edge.place(stride, i),
                edge.step(stride),
                edge.strength(i),
                k,
            ),
    ensures
        edge.filtered(f, s, stride, t, from).len() == s.len(),
        edge.filtered(f, s, stride, t, from)[k] == s[k],
    decreases edge.length - from,
{
    if from < edge.length {
        let q = edge.place(stride, from);
        let step = edge.step(stride);
        let bs = edge.strength(from);
        lemma_line(f, s, q, step, bs, t);
        law_filter_stays_near_the_edge(
            f,
            edge,
            line(f, s, q, step, bs, t),
            stride,
            t,
            from + 1,
            k,
        );
    }
}

/// A vertical edge changes only the rows that it crosses with a strength, and
/// there only the columns beside it: one on each side for chroma, two for luma
/// and three at strength 4.
pub proof fn law_vertical_edges_change_only_their_lines(
    f: Filter,
    edge: Seam,
    s: Seq<u8>,
    stride: int,
    t: Limits,
    x: int,
    y: int,
)
    requires
        edge.kind is Vertical,
        0 <= edge.y,
        edge.fits(f, s.len() as int, stride),
        0 < stride,
        3 <= edge.x,
        edge.x + 3 <= stride,
        0 <= x < stride,
        0 <= y,
        y * stride + x < s.len(),
        ({
            let i = y - edge.y;
            0 <= i < edge.length ==> {
                let w = width(f, edge.strength(i));
                x < edge.x - w || edge.x + w <= x
            }
        }),
    ensures
        edge.filtered(f, s, stride, t, 0)[y * stride + x] == s[y * stride + x],
{
    let k = y * stride + x;
    lemma_raster(stride, x, y);
    assert forall|i: int| 0 <= i < edge.length implies !near(
        f,
        #[trigger] edge.place(stride, i),
        edge.step(stride),
        edge.strength(i),
        k,
    ) by {
        let row = edge.y + i;
        if near(f, edge.place(stride, i), 1, edge.strength(i), k) {
            let d = k - edge.place(stride, i);
            lemma_raster(stride, edge.x + d, row);
        }
    }
    law_filter_stays_near_the_edge(f, edge, s, stride, t, 0, k);
}

/// A plane of one value has no seam, and no strength changes it.
pub proof fn law_flat_plane_is_kept(
    f: Filter,
    edge: Seam,
    s: Seq<u8>,
    stride: int,
    t: Limits,
    from: int,
    v: u8,
)
    requires
        0 <= from,
        edge.fits(f, s.len() as int, stride),
        0 <= t.index_a < 52,
        forall|k: int| 0 <= k < s.len() ==> (#[trigger] s[k]) == v,
    ensures
        edge.filtered(f, s, stride, t, from) == s,
    decreases edge.length - from,
{
    if from < edge.length {
        let q = edge.place(stride, from);
        let step = edge.step(stride);
        let bs = edge.strength(from);
        if bs != 0 {
            let a = across(s, q, step);
            if bs < 4 {
                lemma_threshold_range(t.index_a, bs as int);
            }
            assert(a.p0 == v && a.p1 == v && a.q0 == v && a.q1 == v);
            if f is Luma {
                assert(a.p2 == v && a.q2 == v);
            }
        }
        lemma_line_idle(f, s, q, step, bs, t);
        law_flat_plane_is_kept(f, edge, s, stride, t, from + 1, v);
    }
}

/// An edge of strength zero is not filtered, whatever the samples.
pub proof fn law_strength_zero_filters_nothing(
    f: Filter,
    edge: Seam,
    s: Seq<u8>,
    stride: int,
    t: Limits,
    from: int,
)
    requires
        0 <= from,
        edge.wf(),
        forall|i: int| 0 <= i < edge.bs.len() ==> (#[trigger] edge.bs[i]) == 0,
    ensures
        edge.filtered(f, s, stride, t, from) == s,
    decreases edge.length - from,
{
    if from < edge.length {
        lemma_group(from, edge.bs.len() as int, edge.length);
        law_strength_zero_filters_nothing(f, edge, s, stride, t, from + 1);
    }
}

/// A step as large as `alpha` is picture content and is left alone.
pub proof fn law_large_step_is_kept(f: Filter, s: Seq<u8>, q: int, step: int, bs: u8, t: Limits)
    requires
        line_fits(f, s.len() as int, q, step, bs),
        bs != 0,
        magnitude(s[q - step] - s[q]) >= t.alpha,
    ensures
        line(f, s, q, step, bs, t) == s,
{
    lemma_line_idle(f, s, q, step, bs, t);
}

/// A finely quantised picture is not filtered: below index sixteen `alpha` is
/// zero, and every step is as large as that.
pub proof fn law_fine_quantisers_filter_nothing(
    f: Filter,
    edge: Seam,
    s: Seq<u8>,
    stride: int,
    qp_av: int,
    alpha_offset: int,
    beta_offset: int,
    from: int,
)
    requires
        0 <= from,
        edge.fits(f, s.len() as int, stride),
        qp_av + alpha_offset < 16,
    ensures
        edge.filtered(f, s, stride, limits(qp_av, alpha_offset, beta_offset), from) == s,
    decreases edge.length - from,
{
    if from < edge.length {
        let t = limits(qp_av, alpha_offset, beta_offset);
        law_fine_quantisers_have_no_thresholds(t.index_a);
        lemma_line_idle(
            f,
            s,
            edge.place(stride, from),
            edge.step(stride),
            edge.strength(from),
            t,
        );
        law_fine_quantisers_filter_nothing(
            f,
            edge,
            s,
            stride,
            qp_av,
            alpha_offset,
            beta_offset,
            from + 1,
        );
    }
}

// ---- Transposition ----------------------------------------------------------

/// The place in a square plane of side `n` that `k` goes to when rows and
/// columns change places.
pub open spec fn mirrored(n: int, k: int) -> int {
    (k % n) * n + k / n
}

/// A square plane with rows and columns exchanged.
pub open spec fn transposed(n: int, s: Seq<u8>) -> Seq<u8> {
    Seq::new(s.len(), |k: int| s[mirrored(n, k)])
}

/// An edge with rows and columns exchanged.
pub open spec fn turned(edge: Seam) -> Seam {
    Seam {
        kind: match edge.kind {
            EdgeKind::Vertical => EdgeKind::Horizontal,
            EdgeKind::Horizontal => EdgeKind::Vertical,
        },
        x: edge.y,
        y: edge.x,
        ..edge
    }
}

/// Mirroring stays within the plane and undoes itself.
proof fn lemma_mirrored(n: int, k: int)
    requires
        0 < n,
        0 <= k < n * n,
    ensures
        0 <= mirrored(n, k) < n * n,
        mirrored(n, mirrored(n, k)) == k,
{
    lemma_raster_inverse(n, n, k);
    let (x, y) = (k % n, k / n);
    lemma_raster(n, y, x);
    assert(x * n + y < n * n) by (nonlinear_arith)
        requires
            0 <= x < n,
            0 <= y < n,
    ;
}

/// The mirror image of the place at column `x` and row `y`.
proof fn lemma_mirrored_at(n: int, x: int, y: int)
    requires
        0 <= x < n,
        0 <= y < n,
    ensures
        mirrored(n, y * n + x) == x * n + y,
        0 <= y * n + x < n * n,
{
    lemma_raster(n, x, y);
    assert(y * n + x < n * n) by (nonlinear_arith)
        requires
            0 <= x < n,
            0 <= y < n,
    ;
}

/// Exchanging rows and columns commutes with a write.
proof fn lemma_transposed_update(n: int, s: Seq<u8>, k: int, v: u8)
    requires
        0 < n,
        s.len() == n * n,
        0 <= k < n * n,
    ensures
        transposed(n, s.update(k, v)) == transposed(n, s).update(mirrored(n, k), v),
{
    lemma_mirrored(n, k);
    assert forall|j: int| 0 <= j < n * n implies transposed(n, s.update(k, v))[j]
        == transposed(n, s).update(mirrored(n, k), v)[j] by {
        lemma_mirrored(n, j);
    }
    assert(transposed(n, s.update(k, v)) =~= transposed(n, s).update(mirrored(n, k), v));
}

/// A sample of a transposed plane.
proof fn lemma_transposed_at(n: int, s: Seq<u8>, k: int)
    requires
        0 < n,
        s.len() == n * n,
        0 <= k < n * n,
    ensures
        transposed(n, s)[mirrored(n, k)] == s[k],
{
    lemma_mirrored(n, k);
}

/// The place `d` samples from that of column `x` and row `y`, and its mirror
/// image.
proof fn lemma_mirrored_step(n: int, x: int, y: int, d: int)
    requires
        0 < n,
        0 <= y < n,
        0 <= x + d < n,
    ensures
        mirrored(n, y * n + x + d) == x * n + y + d * n,
        0 <= y * n + x + d < n * n,
{
    lemma_mirrored_at(n, x + d, y);
    assert((x + d) * n + y == x * n + y + d * n) by (nonlinear_arith);
}

/// Writing beside a vertical edge, transposed, is writing beside a horizontal
/// one.
proof fn lemma_transposed_two(n: int, s: Seq<u8>, x: int, y: int, a: Across)
    requires
        0 < n,
        s.len() == n * n,
        0 <= y < n,
        0 <= x - 2,
        x + 1 < n,
    ensures
        transposed(n, with_two(s, y * n + x, 1, a)) == with_two(
            transposed(n, s),
            x * n + y,
            n,
            a,
        ),
{
    let q = y * n + x;
    lemma_mirrored_step(n, x, y, -1);
    lemma_mirrored_step(n, x, y, 0);
    lemma_transposed_update(n, s, q - 1, a.p0 as u8);
    lemma_transposed_update(n, s.update(q - 1, a.p0 as u8), q, a.q0 as u8);
}

/// The same for three samples on each side.
proof fn lemma_transposed_six(n: int, s: Seq<u8>, x: int, y: int, a: Across)
    requires
        0 < n,
        s.len() == n * n,
        0 <= y < n,
        0 <= x - 3,
        x + 2 < n,
    ensures
        transposed(n, with_six(s, y * n + x, 1, a)) == with_six(
            transposed(n, s),
            x * n + y,
            n,
            a,
        ),
{
    let q = y * n + x;
    lemma_mirrored_step(n, x, y, -1);
    lemma_mirrored_step(n, x, y, 0);
    lemma_mirrored_step(n, x, y, -2);
    lemma_mirrored_step(n, x, y, 1);
    lemma_mirrored_step(n, x, y, -3);
    lemma_mirrored_step(n, x, y, 2);
    lemma_transposed_two(n, s, x, y, a);
    let s1 = with_two(s, q, 1, a);
    let s2 = s1.update(q - 2, a.p1 as u8);
    let s3 = s2.update(q + 1, a.q1 as u8);
    let s4 = s3.update(q - 3, a.p2 as u8);
    lemma_transposed_update(n, s1, q - 2, a.p1 as u8);
    lemma_transposed_update(n, s2, q + 1, a.q1 as u8);
    lemma_transposed_update(n, s3, q - 3, a.p2 as u8);
    lemma_transposed_update(n, s4, q + 2, a.q2 as u8);
}

/// Filtering a line across a vertical edge, transposed, is filtering the mirror
/// image of the line across a horizontal one.
proof fn lemma_transposed_line(f: Filter, n: int, s: Seq<u8>, x: int, y: int, bs: u8, t: Limits)
    requires
        0 < n,
        s.len() == n * n,
        0 <= y < n,
        bs != 0 ==> 0 <= x - reach(f, 1, bs) && x + reach(f, 1, bs) - 1 < n,
    ensures
        transposed(n, line(f, s, y * n + x, 1, bs, t)) == line(
            f,
            transposed(n, s),
            x * n + y,
            n,
            bs,
            t,
        ),
{
    if bs != 0 {
        let q = y * n + x;
        let a = across(s, q, 1);
        let b = across(transposed(n, s), x * n + y, n);
        lemma_mirrored_step(n, x, y, -1);
        lemma_mirrored_step(n, x, y, 0);
        lemma_mirrored_step(n, x, y, -2);
        lemma_mirrored_step(n, x, y, 1);
        lemma_transposed_at(n, s, q - 1);
        lemma_transposed_at(n, s, q);
        lemma_transposed_at(n, s, q - 2);
        lemma_transposed_at(n, s, q + 1);
        match f {
            Filter::Chroma => {
                let r = chroma_filtered(a, bs as int, t);
                lemma_transposed_two(n, s, x, y, r);
                assert(chroma_filtered(b, bs as int, t).p0 == r.p0);
                assert(chroma_filtered(b, bs as int, t).q0 == r.q0);
            },
            Filter::Luma => {
                lemma_mirrored_step(n, x, y, -3);
                lemma_mirrored_step(n, x, y, 2);
                lemma_transposed_at(n, s, q - 3);
                lemma_transposed_at(n, s, q + 2);
                assert(same_six(a, b));
                if bs >= 4 {
                    lemma_mirrored_step(n, x, y, -4);
                    lemma_mirrored_step(n, x, y, 3);
                    lemma_transposed_at(n, s, q - 4);
                    lemma_transposed_at(n, s, q + 3);
                    assert(a == b);
                }
                let r = luma_filtered(a, bs as int, t);
                lemma_transposed_six(n, s, x, y, r);
                assert(same_six(luma_filtered(b, bs as int, t), r));
            },
        }
    }
}

/// A horizontal edge is filtered as the vertical edge of the transposed plane
/// is: exchanging rows and columns before or after makes no difference.
pub proof fn law_horizontal_edges_match_transposed_vertical_edges(
    f: Filter,
    n: int,
    edge: Seam,
    s: Seq<u8>,
    t: Limits,
    from: int,
)
    requires
        0 < n,
        s.len() == n * n,
        edge.kind is Vertical,
        0 <= edge.y,
        0 <= from,
        edge.y + edge.length <= n,
        forall|i: int|
            0 <= i < edge.length && (#[trigger] edge.strength(i)) != 0 ==> 0 <= edge.x - reach(
                f,
                1,
                edge.strength(i),
            ) && edge.x + reach(f, 1, edge.strength(i)) - 1 < n,
    ensures
        transposed(n, edge.filtered(f, s, n, t, from)) == turned(edge).filtered(
            f,
            transposed(n, s),
            n,
            t,
            from,
        ),
    decreases edge.length - from,
{
    if from < edge.length {
        let (x, y) = (edge.x, edge.y + from);
        let bs = edge.strength(from);
        assert(turned(edge).strength(from) == bs);
        assert(edge.place(n, from) == y * n + x);
        assert(turned(edge).place(n, from) == x * n + y);
        lemma_transposed_line(f, n, s, x, y, bs, t);
        if bs != 0 {
            lemma_mirrored_step(n, x, y, -2);
            lemma_mirrored_step(n, x, y, 1);
            if f is Luma {
                lemma_mirrored_step(n, x, y, -3);
                lemma_mirrored_step(n, x, y, 2);
                if bs >= 4 {
                    lemma_mirrored_step(n, x, y, -4);
                    lemma_mirrored_step(n, x, y, 3);
                }
            }
            lemma_line(f, s, y * n + x, 1, bs, t);
        }
        law_horizontal_edges_match_transposed_vertical_edges(
            f,
            n,
            edge,
            line(f, s, y * n + x, 1, bs, t),
            t,
            from + 1,
        );
    }
}

} // verus!
