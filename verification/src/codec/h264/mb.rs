//! Macroblock types, partition geometry and quantiser derivation: what a decoded
//! `mb_type` number asks for.
use vstd::prelude::*;
use super::inter::Partition;
use super::intra::Intra16x16Mode;
use super::math::clip3;

verus! {

/// The slice types in scope.
#[derive(Debug, Clone, Copy, PartialEq, Eq, Structural)]
pub enum SliceKind {
    I,
    P,
}

/// What a macroblock is, once `mb_type` has been decoded.
#[derive(Debug, Clone, Copy, PartialEq, Eq, Structural)]
pub enum MbType {
    /// Sixteen 4x4 or four 8x8 intra blocks; which of the two is a separate
    /// syntax element.
    IntraNxN,
    /// One prediction over the whole macroblock, with the residual shape fixed
    /// by the type.
    Intra16x16 {
        mode: Intra16x16Mode,
        /// 0 or 15: nothing or the whole macroblock.
        cbp_luma: u8,
        /// 0, 1 or 2.
        cbp_chroma: u8,
    },
    /// Uncoded samples, byte aligned in the bitstream.
    IPcm,
    /// Motion vectors and a residual are coded.
    Inter(Partitioning),
    /// No residual, no coded vector, motion inferred from neighbours.
    PSkip,
}

impl MbType {
    /// Predicted from within the picture.
    pub open spec fn spec_is_intra(self) -> bool {
        self is IntraNxN || self is Intra16x16 || self is IPcm
    }

    /// Predicted from within the picture.
    pub fn is_intra(self) -> (r: bool)
        ensures
            r == self.spec_is_intra(),
    {
        matches!(self, MbType::IntraNxN | MbType::Intra16x16 { .. } | MbType::IPcm)
    }

    /// Predicted from another picture.
    pub fn is_inter(self) -> (r: bool)
        ensures
            r == !self.spec_is_intra(),
    {
        !self.is_intra()
    }

    /// Whether a coded block pattern follows in the bitstream. An `I_16x16`
    /// carries its pattern in the type, and an `I_PCM` has no residual.
    pub fn has_coded_block_pattern(self) -> (r: bool)
        ensures
            r <==> self is IntraNxN || self is Inter,
    {
        matches!(self, MbType::IntraNxN | MbType::Inter(_))
    }
}

/// How a P macroblock is divided.
#[derive(Debug, Clone, Copy, PartialEq, Eq, Structural)]
pub enum Partitioning {
    P16x16,
    P16x8,
    P8x16,
    /// Four 8x8 partitions, each with its own [`SubMbType`].
    P8x8,
    /// As `P8x8`, but every partition uses reference index 0 and none is coded.
    P8x8Ref0,
}

/// How one 8x8 partition is divided.
#[derive(Debug, Clone, Copy, PartialEq, Eq, Structural)]
pub enum SubMbType {
    S8x8,
    S8x4,
    S4x8,
    S4x4,
}

/// One rectangle of a macroblock, in luma samples relative to its top-left
/// corner.
#[derive(Debug, Clone, Copy, PartialEq, Eq, Structural)]
pub struct Part {
    pub x: usize,
    pub y: usize,
    pub width: usize,
    pub height: usize,
}

impl Part {
    /// Whether the rectangle holds a sample.
    pub open spec fn holds(self, x: int, y: int) -> bool {
        self.x <= x < self.x + self.width && self.y <= y < self.y + self.height
    }
}

/// A rectangle.
pub open spec fn rect(x: usize, y: usize, width: usize, height: usize) -> Part {
    Part { x, y, width, height }
}

fn p(x: usize, y: usize, width: usize, height: usize) -> (part: Part)
    ensures
        part == rect(x, y, width, height),
{
    Part { x, y, width, height }
}

impl Partitioning {
    /// The partitions, in the order their syntax elements appear.
    pub open spec fn spec_parts(self) -> Seq<Part> {
        match self {
            Partitioning::P16x16 => seq![rect(0, 0, 16, 16)],
            Partitioning::P16x8 => seq![rect(0, 0, 16, 8), rect(0, 8, 16, 8)],
            Partitioning::P8x16 => seq![rect(0, 0, 8, 16), rect(8, 0, 8, 16)],
            Partitioning::P8x8 | Partitioning::P8x8Ref0 => seq![
                rect(0, 0, 8, 8),
                rect(8, 0, 8, 8),
                rect(0, 8, 8, 8),
                rect(8, 8, 8, 8),
            ],
        }
    }

    /// The partitions, in the order their syntax elements appear.
    pub fn parts(self) -> (parts: Vec<Part>)
        ensures
            parts@ == self.spec_parts(),
    {
        let parts: Vec<Part> = match self {
            Partitioning::P16x16 => vec![p(0, 0, 16, 16)],
            Partitioning::P16x8 => vec![p(0, 0, 16, 8), p(0, 8, 16, 8)],
            Partitioning::P8x16 => vec![p(0, 0, 8, 16), p(8, 0, 8, 16)],
            Partitioning::P8x8 | Partitioning::P8x8Ref0 => vec![
                p(0, 0, 8, 8),
                p(8, 0, 8, 8),
                p(0, 8, 8, 8),
                p(8, 8, 8, 8),
            ],
        };
        assert(parts@ =~= self.spec_parts());
        parts
    }

    /// Whether a reference index is coded for each partition.
    pub fn codes_ref_idx(self) -> (r: bool)
        ensures
            r <==> self !is P8x8Ref0,
    {
        self != Partitioning::P8x8Ref0
    }

    /// Whether the partitions subdivide further.
    pub fn has_sub_partitions(self) -> (r: bool)
        ensures
            r <==> self is P8x8 || self is P8x8Ref0,
    {
        matches!(self, Partitioning::P8x8 | Partitioning::P8x8Ref0)
    }

    /// Which vector prediction rule a partition follows: the two-way splits have
    /// directional ones.
    pub open spec fn spec_mv_prediction(self, part: int) -> Partition {
        match self {
            Partitioning::P16x8 => if part == 0 {
                Partition::Top16x8
            } else {
                Partition::Bottom16x8
            },
            Partitioning::P8x16 => if part == 0 {
                Partition::Left8x16
            } else {
                Partition::Right8x16
            },
            _ => Partition::Other,
        }
    }

    /// Which vector prediction rule a partition follows.
    pub fn mv_prediction(self, part: usize) -> (r: Partition)
        ensures
            r == self.spec_mv_prediction(part as int),
    {
        match self {
            Partitioning::P16x8 => if part == 0 {
                Partition::Top16x8
            } else {
                Partition::Bottom16x8
            },
            Partitioning::P8x16 => if part == 0 {
                Partition::Left8x16
            } else {
                Partition::Right8x16
            },
            _ => Partition::Other,
        }
    }
}

impl SubMbType {
    /// The sub-partitions, relative to the 8x8 partition that contains them.
    pub open spec fn spec_parts(self) -> Seq<Part> {
        match self {
            SubMbType::S8x8 => seq![rect(0, 0, 8, 8)],
            SubMbType::S8x4 => seq![rect(0, 0, 8, 4), rect(0, 4, 8, 4)],
            SubMbType::S4x8 => seq![rect(0, 0, 4, 8), rect(4, 0, 4, 8)],
            SubMbType::S4x4 => seq![
                rect(0, 0, 4, 4),
                rect(4, 0, 4, 4),
                rect(0, 4, 4, 4),
                rect(4, 4, 4, 4),
            ],
        }
    }

    /// The sub-partitions, relative to the 8x8 partition that contains them.
    pub fn parts(self) -> (parts: Vec<Part>)
        ensures
            parts@ == self.spec_parts(),
    {
        let parts: Vec<Part> = match self {
            SubMbType::S8x8 => vec![p(0, 0, 8, 8)],
            SubMbType::S8x4 => vec![p(0, 0, 8, 4), p(0, 4, 8, 4)],
            SubMbType::S4x8 => vec![p(0, 0, 4, 8), p(4, 0, 4, 8)],
            SubMbType::S4x4 => vec![p(0, 0, 4, 4), p(4, 0, 4, 4), p(0, 4, 4, 4), p(4, 4, 4, 4)],
        };
        assert(parts@ =~= self.spec_parts());
        parts
    }
}

/// What an intra `mb_type` number stands for. The 24 `I_16x16` types are a
/// packed product: the mode cycles fastest, then the chroma pattern, and the
/// upper half has coded luma.
pub open spec fn spec_intra_mb_type(value: int) -> Option<MbType> {
    if value == 0 {
        Some(MbType::IntraNxN)
    } else if value == 25 {
        Some(MbType::IPcm)
    } else if 1 <= value <= 24 {
        let n = value - 1;
        Some(
            MbType::Intra16x16 {
                mode: if n % 4 == 0 {
                    Intra16x16Mode::Vertical
                } else if n % 4 == 1 {
                    Intra16x16Mode::Horizontal
                } else if n % 4 == 2 {
                    Intra16x16Mode::Dc
                } else {
                    Intra16x16Mode::Plane
                },
                cbp_luma: if n >= 12 {
                    15
                } else {
                    0
                },
                cbp_chroma: ((n / 4) % 3) as u8,
            },
        )
    } else {
        None
    }
}

/// What an `mb_type` number stands for in a slice. In a P slice the numbers from
/// 5 up are the intra ones.
pub open spec fn spec_mb_type(slice: SliceKind, value: int) -> Option<MbType> {
    match slice {
        SliceKind::I => spec_intra_mb_type(value),
        SliceKind::P => if value == 0 {
            Some(MbType::Inter(Partitioning::P16x16))
        } else if value == 1 {
            Some(MbType::Inter(Partitioning::P16x8))
        } else if value == 2 {
            Some(MbType::Inter(Partitioning::P8x16))
        } else if value == 3 {
            Some(MbType::Inter(Partitioning::P8x8))
        } else if value == 4 {
            Some(MbType::Inter(Partitioning::P8x8Ref0))
        } else {
            spec_intra_mb_type(value - 5)
        },
    }
}

/// Interprets a decoded `mb_type` number. `None` for one outside the tables.
pub fn mb_type(slice: SliceKind, value: u32) -> (r: Option<MbType>)
    ensures
        r == spec_mb_type(slice, value as int),
{
    match slice {
        SliceKind::I => intra_mb_type(value),
        SliceKind::P => match value {
            0 => Some(MbType::Inter(Partitioning::P16x16)),
            1 => Some(MbType::Inter(Partitioning::P16x8)),
            2 => Some(MbType::Inter(Partitioning::P8x16)),
            3 => Some(MbType::Inter(Partitioning::P8x8)),
            4 => Some(MbType::Inter(Partitioning::P8x8Ref0)),
            _ => intra_mb_type(value - 5),
        },
    }
}

fn intra_mb_type(value: u32) -> (r: Option<MbType>)
    ensures
        r == spec_intra_mb_type(value as int),
{
    if value == 0 {
        Some(MbType::IntraNxN)
    } else if value == 25 {
        Some(MbType::IPcm)
    } else if value <= 24 {
        let n: u32 = value - 1;
        Some(
            MbType::Intra16x16 {
                mode: match n % 4 {
                    0 => Intra16x16Mode::Vertical,
                    1 => Intra16x16Mode::Horizontal,
                    2 => Intra16x16Mode::Dc,
                    _ => Intra16x16Mode::Plane,
                },
                cbp_luma: if n >= 12 {
                    15
                } else {
                    0
                },
                cbp_chroma: (n / 4 % 3) as u8,
            },
        )
    } else {
        None
    }
}

/// What a `sub_mb_type` number stands for in a P slice.
pub open spec fn spec_sub_mb_type(value: int) -> Option<SubMbType> {
    if value == 0 {
        Some(SubMbType::S8x8)
    } else if value == 1 {
        Some(SubMbType::S8x4)
    } else if value == 2 {
        Some(SubMbType::S4x8)
    } else if value == 3 {
        Some(SubMbType::S4x4)
    } else {
        None
    }
}

/// Interprets a decoded `sub_mb_type` number.
pub fn sub_mb_type(value: u32) -> (r: Option<SubMbType>)
    ensures
        r == spec_sub_mb_type(value as int),
{
    match value {
        0 => Some(SubMbType::S8x8),
        1 => Some(SubMbType::S8x4),
        2 => Some(SubMbType::S4x8),
        3 => Some(SubMbType::S4x4),
        _ => None,
    }
}

/// Applies a quantiser delta. The result wraps modulo 52: a delta that runs off
/// one end of the range reappears at the other.
pub fn next_qp(prev: u8, delta: i32) -> (qp: u8)
    ensures
        qp as int == (prev + delta) % 52,
        qp < 52,
{
    let sum: i64 = prev as i64 + delta as i64;
    // Far enough up to be positive, and a multiple of 52 away.
    let lifted: i64 = sum + 52 * 41_297_763;
    assert(lifted as int % 52 == sum as int % 52);
    (lifted % 52) as u8
}

/// Chroma quantisers for luma quantisers from 30 up.
pub const CHROMA_QP: [u8; 22] = [
    29, 30, 31, 32, 32, 33, 34, 34, 35, 35, 36, 36, 37, 37, 37, 38, 38, 38, 39, 39, 39, 39,
];

/// The chroma quantiser for a luma quantiser: the offset is applied first, the
/// sum is limited to the range, and above 30 the mapping flattens out.
pub open spec fn spec_chroma_qp(qp_y: int, offset: int) -> int {
    let qpi = clip3(0, 51, qp_y + offset);
    if qpi < 30 {
        qpi
    } else {
        CHROMA_QP[qpi - 30] as int
    }
}

/// The chroma quantiser for a luma quantiser.
pub fn chroma_qp(qp_y: u8, offset: i32) -> (qp: u8)
    ensures
        qp == spec_chroma_qp(qp_y as int, offset as int),
        qp <= 39,
{
    let sum: i64 = qp_y as i64 + offset as i64;
    let qpi: u8 = if sum < 0 {
        0
    } else if sum > 51 {
        51
    } else {
        sum as u8
    };
    if qpi < 30 {
        qpi
    } else {
        CHROMA_QP[qpi as usize - 30]
    }
}

/// A chroma quantiser never exceeds the luma quantiser it is derived from, and
/// a larger luma quantiser never gives a smaller one.
pub proof fn law_chroma_tracks_luma_and_flattens(qp_y: int, offset: int)
    ensures
        spec_chroma_qp(qp_y, offset) <= clip3(0, 51, qp_y + offset),
        spec_chroma_qp(qp_y, offset) <= spec_chroma_qp(qp_y + 1, offset),
        0 <= spec_chroma_qp(qp_y, offset) <= 39,
{
}

/// A quantiser delta and its opposite cancel.
pub proof fn law_quantiser_deltas_cancel(qp: int, delta: int)
    requires
        0 <= qp < 52,
    ensures
        ((qp + delta) % 52 - delta) % 52 == qp,
{
}

/// The intra types of a P slice are those of an I slice, five numbers up.
pub proof fn law_p_slices_shift_the_intra_types(value: int)
    requires
        5 <= value,
    ensures
        spec_mb_type(SliceKind::P, value) == spec_mb_type(SliceKind::I, value - 5),
{
}

/// Every number decodes to the type it alone stands for, and an `I_16x16` has a
/// legal coded block pattern.
pub proof fn law_intra_types_are_distinct(a: int, b: int)
    requires
        spec_intra_mb_type(a) is Some,
        spec_intra_mb_type(a) == spec_intra_mb_type(b),
    ensures
        a == b,
        spec_intra_mb_type(a)->0 matches MbType::Intra16x16 { cbp_luma, cbp_chroma, .. } ==> (
        cbp_luma == 0 || cbp_luma == 15) && cbp_chroma <= 2,
{
}

/// The partitions of a macroblock tile it: every sample lies in exactly one.
pub proof fn law_partitions_tile_the_macroblock(partitioning: Partitioning, x: int, y: int)
    requires
        0 <= x < 16,
        0 <= y < 16,
    ensures
        exists|i: int|
            0 <= i < partitioning.spec_parts().len() && (
            #[trigger] partitioning.spec_parts()[i]).holds(x, y),
        forall|i: int, j: int|
            0 <= i < partitioning.spec_parts().len() && 0 <= j < partitioning.spec_parts().len() && (
            #[trigger] partitioning.spec_parts()[i]).holds(x, y) && (
            #[trigger] partitioning.spec_parts()[j]).holds(x, y) ==> i == j,
{
    let parts = partitioning.spec_parts();
    assert(parts[0].holds(x, y) || parts[1].holds(x, y) || parts[2].holds(x, y) || parts[3].holds(
        x,
        y,
    ));
}

/// The sub-partitions of an 8x8 partition tile it: every sample lies in exactly
/// one.
pub proof fn law_sub_partitions_tile_their_partition(sub: SubMbType, x: int, y: int)
    requires
        0 <= x < 8,
        0 <= y < 8,
    ensures
        exists|i: int|
            0 <= i < sub.spec_parts().len() && (#[trigger] sub.spec_parts()[i]).holds(x, y),
        forall|i: int, j: int|
            0 <= i < sub.spec_parts().len() && 0 <= j < sub.spec_parts().len() && (
            #[trigger] sub.spec_parts()[i]).holds(x, y) && (#[trigger] sub.spec_parts()[j]).holds(
                x,
                y,
            ) ==> i == j,
{
    let parts = sub.spec_parts();
    assert(parts[0].holds(x, y) || parts[1].holds(x, y) || parts[2].holds(x, y) || parts[3].holds(
        x,
        y,
    ));
}

/// The chroma quantiser is the luma one with the offset up to 29, and from there
/// on as listed.
pub proof fn law_chroma_quantisers_are_listed(qp_y: int, offset: int)
    requires
        0 <= qp_y + offset <= 51,
    ensures
        qp_y + offset <= 29 ==> spec_chroma_qp(qp_y, offset) == qp_y + offset,
        qp_y + offset >= 30 ==> spec_chroma_qp(qp_y, offset) == seq![
            29int, 30, 31, 32, 32, 33, 34, 34, 35, 35, 36,
            36, 37, 37, 37, 38, 38, 38, 39, 39, 39, 39,
        ][qp_y + offset - 30],
{
}

/// Beyond the range of quantisers the nearest one counts.
pub proof fn law_chroma_quantisers_are_clipped(qp_y: int, offset: int)
    ensures
        qp_y + offset <= 0 ==> spec_chroma_qp(qp_y, offset) == 0,
        qp_y + offset >= 51 ==> spec_chroma_qp(qp_y, offset) == 39,
{
}

/// Halves that lie one above the other have a rule for the upper and one for the
/// lower, halves side by side one for the left and one for the right; whole
/// macroblocks and quarters have none.
pub proof fn law_halves_have_rules_of_their_own(p: Partitioning, i: int)
    requires
        0 <= i < p.spec_parts().len(),
    ensures
        ({
            let part = p.spec_parts()[i];
            let rule = p.spec_mv_prediction(i);
            &&& rule == Partition::Top16x8 <==> part == (Part { x: 0, y: 0, width: 16, height: 8 })
            &&& rule == Partition::Bottom16x8 <==> part == (Part {
                x: 0,
                y: 8,
                width: 16,
                height: 8,
            })
            &&& rule == Partition::Left8x16 <==> part == (Part { x: 0, y: 0, width: 8, height: 16 })
            &&& rule == Partition::Right8x16 <==> part == (Part {
                x: 8,
                y: 0,
                width: 8,
                height: 16,
            })
        }),
{
}

} // verus!
