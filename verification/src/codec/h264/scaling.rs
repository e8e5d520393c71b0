//! Scaling lists: what the parameter sets write, and the weights that follow.
//!
//! A list that is not written falls back on another: within a set on the list
//! before it, and at the head of a group on the sequence parameter set's list,
//! or on a default where that set has none.
use vstd::prelude::*;
use super::recon::{unscan_4x4, unscan_8x8, ScalingLists, Weights, UNSCAN_4X4, UNSCAN_8X8};
use super::transform::{
    DEFAULT_SCALING_LIST_4X4_INTER, DEFAULT_SCALING_LIST_4X4_INTRA, DEFAULT_SCALING_LIST_8X8_INTER,
    DEFAULT_SCALING_LIST_8X8_INTRA, FLAT_WEIGHT_SCALE_4X4, FLAT_WEIGHT_SCALE_8X8,
};

verus! {

/// One scaling list as a parameter set writes it, in scan order.
#[derive(Debug, Clone, Copy)]
pub enum ScalingListSyntax<const N: usize> {
    /// The list is left to the fall-back.
    NotPresent,
    /// The default list of its place.
    UseDefault,
    Scan([u8; N]),
}

/// A scaling list as a parameter set writes it, as a mathematical value.
pub enum ListModel {
    NotPresent,
    UseDefault,
    Scan(Seq<u8>),
}

impl<const N: usize> View for ScalingListSyntax<N> {
    type V = ListModel;

    open spec fn view(&self) -> ListModel {
        match self {
            ScalingListSyntax::NotPresent => ListModel::NotPresent,
            ScalingListSyntax::UseDefault => ListModel::UseDefault,
            ScalingListSyntax::Scan(list) => ListModel::Scan(list@),
        }
    }
}

/// The lists of a parameter set: six for 4x4 blocks, and the two for luma 8x8
/// blocks where it has any.
pub struct MatrixModel {
    pub small: Seq<ListModel>,
    pub large: Option<Seq<ListModel>>,
}

/// The lists of a parameter set as a mathematical value.
pub open spec fn matrix(
    small: Seq<ScalingListSyntax<16>>,
    large: Option<Seq<ScalingListSyntax<64>>>,
) -> MatrixModel {
    MatrixModel {
        small: Seq::new(small.len(), |i: int| small[i]@),
        large: match large {
            Some(lists) => Some(Seq::new(lists.len(), |i: int| lists[i]@)),
            None => None,
        },
    }
}

/// The default 4x4 list of a place.
pub open spec fn default_4x4(i: int) -> Seq<u8> {
    if i < 3 {
        DEFAULT_SCALING_LIST_4X4_INTRA@
    } else {
        DEFAULT_SCALING_LIST_4X4_INTER@
    }
}

/// The default 8x8 list of a place.
pub open spec fn default_8x8(i: int) -> Seq<u8> {
    if i == 0 {
        DEFAULT_SCALING_LIST_8X8_INTRA@
    } else {
        DEFAULT_SCALING_LIST_8X8_INTER@
    }
}

/// The 4x4 list at a place, where the intra and the inter group each fall back
/// on `heads`, or else on the default.
pub open spec fn list_4x4_in(lists: Seq<ListModel>, heads: Option<Seq<Seq<u8>>>, i: int) -> Seq<u8>
    decreases i,
{
    match lists[i] {
        ListModel::Scan(list) => list,
        ListModel::UseDefault => default_4x4(i),
        ListModel::NotPresent => if i <= 0 || i == 3 {
            match heads {
                Some(lists) => lists[i],
                None => default_4x4(i),
            }
        } else {
            list_4x4_in(lists, heads, i - 1)
        },
    }
}

/// The 8x8 list at a place, where each falls back on `heads`, or else on the
/// default.
pub open spec fn list_8x8_in(lists: Seq<ListModel>, heads: Option<Seq<Seq<u8>>>, i: int) -> Seq<
    u8,
> {
    match lists[i] {
        ListModel::Scan(list) => list,
        ListModel::UseDefault => default_8x8(i),
        ListModel::NotPresent => match heads {
            Some(lists) => lists[i],
            None => default_8x8(i),
        },
    }
}

/// The 4x4 lists that a sequence parameter set comes to, if it writes any.
pub open spec fn heads_4x4(sps: Option<MatrixModel>) -> Option<Seq<Seq<u8>>> {
    match sps {
        Some(m) => Some(Seq::new(6, |i: int| list_4x4_in(m.small, None, i))),
        None => None,
    }
}

/// The 8x8 lists that a sequence parameter set comes to, if it writes any.
pub open spec fn heads_8x8(sps: Option<MatrixModel>) -> Option<Seq<Seq<u8>>> {
    match sps {
        Some(MatrixModel { small: _, large: Some(lists) }) => Some(
            Seq::new(2, |i: int| list_8x8_in(lists, None, i)),
        ),
        _ => None,
    }
}

/// A 4x4 list in force: the picture parameter set's, or else the sequence
/// parameter set's, or else flat.
pub open spec fn list_4x4(sps: Option<MatrixModel>, pps: Option<MatrixModel>, i: int) -> Seq<u8> {
    match (pps, heads_4x4(sps)) {
        (Some(m), heads) => list_4x4_in(m.small, heads, i),
        (None, Some(lists)) => lists[i],
        (None, None) => FLAT_WEIGHT_SCALE_4X4@,
    }
}

/// An 8x8 list in force: the picture parameter set's, or else the sequence
/// parameter set's, or else flat.
pub open spec fn list_8x8(sps: Option<MatrixModel>, pps: Option<MatrixModel>, i: int) -> Seq<u8> {
    match (pps, heads_8x8(sps)) {
        (Some(MatrixModel { small: _, large: Some(lists) }), heads) => list_8x8_in(lists, heads, i),
        (_, Some(lists)) => lists[i],
        (_, None) => FLAT_WEIGHT_SCALE_8X8@,
    }
}

/// A 4x4 list from scan order to raster order.
pub open spec fn spread_4x4(list: Seq<u8>) -> Seq<u8> {
    Seq::new(16, |p: int| list[unscan_4x4(p)])
}

/// An 8x8 list from scan order to raster order.
pub open spec fn spread_8x8(list: Seq<u8>) -> Seq<u8> {
    Seq::new(64, |p: int| list[unscan_8x8(p)])
}

/// The weights that two parameter sets give, in raster order.
pub open spec fn weights_of(sps: Option<MatrixModel>, pps: Option<MatrixModel>) -> Weights {
    Weights {
        w4x4: Seq::new(6, |i: int| spread_4x4(list_4x4(sps, pps, i))),
        w8x8: Seq::new(2, |i: int| spread_8x8(list_8x8(sps, pps, i))),
    }
}

fn raster_16(list: &[u8; 16]) -> (r: [u8; 16])
    ensures
        r@ == spread_4x4(list@),
{
    let mut r: [u8; 16] = [0u8;16];
    for p in 0..16usize
        invariant
            forall|q: int| 0 <= q < p ==> (#[trigger] r@[q]) == list@[unscan_4x4(q)],
    {
        reveal(unscan_4x4);
        r[p] = list[UNSCAN_4X4[p]];
    }
    assert(r@ =~= spread_4x4(list@));
    r
}

fn raster_64(list: &[u8; 64]) -> (r: [u8; 64])
    ensures
        r@ == spread_8x8(list@),
{
    let mut r: [u8; 64] = [0u8;64];
    for p in 0..64usize
        invariant
            forall|q: int| 0 <= q < p ==> (#[trigger] r@[q]) == list@[unscan_8x8(q)],
    {
        reveal(unscan_8x8);
        r[p] = list[UNSCAN_8X8[p]];
    }
    assert(r@ =~= spread_8x8(list@));
    r
}

fn resolve_4x4(lists: &[ScalingListSyntax<16>; 6], heads: Option<&[[u8; 16]; 6]>) -> (r: [[u8; 16];
    6])
    ensures
        forall|i: int|
            0 <= i < 6 ==> (#[trigger] r@[i])@ == list_4x4_in(
                matrix(lists@, None).small,
                match heads {
                    Some(h) => Some(Seq::new(6, |j: int| h@[j]@)),
                    None => None,
                },
                i,
            ),
{
    let ghost model = matrix(lists@, None).small;
    let ghost above = match heads {
        Some(h) => Some(Seq::new(6, |j: int| h@[j]@)),
        None => None,
    };
    let mut r: [[u8; 16]; 6] = [[0u8;16];6];
    for i in 0..6usize
        invariant
            model == matrix(lists@, None).small,
            above == (match heads {
                Some(h) => Some(Seq::new(6, |j: int| h@[j]@)),
                None => None,
            }),
            forall|j: int| 0 <= j < i ==> (#[trigger] r@[j])@ == list_4x4_in(model, above, j),
    {
        assert(model[i as int] == lists@[i as int]@);
        let default: [u8; 16] = if i < 3 {
            DEFAULT_SCALING_LIST_4X4_INTRA
        } else {
            DEFAULT_SCALING_LIST_4X4_INTER
        };
        let list: [u8; 16] = match lists[i] {
            ScalingListSyntax::Scan(list) => list,
            ScalingListSyntax::UseDefault => default,
            ScalingListSyntax::NotPresent => if i == 0 || i == 3 {
                match heads {
                    Some(h) => h[i],
                    None => default,
                }
            } else {
                assert(r@[i - 1]@ == list_4x4_in(model, above, i - 1));
                r[i - 1]
            },
        };
        assert(list@ == list_4x4_in(model, above, i as int));
        r[i] = list;
    }
    r
}

fn resolve_8x8(lists: &[ScalingListSyntax<64>; 2], heads: Option<&[[u8; 64]; 2]>) -> (r: [[u8; 64];
    2])
    ensures
        forall|i: int|
            0 <= i < 2 ==> (#[trigger] r@[i])@ == list_8x8_in(
                Seq::new(2, |j: int| lists@[j]@),
                match heads {
                    Some(h) => Some(Seq::new(2, |j: int| h@[j]@)),
                    None => None,
                },
                i,
            ),
{
    let mut r: [[u8; 64]; 2] = [[0u8;64];2];
    for i in 0..2usize
        invariant
            forall|k: int|
                0 <= k < i ==> (#[trigger] r@[k])@ == list_8x8_in(
                    Seq::new(2, |j: int| lists@[j]@),
                    match heads {
                        Some(h) => Some(Seq::new(2, |j: int| h@[j]@)),
                        None => None,
                    },
                    k,
                ),
    {
        let default: [u8; 64] = if i == 0 {
            DEFAULT_SCALING_LIST_8X8_INTRA
        } else {
            DEFAULT_SCALING_LIST_8X8_INTER
        };
        let list: [u8; 64] = match lists[i] {
            ScalingListSyntax::Scan(list) => list,
            ScalingListSyntax::UseDefault => default,
            ScalingListSyntax::NotPresent => match heads {
                Some(h) => h[i],
                None => default,
            },
        };
        r[i] = list;
    }
    r
}

impl ScalingLists {
    /// The weights that two parameter sets give, `sps` with all of its lists
    /// and `pps` with 8x8 lists where it writes any. Flat where neither set
    /// writes lists.
    pub fn from_syntax(
        sps: Option<(&[ScalingListSyntax<16>; 6], &[ScalingListSyntax<64>; 2])>,
        pps: Option<(&[ScalingListSyntax<16>; 6], Option<&[ScalingListSyntax<64>; 2]>)>,
    ) -> (w: ScalingLists)
        ensures
            w@ == weights_of(
                match sps {
                    Some((small, large)) => Some(matrix(small@, Some(large@))),
                    None => None,
                },
                match pps {
                    Some((small, Some(large))) => Some(matrix(small@, Some(large@))),
                    Some((small, None)) => Some(matrix(small@, None)),
                    None => None,
                },
            ),
    {
        let ghost (below, above) = (
            match sps {
                Some((small, large)) => Some(matrix(small@, Some(large@))),
                None => None,
            },
            match pps {
                Some((small, Some(large))) => Some(matrix(small@, Some(large@))),
                Some((small, None)) => Some(matrix(small@, None)),
                None => None,
            },
        );
        let small: [[u8; 16]; 6] = match sps {
            Some((lists, _)) => {
                let heads: [[u8; 16]; 6] = resolve_4x4(lists, None);
                proof {
                    assert(matrix(lists@, None).small =~= below->0.small);
                    assert(Seq::new(6, |j: int| heads@[j]@) =~= heads_4x4(below)->0);
                }
                match pps {
                    Some((own, _)) => {
                        assert(matrix(own@, None).small =~= above->0.small);
                        resolve_4x4(own, Some(&heads))
                    },
                    None => heads,
                }
            },
            None => match pps {
                Some((own, _)) => {
                    assert(matrix(own@, None).small =~= above->0.small);
                    resolve_4x4(own, None)
                },
                None => [FLAT_WEIGHT_SCALE_4X4;6],
            },
        };
        assert forall|i: int| 0 <= i < 6 implies (#[trigger] small@[i])@ == list_4x4(
            below,
            above,
            i,
        ) by {
            assert(heads_4x4(below) matches Some(lists) ==> lists[i] == list_4x4_in(
                below->0.small,
                None,
                i,
            ));
        }
        let large: [[u8; 64]; 2] = match sps {
            Some((_, lists)) => {
                let heads: [[u8; 64]; 2] = resolve_8x8(lists, None);
                proof {
                    assert(Seq::new(2, |j: int| lists@[j]@) =~= below->0.large->0);
                    assert(Seq::new(2, |j: int| heads@[j]@) =~= heads_8x8(below)->0);
                }
                match pps {
                    Some((_, Some(own))) => {
                        assert(Seq::new(2, |j: int| own@[j]@) =~= above->0.large->0);
                        resolve_8x8(own, Some(&heads))
                    },
                    _ => heads,
                }
            },
            None => match pps {
                Some((_, Some(own))) => {
                    assert(Seq::new(2, |j: int| own@[j]@) =~= above->0.large->0);
                    resolve_8x8(own, None)
                },
                _ => [FLAT_WEIGHT_SCALE_8X8;2],
            },
        };
        assert forall|i: int| 0 <= i < 2 implies (#[trigger] large@[i])@ == list_8x8(
            below,
            above,
            i,
        ) by {
            assert(heads_8x8(below) matches Some(lists) ==> lists[i] == list_8x8_in(
                below->0.large->0,
                None,
                i,
            ));
        }
        let w = ScalingLists {
            weight_4x4: [
                raster_16(&small[0]),
                raster_16(&small[1]),
                raster_16(&small[2]),
                raster_16(&small[3]),
                raster_16(&small[4]),
                raster_16(&small[5]),
            ],
            weight_8x8: [raster_64(&large[0]), raster_64(&large[1])],
        };
        assert(w@.w4x4 =~= weights_of(below, above).w4x4);
        assert(w@.w8x8 =~= weights_of(below, above).w8x8);
        w
    }
}

/// Without any lists all weights are the same.
pub proof fn law_no_lists_mean_flat_weights(i: int, p: int)
    ensures
        0 <= i < 6 && 0 <= p < 16 ==> weights_of(None, None).w4x4[i][p] == 16,
        0 <= i < 2 && 0 <= p < 64 ==> weights_of(None, None).w8x8[i][p] == 16,
{
    if 0 <= p < 16 {
        super::recon::law_scan_4x4_is_a_permutation(p);
    }
    if 0 <= p < 64 {
        super::recon::law_scan_8x8_is_a_permutation(p);
    }
}

/// Levels are weighed by the lists of the picture parameter set where it has
/// lists, else by those of the sequence parameter set, else all alike.
pub proof fn law_lists_of_the_picture_come_first(
    sps: Option<MatrixModel>,
    pps: Option<MatrixModel>,
    i: int,
)
    requires
        0 <= i < 6,
    ensures
        pps is None && sps is Some ==> list_4x4(sps, pps, i) == list_4x4_in(sps->0.small, None, i),
        pps matches Some(m) ==> match m.small[i] {
            ListModel::Scan(list) => list_4x4(sps, pps, i) == list,
            ListModel::UseDefault => list_4x4(sps, pps, i) == (if i < 3 {
                DEFAULT_SCALING_LIST_4X4_INTRA@
            } else {
                DEFAULT_SCALING_LIST_4X4_INTER@
            }),
            ListModel::NotPresent => list_4x4(sps, pps, i) == (if i != 0 && i != 3 {
                list_4x4(sps, pps, i - 1)
            } else if sps is Some {
                list_4x4(sps, None, i)
            } else if i < 3 {
                DEFAULT_SCALING_LIST_4X4_INTRA@
            } else {
                DEFAULT_SCALING_LIST_4X4_INTER@
            }),
        },
{
}

/// The same of the two 8x8 lists, which do not fall back on each other.
pub proof fn law_large_lists_of_the_picture_come_first(
    sps: Option<MatrixModel>,
    pps: Option<MatrixModel>,
    i: int,
)
    requires
        0 <= i < 2,
    ensures
        ({
            let below = sps is Some && sps->0.large is Some;
            let above = pps is Some && pps->0.large is Some;
            let plain = if i == 0 {
                DEFAULT_SCALING_LIST_8X8_INTRA@
            } else {
                DEFAULT_SCALING_LIST_8X8_INTER@
            };
            &&& !above && !below ==> list_8x8(sps, pps, i) == FLAT_WEIGHT_SCALE_8X8@
            &&& !above && below ==> list_8x8(sps, pps, i) == list_8x8(sps, None, i)
            &&& above ==> match pps->0.large->0[i] {
                ListModel::Scan(list) => list_8x8(sps, pps, i) == list,
                ListModel::UseDefault => list_8x8(sps, pps, i) == plain,
                ListModel::NotPresent => list_8x8(sps, pps, i) == (if below {
                    list_8x8(sps, None, i)
                } else {
                    plain
                }),
            }
        }),
{
}

/// A list is written along the diagonals and used in rows, as levels are.
pub proof fn law_lists_are_spread_as_levels(list: Seq<u8>, k: int)
    ensures
        0 <= k < 16 ==> spread_4x4(list)[super::residual::scan_4x4(k)] == list[k],
        0 <= k < 64 ==> spread_8x8(list)[super::residual::scan_8x8(k)] == list[k],
{
    if 0 <= k < 16 {
        super::recon::law_scan_4x4_is_a_permutation(k);
    }
    if 0 <= k < 64 {
        super::recon::law_scan_8x8_is_a_permutation(k);
    }
}

} // verus!
