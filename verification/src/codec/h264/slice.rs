//! Slices: what their headers say, and where their coded data begins.
use vstd::prelude::*;
use super::headers::{
    behind_header, bytes_left, header_end_of, is_aligned, list_commands_of, marking_of, next_bit,
    parameter_sets, payload_of, payload_refusal_of, place_of, pps_matrix_of, pps_of, put_pps, put_sps,
    read_list_commands, read_marking, read_payload, read_pps, read_pps_matrix, read_slice_fields,
    read_sps, read_sps_matrix, slice_fields_of, source_of, sps_matrix_of, sps_of, BufferCommand,
    ListCommand, MarkingFields, MarkingModel, PayloadBits, PicMatrix, Pps, SeqMatrix, SetStore,
    SetUnit, SliceFields, Sps,
};
use super::lookahead::{can_be_read, check_runs, deltas_fit, runs_fit};
use super::picture::{Cropping, MmcoOp, RefListMod, RefMarking};
use super::recon::ScalingLists;
use super::scaling::{matrix, weights_of, ListModel, MatrixModel, ScalingListSyntax};
use crate::error::{Error, Fault};

verus! {

/// What the macroblock layer needs of a slice header.
#[derive(Debug, Clone, Copy)]
pub struct SliceInfo {
    pub first_mb: usize,
    pub frame_num: u16,
    pub kind: SliceKind,
    pub idr: bool,
    /// How much the stream relies on the picture; zero for one that is no
    /// reference.
    pub nal_ref_idc: u8,
    pub slice_qp: u8,
    /// Which of the three context tables a P slice starts from.
    pub cabac_init_idc: u8,
    pub picture: PictureConfig,
    pub constrained_intra: bool,
    pub chroma_qp_offset: [i32; 2],
    pub transform_8x8_enabled: bool,
    pub deblocking: Deblocking,
    /// How many entries reference list 0 has. A reference index is coded only
    /// where there is more than one to choose from.
    pub num_ref_idx_l0: usize,
}

/// How a slice controls the deblocking filter.
#[derive(Debug, Clone, Copy, PartialEq, Eq, Structural)]
pub struct Deblocking {
    /// 0 filters every edge, 1 none, 2 none between slices.
    pub disable_idc: u8,
    /// Offset on the quantiser for `alpha`.
    pub alpha_offset: i32,
    /// Offset on the quantiser for `beta`.
    pub beta_offset: i32,
}

impl Default for Deblocking {
    fn default() -> (r: Self)
        ensures
            r == Deblocking::standard(),
    {
        Deblocking { disable_idc: 0, alpha_offset: 0, beta_offset: 0 }
    }
}

impl Deblocking {
    /// Every edge is filtered, with unshifted thresholds.
    pub open spec fn standard() -> Deblocking {
        Deblocking { disable_idc: 0, alpha_offset: 0, beta_offset: 0 }
    }

    /// Whether any edge of the slice is filtered.
    pub open spec fn spec_enabled(self) -> bool {
        self.disable_idc != 1
    }

    /// Whether edges against another slice are filtered.
    pub open spec fn spec_crosses_slices(self) -> bool {
        self.disable_idc != 1 && self.disable_idc != 2
    }

    /// Offsets that can be added to a quantiser.
    pub open spec fn wf(self) -> bool {
        &&& -0x4000_0000 <= self.alpha_offset <= 0x4000_0000
        &&& -0x4000_0000 <= self.beta_offset <= 0x4000_0000
    }

    /// Whether any edge of the slice is filtered.
    pub fn enabled(&self) -> (r: bool)
        ensures
            r == self.spec_enabled(),
    {
        self.disable_idc != 1
    }

    /// Whether edges against another slice are filtered.
    pub fn crosses_slices(&self) -> (r: bool)
        ensures
            r == self.spec_crosses_slices(),
    {
        self.disable_idc != 1 && self.disable_idc != 2
    }
}

/// What the parameter sets fix for every macroblock of a picture.
#[derive(Debug, Clone, Copy, PartialEq, Eq, Structural)]
pub struct PictureConfig {
    pub width_mbs: usize,
    pub height_mbs: usize,
    pub max_refs: usize,
    pub max_frame_num: u32,
    pub crop: Cropping,
}

/// The kinds of slice that can be decoded.
#[derive(Debug, Clone, Copy, PartialEq, Eq, Structural)]
pub enum SliceKind {
    P,
    I,
}

/// A parsed slice and its arithmetic-coded data.
#[derive(Debug)]
pub struct CabacSlice {
    pub info: SliceInfo,
    /// Weights from the parameter sets of the slice.
    pub scaling: ScalingLists,
    /// Changes to the order of reference list 0.
    pub list_mods: Vec<RefListMod>,
    /// What becomes of the picture as a reference.
    pub marking: RefMarking,
    /// Payload bytes, the first of them holding the first coded bit.
    pub data: Vec<u8>,
    /// Which bit of the first byte is the first coded one.
    pub bit_offset: u8,
}

// ---- Unit headers -----------------------------------------------------------

/// Whether the first byte of a unit is legal: its top bit is zero.
pub open spec fn legal_header(first: u8) -> bool {
    first & 0x80 == 0
}

/// The type in the first byte of a unit.
pub open spec fn unit_type(first: u8) -> u8 {
    first & 0x1f
}

/// How much the stream relies on a unit, from its first byte.
pub open spec fn ref_idc(first: u8) -> u8 {
    (first & 0x60) >> 5
}

/// The first byte of a unit, if it is legal.
pub fn nal_header(nal: &[u8]) -> (r: Result<u8, Error>)
    ensures
        if nal@.len() == 0 {
            r matches Err(e) && e.is_decode("empty NAL"@)
        } else if !legal_header(nal@[0]) {
            r matches Err(e) && e.is_decode("invalid NAL header: ForbiddenZeroBit"@)
        } else {
            r matches Ok(first) && first == nal@[0]
        },
{
    if nal.len() == 0 {
        return Err(Error::decode("empty NAL"));
    }
    if nal[0] & 0x80 != 0 {
        return Err(Error::decode("invalid NAL header: ForbiddenZeroBit"));
    }
    Ok(nal[0])
}

// ---- Alignment --------------------------------------------------------------

/// Bits from `header_end` to the next byte boundary.
pub open spec fn padding(header_end: int) -> int {
    (8 - header_end % 8) % 8
}

/// A bit of a payload, the most significant of each byte first.
pub open spec fn bit(payload: Seq<u8>, pos: int) -> bool {
    (payload[pos / 8] >> ((7 - pos % 8) as u8)) & 1 == 1
}

/// What is wrong with the bits between a header and the coded data: they must be
/// ones up to the next byte boundary.
pub open spec fn alignment_fault(payload: Seq<u8>, header_end: int) -> Option<Seq<char>> {
    if header_end + padding(header_end) > payload.len() * 8 {
        Some("truncated CABAC alignment"@)
    } else if exists|p: int|
        header_end <= p < header_end + padding(header_end) && !#[trigger] bit(payload, p) {
        Some("invalid CABAC alignment bit"@)
    } else {
        None
    }
}

/// Skips the ones that pad a header to a byte boundary.
pub fn skip_cabac_alignment(rbsp: &[u8], header_end: usize) -> (r: Result<usize, Error>)
    requires
        header_end + 8 <= usize::MAX,
        rbsp@.len() * 8 <= usize::MAX,
    ensures
        match alignment_fault(rbsp@, header_end as int) {
            Some(message) => r matches Err(e) && e.is_decode(message),
            None => r matches Ok(start) && start == header_end + padding(header_end as int),
        },
{
    let pad: usize = (8 - header_end % 8) % 8;
    let stop: usize = header_end + pad;
    if stop > rbsp.len() * 8 {
        return Err(Error::decode("truncated CABAC alignment"));
    }
    for pos in header_end..stop
        invariant
            stop == header_end + padding(header_end as int),
            stop <= rbsp@.len() * 8,
            rbsp@.len() * 8 <= usize::MAX,
            forall|p: int| header_end <= p < pos ==> #[trigger] bit(rbsp@, p),
    {
        if (rbsp[pos / 8] >> ((7 - pos % 8) as u8)) & 1 == 0 {
            assert((rbsp@[pos as int / 8] >> ((7 - pos as int % 8) as u8)) & 1 == 0);
            assert(!bit(rbsp@, pos as int));
            return Err(Error::decode("invalid CABAC alignment bit"));
        }
        proof {
            let b = rbsp@[pos as int / 8];
            let n = (7 - pos as int % 8) as u8;
            assert((b >> n) & 1 == 0 || (b >> n) & 1 == 1) by (bit_vector);
        }
        assert(bit(rbsp@, pos as int));
    }
    Ok(stop)
}

// ---- Parameter sets ---------------------------------------------------------

/// Why a sequence parameter set is refused.
pub open spec fn sps_fault(sps: Sps) -> Option<Seq<char>> {
    if !sps.is_420 || sps.separate_planes {
        Some("only 4:2:0 pictures are supported"@)
    } else if sps.luma_depth_minus8 != 0 || sps.chroma_depth_minus8 != 0 {
        Some("only 8-bit pictures are supported"@)
    } else if !sps.frames_only {
        Some("interlaced pictures are unsupported"@)
    } else if sps.gaps_allowed {
        Some("frame number gaps are unsupported"@)
    } else {
        None
    }
}

/// A result that reports a decoding fault, or that there is none.
pub open spec fn reports(r: Result<(), Error>, fault: Option<Seq<char>>) -> bool {
    match fault {
        Some(message) => r matches Err(e) && e.is_decode(message),
        None => r is Ok,
    }
}

/// Refuses what the decoder cannot decode.
pub fn validate_sps(sps: &Sps) -> (r: Result<(), Error>)
    ensures
        reports(r, sps_fault(*sps)),
{
    if !sps.is_420 || sps.separate_planes {
        return Err(Error::decode("only 4:2:0 pictures are supported"));
    }
    if sps.luma_depth_minus8 != 0 || sps.chroma_depth_minus8 != 0 {
        return Err(Error::decode("only 8-bit pictures are supported"));
    }
    if !sps.frames_only {
        return Err(Error::decode("interlaced pictures are unsupported"));
    }
    if sps.gaps_allowed {
        return Err(Error::decode("frame number gaps are unsupported"));
    }
    Ok(())
}

/// Why a picture parameter set is refused.
pub open spec fn pps_fault(pps: Pps) -> Option<Seq<char>> {
    if pps.slice_groups {
        Some("FMO slice groups are unsupported"@)
    } else if pps.weighted_pred {
        Some("weighted P prediction is unsupported"@)
    } else if pps.redundant_pics {
        Some("redundant coded pictures are unsupported"@)
    } else {
        None
    }
}

/// Refuses what the decoder cannot decode.
pub fn validate_pps(pps: &Pps) -> (r: Result<(), Error>)
    ensures
        reports(r, pps_fault(*pps)),
{
    if pps.slice_groups {
        return Err(Error::decode("FMO slice groups are unsupported"));
    }
    if pps.weighted_pred {
        return Err(Error::decode("weighted P prediction is unsupported"));
    }
    if pps.redundant_pics {
        return Err(Error::decode("redundant coded pictures are unsupported"));
    }
    Ok(())
}

/// An accepted sequence parameter set with its scaling lists.
#[derive(Debug, Clone, Copy)]
pub struct StoredSps {
    pub sps: Sps,
    pub matrix: Option<SeqMatrix>,
}

/// An accepted picture parameter set with its scaling lists.
#[derive(Debug, Clone, Copy)]
pub struct StoredPps {
    pub pps: Pps,
    pub matrix: Option<PicMatrix>,
}

/// The parameter sets in force.
pub struct ParameterSets {
    pub store: SetStore,
    pub sps: Vec<StoredSps>,
    pub pps: Vec<StoredPps>,
}

/// The parameter sets in force, as a mathematical value.
#[verifier::ext_equal]
pub struct Sets {
    /// Every accepted set as it came.
    pub log: Seq<SetUnit>,
    pub sps: Seq<StoredSps>,
    pub pps: Seq<StoredPps>,
}

impl View for ParameterSets {
    type V = Sets;

    open spec fn view(&self) -> Sets {
        Sets { log: parameter_sets(self.store), sps: self.sps@, pps: self.pps@ }
    }
}

/// The place of the sequence parameter set of a number; the length where there
/// is none.
pub open spec fn sps_place(sets: Seq<StoredSps>, id: u8) -> int
    decreases sets.len(),
{
    if sets.len() == 0 {
        0
    } else if sets[0].sps.id == id {
        0
    } else {
        1 + sps_place(sets.drop_first(), id)
    }
}

/// The place of the picture parameter set of a number; the length where there is
/// none.
pub open spec fn pps_place(sets: Seq<StoredPps>, id: u8) -> int
    decreases sets.len(),
{
    if sets.len() == 0 {
        0
    } else if sets[0].pps.id == id {
        0
    } else {
        1 + pps_place(sets.drop_first(), id)
    }
}

/// Sets with one more, in place of the one of its number.
pub open spec fn with_sps(sets: Seq<StoredSps>, set: StoredSps) -> Seq<StoredSps> {
    let at = sps_place(sets, set.sps.id);
    if at < sets.len() {
        sets.update(at, set)
    } else {
        sets.push(set)
    }
}

/// Sets with one more, in place of the one of its number.
pub open spec fn with_pps(sets: Seq<StoredPps>, set: StoredPps) -> Seq<StoredPps> {
    let at = pps_place(sets, set.pps.id);
    if at < sets.len() {
        sets.update(at, set)
    } else {
        sets.push(set)
    }
}

proof fn lemma_sps_place(sets: Seq<StoredSps>, id: u8, n: int)
    requires
        0 <= n <= sets.len(),
        forall|i: int| 0 <= i < n ==> (#[trigger] sets[i]).sps.id != id,
    ensures
        sps_place(sets, id) == n + sps_place(sets.skip(n), id),
    decreases n,
{
    if n == 0 {
        assert(sets.skip(0) =~= sets);
    } else {
        let rest = sets.drop_first();
        assert forall|i: int| 0 <= i < n - 1 implies (#[trigger] rest[i]).sps.id != id by {
            assert(rest[i] == sets[i + 1]);
        }
        lemma_sps_place(rest, id, n - 1);
        assert(rest.skip(n - 1) =~= sets.skip(n));
        assert(sets[0].sps.id != id);
    }
}

proof fn lemma_pps_place(sets: Seq<StoredPps>, id: u8, n: int)
    requires
        0 <= n <= sets.len(),
        forall|i: int| 0 <= i < n ==> (#[trigger] sets[i]).pps.id != id,
    ensures
        pps_place(sets, id) == n + pps_place(sets.skip(n), id),
    decreases n,
{
    if n == 0 {
        assert(sets.skip(0) =~= sets);
    } else {
        let rest = sets.drop_first();
        assert forall|i: int| 0 <= i < n - 1 implies (#[trigger] rest[i]).pps.id != id by {
            assert(rest[i] == sets[i + 1]);
        }
        lemma_pps_place(rest, id, n - 1);
        assert(rest.skip(n - 1) =~= sets.skip(n));
        assert(sets[0].pps.id != id);
    }
}

fn find_sps(sets: &Vec<StoredSps>, id: u8) -> (at: usize)
    ensures
        at == sps_place(sets@, id),
        at <= sets@.len(),
{
    let n: usize = sets.len();
    for i in 0..n
        invariant
            n == sets@.len(),
            forall|j: int| 0 <= j < i ==> (#[trigger] sets@[j]).sps.id != id,
    {
        if sets[i].sps.id == id {
            proof {
                lemma_sps_place(sets@, id, i as int);
                assert(sets@.skip(i as int)[0] == sets@[i as int]);
            }
            return i;
        }
    }
    proof {
        lemma_sps_place(sets@, id, n as int);
    }
    n
}

fn find_pps(sets: &Vec<StoredPps>, id: u8) -> (at: usize)
    ensures
        at == pps_place(sets@, id),
        at <= sets@.len(),
{
    let n: usize = sets.len();
    for i in 0..n
        invariant
            n == sets@.len(),
            forall|j: int| 0 <= j < i ==> (#[trigger] sets@[j]).pps.id != id,
    {
        if sets[i].pps.id == id {
            proof {
                lemma_pps_place(sets@, id, i as int);
                assert(sets@.skip(i as int)[0] == sets@[i as int]);
            }
            return i;
        }
    }
    proof {
        lemma_pps_place(sets@, id, n as int);
    }
    n
}

/// What becomes of the parameter sets, or what is wrong.
pub struct SetsChange {
    pub sets: Sets,
    pub fault: Option<Seq<char>>,
}

/// The parameter sets after a unit with a sequence parameter set.
pub open spec fn sps_added(sets: Sets, nal: Seq<u8>) -> SetsChange {
    match (if runs_fit(nal) {
        sps_of(nal)
    } else {
        Err("run of zeros is too long"@)
    }) {
        Ok(sps) => if sps_fault(sps) is Some {
            SetsChange { sets, fault: sps_fault(sps) }
        } else {
            SetsChange {
                sets: Sets {
                    log: sets.log.push(SetUnit::Sequence(nal)),
                    sps: with_sps(sets.sps, StoredSps { sps, matrix: sps_matrix_of(nal) }),
                    ..sets
                },
                fault: None,
            }
        },
        Err(text) => SetsChange { sets, fault: Some("invalid SPS: "@ + text) },
    }
}

/// The parameter sets after a unit with a picture parameter set.
pub open spec fn pps_added(sets: Sets, nal: Seq<u8>) -> SetsChange {
    match (if runs_fit(nal) {
        pps_of(sets.log, nal)
    } else {
        Err("run of zeros is too long"@)
    }) {
        Ok(pps) => if pps_fault(pps) is Some {
            SetsChange { sets, fault: pps_fault(pps) }
        } else {
            SetsChange {
                sets: Sets {
                    log: sets.log.push(SetUnit::Picture(nal)),
                    pps: with_pps(
                        sets.pps,
                        StoredPps { pps, matrix: pps_matrix_of(sets.log, nal) },
                    ),
                    ..sets
                },
                fault: None,
            }
        },
        Err(text) => SetsChange { sets, fault: Some("invalid PPS: "@ + text) },
    }
}

/// The error for something that was not as it should be.
fn invalid(what: &str, text: &str) -> (e: Error)
    ensures
        e.is_decode(what@ + text@),
{
    let mut m = what.to_owned();
    m.append(text);
    Error::decode(m.as_str())
}

impl ParameterSets {
    /// No parameter sets.
    pub fn new() -> (sets: Self)
        ensures
            sets@ == (Sets { log: Seq::empty(), sps: Seq::empty(), pps: Seq::empty() }),
    {
        ParameterSets {
            store: super::headers::empty_store(),
            sps: Vec::new(),
            pps: Vec::new(),
        }
    }

    /// Takes in a sequence parameter set.
    pub fn put_sps(&mut self, nal: &[u8]) -> (r: Result<(), Error>)
        requires
            nal@.len() > 0,
        ensures
            final(self)@ == sps_added(old(self)@, nal@).sets,
            reports(r, sps_added(old(self)@, nal@).fault),
    {
        if !check_runs(nal) {
            return Err(invalid("invalid SPS: ", "run of zeros is too long"));
        }
        let sps: Sps = match read_sps(nal) {
            Ok(sps) => sps,
            Err(text) => {
                return Err(invalid("invalid SPS: ", text.as_str()));
            },
        };
        match validate_sps(&sps) {
            Ok(_) => {},
            Err(e) => {
                return Err(e);
            },
        }
        let matrix: Option<SeqMatrix> = read_sps_matrix(nal);
        put_sps(&mut self.store, nal);
        let at: usize = find_sps(&self.sps, sps.id);
        let set = StoredSps { sps, matrix };
        if at < self.sps.len() {
            self.sps[at] = set;
        } else {
            self.sps.push(set);
        }
        Ok(())
    }

    /// Takes in a picture parameter set.
    pub fn put_pps(&mut self, nal: &[u8]) -> (r: Result<(), Error>)
        requires
            nal@.len() > 0,
        ensures
            final(self)@ == pps_added(old(self)@, nal@).sets,
            reports(r, pps_added(old(self)@, nal@).fault),
    {
        if !check_runs(nal) {
            return Err(invalid("invalid PPS: ", "run of zeros is too long"));
        }
        let pps: Pps = match read_pps(&self.store, nal) {
            Ok(pps) => pps,
            Err(text) => {
                return Err(invalid("invalid PPS: ", text.as_str()));
            },
        };
        match validate_pps(&pps) {
            Ok(_) => {},
            Err(e) => {
                return Err(e);
            },
        }
        let matrix: Option<PicMatrix> = read_pps_matrix(&self.store, nal);
        put_pps(&mut self.store, nal);
        let at: usize = find_pps(&self.pps, pps.id);
        let set = StoredPps { pps, matrix };
        if at < self.pps.len() {
            self.pps[at] = set;
        } else {
            self.pps.push(set);
        }
        Ok(())
    }
}

// ---- Weights ----------------------------------------------------------------

/// The last number other than 0 up to place `i` of a list.
pub open spec fn carried(list: Seq<u8>, i: int) -> u8
    decreases i,
{
    if i <= 0 || list[i] != 0 {
        list[i]
    } else {
        carried(list, i - 1)
    }
}

/// What a parameter set says with a list: nothing, the default with one that
/// starts with 0, and otherwise its numbers, of which the last is repeated.
pub open spec fn written(list: Option<Seq<u8>>) -> ListModel {
    match list {
        None => ListModel::NotPresent,
        Some(numbers) => if numbers[0] == 0 {
            ListModel::UseDefault
        } else {
            ListModel::Scan(Seq::new(numbers.len(), |i: int| carried(numbers, i)))
        },
    }
}

/// [`written`] of an array.
pub open spec fn written_array<const N: usize>(list: Option<[u8; N]>) -> ListModel {
    written(
        match list {
            Some(numbers) => Some(numbers@),
            None => None,
        },
    )
}

/// What a parameter set says with a list.
pub fn convert_list<const N: usize>(list: &Option<[u8; N]>) -> (r: ScalingListSyntax<N>)
    requires
        N > 0,
    ensures
        r@ == written_array(*list),
{
    let Some(numbers) = list else {
        return ScalingListSyntax::NotPresent;
    };
    if numbers[0] == 0 {
        return ScalingListSyntax::UseDefault;
    }
    let mut scan: [u8; N] = *numbers;
    let mut i: usize = 1;
    while i < N
        invariant
            1 <= i <= N,
            forall|j: int| 0 <= j < i ==> (#[trigger] scan@[j]) == carried(numbers@, j),
            forall|j: int| i <= j < N ==> (#[trigger] scan@[j]) == numbers@[j],
        decreases N - i,
    {
        if scan[i] == 0 {
            scan[i] = scan[i - 1];
        }
        i = i + 1;
    }
    assert(scan@ =~= Seq::new(N as nat, |i: int| carried(numbers@, i)));
    ScalingListSyntax::Scan(scan)
}

/// What a parameter set says with its six 4x4 lists.
pub fn take_six_4x4(lists: &[Option<[u8; 16]>; 6]) -> (r: [ScalingListSyntax<16>; 6])
    ensures
        forall|i: int| 0 <= i < 6 ==> (#[trigger] r@[i])@ == written_array(lists@[i]),
{
    [
        convert_list(&lists[0]),
        convert_list(&lists[1]),
        convert_list(&lists[2]),
        convert_list(&lists[3]),
        convert_list(&lists[4]),
        convert_list(&lists[5]),
    ]
}

/// What a parameter set says with its two 8x8 lists.
pub fn take_two_8x8(lists: &[Option<[u8; 64]>; 2]) -> (r: [ScalingListSyntax<64>; 2])
    ensures
        forall|i: int| 0 <= i < 2 ==> (#[trigger] r@[i])@ == written_array(lists@[i]),
{
    [convert_list(&lists[0]), convert_list(&lists[1])]
}

/// Two 8x8 lists as a mathematical value.
pub open spec fn large_lists(lists: [Option<[u8; 64]>; 2]) -> Seq<ListModel> {
    Seq::new(2, |i: int| written_array(lists@[i]))
}

/// The scaling lists of a sequence parameter set as a mathematical value.
pub open spec fn seq_matrix(sps: StoredSps) -> Option<MatrixModel> {
    match sps.matrix {
        Some(m) => Some(
            MatrixModel {
                small: Seq::new(6, |i: int| written_array(m.lists_4x4@[i])),
                large: Some(large_lists(m.lists_8x8)),
            },
        ),
        None => None,
    }
}

/// The scaling lists of a picture parameter set as a mathematical value.
pub open spec fn pic_matrix(pps: StoredPps) -> Option<MatrixModel> {
    match pps.matrix {
        Some(m) => Some(
            MatrixModel {
                small: Seq::new(6, |i: int| written_array(m.lists_4x4@[i])),
                large: match m.lists_8x8 {
                    Some(lists) => Some(large_lists(lists)),
                    None => None,
                },
            },
        ),
        None => None,
    }
}

/// The scaling lists of a sequence parameter set.
pub fn seq_scaling_syntax(matrix: &SeqMatrix) -> (r: (
    [ScalingListSyntax<16>; 6],
    [ScalingListSyntax<64>; 2],
))
    ensures
        forall|i: int| 0 <= i < 6 ==> (#[trigger] r.0@[i])@ == written_array(matrix.lists_4x4@[i]),
        forall|i: int| 0 <= i < 2 ==> (#[trigger] r.1@[i])@ == written_array(matrix.lists_8x8@[i]),
{
    (take_six_4x4(&matrix.lists_4x4), take_two_8x8(&matrix.lists_8x8))
}

/// The scaling lists of a picture parameter set.
pub fn pic_scaling_syntax(matrix: &PicMatrix) -> (r: (
    [ScalingListSyntax<16>; 6],
    Option<[ScalingListSyntax<64>; 2]>,
))
    ensures
        forall|i: int| 0 <= i < 6 ==> (#[trigger] r.0@[i])@ == written_array(matrix.lists_4x4@[i]),
        r.1 is Some <==> matrix.lists_8x8 is Some,
        r.1 is Some ==> forall|i: int|
            0 <= i < 2 ==> (#[trigger] r.1->0@[i])@ == written_array(matrix.lists_8x8->0@[i]),
{
    (
        take_six_4x4(&matrix.lists_4x4),
        match &matrix.lists_8x8 {
            Some(lists) => Some(take_two_8x8(lists)),
            None => None,
        },
    )
}

/// The weights that two parameter sets give, in raster order.
pub fn scaling_lists(sps: &StoredSps, pps: &StoredPps) -> (w: ScalingLists)
    ensures
        w@ == weights_of(seq_matrix(*sps), pic_matrix(*pps)),
{
    let below: Option<([ScalingListSyntax<16>; 6], [ScalingListSyntax<64>; 2])> = match &sps.matrix {
        Some(m) => Some(seq_scaling_syntax(m)),
        None => None,
    };
    let above: Option<([ScalingListSyntax<16>; 6], Option<[ScalingListSyntax<64>; 2]>)> =
        match &pps.matrix {
        Some(m) => Some(pic_scaling_syntax(m)),
        None => None,
    };
    proof {
        if let Some((small, large)) = below {
            let m = matrix(small@, Some(large@));
            assert(m.small =~= seq_matrix(*sps)->0.small);
            assert(m.large->0 =~= seq_matrix(*sps)->0.large->0);
        }
        if let Some((small, large)) = above {
            assert(matrix(small@, None).small =~= pic_matrix(*pps)->0.small);
            if let Some(lists) = large {
                let m = matrix(small@, Some(lists@));
                assert(m.small =~= pic_matrix(*pps)->0.small);
                assert(m.large->0 =~= pic_matrix(*pps)->0.large->0);
            }
        }
    }
    ScalingLists::from_syntax(
        match &below {
            Some((small, large)) => Some((small, large)),
            None => None,
        },
        match &above {
            Some((small, Some(large))) => Some((small, Some(large))),
            Some((small, None)) => Some((small, None)),
            None => None,
        },
    )
}

// ---- The slice --------------------------------------------------------------

/// A slice header in parts.
pub struct HeaderModel {
    /// First byte of the unit.
    pub first: u8,
    pub fields: SliceFields,
    pub commands: Seq<ListCommand>,
    pub marking: MarkingModel,
    pub payload: Seq<u8>,
    /// Bits of the payload that belong to the header.
    pub header_end: int,
    pub sps: StoredSps,
    pub pps: StoredPps,
}

impl HeaderModel {
    /// The quantiser the slice starts with.
    pub open spec fn qp(self) -> int {
        26 + self.pps.pps.init_qp_minus26 + self.fields.qp_delta
    }

    /// The table number, zero where none is coded.
    pub open spec fn init_idc(self) -> int {
        match self.fields.cabac_init_idc {
            Some(v) => v as int,
            None => 0,
        }
    }

    /// Entries of reference list 0. The slice may overrule the parameter set.
    pub open spec fn list_length(self) -> int {
        match self.fields.num_ref_idx_l0_minus1 {
            Some(v) => v + 1,
            None => self.pps.pps.num_ref_idx_l0_minus1 + 1,
        }
    }

    pub open spec fn alpha(self) -> int {
        match self.fields.alpha_offset_div2 {
            Some(v) => v * 2,
            None => 0,
        }
    }

    pub open spec fn beta(self) -> int {
        match self.fields.beta_offset_div2 {
            Some(v) => v * 2,
            None => 0,
        }
    }

    pub open spec fn width_mbs(self) -> int {
        self.sps.sps.width_mbs_minus1 + 1
    }

    pub open spec fn height_mbs(self) -> int {
        self.sps.sps.height_units_minus1 + 1
    }

    /// Offset `i` of the display rectangle, in luma samples.
    pub open spec fn crop(self, i: int) -> int {
        match self.sps.sps.crop {
            Some(c) => c@[i] * 2,
            None => 0,
        }
    }

    /// A picture that can be counted and addressed.
    pub open spec fn sized(self) -> bool {
        let (w, h) = (self.width_mbs() * 16, self.height_mbs() * 16);
        w <= 0x4000_0000 && h <= 0x4000_0000 && w * h <= usize::MAX
    }

    /// A display rectangle whose offsets can be added.
    pub open spec fn cropped(self) -> bool {
        &&& self.crop(0) + self.crop(1) <= usize::MAX
        &&& self.crop(2) + self.crop(3) <= usize::MAX
    }

    /// The second chroma offset is the first unless the set carries one.
    pub open spec fn second_offset(self) -> int {
        match self.pps.pps.extension {
            Some((_, second)) => second as int,
            None => self.pps.pps.chroma_qp_offset as int,
        }
    }

    /// Why the slice cannot be decoded.
    pub open spec fn fault(self) -> Option<Seq<char>> {
        let sps = self.sps.sps;
        if !self.pps.pps.cabac {
            Some("CAVLC slice; CABAC decoder required"@)
        } else if !sps.frames_only {
            Some("interlaced pictures are outside decoder scope"@)
        } else if sps.separate_planes || sps.luma_depth_minus8 != 0 || sps.chroma_depth_minus8
            != 0 {
            Some("only 8-bit 4:2:0 pictures are supported"@)
        } else if self.fields.family == 1 {
            Some("B slices are outside decoder scope"@)
        } else if self.fields.family != 0 && self.fields.family != 2 {
            Some("SP/SI slices are outside decoder scope"@)
        } else if self.qp() < 0 || self.qp() > 51 {
            Some("slice quantiser outside 0..=51"@)
        } else if self.init_idc() > 2 {
            Some("cabac_init_idc outside 0..=2"@)
        } else if alignment_fault(self.payload, self.header_end) is Some {
            alignment_fault(self.payload, self.header_end)
        } else if !self.sized() || sps.log2_max_frame_num > 16 {
            Some("picture size is out of range"@)
        } else if !self.cropped() {
            Some("cropping is out of range"@)
        } else if self.list_length() > 32 || self.commands.len() > self.list_length() + 1 {
            Some("reference list is too long"@)
        } else if self.alpha() < -64 || self.alpha() > 64 || self.beta() < -64 || self.beta() > 64 {
            Some("deblocking offset is out of range"@)
        } else if exists|i: int|
            0 <= i < self.commands.len() && !list_mod_of(#[trigger] self.commands[i]).is_some() {
            Some("long-term references are unsupported"@)
        } else if !marking_supported(self.marking) {
            Some("long-term references are unsupported"@)
        } else {
            None
        }
    }
}

/// A change of reference list 0 among short-term references.
pub open spec fn list_mod_of(c: ListCommand) -> Option<RefListMod> {
    match c {
        ListCommand::Subtract(v) => Some(RefListMod::Subtract(v)),
        ListCommand::Add(v) => Some(RefListMod::Add(v)),
        _ => None,
    }
}

/// An operation among short-term references.
pub open spec fn mmco_of(c: BufferCommand) -> Option<MmcoOp> {
    match c {
        BufferCommand::ShortTermUnused(n) => Some(
            MmcoOp::ShortTermUnused { difference_of_pic_nums_minus1: n },
        ),
        BufferCommand::AllUnused => Some(MmcoOp::AllUnused),
        BufferCommand::LongTerm => None,
    }
}

/// A marking without long-term references.
pub open spec fn marking_supported(m: MarkingModel) -> bool {
    match m {
        MarkingModel::Idr { long_term } => !long_term,
        MarkingModel::Adaptive(ops) => forall|i: int|
            0 <= i < ops.len() ==> mmco_of(#[trigger] ops[i]) is Some,
        _ => true,
    }
}

/// What a marking becomes.
pub open spec fn marking_is(marking: RefMarking, m: MarkingModel) -> bool {
    match m {
        MarkingModel::Absent => marking is NonReference,
        MarkingModel::Idr { .. } => marking is Idr,
        MarkingModel::SlidingWindow => marking is SlidingWindow,
        MarkingModel::Adaptive(ops) => marking matches RefMarking::Adaptive(v) && v@.len()
            == ops.len() && forall|i: int|
            0 <= i < ops.len() ==> Some(#[trigger] v@[i]) == mmco_of(ops[i]),
    }
}

/// What a header becomes.
pub open spec fn slice_is(slice: CabacSlice, h: HeaderModel) -> bool {
    let info = slice.info;
    let start = h.header_end + padding(h.header_end);
    &&& info.first_mb == h.fields.first_mb
    &&& info.frame_num == h.fields.frame_num
    &&& info.kind == (if h.fields.family == 0 {
        SliceKind::P
    } else {
        SliceKind::I
    })
    &&& info.idr == (unit_type(h.first) == 5)
    &&& info.nal_ref_idc == ref_idc(h.first)
    &&& info.slice_qp == h.qp()
    &&& info.cabac_init_idc == h.init_idc()
    &&& info.picture.width_mbs == h.width_mbs()
    &&& info.picture.height_mbs == h.height_mbs()
    &&& info.picture.max_refs == h.sps.sps.max_refs
    &&& info.picture.max_frame_num == power_of_two(h.sps.sps.log2_max_frame_num as int)
    &&& info.picture.crop.left == h.crop(0)
    &&& info.picture.crop.right == h.crop(1)
    &&& info.picture.crop.top == h.crop(2)
    &&& info.picture.crop.bottom == h.crop(3)
    &&& info.constrained_intra == h.pps.pps.constrained_intra
    &&& info.chroma_qp_offset@ == seq![
        h.pps.pps.chroma_qp_offset,
        h.second_offset() as i32,
    ]
    &&& info.transform_8x8_enabled == (h.pps.pps.extension matches Some((large, _)) && large)
    &&& info.deblocking == (Deblocking {
        disable_idc: h.fields.disable_deblocking_idc,
        alpha_offset: h.alpha() as i32,
        beta_offset: h.beta() as i32,
    })
    &&& info.num_ref_idx_l0 == h.list_length()
    &&& slice.scaling@ == weights_of(seq_matrix(h.sps), pic_matrix(h.pps))
    &&& slice.list_mods@.len() == h.commands.len()
    &&& forall|i: int|
        0 <= i < h.commands.len() ==> Some(#[trigger] slice.list_mods@[i]) == list_mod_of(
            h.commands[i],
        )
    &&& marking_is(slice.marking, h.marking)
    &&& slice.data@ == h.payload.skip(start / 8)
    &&& slice.bit_offset == 0
}

/// Two to the power of a small number.
pub open spec fn power_of_two(n: int) -> int
    decreases n,
{
    if n <= 0 {
        1
    } else {
        2 * power_of_two(n - 1)
    }
}

proof fn lemma_powers(n: int)
    requires
        0 <= n <= 16,
    ensures
        1 <= power_of_two(n) <= 0x1_0000,
        n < 16 ==> power_of_two(n) <= 0x8000,
    decreases 16 - n,
{
    if n == 16 {
        reveal_with_fuel(power_of_two, 17);
    } else {
        lemma_powers(n + 1);
    }
}

fn two_to(n: u8) -> (r: u32)
    requires
        n <= 16,
    ensures
        r == power_of_two(n as int),
{
    let mut r: u32 = 1;
    for i in 0..n
        invariant
            n <= 16,
            r == power_of_two(i as int),
    {
        proof {
            lemma_powers(i as int);
        }
        r = r * 2;
    }
    r
}

fn convert_commands(commands: &Vec<ListCommand>) -> (r: Option<Vec<RefListMod>>)
    ensures
        r is None <==> exists|i: int|
            0 <= i < commands@.len() && !list_mod_of(#[trigger] commands@[i]).is_some(),
        r matches Some(mods) ==> mods@.len() == commands@.len() && forall|i: int|
            0 <= i < commands@.len() ==> Some(#[trigger] mods@[i]) == list_mod_of(commands@[i]),
{
    let mut mods: Vec<RefListMod> = Vec::new();
    let n: usize = commands.len();
    for i in 0..n
        invariant
            n == commands@.len(),
            mods@.len() == i,
            forall|j: int|
                0 <= j < i ==> Some(#[trigger] mods@[j]) == list_mod_of(commands@[j]),
            forall|j: int| 0 <= j < i ==> list_mod_of(#[trigger] commands@[j]) is Some,
    {
        match commands[i] {
            ListCommand::Subtract(v) => {
                mods.push(RefListMod::Subtract(v));
            },
            ListCommand::Add(v) => {
                mods.push(RefListMod::Add(v));
            },
            _ => {
                assert(!list_mod_of(commands@[i as int]).is_some());
                return None;
            },
        }
    }
    Some(mods)
}

fn convert_marking(marking: &MarkingFields) -> (r: Option<RefMarking>)
    ensures
        r is Some <==> marking_supported(marking@),
        r matches Some(m) ==> marking_is(m, marking@),
{
    match marking {
        MarkingFields::Absent => Some(RefMarking::NonReference),
        MarkingFields::Idr { long_term } => {
            if *long_term {
                None
            } else {
                Some(RefMarking::Idr)
            }
        },
        MarkingFields::SlidingWindow => Some(RefMarking::SlidingWindow),
        MarkingFields::Adaptive(ops) => {
            let mut out: Vec<MmcoOp> = Vec::new();
            let n: usize = ops.len();
            for i in 0..n
                invariant
                    n == ops@.len(),
                    marking@ == MarkingModel::Adaptive(ops@),
                    out@.len() == i,
                    forall|j: int|
                        0 <= j < i ==> Some(#[trigger] out@[j]) == mmco_of(ops@[j]),
                    forall|j: int| 0 <= j < i ==> mmco_of(#[trigger] ops@[j]) is Some,
            {
                match ops[i] {
                    BufferCommand::ShortTermUnused(v) => {
                        out.push(MmcoOp::ShortTermUnused { difference_of_pic_nums_minus1: v });
                    },
                    BufferCommand::AllUnused => {
                        out.push(MmcoOp::AllUnused);
                    },
                    BufferCommand::LongTerm => {
                        assert(mmco_of(ops@[i as int]) is None);
                        return None;
                    },
                }
            }
            Some(RefMarking::Adaptive(out))
        },
    }
}

/// A slice header in parts, as it was read.
pub struct Header {
    /// First byte of the unit.
    pub first: u8,
    pub fields: SliceFields,
    pub commands: Vec<ListCommand>,
    pub marking: MarkingFields,
    pub payload: Vec<u8>,
    /// Bits of the payload that belong to the header.
    pub header_end: usize,
    pub sps: StoredSps,
    pub pps: StoredPps,
}

impl View for Header {
    type V = HeaderModel;

    open spec fn view(&self) -> HeaderModel {
        HeaderModel {
            first: self.first,
            fields: self.fields,
            commands: self.commands@,
            marking: self.marking@,
            payload: self.payload@,
            header_end: self.header_end as int,
            sps: self.sps,
            pps: self.pps,
        }
    }
}

/// The geometry of the picture of a slice, or what is wrong with it.
fn picture_config(h: &Header) -> (r: Result<PictureConfig, Error>)
    ensures
        if !h@.sized() || h.sps.sps.log2_max_frame_num > 16 {
            r matches Err(e) && e.is_decode("picture size is out of range"@)
        } else if !h@.cropped() {
            r matches Err(e) && e.is_decode("cropping is out of range"@)
        } else {
            &&& r matches Ok(c)
            &&& c.width_mbs == h@.width_mbs()
            &&& c.height_mbs == h@.height_mbs()
            &&& c.max_refs == h.sps.sps.max_refs
            &&& c.max_frame_num == power_of_two(h.sps.sps.log2_max_frame_num as int)
            &&& c.crop.left == h@.crop(0)
            &&& c.crop.right == h@.crop(1)
            &&& c.crop.top == h@.crop(2)
            &&& c.crop.bottom == h@.crop(3)
        },
{
    let sps: &Sps = &h.sps.sps;
    let w: u64 = (sps.width_mbs_minus1 as u64 + 1) * 16;
    let t: u64 = (sps.height_units_minus1 as u64 + 1) * 16;
    if w > 0x4000_0000 || t > 0x4000_0000 || sps.log2_max_frame_num > 16 {
        return Err(Error::decode("picture size is out of range"));
    }
    assert(w * t <= 0x4000_0000 * 0x4000_0000) by (nonlinear_arith)
        requires
            0 <= w <= 0x4000_0000,
            0 <= t <= 0x4000_0000,
    ;
    if w * t > usize::MAX as u64 {
        return Err(Error::decode("picture size is out of range"));
    }
    let c: [u32; 4] = match sps.crop {
        Some(c) => c,
        None => [0u32;4],
    };
    let (across, down): (u64, u64) = (c[0] as u64 + c[1] as u64, c[2] as u64 + c[3] as u64);
    if across * 2 > usize::MAX as u64 || down * 2 > usize::MAX as u64 {
        return Err(Error::decode("cropping is out of range"));
    }
    Ok(
        PictureConfig {
            width_mbs: sps.width_mbs_minus1 as usize + 1,
            height_mbs: sps.height_units_minus1 as usize + 1,
            max_refs: sps.max_refs as usize,
            max_frame_num: two_to(sps.log2_max_frame_num),
            crop: Cropping::from_sps_offsets(c[0], c[1], c[2], c[3]),
        },
    )
}

fn doubled(v: Option<i32>) -> (r: Option<i32>)
    ensures
        ({
            let d: int = match v {
                Some(x) => x * 2,
                None => 0,
            };
            r == (if -64 <= d <= 64 {
                Some(d as i32)
            } else {
                None
            })
        }),
{
    match v {
        None => Some(0),
        Some(x) => {
            if -32 <= x && x <= 32 {
                Some(x * 2)
            } else {
                None
            }
        },
    }
}

/// The slice that a header describes, or why it cannot be decoded.
pub fn slice_from_header(h: &Header) -> (r: Result<CabacSlice, Error>)
    requires
        h.header_end + 8 <= usize::MAX,
        h.payload@.len() * 8 <= usize::MAX,
    ensures
        match h@.fault() {
            Some(message) => r matches Err(e) && e.is_decode(message),
            None => r matches Ok(slice) && slice_is(slice, h@),
        },
{
    let (sps, pps): (&Sps, &Pps) = (&h.sps.sps, &h.pps.pps);
    if !pps.cabac {
        return Err(Error::decode("CAVLC slice; CABAC decoder required"));
    }
    if !sps.frames_only {
        return Err(Error::decode("interlaced pictures are outside decoder scope"));
    }
    if sps.separate_planes || sps.luma_depth_minus8 != 0 || sps.chroma_depth_minus8 != 0 {
        return Err(Error::decode("only 8-bit 4:2:0 pictures are supported"));
    }
    if h.fields.family == 1 {
        return Err(Error::decode("B slices are outside decoder scope"));
    }
    if h.fields.family != 0 && h.fields.family != 2 {
        return Err(Error::decode("SP/SI slices are outside decoder scope"));
    }
    let kind: SliceKind = if h.fields.family == 0 {
        SliceKind::P
    } else {
        SliceKind::I
    };
    let qp: i64 = 26 + pps.init_qp_minus26 as i64 + h.fields.qp_delta as i64;
    if qp < 0 || qp > 51 {
        return Err(Error::decode("slice quantiser outside 0..=51"));
    }
    let init_idc: u32 = match h.fields.cabac_init_idc {
        Some(v) => v,
        None => 0,
    };
    if init_idc > 2 {
        return Err(Error::decode("cabac_init_idc outside 0..=2"));
    }
    let start: usize = match skip_cabac_alignment(h.payload.as_slice(), h.header_end) {
        Ok(start) => start,
        Err(e) => {
            return Err(e);
        },
    };
    let picture: PictureConfig = match picture_config(h) {
        Ok(picture) => picture,
        Err(e) => {
            return Err(e);
        },
    };
    let last: u32 = match h.fields.num_ref_idx_l0_minus1 {
        Some(v) => v,
        None => pps.num_ref_idx_l0_minus1,
    };
    if last > 31 || h.commands.len() > last as usize + 2 {
        return Err(Error::decode("reference list is too long"));
    }
    let (Some(alpha_offset), Some(beta_offset)) = (
        doubled(h.fields.alpha_offset_div2),
        doubled(h.fields.beta_offset_div2),
    ) else {
        return Err(Error::decode("deblocking offset is out of range"));
    };
    let Some(list_mods) = convert_commands(&h.commands) else {
        return Err(Error::decode("long-term references are unsupported"));
    };
    let Some(marking) = convert_marking(&h.marking) else {
        return Err(Error::decode("long-term references are unsupported"));
    };
    let (transform_8x8_enabled, second): (bool, i32) = match pps.extension {
        Some((large, second)) => (large, second),
        None => (false, pps.chroma_qp_offset),
    };
    let chroma_qp_offset: [i32; 2] = [pps.chroma_qp_offset, second];
    assert(chroma_qp_offset@ =~= seq![pps.chroma_qp_offset, second]);
    let data: Vec<u8> = copied(&h.payload, start / 8);
    Ok(
        CabacSlice {
            info: SliceInfo {
                first_mb: h.fields.first_mb as usize,
                frame_num: h.fields.frame_num,
                kind,
                idr: h.first & 0x1f == 5,
                nal_ref_idc: (h.first & 0x60) >> 5,
                slice_qp: qp as u8,
                cabac_init_idc: init_idc as u8,
                picture,
                constrained_intra: pps.constrained_intra,
                chroma_qp_offset,
                transform_8x8_enabled,
                deblocking: Deblocking {
                    disable_idc: h.fields.disable_deblocking_idc,
                    alpha_offset,
                    beta_offset,
                },
                num_ref_idx_l0: last as usize + 1,
            },
            scaling: scaling_lists(&h.sps, &h.pps),
            list_mods,
            marking,
            data,
            bit_offset: 0,
        },
    )
}

fn copied(bytes: &Vec<u8>, from: usize) -> (r: Vec<u8>)
    requires
        from <= bytes@.len(),
    ensures
        r@ == bytes@.skip(from as int),
{
    let mut r: Vec<u8> = Vec::new();
    r.extend_from_slice(&bytes.as_slice()[from..bytes.len()]);
    assert(r@ =~= bytes@.skip(from as int));
    r
}

/// What reading the header of a unit gives: its parts, or what is wrong.
pub struct HeaderRead {
    pub fault: Option<Fault>,
    pub header: Option<HeaderModel>,
}

/// A header that could not be read.
pub open spec fn unread(message: Seq<char>) -> HeaderRead {
    HeaderRead { fault: Some(Fault::Decode(message)), header: None }
}

/// The parts of a slice header whose payload is known.
pub open spec fn header_parts(sets: Sets, first: u8, payload: Seq<u8>) -> HeaderRead {
    if !deltas_fit(sets.log, first, payload) {
        unread("invalid slice header: quantiser delta is out of range"@)
    } else {
        match slice_fields_of(sets.log, first, payload) {
            Err(text) => unread("invalid slice header: "@ + text),
            Ok(fields) => header_with(sets, first, payload, fields),
        }
    }
}

/// The parts of a slice header whose numbers are known.
pub open spec fn header_with(sets: Sets, first: u8, payload: Seq<u8>, fields: SliceFields) -> HeaderRead {
    match (
        list_commands_of(sets.log, first, payload),
        marking_of(sets.log, first, payload),
        header_end_of(sets.log, first, payload),
    ) {
        (Some(commands), Some(marking), Some(header_end)) => {
            let p = pps_place(sets.pps, fields.pps_id);
            let s = sps_place(sets.sps, sets.pps[p].pps.sps_id);
            if p >= sets.pps.len() || s >= sets.sps.len() {
                unread("slice refers to a missing parameter set"@)
            } else {
                HeaderRead {
                    fault: None,
                    header: Some(
                        HeaderModel {
                            first,
                            fields,
                            commands,
                            marking,
                            payload,
                            header_end,
                            sps: sets.sps[s],
                            pps: sets.pps[p],
                        },
                    ),
                }
            }
        },
        _ => unread("invalid slice header"@),
    }
}

/// The parts of the slice header in a unit.
pub open spec fn header_in(sets: Sets, nal: Seq<u8>) -> HeaderRead {
    if nal.len() == 0 {
        unread("empty NAL"@)
    } else if !legal_header(nal[0]) {
        unread("invalid NAL header: ForbiddenZeroBit"@)
    } else if unit_type(nal[0]) != 1 && unit_type(nal[0]) != 5 {
        unread("not a VCL slice NAL"@)
    } else {
        match payload_of(nal) {
            None => HeaderRead { fault: Some(Fault::Io(payload_refusal_of(nal))), header: None },
            Some(payload) => if payload.len() * 16 > usize::MAX {
                unread("slice is too long"@)
            } else if !runs_fit(payload) {
                unread("invalid slice header: run of zeros is too long"@)
            } else {
                header_parts(sets, nal[0], payload)
            },
        }
    }
}

/// A fault in decoding, if there is one.
pub open spec fn in_decoding(message: Option<Seq<char>>) -> Option<Fault> {
    match message {
        Some(m) => Some(Fault::Decode(m)),
        None => None,
    }
}

/// Why the slice in a unit cannot be decoded.
pub open spec fn parse_fault(sets: Sets, nal: Seq<u8>) -> Option<Fault> {
    let read = header_in(sets, nal);
    match read.header {
        Some(h) => in_decoding(h.fault()),
        None => read.fault,
    }
}

/// Where the header of a slice ends, in bits: as many before the next byte
/// boundary as are left to read up to it.
fn find_header_end(store: &SetStore, first: u8, payload: &[u8]) -> (r: Option<usize>)
    requires
        payload@.len() * 16 <= usize::MAX,
        runs_fit(payload@),
        deltas_fit(parameter_sets(*store), first, payload@),
    ensures
        match r {
            Some(end) => header_end_of(parameter_sets(*store), first, payload@) == Some(end as int)
                && end <= payload@.len() * 8,
            None => header_end_of(parameter_sets(*store), first, payload@) is None,
        },
{
    let Some(start) = behind_header(store, first, payload) else {
        return None;
    };
    let mut bits: PayloadBits = start;
    let ghost end = place_of(bits);
    let mut ones: usize = 0;
    let mut aligned: bool = is_aligned(&bits);
    while !aligned
        invariant
            source_of(bits) == payload@,
            0 <= end,
            place_of(bits) == end + ones,
            place_of(bits) <= payload@.len() * 8,
            aligned == (place_of(bits) % 8 == 0),
            payload@.len() * 16 <= usize::MAX,
        runs_fit(payload@),
        decreases payload@.len() * 8 - place_of(bits),
    {
        let _ = next_bit(&mut bits);
        ones = ones + 1;
        aligned = is_aligned(&bits);
    }
    let left: usize = bytes_left(bits);
    Some((payload.len() - left) * 8 - ones)
}

fn read_header_parts(sets: &ParameterSets, first: u8, payload: Vec<u8>) -> (r: Result<Header, Error>)
    requires
        payload@.len() * 16 <= usize::MAX,
        runs_fit(payload@),
    ensures
        ({
            let read = header_parts(sets@, first, payload@);
            match read.header {
                Some(h) => r matches Ok(header) && header@ == h && header.header_end + 8
                    <= usize::MAX && header.payload@.len() * 8 <= usize::MAX,
                None => r matches Err(e) && e@ == read.fault->0,
            }
        }),
{
    let bytes: &[u8] = payload.as_slice();
    if !can_be_read(&sets.store, first, bytes) {
        return Err(Error::decode("invalid slice header: quantiser delta is out of range"));
    }
    let fields: SliceFields = match read_slice_fields(&sets.store, first, bytes) {
        Ok(fields) => fields,
        Err(text) => {
            return Err(invalid("invalid slice header: ", text.as_str()));
        },
    };
    let (Some(commands), Some(marking), Some(header_end)) = (
        read_list_commands(&sets.store, first, bytes),
        read_marking(&sets.store, first, bytes),
        find_header_end(&sets.store, first, bytes),
    ) else {
        return Err(Error::decode("invalid slice header"));
    };
    let p: usize = find_pps(&sets.pps, fields.pps_id);
    if p >= sets.pps.len() {
        return Err(Error::decode("slice refers to a missing parameter set"));
    }
    let s: usize = find_sps(&sets.sps, sets.pps[p].pps.sps_id);
    if s >= sets.sps.len() {
        return Err(Error::decode("slice refers to a missing parameter set"));
    }
    Ok(
        Header {
            first,
            fields,
            commands,
            marking,
            header_end,
            sps: sets.sps[s],
            pps: sets.pps[p],
            payload,
        },
    )
}

/// Parses the slice in a unit and finds where its coded data begins: behind the
/// header and the ones that pad it to a byte boundary.
pub fn parse_cabac(sets: &ParameterSets, nal: &[u8]) -> (r: Result<CabacSlice, Error>)
    ensures
        match parse_fault(sets@, nal@) {
            Some(fault) => r matches Err(e) && e@ == fault,
            None => r matches Ok(slice) && slice_is(slice, header_in(sets@, nal@).header->0),
        },
{
    let first: u8 = match nal_header(nal) {
        Ok(first) => first,
        Err(e) => {
            return Err(e);
        },
    };
    if first & 0x1f != 1 && first & 0x1f != 5 {
        return Err(Error::decode("not a VCL slice NAL"));
    }
    let payload: Vec<u8> = match read_payload(nal) {
        Ok(payload) => payload,
        Err(text) => {
            return Err(Error::Io(text));
        },
    };
    if payload.len() > usize::MAX / 16 {
        return Err(Error::decode("slice is too long"));
    }
    if !check_runs(payload.as_slice()) {
        return Err(Error::decode("invalid slice header: run of zeros is too long"));
    }
    match read_header_parts(sets, first, payload) {
        Ok(header) => slice_from_header(&header),
        Err(e) => Err(e),
    }
}

// ---- Laws -------------------------------------------------------------------

/// The quantiser of an accepted slice is 26, moved by what the picture parameter
/// set and the slice say, and the models start from a table that exists.
pub proof fn law_slice_quantiser_adds_up(slice: CabacSlice, h: HeaderModel)
    requires
        slice_is(slice, h),
        h.fault() is None,
    ensures
        slice.info.slice_qp - 26 == h.pps.pps.init_qp_minus26 + h.fields.qp_delta,
        0 <= slice.info.slice_qp <= 51,
        h.fields.cabac_init_idc matches Some(v) ==> slice.info.cabac_init_idc == v,
        h.fields.cabac_init_idc is None ==> slice.info.cabac_init_idc == 0,
        slice.info.cabac_init_idc <= 2,
{
}

/// Of two accepted slices whose headers differ in the initial quantiser of their
/// picture parameter sets, the quantisers differ by as much.
pub proof fn law_initial_quantiser_moves_the_slice(
    one: CabacSlice,
    g: HeaderModel,
    two: CabacSlice,
    h: HeaderModel,
)
    requires
        slice_is(one, g),
        g.fault() is None,
        slice_is(two, h),
        h.fault() is None,
        g.fields.qp_delta == h.fields.qp_delta,
    ensures
        one.info.slice_qp - two.info.slice_qp == g.pps.pps.init_qp_minus26
            - h.pps.pps.init_qp_minus26,
{
}

/// What a slice takes from its header and its parameter sets: places and numbers
/// as they are, counts one up from what is written, offsets of the filter and of
/// the crop doubled, and of what a slice may overrule the slice's own.
pub proof fn law_slices_follow_their_headers(slice: CabacSlice, h: HeaderModel)
    requires
        slice_is(slice, h),
        h.fault() is None,
    ensures
        slice.info.first_mb == h.fields.first_mb,
        slice.info.frame_num == h.fields.frame_num,
        slice.info.kind is P <==> h.fields.family == 0,
        slice.info.kind is I <==> h.fields.family == 2,
        slice.info.idr <==> h.first % 32 == 5,
        slice.info.nal_ref_idc == h.first / 32 % 4,
        slice.info.picture.width_mbs - 1 == h.sps.sps.width_mbs_minus1,
        slice.info.picture.height_mbs - 1 == h.sps.sps.height_units_minus1,
        slice.info.picture.max_refs == h.sps.sps.max_refs,
        slice.info.picture.max_frame_num == vstd::arithmetic::power2::pow2(
            h.sps.sps.log2_max_frame_num as nat,
        ),
        h.sps.sps.crop matches Some(c) ==> slice.info.picture.crop.left == c@[0] + c@[0]
            && slice.info.picture.crop.right == c@[1] + c@[1] && slice.info.picture.crop.top
            == c@[2] + c@[2] && slice.info.picture.crop.bottom == c@[3] + c@[3],
        h.sps.sps.crop is None ==> slice.info.picture.crop == (Cropping {
            left: 0,
            right: 0,
            top: 0,
            bottom: 0,
        }),
        slice.info.constrained_intra == h.pps.pps.constrained_intra,
        slice.info.chroma_qp_offset@[0] == h.pps.pps.chroma_qp_offset,
        h.pps.pps.extension matches Some((large, second)) ==> slice.info.transform_8x8_enabled
            == large && slice.info.chroma_qp_offset@[1] == second,
        h.pps.pps.extension is None ==> !slice.info.transform_8x8_enabled
            && slice.info.chroma_qp_offset@[1] == slice.info.chroma_qp_offset@[0],
        slice.info.deblocking.disable_idc == h.fields.disable_deblocking_idc,
        h.fields.alpha_offset_div2 matches Some(v) ==> slice.info.deblocking.alpha_offset == v + v,
        h.fields.alpha_offset_div2 is None ==> slice.info.deblocking.alpha_offset == 0,
        h.fields.beta_offset_div2 matches Some(v) ==> slice.info.deblocking.beta_offset == v + v,
        h.fields.beta_offset_div2 is None ==> slice.info.deblocking.beta_offset == 0,
        h.fields.num_ref_idx_l0_minus1 matches Some(v) ==> slice.info.num_ref_idx_l0 - 1 == v,
        h.fields.num_ref_idx_l0_minus1 is None ==> slice.info.num_ref_idx_l0 - 1
            == h.pps.pps.num_ref_idx_l0_minus1,
{
    let first = h.first;
    assert(first & 0x1f == first % 32) by (bit_vector);
    assert((first & 0x60) >> 5 == first / 32 % 4) by (bit_vector);
    lemma_powers_of_two(h.sps.sps.log2_max_frame_num as int);
}

proof fn lemma_powers_of_two(n: int)
    requires
        0 <= n,
    ensures
        power_of_two(n) == vstd::arithmetic::power2::pow2(n as nat),
    decreases n,
{
    if n == 0 {
        vstd::arithmetic::power2::lemma2_to64();
    } else {
        lemma_powers_of_two(n - 1);
        vstd::arithmetic::power2::lemma_pow2_unfold(n as nat);
    }
}

/// The coded data of a slice begins at the first byte boundary at or behind the
/// end of its header, goes on to the end of the payload, and there is nothing but
/// ones between the header and it.
pub proof fn law_coded_data_follows_the_header(slice: CabacSlice, h: HeaderModel, p: int)
    requires
        slice_is(slice, h),
        h.fault() is None,
        0 <= h.header_end,
    ensures
        slice.bit_offset == 0,
        ({
            let from = h.payload.len() - slice.data@.len();
            &&& 0 <= from <= h.payload.len()
            &&& 8 * from - 8 < h.header_end <= 8 * from
            &&& slice.data@ == h.payload.subrange(from, h.payload.len() as int)
            &&& h.header_end <= p < 8 * from ==> bit(h.payload, p)
        }),
{
    let at = (h.header_end + padding(h.header_end)) / 8;
    assert(h.payload.skip(at) =~= h.payload.subrange(at, h.payload.len() as int));
}

/// The lists are found by number: of the sets in force, that of a number is the
/// last that came with it, and taking in a set leaves those of other numbers as
/// they are.
pub proof fn law_latest_set_of_a_number_counts(sets: Seq<StoredPps>, set: StoredPps, id: u8)
    ensures
        ({
            let after = with_pps(sets, set);
            let (was, now) = (pps_place(sets, id), pps_place(after, id));
            &&& id == set.pps.id ==> now < after.len() && after[now] == set
            &&& id != set.pps.id ==> (was < sets.len() <==> now < after.len())
            &&& id != set.pps.id && was < sets.len() ==> after[now] == sets[was]
        }),
{
    let after = with_pps(sets, set);
    lemma_pps_found(sets, set.pps.id);
    lemma_pps_found(sets, id);
    lemma_pps_found(after, id);
    let at = pps_place(sets, set.pps.id);
    let (was, now) = (pps_place(sets, id), pps_place(after, id));
    if id == set.pps.id {
        assert(after[at] == set);
        if now > at {
            assert(after[at].pps.id != id);
        }
        if now < at {
            assert(after[now] == sets[now]);
        }
    } else {
        if now < after.len() {
            assert(after[now].pps.id == id);
            assert(now < sets.len() && after[now] == sets[now]);
            if was > now {
                assert(sets[now].pps.id != id);
            }
        }
        if was < sets.len() {
            assert(after[was] == sets[was]);
            if now > was {
                assert(after[was].pps.id != id);
            }
        }
    }
}

/// The same of sequence parameter sets.
pub proof fn law_latest_sequence_set_of_a_number_counts(
    sets: Seq<StoredSps>,
    set: StoredSps,
    id: u8,
)
    ensures
        ({
            let after = with_sps(sets, set);
            let (was, now) = (sps_place(sets, id), sps_place(after, id));
            &&& id == set.sps.id ==> now < after.len() && after[now] == set
            &&& id != set.sps.id ==> (was < sets.len() <==> now < after.len())
            &&& id != set.sps.id && was < sets.len() ==> after[now] == sets[was]
        }),
{
    let after = with_sps(sets, set);
    lemma_sps_found(sets, set.sps.id);
    lemma_sps_found(sets, id);
    lemma_sps_found(after, id);
    let at = sps_place(sets, set.sps.id);
    let (was, now) = (sps_place(sets, id), sps_place(after, id));
    if id == set.sps.id {
        assert(after[at] == set);
        if now > at {
            assert(after[at].sps.id != id);
        }
        if now < at {
            assert(after[now] == sets[now]);
        }
    } else {
        if now < after.len() {
            assert(after[now].sps.id == id);
            assert(now < sets.len() && after[now] == sets[now]);
            if was > now {
                assert(sets[now].sps.id != id);
            }
        }
        if was < sets.len() {
            assert(after[was] == sets[was]);
            if now > was {
                assert(after[was].sps.id != id);
            }
        }
    }
}

proof fn lemma_pps_found(sets: Seq<StoredPps>, id: u8)
    ensures
        0 <= pps_place(sets, id) <= sets.len(),
        pps_place(sets, id) < sets.len() ==> sets[pps_place(sets, id)].pps.id == id,
        forall|i: int| 0 <= i < pps_place(sets, id) ==> (#[trigger] sets[i]).pps.id != id,
    decreases sets.len(),
{
    if sets.len() > 0 && sets[0].pps.id != id {
        let rest = sets.drop_first();
        lemma_pps_found(rest, id);
        assert forall|i: int| 0 <= i < pps_place(sets, id) implies (#[trigger] sets[i]).pps.id
            != id by {
            if i > 0 {
                assert(sets[i] == rest[i - 1]);
            }
        }
    }
}

proof fn lemma_sps_found(sets: Seq<StoredSps>, id: u8)
    ensures
        0 <= sps_place(sets, id) <= sets.len(),
        sps_place(sets, id) < sets.len() ==> sets[sps_place(sets, id)].sps.id == id,
        forall|i: int| 0 <= i < sps_place(sets, id) ==> (#[trigger] sets[i]).sps.id != id,
    decreases sets.len(),
{
    if sets.len() > 0 && sets[0].sps.id != id {
        let rest = sets.drop_first();
        lemma_sps_found(rest, id);
        assert forall|i: int| 0 <= i < sps_place(sets, id) implies (#[trigger] sets[i]).sps.id
            != id by {
            if i > 0 {
                assert(sets[i] == rest[i - 1]);
            }
        }
    }
}

/// A header that was read belongs to the picture parameter set that it names and
/// to the sequence parameter set that this one names.
pub proof fn law_headers_use_the_sets_they_name(
    sets: Sets,
    first: u8,
    payload: Seq<u8>,
    fields: SliceFields,
)
    ensures
        header_with(sets, first, payload, fields).header matches Some(h) ==> {
            &&& h.fields == fields
            &&& h.first == first
            &&& h.payload == payload
            &&& h.pps.pps.id == fields.pps_id
            &&& h.sps.sps.id == h.pps.pps.sps_id
            &&& sets.pps.contains(h.pps)
            &&& sets.sps.contains(h.sps)
        },
{
    lemma_pps_found(sets.pps, fields.pps_id);
    let p = pps_place(sets.pps, fields.pps_id);
    if p < sets.pps.len() {
        lemma_sps_found(sets.sps, sets.pps[p].pps.sps_id);
    }
}

} // verus!
