//! Two decoders over one stream, compared sample by sample.
//!
//! A video decoder produces the exact bytes that the encoder meant or it is
//! broken, so there is no tolerance. What helps is where the first difference
//! is: wrong output spreads through prediction, and only the first sample that
//! differs points at the defect.
use vstd::prelude::*;
use super::annexb::access_units;
use super::reference::{packet, ReferenceDecoder};
use crate::error::Error;
use crate::media::{Decoder, Frame, FrameModel, Packet};
use crate::text::put_number;

verus! {

/// Where two decoders first disagreed.
#[derive(Debug, Clone, Copy, PartialEq, Eq, Structural)]
pub struct Divergence {
    pub frame: usize,
    /// 0 is Y, 1 is U, 2 is V.
    pub plane: usize,
    pub x: usize,
    pub y: usize,
    pub reference: u8,
    pub subject: u8,
    /// How many samples differ in this plane. One bad sample points at
    /// arithmetic, a whole macroblock at prediction or entropy decoding.
    pub differing_samples: usize,
    pub max_abs_diff: u8,
}

/// The outcome of running two decoders over one stream.
#[derive(Debug)]
pub struct Report {
    /// Pictures that the reference produced.
    pub reference_frames: usize,
    /// Pictures that the decoder under test produced.
    pub subject_frames: usize,
    /// The first sample where the two disagree, if they do.
    pub divergence: Option<Divergence>,
    /// The decoder under test failed outright, and on which access unit.
    pub error: Option<(usize, Error)>,
}

/// How far apart two samples are.
pub open spec fn apart(a: u8, b: u8) -> nat {
    if a < b {
        (b - a) as nat
    } else {
        (a - b) as nat
    }
}

/// How many of the first samples differ.
pub open spec fn differing(a: Seq<u8>, b: Seq<u8>, n: int) -> nat
    decreases n,
{
    if n <= 0 {
        0
    } else {
        differing(a, b, n - 1) + if a[n - 1] != b[n - 1] {
            1nat
        } else {
            0
        }
    }
}

/// How far apart the first samples are at most.
pub open spec fn farthest(a: Seq<u8>, b: Seq<u8>, n: int) -> nat
    decreases n,
{
    if n <= 0 {
        0
    } else {
        let before = farthest(a, b, n - 1);
        let here = apart(a[n - 1], b[n - 1]);
        if here > before {
            here
        } else {
            before
        }
    }
}

/// Whether two pictures differ in a plane that both lay out alike.
pub open spec fn plane_differs(r: FrameModel, s: FrameModel, plane: int) -> bool {
    &&& r.strides[plane] == s.strides[plane]
    &&& r.planes[plane].len() == s.planes[plane].len()
    &&& r.planes[plane] != s.planes[plane]
}

/// Whether two pictures have the same size.
pub open spec fn same_size(r: FrameModel, s: FrameModel) -> bool {
    r.width == s.width && r.height == s.height
}

/// Whether two pictures agree.
pub open spec fn agrees(r: FrameModel, s: FrameModel) -> bool {
    same_size(r, s) && !plane_differs(r, s, 0) && !plane_differs(r, s, 1) && !plane_differs(r, s, 2)
}

/// Whether this is what is reported of a plane that differs: its first sample
/// that does, and how much does.
pub open spec fn located(d: Divergence, a: Seq<u8>, b: Seq<u8>, stride: nat) -> bool {
    let at = d.y * stride + d.x;
    &&& d.x < stride
    &&& at < a.len()
    &&& a[at] != b[at]
    &&& forall|i: int| 0 <= i < at ==> #[trigger] a[i] == b[i]
    &&& d.reference == a[at]
    &&& d.subject == b[at]
    &&& d.differing_samples == differing(a, b, a.len() as int)
    &&& d.max_abs_diff == farthest(a, b, a.len() as int)
}

/// Whether this is what is reported of two pictures: nothing where they agree,
/// the origin where their sizes differ, and otherwise the first plane that
/// differs.
pub open spec fn divergence_of(
    r: FrameModel,
    s: FrameModel,
    index: usize,
    found: Option<Divergence>,
) -> bool {
    match found {
        None => agrees(r, s),
        Some(d) => {
            &&& d.frame == index
            &&& if !same_size(r, s) {
                d == (Divergence {
                    frame: index,
                    plane: 0,
                    x: 0,
                    y: 0,
                    reference: 0,
                    subject: 0,
                    differing_samples: 0,
                    max_abs_diff: 0,
                })
            } else {
                &&& d.plane < 3
                &&& plane_differs(r, s, d.plane as int)
                &&& forall|p: int| 0 <= p < d.plane ==> !#[trigger] plane_differs(r, s, p)
                &&& located(
                    d,
                    r.planes[d.plane as int],
                    s.planes[d.plane as int],
                    r.strides[d.plane as int] as nat,
                )
            }
        },
    }
}

/// Whether this is what is reported of two lists of pictures: of the first
/// pair that disagrees.
pub open spec fn first_divergence(
    r: Seq<FrameModel>,
    s: Seq<FrameModel>,
    found: Option<Divergence>,
) -> bool {
    let n = if r.len() < s.len() {
        r.len()
    } else {
        s.len()
    };
    match found {
        None => forall|i: int| 0 <= i < n ==> agrees(#[trigger] r[i], s[i]),
        Some(d) => {
            &&& d.frame < n
            &&& forall|i: int| 0 <= i < d.frame ==> agrees(#[trigger] r[i], s[i])
            &&& divergence_of(r[d.frame as int], s[d.frame as int], d.frame, found)
        },
    }
}

/// The name of a plane.
pub open spec fn plane_name(plane: usize) -> Seq<char> {
    if plane == 0 {
        "Y"@
    } else if plane == 1 {
        "U"@
    } else {
        "V"@
    }
}

impl Divergence {
    /// The divergence in words. The position is told in macroblocks too, since
    /// the macroblock is what the defect will be in.
    pub open spec fn described(self) -> Seq<char> {
        let side = if self.plane == 0 {
            16nat
        } else {
            8nat
        };
        "frame "@ + crate::text::decimal(self.frame as nat) + " plane "@ + plane_name(self.plane)
            + " diverges at ("@ + crate::text::decimal(self.x as nat) + ", "@
            + crate::text::decimal(self.y as nat) + ") in macroblock ("@ + crate::text::decimal(
            self.x as nat / side,
        ) + ", "@ + crate::text::decimal(self.y as nat / side) + "): reference "@
            + crate::text::decimal(self.reference as nat) + ", subject "@ + crate::text::decimal(
            self.subject as nat,
        ) + "; "@ + crate::text::decimal(self.differing_samples as nat)
            + " samples differ in this plane, max delta "@ + crate::text::decimal(
            self.max_abs_diff as nat,
        )
    }

    /// The divergence in words.
    pub fn message(&self) -> (m: String)
        requires
            self.plane < 3,
        ensures
            m@ == self.described(),
    {
        let side: usize = if self.plane == 0 {
            16
        } else {
            8
        };
        let mut m = "frame ".to_owned();
        put_number(&mut m, self.frame as u128);
        m.append(" plane ");
        m.append(
            if self.plane == 0 {
                "Y"
            } else if self.plane == 1 {
                "U"
            } else {
                "V"
            },
        );
        m.append(" diverges at (");
        put_number(&mut m, self.x as u128);
        m.append(", ");
        put_number(&mut m, self.y as u128);
        m.append(") in macroblock (");
        put_number(&mut m, (self.x / side) as u128);
        m.append(", ");
        put_number(&mut m, (self.y / side) as u128);
        m.append("): reference ");
        put_number(&mut m, self.reference as u128);
        m.append(", subject ");
        put_number(&mut m, self.subject as u128);
        m.append("; ");
        put_number(&mut m, self.differing_samples as u128);
        m.append(" samples differ in this plane, max delta ");
        put_number(&mut m, self.max_abs_diff as u128);
        m
    }
}

impl Report {
    /// Whether the decoder under test matched the reference exactly.
    pub open spec fn exact(self) -> bool {
        &&& self.error is None
        &&& self.divergence is None
        &&& self.reference_frames == self.subject_frames
        &&& self.reference_frames > 0
    }

    /// Whether this compares what two decoders returned over a stream, the
    /// second of which may have failed.
    pub open spec fn compares<D: Decoder>(self, reference: Run<ReferenceDecoder>, subject: Run<D>, units: nat) -> bool {
        &&& self.reference_frames == reference.frames().len()
        &&& self.subject_frames == subject.frames().len()
        &&& self.error == subject.failure_at(units)
        &&& first_divergence(
            crate::media::frame_models(reference.frames()),
            crate::media::frame_models(subject.frames()),
            self.divergence,
        )
    }

    /// The report in words.
    pub open spec fn described(self) -> Seq<char> {
        match (self.error, self.divergence) {
            (Some((unit, e)), _) => "decode failed on access unit "@ + crate::text::decimal(
                unit as nat,
            ) + ": "@ + e.text(),
            (None, divergence) => if self.reference_frames != self.subject_frames {
                "frame count mismatch: reference produced "@ + crate::text::decimal(
                    self.reference_frames as nat,
                ) + ", subject produced "@ + crate::text::decimal(self.subject_frames as nat)
            } else {
                match divergence {
                    Some(d) => d.described(),
                    None => if self.reference_frames == 0 {
                        "neither decoder produced a frame"@
                    } else {
                        crate::text::decimal(self.reference_frames as nat)
                            + " frames match exactly"@
                    },
                }
            },
        }
    }

    /// Whether the decoder under test matched the reference exactly.
    pub fn matches(&self) -> (r: bool)
        ensures
            r == self.exact(),
    {
        self.error.is_none() && self.divergence.is_none() && self.reference_frames
            == self.subject_frames && self.reference_frames > 0
    }

    /// The report in words.
    pub fn message(&self) -> (m: String)
        requires
            self.divergence matches Some(d) ==> d.plane < 3,
        ensures
            m@ == self.described(),
    {
        let mut m = String::new();
        if let Some((unit, e)) = &self.error {
            m.append("decode failed on access unit ");
            put_number(&mut m, *unit as u128);
            m.append(": ");
            m.append(e.message().as_str());
            assert(m@ =~= self.described());
            return m;
        }
        if self.reference_frames != self.subject_frames {
            m.append("frame count mismatch: reference produced ");
            put_number(&mut m, self.reference_frames as u128);
            m.append(", subject produced ");
            put_number(&mut m, self.subject_frames as u128);
            assert(m@ =~= self.described());
            return m;
        }
        match &self.divergence {
            Some(d) => d.message(),
            None => {
                if self.reference_frames == 0 {
                    m.append("neither decoder produced a frame");
                } else {
                    put_number(&mut m, self.reference_frames as u128);
                    m.append(" frames match exactly");
                }
                assert(m@ =~= self.described());
                m
            },
        }
    }
}

/// What differs between two planes of the same length, if anything does.
fn diff_plane(a: &[u8], b: &[u8], stride: usize, index: usize, plane: usize) -> (r: Option<
    Divergence,
>)
    requires
        a@.len() == b@.len(),
        a@.len() > 0 ==> stride > 0,
    ensures
        match r {
            None => a@ == b@,
            Some(d) => d.frame == index && d.plane == plane && a@ != b@ && located(
                d,
                a@,
                b@,
                stride as nat,
            ),
        },
{
    let n: usize = a.len();
    let mut count: usize = 0;
    let mut most: u8 = 0;
    let mut first: usize = n;
    for i in 0..n
        invariant
            n == a@.len() == b@.len(),
            count == differing(a@, b@, i as int),
            count <= i,
            most == farthest(a@, b@, i as int),
            first == n || first < i,
            first < n ==> a@[first as int] != b@[first as int],
            first < n ==> count > 0,
            forall|j: int| 0 <= j < i && j < first ==> #[trigger] a@[j] == b@[j],
            first == n ==> count == 0,
    {
        let (x, y): (u8, u8) = (a[i], b[i]);
        if x != y {
            count = count + 1;
            if first == n {
                first = i;
            }
        }
        let delta: u8 = if x < y {
            y - x
        } else {
            x - y
        };
        if delta > most {
            most = delta;
        }
    }
    if count == 0 {
        assert(a@ =~= b@);
        return None;
    }
    proof {
        vstd::arithmetic::div_mod::lemma_fundamental_div_mod(first as int, stride as int);
        assert(stride * (first / stride) == (first / stride) * stride) by (nonlinear_arith);
    }
    Some(
        Divergence {
            frame: index,
            plane,
            x: first % stride,
            y: first / stride,
            reference: a[first],
            subject: b[first],
            differing_samples: count,
            max_abs_diff: most,
        },
    )
}

/// Whether the planes of a picture that hold anything have rows.
pub open spec fn has_rows(f: FrameModel) -> bool {
    forall|p: int| 0 <= p < 3 ==> (#[trigger] f.planes[p]).len() > 0 ==> f.strides[p] > 0
}

/// The first sample that differs between two pictures, scanning Y, then U,
/// then V.
pub fn diff_frame(reference: &Frame, subject: &Frame, index: usize) -> (r: Option<Divergence>)
    requires
        has_rows(reference@),
    ensures
        divergence_of(reference@, subject@, index, r),
{
    if reference.width != subject.width || reference.height != subject.height {
        return Some(
            Divergence {
                frame: index,
                plane: 0,
                x: 0,
                y: 0,
                reference: 0,
                subject: 0,
                differing_samples: 0,
                max_abs_diff: 0,
            },
        );
    }
    for plane in 0..3usize
        invariant
            has_rows(reference@),
            same_size(reference@, subject@),
            forall|p: int| 0 <= p < plane ==> !#[trigger] plane_differs(reference@, subject@, p),
    {
        let a = reference.planes[plane].as_slice();
        let b = subject.planes[plane].as_slice();
        let stride: usize = reference.strides[plane];
        assert(reference@.planes[plane as int] == a@);
        assert(subject@.planes[plane as int] == b@);
        if stride == subject.strides[plane] && a.len() == b.len() {
            let found = diff_plane(a, b, stride, index, plane);
            if found.is_some() {
                return found;
            }
        }
    }
    None
}

/// Compares what two decoders produced.
pub fn report_of(
    reference_out: &Vec<Frame>,
    subject_out: &Vec<Frame>,
    error: Option<(usize, Error)>,
) -> (r: Report)
    requires
        forall|i: int| 0 <= i < reference_out@.len() ==> has_rows((#[trigger] reference_out@[i])@),
    ensures
        r.reference_frames == reference_out@.len(),
        r.subject_frames == subject_out@.len(),
        r.error == error,
        first_divergence(
            crate::media::frame_models(reference_out@),
            crate::media::frame_models(subject_out@),
            r.divergence,
        ),
{
    let ghost rs = crate::media::frame_models(reference_out@);
    let ghost ss = crate::media::frame_models(subject_out@);
    let n: usize = if reference_out.len() < subject_out.len() {
        reference_out.len()
    } else {
        subject_out.len()
    };
    let mut divergence: Option<Divergence> = None;
    let mut i: usize = 0;
    while i < n && divergence.is_none()
        invariant
            forall|i: int|
                0 <= i < reference_out@.len() ==> has_rows((#[trigger] reference_out@[i])@),
            rs == crate::media::frame_models(reference_out@),
            ss == crate::media::frame_models(subject_out@),
            n == (if rs.len() < ss.len() {
                rs.len()
            } else {
                ss.len()
            }),
            i <= n,
            match divergence {
                None => forall|j: int| 0 <= j < i ==> agrees(#[trigger] rs[j], ss[j]),
                Some(d) => first_divergence(rs, ss, divergence),
            },
        decreases n - i,
    {
        divergence = diff_frame(&reference_out[i], &subject_out[i], i);
        i = i + 1;
    }
    Report {
        reference_frames: reference_out.len(),
        subject_frames: subject_out.len(),
        divergence,
        error,
    }
}

/// One decoder over a stream: the states it was in and what it returned.
pub struct Run<D> {
    pub states: Seq<D>,
    pub results: Seq<Result<Vec<Frame>, Error>>,
}

/// The pictures returned before anything failed, one behind the other.
pub open spec fn all_frames(results: Seq<Result<Vec<Frame>, Error>>) -> Seq<Frame>
    decreases results.len(),
{
    if results.len() == 0 {
        Seq::empty()
    } else {
        all_frames(results.drop_last()) + (match results.last() {
            Ok(frames) => frames@,
            Err(_) => Seq::empty(),
        })
    }
}

impl<D: Decoder> Run<D> {
    /// Step `i`: the packet of that number is decoded, and what is held back is
    /// asked for behind the last.
    pub open spec fn stepped(self, packets: Seq<Packet>, i: int) -> bool {
        if i < packets.len() {
            self.states[i].decodes(&packets[i], &self.states[i + 1], self.results[i])
        } else {
            self.states[i].flushes(&self.states[i + 1], self.results[i])
        }
    }

    /// A decoder that was given the first packets in order, each once, and after
    /// the last of all asked for what it held back, as far as `steps` goes. The
    /// first failure ends it.
    pub open spec fn over(self, from: D, to: D, packets: Seq<Packet>, steps: int) -> bool {
        let n = self.results.len();
        &&& self.states.len() == n + 1
        &&& self.states[0] == from
        &&& self.states[n as int] == to
        &&& n <= steps
        &&& forall|i: int| 0 <= i < n ==> #[trigger] self.stepped(packets, i)
        &&& forall|i: int| 0 <= i < n - 1 ==> (#[trigger] self.results[i]) is Ok
        &&& n < steps ==> n > 0 && self.results[n - 1] is Err
    }

    /// The pictures it returned.
    pub open spec fn frames(self) -> Seq<Frame> {
        all_frames(self.results)
    }

    /// Why it failed, if it did.
    pub open spec fn failure(self) -> Option<Error> {
        if self.results.len() > 0 {
            match self.results.last() {
                Ok(_) => None,
                Err(e) => Some(e),
            }
        } else {
            None
        }
    }

    /// Why it failed and on which of some access units, if it did. The largest
    /// number stands for what comes behind them.
    pub open spec fn failure_at(self, units: nat) -> Option<(usize, Error)> {
        match self.failure() {
            None => None,
            Some(e) => Some(
                (
                    if self.results.len() <= units {
                        (self.results.len() - 1) as usize
                    } else {
                        usize::MAX
                    },
                    e,
                ),
            ),
        }
    }
}

/// Whether packets wrap the first access units one by one.
pub open spec fn wrapped(packets: Seq<Packet>, units: Seq<Seq<u8>>) -> bool {
    &&& packets.len() <= units.len()
    &&& forall|i: int|
        0 <= i < packets.len() ==> super::reference::wraps(#[trigger] packets[i], units[i], i)
}

/// What comparing two decoders over a stream answers, given what each of them was
/// put through. The reference goes on to its end, or to its first failure, which
/// ends the comparison; the decoder under test is not given the access unit that
/// the reference failed on.
pub open spec fn compared<D: Decoder>(
    units: Seq<Seq<u8>>,
    packets: Seq<Packet>,
    reference: Run<ReferenceDecoder>,
    subject: Run<D>,
    ends: (ReferenceDecoder, ReferenceDecoder, D, D),
    r: Result<Report, Error>,
) -> bool {
    let n = units.len() as int;
    &&& wrapped(packets, units)
    &&& packets.len() < n ==> reference.failure() is Some && reference.results.len()
        == packets.len()
    &&& reference.over(ends.0, ends.1, packets, n + 1)
    &&& subject.over(
        ends.2,
        ends.3,
        packets,
        if reference.failure() is Some {
            reference.results.len() - 1
        } else {
            n + 1
        },
    )
    &&& match reference.failure() {
        Some(e) => r matches Err(f) && f == e,
        None => r matches Ok(report) && report.compares(reference, subject, units.len()),
    }
}

/// A picture without row padding has rows where it has anything.
proof fn lemma_tight_has_rows(d: super::oracle::DecodedModel)
    requires
        super::reference::complete(d),
    ensures
        has_rows(super::reference::tight(d)),
{
    let f = super::reference::tight(d);
    let (w, h) = (d.width as nat, d.height as nat);
    assert forall|p: int| 0 <= p < 3 && (#[trigger] f.planes[p]).len() > 0 implies f.strides[p]
        > 0 by {
        if w == 0 {
            assert(w * h == 0) by (nonlinear_arith)
                requires
                    w == 0,
            ;
            let (cw, ch) = (super::reference::half(w), super::reference::half(h));
            assert(cw * ch == 0) by (nonlinear_arith)
                requires
                    cw == 0,
            ;
        }
    }
}

/// The decoder under test so far: what it produced, until it failed.
pub struct Trial {
    pub out: Vec<Frame>,
    pub error: Option<(usize, Error)>,
}

impl Trial {
    /// Takes what the decoder under test returned for one step. Behind an
    /// error nothing more is taken.
    pub fn take(&mut self, step: usize, result: Result<Vec<Frame>, Error>)
        ensures
            match (old(self).error, result) {
                (Some(_), _) => *final(self) == *old(self),
                (None, Ok(frames)) => final(self).error is None && final(self).out@ == old(
                    self,
                ).out@ + frames@,
                (None, Err(e)) => final(self).out == old(self).out && final(self).error == Some(
                    (step, e),
                ),
            },
    {
        if self.error.is_some() {
            return;
        }
        match result {
            Ok(frames) => {
                let mut frames = frames;
                self.out.append(&mut frames);
            },
            Err(e) => {
                self.error = Some((step, e));
            },
        }
    }
}

/// What is answered where openh264 provides no decoder.
pub open spec fn unopened(r: Result<Report, Error>) -> bool {
    &&& r matches Err(e)
    &&& exists|text: Seq<char>| e.is_decode(#[trigger] super::reference::said(text))
}

/// Pictures that the reference returns have rows.
proof fn lemma_reference_has_rows(
    before: ReferenceDecoder,
    pkt: Packet,
    after: ReferenceDecoder,
    r: Result<Vec<Frame>, Error>,
)
    requires
        before.decodes(&pkt, &after, r) || before.flushes(&after, r),
    ensures
        r matches Ok(frames) ==> forall|i: int|
            0 <= i < frames@.len() ==> has_rows((#[trigger] frames@[i])@),
{
    if let Ok(frames) = r {
        assert forall|i: int| 0 <= i < frames@.len() implies has_rows(
            (#[trigger] frames@[i])@,
        ) by {
            if before.decodes(&pkt, &after, r) {
                let answer = choose|answer: Result<Option<super::oracle::DecodedModel>, Seq<char>>|
                    super::oracle::history_of(after.oracle) == super::oracle::history_of(
                        before.oracle,
                    ).push(super::oracle::Step::Given(pkt.data@, answer))
                        && #[trigger] super::reference::answers(answer, pkt.pts, r);
                if let Ok(Some(d)) = answer {
                    lemma_tight_has_rows(d);
                }
            } else {
                let rest = choose|rest: Result<Seq<super::oracle::DecodedModel>, Seq<char>>|
                    super::oracle::history_of(after.oracle) == super::oracle::history_of(
                        before.oracle,
                    ).push(super::oracle::Step::Drained(rest))
                        && #[trigger] super::reference::gives_rest(rest, r);
                if let Ok(list) = rest {
                    let models = crate::media::frame_models(frames@);
                    assert(models == Seq::new(
                        list.len(),
                        |j: int| super::reference::tight(list[j]),
                    ));
                    assert(models.len() == list.len());
                    assert(models[i] == frames@[i]@);
                    assert(super::reference::complete(list[i]));
                    lemma_tight_has_rows(list[i]);
                }
            }
        }
    }
}

/// One step more of a run.
proof fn lemma_run_grows<D: Decoder>(
    run: Run<D>,
    from: D,
    to: D,
    packets: Seq<Packet>,
    more: Seq<Packet>,
    next: D,
    result: Result<Vec<Frame>, Error>,
)
    requires
        run.over(from, to, packets, run.results.len() as int),
        run.failure() is None,
        run.results.len() <= packets.len() <= more.len(),
        forall|i: int| 0 <= i < run.results.len() ==> packets[i] == more[i],
        run.results.len() < more.len() ==> to.decodes(
            &more[run.results.len() as int],
            &next,
            result,
        ),
        run.results.len() == more.len() ==> to.flushes(&next, result),
    ensures
        ({
            let grown = Run { states: run.states.push(next), results: run.results.push(result) };
            &&& grown.over(from, next, more, (run.results.len() + 1) as int)
            &&& grown.frames() == run.frames() + (match result {
                Ok(frames) => frames@,
                Err(_) => Seq::empty(),
            })
            &&& grown.failure() == (match result {
                Ok(_) => None,
                Err(e) => Some(e),
            })
        }),
{
    let grown = Run { states: run.states.push(next), results: run.results.push(result) };
    let n = run.results.len() as int;
    assert(grown.results.drop_last() =~= run.results);
    assert forall|i: int| 0 <= i < n + 1 implies #[trigger] grown.stepped(more, i) by {
        assert(grown.states[i] == run.states[i]);
        if i < n {
            assert(run.stepped(packets, i));
            assert(grown.states[i + 1] == run.states[i + 1]);
            assert(grown.results[i] == run.results[i]);
        }
    }
    assert forall|i: int| 0 <= i < n implies (#[trigger] grown.results[i]) is Ok by {
        assert(grown.results[i] == run.results[i]);
    }
}

/// A run that has failed is over, however many packets follow.
proof fn lemma_run_stays<D: Decoder>(
    run: Run<D>,
    from: D,
    to: D,
    packets: Seq<Packet>,
    more: Seq<Packet>,
    steps: int,
    to_come: int,
)
    requires
        run.over(from, to, packets, steps),
        run.results.len() <= packets.len() <= more.len(),
        forall|i: int| 0 <= i < run.results.len() ==> packets[i] == more[i],
        steps <= to_come,
        steps == to_come || run.failure() is Some,
    ensures
        run.over(from, to, more, to_come),
{
    assert forall|i: int| 0 <= i < run.results.len() implies #[trigger] run.stepped(more, i) by {
        assert(run.stepped(packets, i));
    }
}

/// Decodes a stream with openh264 and with the decoder under test, and
/// compares the results. Both are driven one access unit at a time, so one
/// that returns pictures on another schedule shows as a difference in count.
/// An error of the decoder under test ends its part, and the reference goes
/// on, so that the report can still say how many pictures there were to be.
pub fn compare<D: Decoder>(stream: &[u8], subject: &mut D) -> (r: Result<Report, Error>)
    requires
        old(subject).ready(),
        stream@.len() <= u64::MAX / 40,
    ensures
        final(subject).ready(),
        (exists|
            fresh: ReferenceDecoder,
            packets: Seq<Packet>,
            reference_run: Run<ReferenceDecoder>,
            subject_run: Run<D>,
            used: ReferenceDecoder,
        |
            super::oracle::history_of(fresh.oracle).len() == 0 && #[trigger] compared(
                super::annexb::pictures(stream@),
                packets,
                reference_run,
                subject_run,
                (fresh, used, *old(subject), *final(subject)),
                r,
            )) || (*final(subject) == *old(subject) && unopened(r)),
{
    let mut reference = match ReferenceDecoder::new() {
        Ok(reference) => reference,
        Err(e) => {
            return Err(e);
        },
    };
    compare_with(stream, &mut reference, subject)
}

/// Decodes a stream with a reference and with the decoder under test, and
/// compares the results.
pub fn compare_with<D: Decoder>(
    stream: &[u8],
    reference: &mut ReferenceDecoder,
    subject: &mut D,
) -> (r: Result<Report, Error>)
    requires
        old(subject).ready(),
        stream@.len() <= u64::MAX / 40,
    ensures
        final(subject).ready(),
        exists|
            packets: Seq<Packet>,
            reference_run: Run<ReferenceDecoder>,
            subject_run: Run<D>,
        | #[trigger]
            compared(
                super::annexb::pictures(stream@),
                packets,
                reference_run,
                subject_run,
                (*old(reference), *final(reference), *old(subject), *final(subject)),
                r,
            ),
{
    let units = access_units(stream);
    let ghost all = super::annexb::pictures(stream@);
    let n: usize = units.len();
    proof {
        super::annexb::lemma_pictures_fit(stream@);
    }
    let mut reference_out: Vec<Frame> = Vec::new();
    let mut trial = Trial { out: Vec::new(), error: None };
    let ghost mut packets: Seq<Packet> = Seq::empty();
    let ghost mut rr: Run<ReferenceDecoder> = Run {
        states: seq![*reference],
        results: Seq::empty(),
    };
    let ghost mut sr: Run<D> = Run { states: seq![*subject], results: Seq::empty() };
    for i in 0..n
        invariant
            n == units@.len(),
            n <= u64::MAX / 40,
            super::annexb::views(units@) == all,
            all == super::annexb::pictures(stream@),
            subject.ready(),
            packets.len() == i,
            forall|j: int|
                0 <= j < i ==> super::reference::wraps(#[trigger] packets[j], all[j], j),
            rr.results.len() == i,
            rr.over(*old(reference), *reference, packets, i as int),
            rr.failure() is None,
            rr.frames() == reference_out@,
            sr.over(*old(subject), *subject, packets, i as int),
            sr.frames() == trial.out@,
            trial.error == sr.failure_at(i as nat),
            trial.error is None ==> sr.results.len() == i,
            forall|j: int|
                0 <= j < reference_out@.len() ==> has_rows((#[trigger] reference_out@[j])@),
    {
        assert(all[i as int] == units@[i as int]@);
        let pkt: Packet = packet(units[i], i);
        let ghost known = packets;
        let ghost more = packets.push(pkt);
        let ghost was = *reference;
        let decoded = reference.decode(&pkt);
        proof {
            lemma_reference_has_rows(was, pkt, *reference, decoded);
            lemma_run_grows(rr, *old(reference), was, known, more, *reference, decoded);
            rr = Run { states: rr.states.push(*reference), results: rr.results.push(decoded) };
        }
        match decoded {
            Ok(frames) => {
                let mut frames = frames;
                let ghost old_out = reference_out@;
                let ghost new = frames@;
                reference_out.append(&mut frames);
                proof {
                    assert(reference_out@ == old_out + new);
                    assert forall|j: int| 0 <= j < reference_out@.len() implies has_rows(
                        (#[trigger] reference_out@[j])@,
                    ) by {
                        if j < old_out.len() {
                            assert(reference_out@[j] == old_out[j]);
                        } else {
                            assert(reference_out@[j] == new[j - old_out.len()]);
                        }
                    }
                }
            },
            Err(e) => {
                proof {
                    lemma_run_stays(rr, *old(reference), *reference, more, more, i + 1, n + 1);
                    lemma_run_stays(sr, *old(subject), *subject, known, more, i as int, i as int);
                    assert(compared(
                        all,
                        more,
                        rr,
                        sr,
                        (*old(reference), *reference, *old(subject), *subject),
                        Err::<Report, Error>(e),
                    ));
                }
                return Err(e);
            },
        }
        if trial.error.is_none() {
            let ghost held = *subject;
            let result = subject.decode(&pkt);
            proof {
                lemma_run_grows(sr, *old(subject), held, known, more, *subject, result);
                sr = Run { states: sr.states.push(*subject), results: sr.results.push(result) };
            }
            trial.take(i, result);
        } else {
            proof {
                lemma_run_stays(sr, *old(subject), *subject, known, more, i as int, i + 1);
            }
        }
        proof {
            packets = more;
        }
    }
    let ghost was = *reference;
    let flushed = reference.flush();
    proof {
        lemma_reference_has_rows(was, arbitrary(), *reference, flushed);
        lemma_run_grows(rr, *old(reference), was, packets, packets, *reference, flushed);
        rr = Run { states: rr.states.push(*reference), results: rr.results.push(flushed) };
    }
    match flushed {
        Ok(frames) => {
            let mut frames = frames;
            let ghost old_out = reference_out@;
            let ghost new = frames@;
            reference_out.append(&mut frames);
            proof {
                assert(reference_out@ == old_out + new);
                assert forall|j: int| 0 <= j < reference_out@.len() implies has_rows(
                    (#[trigger] reference_out@[j])@,
                ) by {
                    if j < old_out.len() {
                        assert(reference_out@[j] == old_out[j]);
                    } else {
                        assert(reference_out@[j] == new[j - old_out.len()]);
                    }
                }
            }
        },
        Err(e) => {
            assert(compared(
                all,
                packets,
                rr,
                sr,
                (*old(reference), *reference, *old(subject), *subject),
                Err::<Report, Error>(e),
            ));
            return Err(e);
        },
    }
    if trial.error.is_none() {
        let ghost held = *subject;
        let result = subject.flush();
        proof {
            lemma_run_grows(sr, *old(subject), held, packets, packets, *subject, result);
            sr = Run { states: sr.states.push(*subject), results: sr.results.push(result) };
        }
        trial.take(usize::MAX, result);
    } else {
        proof {
            lemma_run_stays(sr, *old(subject), *subject, packets, packets, n as int, n + 1);
        }
    }
    let report = report_of(&reference_out, &trial.out, trial.error);
    assert(compared(
        all,
        packets,
        rr,
        sr,
        (*old(reference), *reference, *old(subject), *subject),
        Ok::<Report, Error>(report),
    ));
    Ok(report)
}

/// A report that matches means that there were pictures, as many from each
/// decoder, and that each pair agrees.
pub proof fn law_matching_means_agreement(
    report: Report,
    r: Seq<FrameModel>,
    s: Seq<FrameModel>,
    i: int,
)
    requires
        report.reference_frames == r.len(),
        report.subject_frames == s.len(),
        first_divergence(r, s, report.divergence),
        report.exact(),
        0 <= i < r.len(),
    ensures
        r.len() == s.len(),
        r.len() > 0,
        agrees(r[i], s[i]),
{
}

/// Two decoders that show the same pictures are never said to diverge.
pub proof fn law_equal_pictures_never_diverge(r: Seq<FrameModel>, found: Option<Divergence>)
    requires
        first_divergence(r, r, found),
    ensures
        found is None,
{
    if let Some(d) = found {
        assert(!plane_differs(r[d.frame as int], r[d.frame as int], d.plane as int));
    }
}

/// A divergence names the first picture that disagrees, so none can be
/// reported before it.
pub proof fn law_divergence_is_the_first(
    r: Seq<FrameModel>,
    s: Seq<FrameModel>,
    a: Option<Divergence>,
    b: Option<Divergence>,
)
    requires
        r.len() == s.len(),
        first_divergence(r, s, a),
        first_divergence(r, s, b),
        forall|i: int| 0 <= i < r.len() ==> r[i].strides.len() == 3 && (#[trigger] r[i]).planes.len()
            == 3,
    ensures
        a is Some == b is Some,
        a is Some ==> a->0.frame == b->0.frame && a->0.plane == b->0.plane,
{
    if let Some(d) = a {
        lemma_divergent(r[d.frame as int], s[d.frame as int], d.frame, a);
    }
    if let Some(d) = b {
        lemma_divergent(r[d.frame as int], s[d.frame as int], d.frame, b);
    }
    if a is Some && b is Some {
        let (x, y) = (a->0, b->0);
        if x.frame < y.frame {
            assert(agrees(r[x.frame as int], s[x.frame as int]));
        } else if y.frame < x.frame {
            assert(agrees(r[y.frame as int], s[y.frame as int]));
        } else if same_size(r[x.frame as int], s[x.frame as int]) {
            assert(plane_differs(r[x.frame as int], s[x.frame as int], x.plane as int));
            assert(plane_differs(r[x.frame as int], s[x.frame as int], y.plane as int));
        }
    }
}

/// What is reported as divergent does not agree.
proof fn lemma_divergent(r: FrameModel, s: FrameModel, index: usize, found: Option<Divergence>)
    requires
        divergence_of(r, s, index, found),
        found is Some,
    ensures
        !agrees(r, s),
{
    let d = found->0;
    if same_size(r, s) {
        assert(plane_differs(r, s, d.plane as int));
        assert(d.plane == 0 || d.plane == 1 || d.plane == 2);
    }
}

} // verus!
