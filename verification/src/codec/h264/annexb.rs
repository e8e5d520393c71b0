//! Splitting byte streams at start codes.
//!
//! A stream on disk marks where each unit begins with a start code. One picture
//! per coded frame, no interlacing and no redundant slices make the grouping of
//! units into pictures the two rules of [`starts_access_unit`].
use vstd::prelude::*;

verus! {

// ---- Units ------------------------------------------------------------------

/// Whether `00 00 01` stands at `i`.
pub open spec fn is_code(s: Seq<u8>, i: int) -> bool {
    &&& 0 <= i
    &&& i + 3 <= s.len()
    &&& s[i] == 0
    &&& s[i + 1] == 0
    &&& s[i + 2] == 1
}

/// The place of the first start code at or after `from`.
pub open spec fn next_code(s: Seq<u8>, from: int) -> Option<int>
    decreases s.len() - from,
{
    if from + 3 > s.len() {
        None
    } else if is_code(s, from) {
        Some(from)
    } else {
        next_code(s, from + 1)
    }
}

/// `end` moved back over zero bytes, but not before `start`.
pub open spec fn trimmed(s: Seq<u8>, start: int, end: int) -> int
    decreases end - start,
{
    if end > start && s[end - 1] == 0 {
        trimmed(s, start, end - 1)
    } else {
        end
    }
}

/// Where a unit stands in a stream.
#[derive(Debug, Clone, Copy, PartialEq, Eq, Structural)]
pub struct Located {
    /// Place of its start code, of three or four bytes.
    pub code: usize,
    /// Place of its first byte.
    pub start: usize,
    /// Place behind its last byte; zero bytes before the next start code are
    /// padding.
    pub end: usize,
}

/// Where a unit stands in a stream, as numbers.
pub struct Span {
    pub code: int,
    pub start: int,
    pub end: int,
}

impl View for Located {
    type V = Span;

    open spec fn view(&self) -> Span {
        Span { code: self.code as int, start: self.start as int, end: self.end as int }
    }
}

/// Where the unit after a start code at `three` ends, padding included.
pub open spec fn unit_stop(s: Seq<u8>, three: int) -> int {
    match next_code(s, three + 3) {
        Some(next) => next,
        None => s.len() as int,
    }
}

/// The unit behind the start code at `three`, where the unit before begins at
/// `floor`. A zero byte before `00 00 01` belongs to the start code.
pub open spec fn unit_at(s: Seq<u8>, floor: int, three: int) -> Span {
    Span {
        code: if three > floor && s[three - 1] == 0 {
            three - 1
        } else {
            three
        },
        start: three + 3,
        end: trimmed(s, three + 3, unit_stop(s, three)),
    }
}

/// The units of a stream whose start codes come from `floor` on, the place where
/// the unit before begins.
pub open spec fn units_from(s: Seq<u8>, floor: int) -> Seq<Span>
    decreases s.len() - floor,
    via units_from_ends
{
    match next_code(s, floor) {
        None => Seq::empty(),
        Some(three) => seq![unit_at(s, floor, three)] + units_from(s, three + 3),
    }
}

#[via_fn]
proof fn units_from_ends(s: Seq<u8>, floor: int) {
    lemma_next_code(s, floor);
}

/// The first start code is one, lies at or after the place it is looked for
/// from, and none comes before it.
pub proof fn lemma_next_code(s: Seq<u8>, from: int)
    ensures
        next_code(s, from) matches Some(at) ==> from <= at && at + 3 <= s.len(),
        0 <= from ==> (next_code(s, from) matches Some(at) ==> is_code(s, at)),
        0 <= from ==> forall|i: int|
            #![trigger is_code(s, i)]
            from <= i < (match next_code(s, from) {
                Some(at) => at,
                None => s.len() as int,
            }) ==> !is_code(s, i),
    decreases s.len() - from,
{
    if from + 3 <= s.len() && !is_code(s, from) {
        lemma_next_code(s, from + 1);
    }
}

/// Trimming stays within the unit, drops only zeros and leaves none at the end.
pub proof fn lemma_trimmed(s: Seq<u8>, start: int, end: int)
    requires
        start <= end,
    ensures
        start <= trimmed(s, start, end) <= end,
        forall|i: int| trimmed(s, start, end) <= i < end ==> s[i] == 0,
        trimmed(s, start, end) > start ==> s[trimmed(s, start, end) - 1] != 0,
    decreases end - start,
{
    if end > start && s[end - 1] == 0 {
        lemma_trimmed(s, start, end - 1);
    }
}

/// The bytes of a unit.
pub open spec fn bytes_of(s: Seq<u8>, u: Span) -> Seq<u8> {
    s.subrange(u.start, u.end)
}

/// Units within a stream: codes before bytes, one unit behind the other.
pub open spec fn in_order(s: Seq<u8>, units: Seq<Span>, pos: int) -> bool {
    forall|i: int|
        #![trigger units[i]]
        0 <= i < units.len() ==> {
            &&& pos <= units[i].code
            &&& units[i].code < units[i].start <= units[i].end <= s.len()
            &&& forall|j: int| #![trigger units[j]] 0 <= j < i ==> units[j].end <= units[i].code
        }
}

/// The units of a stream stand in order.
pub proof fn lemma_in_order(s: Seq<u8>, floor: int)
    requires
        0 <= floor <= s.len(),
    ensures
        in_order(s, units_from(s, floor), floor),
    decreases s.len() - floor,
{
    lemma_next_code(s, floor);
    match next_code(s, floor) {
        None => {},
        Some(three) => {
            lemma_next_code(s, three + 3);
            lemma_trimmed(s, three + 3, unit_stop(s, three));
            lemma_in_order(s, three + 3);
            let rest = units_from(s, three + 3);
            let units = units_from(s, floor);
            let first = unit_at(s, floor, three);
            assert forall|i: int| 0 <= i < rest.len() implies first.end <= (#[trigger] rest[i]).code by {
                lemma_code_behind_unit(s, three, i);
            }
            assert forall|i: int| #![trigger units[i]] 0 <= i < units.len() implies {
                &&& floor <= units[i].code
                &&& units[i].code < units[i].start <= units[i].end <= s.len()
                &&& forall|j: int|
                    #![trigger units[j]]
                    0 <= j < i ==> units[j].end <= units[i].code
            } by {
                if i > 0 {
                    assert(units[i] == rest[i - 1]);
                    assert forall|j: int| #![trigger units[j]] 0 <= j < i implies units[j].end
                        <= units[i].code by {
                        if j > 0 {
                            assert(units[j] == rest[j - 1]);
                        }
                    }
                }
            }
        },
    }
}

/// The start codes behind a unit begin behind its last byte.
proof fn lemma_code_behind_unit(s: Seq<u8>, three: int, i: int)
    requires
        0 <= three,
        three + 3 <= s.len(),
        in_order(s, units_from(s, three + 3), three + 3),
        0 <= i < units_from(s, three + 3).len(),
    ensures
        trimmed(s, three + 3, unit_stop(s, three)) <= units_from(s, three + 3)[i].code,
{
    let rest = units_from(s, three + 3);
    lemma_next_code(s, three + 3);
    let next = next_code(s, three + 3)->Some_0;
    lemma_trimmed(s, three + 3, next);
    if i > 0 {
        assert(rest[0].end <= rest[i].code);
    }
}

fn find_start_code(stream: &[u8], from: usize) -> (r: Option<usize>)
    requires
        from <= stream@.len(),
    ensures
        match r {
            Some(at) => next_code(stream@, from as int) == Some(at as int) && at + 3
                <= stream@.len() && from <= at,
            None => next_code(stream@, from as int) is None,
        },
{
    let mut i: usize = from;
    let n: usize = stream.len();
    while n >= 3 && i <= n - 3
        invariant
            n == stream@.len(),
            from <= i <= n,
            next_code(stream@, from as int) == next_code(stream@, i as int),
        decreases n - i,
    {
        if stream[i] == 0 && stream[i + 1] == 0 && stream[i + 2] == 1 {
            return Some(i);
        }
        i = i + 1;
    }
    None
}

fn trim(stream: &[u8], start: usize, end: usize) -> (r: usize)
    requires
        start <= end <= stream@.len(),
    ensures
        r == trimmed(stream@, start as int, end as int),
        start <= r <= end,
{
    let mut at: usize = end;
    while at > start && stream[at - 1] == 0
        invariant
            start <= at <= end <= stream@.len(),
            trimmed(stream@, start as int, end as int) == trimmed(
                stream@,
                start as int,
                at as int,
            ),
        decreases at,
    {
        at = at - 1;
    }
    at
}

/// A list of units, as numbers.
pub open spec fn spans(units: Seq<Located>) -> Seq<Span> {
    Seq::new(units.len(), |i: int| units[i]@)
}

/// Every unit of a stream, with the place of its start code.
pub fn located_nal_units(stream: &[u8]) -> (units: Vec<Located>)
    ensures
        spans(units@) == units_from(stream@, 0),
        in_order(stream@, spans(units@), 0),
{
    let mut units: Vec<Located> = Vec::new();
    let n: usize = stream.len();
    let mut floor: usize = 0;
    let mut next: Option<usize> = find_start_code(stream, 0);
    let ghost all = units_from(stream@, 0);
    assert(all =~= spans(units@) + units_from(stream@, 0));
    proof {
        lemma_in_order(stream@, 0);
    }
    loop
        invariant
            n == stream@.len(),
            floor <= n,
            match next {
                Some(at) => next_code(stream@, floor as int) == Some(at as int) && at + 3
                    <= stream@.len() && floor <= at,
                None => next_code(stream@, floor as int) is None,
            },
            all == units_from(stream@, 0),
            in_order(stream@, all, 0),
            all == spans(units@) + units_from(stream@, floor as int),
        ensures
            spans(units@) == all,
        decreases stream@.len() - floor,
    {
        let Some(three) = next else {
            assert(units_from(stream@, floor as int) =~= Seq::<Span>::empty());
            assert(spans(units@) =~= all);
            break;
        };
        let code: usize = if three > floor && stream[three - 1] == 0 {
            three - 1
        } else {
            three
        };
        let start: usize = three + 3;
        let after: Option<usize> = find_start_code(stream, start);
        let stop: usize = match after {
            Some(at) => at,
            None => n,
        };
        let end: usize = trim(stream, start, stop);
        let ghost before = units@;
        units.push(Located { code, start, end });
        proof {
            let u = unit_at(stream@, floor as int, three as int);
            assert(units_from(stream@, floor as int) == seq![u] + units_from(
                stream@,
                start as int,
            ));
            assert(spans(units@) =~= spans(before).push(u));
            assert(spans(before) + (seq![u] + units_from(stream@, start as int)) =~= spans(
                units@,
            ) + units_from(stream@, start as int));
        }
        floor = start;
        next = after;
    }
    units
}

/// The bytes of every unit of a stream.
pub open spec fn unit_bytes(s: Seq<u8>) -> Seq<Seq<u8>> {
    Seq::new(units_from(s, 0).len(), |i: int| bytes_of(s, units_from(s, 0)[i]))
}

/// Slices as sequences.
pub open spec fn views(list: Seq<&[u8]>) -> Seq<Seq<u8>> {
    Seq::new(list.len(), |i: int| list[i]@)
}

/// Every unit of a stream: the bytes between start codes, without the zero bytes
/// that pad them.
pub fn nal_units(stream: &[u8]) -> (units: Vec<&[u8]>)
    ensures
        views(units@) == unit_bytes(stream@),
{
    let located: Vec<Located> = located_nal_units(stream);
    let mut units: Vec<&[u8]> = Vec::new();
    let n: usize = located.len();
    for i in 0..n
        invariant
            n == located@.len(),
            spans(located@) == units_from(stream@, 0),
            in_order(stream@, spans(located@), 0),
            units@.len() == i,
            forall|j: int|
                #![trigger units@[j]]
                0 <= j < i ==> units@[j]@ == bytes_of(stream@, units_from(stream@, 0)[j]),
    {
        let u: Located = located[i];
        assert(spans(located@)[i as int] == u@);
        units.push(&stream[u.start..u.end]);
    }
    assert(views(units@) =~= unit_bytes(stream@));
    units
}

// ---- Access units -----------------------------------------------------------

/// The type of a unit, in the low five bits of its first byte.
pub open spec fn spec_nal_unit_type(nal: Seq<u8>) -> Option<u8> {
    if nal.len() == 0 {
        None
    } else {
        Some(nal[0] & 0x1f)
    }
}

/// Whether a unit carries coded slice data.
pub open spec fn spec_is_vcl(nal: Seq<u8>) -> bool {
    spec_nal_unit_type(nal) matches Some(t) && 1 <= t <= 5
}

/// Whether a unit is the first of a new picture. Nothing closes a picture that
/// has no slice yet. After that a slice whose first macroblock is number zero,
/// coded as a leading one bit, opens the next one, and so does whatever may only
/// come before slices.
pub open spec fn spec_starts_access_unit(nal: Seq<u8>, seen_vcl: bool) -> bool {
    seen_vcl && match spec_nal_unit_type(nal) {
        None => false,
        Some(t) => if t == 1 || t == 5 {
            nal.len() > 1 && nal[1] & 0x80 != 0
        } else {
            6 <= t <= 9
        },
    }
}

/// Places where pictures begin, from unit `i` on, given whether the picture in
/// progress has a slice.
pub open spec fn cuts_from(s: Seq<u8>, units: Seq<Span>, i: int, open: bool, seen_vcl: bool) -> Seq<int>
    decreases units.len() - i,
{
    if i >= units.len() {
        Seq::empty()
    } else {
        let nal = bytes_of(s, units[i]);
        let starts = !open || spec_starts_access_unit(nal, seen_vcl);
        let seen = (seen_vcl && !starts) || spec_is_vcl(nal);
        let rest = cuts_from(s, units, i + 1, true, seen);
        if starts {
            seq![units[i].code] + rest
        } else {
            rest
        }
    }
}

/// Places where the pictures of a stream begin.
pub open spec fn cuts(s: Seq<u8>) -> Seq<int> {
    cuts_from(s, units_from(s, 0), 0, false, false)
}

/// The pictures of a stream: each runs to where the next begins, the last to the
/// end.
pub open spec fn pictures(s: Seq<u8>) -> Seq<Seq<u8>> {
    let at = cuts(s);
    Seq::new(
        at.len(),
        |i: int|
            s.subrange(
                at[i],
                if i + 1 < at.len() {
                    at[i + 1]
                } else {
                    s.len() as int
                },
            ),
    )
}

/// The type of a unit.
pub fn nal_unit_type(nal: &[u8]) -> (r: Option<u8>)
    ensures
        r == spec_nal_unit_type(nal@),
{
    if nal.len() == 0 {
        None
    } else {
        Some(nal[0] & 0x1f)
    }
}

/// Whether a unit carries coded slice data.
pub fn is_vcl(nal: &[u8]) -> (r: bool)
    ensures
        r == spec_is_vcl(nal@),
{
    match nal_unit_type(nal) {
        Some(t) => 1 <= t && t <= 5,
        None => false,
    }
}

/// Whether a unit is the first of a new picture.
pub fn starts_access_unit(nal: &[u8], seen_vcl: bool) -> (r: bool)
    ensures
        r == spec_starts_access_unit(nal@, seen_vcl),
{
    if !seen_vcl {
        return false;
    }
    match nal_unit_type(nal) {
        None => false,
        Some(t) => {
            if t == 1 || t == 5 {
                nal.len() > 1 && nal[1] & 0x80 != 0
            } else {
                6 <= t && t <= 9
            }
        },
    }
}

/// The cuts rise from unit to unit and lie within the stream.
proof fn lemma_cuts_rise(s: Seq<u8>, units: Seq<Span>, i: int, open: bool, seen: bool)
    requires
        in_order(s, units, 0),
        0 <= i <= units.len(),
    ensures
        ({
            let at = cuts_from(s, units, i, open, seen);
            &&& forall|a: int|
                #![trigger at[a]]
                0 <= a < at.len() ==> 0 <= at[a] < s.len() && i < units.len() && units[i].code
                    <= at[a]
            &&& forall|a: int, b: int| 0 <= a < b < at.len() ==> at[a] < at[b]
        }),
    decreases units.len() - i,
{
    if i < units.len() {
        let nal = bytes_of(s, units[i]);
        let starts = !open || spec_starts_access_unit(nal, seen);
        let next = (seen && !starts) || spec_is_vcl(nal);
        lemma_cuts_rise(s, units, i + 1, true, next);
        let rest = cuts_from(s, units, i + 1, true, next);
        let at = cuts_from(s, units, i, open, seen);
        assert forall|a: int| #![trigger at[a]] 0 <= a < at.len() implies 0 <= at[a] < s.len() && i
            < units.len() && units[i].code <= at[a] by {
            let k = if starts {
                a - 1
            } else {
                a
            };
            if k >= 0 {
                assert(at[a] == rest[k]);
                assert(units[i].end <= units[i + 1].code);
            }
        }
        assert forall|a: int, b: int| 0 <= a < b < at.len() implies at[a] < at[b] by {
            if starts {
                assert(at[b] == rest[b - 1]);
                assert(units[i].end <= units[i + 1].code);
                if a > 0 {
                    assert(at[a] == rest[a - 1]);
                }
            }
        }
    }
}

/// The pictures of a stream as slices of it, start codes included.
pub fn access_units(stream: &[u8]) -> (r: Vec<&[u8]>)
    ensures
        views(r@) == pictures(stream@),
{
    let located: Vec<Located> = located_nal_units(stream);
    let ghost units = units_from(stream@, 0);
    let ghost at = cuts(stream@);
    let n: usize = located.len();
    let mut starts: Vec<usize> = Vec::new();
    let mut open: bool = false;
    let mut seen_vcl: bool = false;
    assert(at =~= Seq::new(starts@.len(), |j: int| starts@[j] as int) + cuts_from(
        stream@,
        units,
        0,
        open,
        seen_vcl,
    ));
    for i in 0..n
        invariant
            n == located@.len(),
            units == spans(located@),
            in_order(stream@, units, 0),
            at == Seq::new(starts@.len(), |j: int| starts@[j] as int) + cuts_from(
                stream@,
                units,
                i as int,
                open,
                seen_vcl,
            ),
    {
        let u: Located = located[i];
        assert(units[i as int] == u@);
        let nal: &[u8] = &stream[u.start..u.end];
        assert(nal@ == bytes_of(stream@, units[i as int]));
        let ghost before = starts@;
        let ghost rest = cuts_from(stream@, units, i as int, open, seen_vcl);
        if !open || starts_access_unit(nal, seen_vcl) {
            starts.push(u.code);
            seen_vcl = false;
            open = true;
        }
        if is_vcl(nal) {
            seen_vcl = true;
        }
        proof {
            let tail = cuts_from(stream@, units, i + 1, true, seen_vcl);
            let known = Seq::new(before.len(), |j: int| before[j] as int);
            let now = Seq::new(starts@.len(), |j: int| starts@[j] as int);
            if starts@.len() > before.len() {
                assert(rest == seq![u.code as int] + tail);
                assert(now =~= known.push(u.code as int));
                assert(known + (seq![u.code as int] + tail) =~= now + tail);
            } else {
                assert(rest == tail);
                assert(now =~= known);
            }
        }
    }
    proof {
        assert(at =~= Seq::new(starts@.len(), |j: int| starts@[j] as int));
        lemma_cuts_rise(stream@, units, 0, false, false);
    }
    let m: usize = starts.len();
    let mut out: Vec<&[u8]> = Vec::new();
    for i in 0..m
        invariant
            m == starts@.len(),
            at == cuts(stream@),
            at == Seq::new(starts@.len(), |j: int| starts@[j] as int),
            forall|a: int| #![trigger at[a]] 0 <= a < at.len() ==> 0 <= at[a] < stream@.len(),
            forall|a: int, b: int| 0 <= a < b < at.len() ==> at[a] < at[b],
            out@.len() == i,
            forall|j: int|
                #![trigger out@[j]]
                0 <= j < i ==> out@[j]@ == pictures(stream@)[j],
    {
        assert(at[i as int] == starts@[i as int]);
        let from: usize = starts[i];
        let to: usize = if i + 1 < m {
            assert(at[i + 1] == starts@[i + 1]);
            starts[i + 1]
        } else {
            stream.len()
        };
        out.push(&stream[from..to]);
    }
    assert(views(out@) =~= pictures(stream@));
    out
}

// ---- Laws -------------------------------------------------------------------

/// Sequences one behind the other.
pub open spec fn joined(parts: Seq<Seq<u8>>) -> Seq<u8>
    decreases parts.len(),
{
    if parts.len() == 0 {
        Seq::empty()
    } else {
        joined(parts.drop_last()) + parts.last()
    }
}

proof fn lemma_joined_prefix(s: Seq<u8>, n: int)
    requires
        0 <= n <= pictures(s).len(),
    ensures
        joined(pictures(s).take(n)) == (if n == 0 {
            Seq::empty()
        } else {
            s.subrange(
                cuts(s)[0],
                if n < cuts(s).len() {
                    cuts(s)[n]
                } else {
                    s.len() as int
                },
            )
        }),
    decreases n,
{
    let p = pictures(s);
    let at = cuts(s);
    lemma_in_order(s, 0);
    lemma_cuts_rise(s, units_from(s, 0), 0, false, false);
    if n == 0 {
        assert(p.take(0) =~= Seq::empty());
    } else {
        lemma_joined_prefix(s, n - 1);
        assert(p.take(n).drop_last() =~= p.take(n - 1));
        assert(p.take(n).last() == p[n - 1]);
        let stop = if n < at.len() {
            at[n]
        } else {
            s.len() as int
        };
        assert(0 <= at[0] < s.len());
        assert(0 <= at[n - 1] < s.len());
        assert(n < at.len() ==> at[n - 1] < at[n]);
        if n > 1 {
            assert(at[0] < at[n - 1]);
            assert(s.subrange(at[0], at[n - 1]) + s.subrange(at[n - 1], stop) =~= s.subrange(
                at[0],
                stop,
            ));
        } else {
            assert(Seq::<u8>::empty() + s.subrange(at[0], stop) =~= s.subrange(at[0], stop));
        }
    }
}

/// A stream has no more pictures than bytes, and none is longer than it.
pub proof fn lemma_pictures_fit(s: Seq<u8>)
    ensures
        pictures(s).len() <= s.len(),
        forall|i: int|
            0 <= i < pictures(s).len() ==> (#[trigger] pictures(s)[i]).len() <= s.len(),
{
    let at = cuts(s);
    lemma_in_order(s, 0);
    lemma_cuts_rise(s, units_from(s, 0), 0, false, false);
    if at.len() > 0 {
        lemma_cuts_spread(s, at.len() - 1);
    }
    assert forall|i: int| 0 <= i < pictures(s).len() implies (#[trigger] pictures(s)[i]).len()
        <= s.len() by {
        assert(0 <= at[i] < s.len());
        assert(i + 1 < at.len() ==> at[i] < at[i + 1] && at[i + 1] < s.len());
    }
}

/// The places where pictures begin are apart.
proof fn lemma_cuts_spread(s: Seq<u8>, i: int)
    requires
        0 <= i < cuts(s).len(),
    ensures
        i <= cuts(s)[i] < s.len(),
    decreases i,
{
    lemma_in_order(s, 0);
    lemma_cuts_rise(s, units_from(s, 0), 0, false, false);
    if i > 0 {
        lemma_cuts_spread(s, i - 1);
        assert(cuts(s)[i - 1] < cuts(s)[i]);
    } else {
        assert(0 <= cuts(s)[0] < s.len());
    }
}

/// The pictures divide the stream without loss: one behind the other they give
/// back everything from the first start code on.
pub proof fn law_access_units_partition_the_stream(s: Seq<u8>)
    ensures
        cuts(s).len() == 0 ==> pictures(s).len() == 0,
        cuts(s).len() > 0 ==> joined(pictures(s)) == s.subrange(cuts(s)[0], s.len() as int),
{
    if cuts(s).len() > 0 {
        let p = pictures(s);
        lemma_joined_prefix(s, p.len() as int);
        assert(p.take(p.len() as int) =~= p);
    }
}

/// A stream with a unit has a picture, and it begins with the first unit's start
/// code.
pub proof fn law_first_picture_begins_with_the_first_unit(s: Seq<u8>)
    ensures
        units_from(s, 0).len() > 0 <==> pictures(s).len() > 0,
        units_from(s, 0).len() > 0 ==> cuts(s)[0] == units_from(s, 0)[0].code,
{
    let units = units_from(s, 0);
    if units.len() > 0 {
        let nal = bytes_of(s, units[0]);
        let seen = spec_is_vcl(nal);
        assert(cuts(s) == seq![units[0].code] + cuts_from(s, units, 1, true, seen));
    }
}

/// No unit holds a start code or ends in padding.
pub proof fn law_units_hold_no_start_code(s: Seq<u8>, floor: int, i: int, k: int)
    requires
        0 <= floor <= s.len(),
        0 <= i < units_from(s, floor).len(),
    ensures
        !is_code(bytes_of(s, units_from(s, floor)[i]), k),
        ({
            let nal = bytes_of(s, units_from(s, floor)[i]);
            nal.len() > 0 ==> nal.last() != 0
        }),
    decreases s.len() - floor,
{
    lemma_next_code(s, floor);
    lemma_in_order(s, floor);
    match next_code(s, floor) {
        None => {},
        Some(three) => {
            lemma_next_code(s, three + 3);
            let stop = unit_stop(s, three);
            lemma_trimmed(s, three + 3, stop);
            let rest = units_from(s, three + 3);
            if i > 0 {
                assert(units_from(s, floor)[i] == rest[i - 1]);
                law_units_hold_no_start_code(s, three + 3, i - 1, k);
            } else {
                let u = units_from(s, floor)[0];
                let nal = bytes_of(s, u);
                if is_code(nal, k) {
                    assert(is_code(s, u.start + k));
                }
            }
        },
    }
}

/// Every unit is paired with the start code right before it, of three bytes, or
/// of four where a zero byte that is not another unit's comes before those.
pub proof fn law_codes_stand_before_their_units(s: Seq<u8>, floor: int, i: int)
    requires
        0 <= floor <= s.len(),
        0 <= i < units_from(s, floor).len(),
    ensures
        ({
            let u = units_from(s, floor)[i];
            let before = if i > 0 {
                units_from(s, floor)[i - 1].start
            } else {
                floor
            };
            &&& is_code(s, u.start - 3)
            &&& u.code == u.start - 3 || u.code == u.start - 4
            &&& u.code == u.start - 4 <==> u.start - 4 >= before && s[u.start - 4] == 0
        }),
    decreases s.len() - floor,
{
    lemma_next_code(s, floor);
    match next_code(s, floor) {
        None => {},
        Some(three) => {
            let rest = units_from(s, three + 3);
            if i > 0 {
                assert(units_from(s, floor)[i] == rest[i - 1]);
                law_codes_stand_before_their_units(s, three + 3, i - 1);
                if i > 1 {
                    assert(units_from(s, floor)[i - 1] == rest[i - 2]);
                }
            }
        },
    }
}

/// One unit of a stream as an encoder writes it.
pub struct Framing {
    /// Whether the start code has four bytes.
    pub long: bool,
    pub unit: Seq<u8>,
    /// Number of zero bytes behind the unit.
    pub padding: nat,
}

impl Framing {
    /// Start code, unit and padding.
    pub open spec fn bytes(self) -> Seq<u8> {
        (if self.long {
            seq![0u8, 0, 0, 1]
        } else {
            seq![0u8, 0, 1]
        }) + self.unit + Seq::new(self.padding, |i: int| 0u8)
    }

    /// Whether the unit can be told from what is around it: it is not empty,
    /// holds no start code and does not end in a zero byte.
    pub open spec fn is_plain(self) -> bool {
        &&& self.unit.len() > 0
        &&& self.unit.last() != 0
        &&& forall|i: int| !#[trigger] is_code(self.unit, i)
    }
}

/// Units as an encoder writes them, one behind the other.
pub open spec fn framed(units: Seq<Framing>) -> Seq<u8>
    decreases units.len(),
{
    if units.len() == 0 {
        Seq::empty()
    } else {
        units[0].bytes() + framed(units.drop_first())
    }
}

/// A start code behind bytes that hold none is the next one.
proof fn lemma_next_code_is(s: Seq<u8>, from: int, at: int)
    requires
        0 <= from <= at,
        is_code(s, at),
        forall|i: int| from <= i && i + 3 <= at ==> !#[trigger] is_code(s, i),
    ensures
        next_code(s, from) == Some(at),
    decreases at - from,
{
    if from < at {
        assert(!is_code(s, from));
        lemma_next_code_is(s, from + 1, at);
    }
}

/// Trimming ends at the last byte that is not zero.
proof fn lemma_trimmed_is(s: Seq<u8>, start: int, at: int, end: int)
    requires
        start < at <= end,
        s[at - 1] != 0,
        forall|i: int| at <= i < end ==> s[i] == 0,
    ensures
        trimmed(s, start, end) == at,
    decreases end - at,
{
    if at < end {
        lemma_trimmed_is(s, start, at, end - 1);
    }
}

/// How many bytes a start code has before its last three.
pub open spec fn extra(f: Framing) -> int {
    if f.long {
        1
    } else {
        0
    }
}

/// Where the parts of a unit that stands at `at` are.
proof fn lemma_framing_at(s: Seq<u8>, at: int, f: Framing, rest: Seq<u8>)
    requires
        0 <= at <= s.len(),
        s.skip(at) == f.bytes() + rest,
    ensures
        ({
            let start = at + extra(f) + 3;
            let end = start + f.unit.len();
            let to = at + f.bytes().len();
            &&& to == end + f.padding
            &&& to <= s.len()
            &&& f.long ==> s[at] == 0
            &&& is_code(s, start - 3)
            &&& s.subrange(start, end) == f.unit
            &&& forall|i: int| end <= i < to ==> s[i] == 0
            &&& s.skip(to) == rest
        }),
{
    let start = at + extra(f) + 3;
    let end = start + f.unit.len();
    let b = f.bytes();
    let to = at + b.len();
    let all = b + rest;
    assert(all.len() == s.len() - at);
    assert forall|i: int| at <= i < s.len() implies #[trigger] s[i] == all[i - at] by {
        assert(s.skip(at)[i - at] == s[i]);
    }
    assert(all[start - 3 - at] == b[extra(f)] && all[start - 2 - at] == b[extra(f) + 1] && all[start
        - 1 - at] == b[extra(f) + 2]);
    assert(f.long ==> all[0] == b[0]);
    assert(s.subrange(start, end) =~= f.unit) by {
        assert forall|k: int| 0 <= k < f.unit.len() implies s[start + k] == f.unit[k] by {
            assert(s[start + k] == all[start + k - at]);
        }
    }
    assert forall|i: int| end <= i < to implies s[i] == 0 by {
        assert(s[i] == all[i - at]);
    }
    assert(s.skip(to) =~= rest) by {
        assert forall|k: int| 0 <= k < rest.len() implies s[to + k] == rest[k] by {
            assert(s[to + k] == all[to + k - at]);
        }
    }
}

/// Where the unit ends that stands at `at`.
proof fn lemma_framing_stop(s: Seq<u8>, at: int, f: Framing, after: Seq<Framing>)
    requires
        0 <= at <= s.len(),
        f.is_plain(),
        s.skip(at) == f.bytes() + framed(after),
    ensures
        ({
            let start = at + extra(f) + 3;
            let to = at + f.bytes().len();
            &&& forall|i: int| start <= i && i + 3 <= to ==> !#[trigger] is_code(s, i)
            &&& trimmed(s, start, unit_stop(s, start - 3)) == start + f.unit.len()
        }),
{
    let start = at + extra(f) + 3;
    let end = start + f.unit.len();
    let to = at + f.bytes().len();
    lemma_framing_at(s, at, f, framed(after));
    assert forall|i: int| start <= i && i + 3 <= to implies !#[trigger] is_code(s, i) by {
        if i + 3 <= end {
            assert(!is_code(s.subrange(start, end), i - start));
        }
    }
    assert(s.subrange(start, end).last() == s[end - 1]);
    if after.len() == 0 {
        assert(s.len() == to) by {
            assert(s.skip(to).len() == 0);
        }
        lemma_next_code(s, start);
        if next_code(s, start) is Some {
            assert(is_code(s, next_code(s, start)->Some_0));
        }
        lemma_trimmed_is(s, start, end, to);
    } else {
        let g = after[0];
        lemma_framing_at(s, to, g, framed(after.drop_first()));
        assert forall|i: int| start <= i && i + 3 <= to + extra(g) implies !#[trigger] is_code(
            s,
            i,
        ) by {
            if i + 3 > to {
                assert(s[i + 2] == 0);
            }
        }
        lemma_next_code_is(s, start, to + extra(g));
        lemma_trimmed_is(s, start, end, to + extra(g));
    }
}

proof fn lemma_framed(s: Seq<u8>, floor: int, at: int, units: Seq<Framing>)
    requires
        0 <= floor <= at <= s.len(),
        forall|i: int| 0 <= i < units.len() ==> (#[trigger] units[i]).is_plain(),
        forall|i: int| floor <= i && i + 3 <= at ==> !#[trigger] is_code(s, i),
        s.skip(at) == framed(units),
    ensures
        units_from(s, floor).len() == units.len(),
        forall|i: int|
            0 <= i < units.len() ==> bytes_of(s, #[trigger] units_from(s, floor)[i])
                == units[i].unit,
    decreases units.len(),
{
    if units.len() == 0 {
        assert(s.skip(at).len() == 0);
        lemma_next_code(s, floor);
        if next_code(s, floor) is Some {
            assert(is_code(s, next_code(s, floor)->Some_0));
        }
    } else {
        let f = units[0];
        let after = units.drop_first();
        let three = at + extra(f);
        lemma_framing_at(s, at, f, framed(after));
        assert forall|i: int| floor <= i && i + 3 <= three implies !#[trigger] is_code(s, i) by {
            if i + 3 > at {
                assert(s[i + 2] == 0);
            }
        }
        lemma_next_code_is(s, floor, three);
        lemma_framing_stop(s, at, f, after);
        lemma_framed(s, three + 3, at + f.bytes().len(), after);
        let found = units_from(s, floor);
        let rest = units_from(s, three + 3);
        assert forall|i: int| 0 <= i < units.len() implies bytes_of(s, #[trigger] found[i])
            == units[i].unit by {
            if i > 0 {
                assert(found[i] == rest[i - 1]);
                assert(units[i] == after[i - 1]);
            }
        }
    }
}

/// However units are framed, with short or long start codes, with padding behind
/// them and other bytes before the first, the stream splits into those units.
pub proof fn law_any_framing_splits_into_its_units(before: Seq<u8>, units: Seq<Framing>)
    requires
        forall|i: int| !#[trigger] is_code(before, i),
        forall|i: int| 0 <= i < units.len() ==> (#[trigger] units[i]).is_plain(),
    ensures
        unit_bytes(before + framed(units)) == Seq::new(units.len(), |i: int| units[i].unit),
{
    let s = before + framed(units);
    assert(s.skip(before.len() as int) =~= framed(units));
    assert forall|i: int| 0 <= i && i + 3 <= before.len() implies !#[trigger] is_code(s, i) by {
        assert(!is_code(before, i));
    }
    lemma_framed(s, 0, before.len() as int, units);
    assert(unit_bytes(s) =~= Seq::new(units.len(), |i: int| units[i].unit));
}

} // verus!
