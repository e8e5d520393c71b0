//! Between start codes and length prefixes.
//!
//! Elementary streams and the decoder mark units with start codes. MP4 and
//! Matroska prefix each unit with its length instead and carry the parameter
//! sets once, in an `avcC` record. Nothing here changes a bit of picture data.
use vstd::prelude::*;
use super::annexb::{joined, nal_unit_type, nal_units, spec_nal_unit_type, unit_bytes, views};
use crate::error::Error;
use crate::text::{decimal, put_number};

verus! {

/// The four-byte start code.
pub const START_CODE: [u8; 4] = [0, 0, 0, 1];

/// The shortest `avcC` record: five fixed bytes and two counts.
pub const MIN_RECORD_LEN: usize = 7;

/// The start code as a sequence.
pub open spec fn start_code() -> Seq<u8> {
    seq![0u8, 0u8, 0u8, 1u8]
}

/// A number in two bytes, the more significant first.
pub open spec fn be16(n: u16) -> Seq<u8> {
    seq![(n / 256) as u8, (n % 256) as u8]
}

/// A number in four bytes, the most significant first.
pub open spec fn be32(n: u32) -> Seq<u8> {
    seq![
        (n / 0x100_0000) as u8,
        ((n / 0x1_0000) % 256) as u8,
        ((n / 256) % 256) as u8,
        (n % 256) as u8,
    ]
}

/// The number that bytes stand for, the most significant first.
pub open spec fn be_value(bytes: Seq<u8>) -> int
    decreases bytes.len(),
{
    if bytes.len() == 0 {
        0
    } else {
        be_value(bytes.drop_last()) * 256 + bytes.last()
    }
}

fn push_be16(out: &mut Vec<u8>, n: u16)
    ensures
        final(out)@ == old(out)@ + be16(n),
{
    out.push((n / 256) as u8);
    out.push((n % 256) as u8);
    assert(out@ =~= old(out)@ + be16(n));
}

fn push_be32(out: &mut Vec<u8>, n: u32)
    ensures
        final(out)@ == old(out)@ + be32(n),
{
    out.push((n / 0x100_0000) as u8);
    out.push(((n / 0x1_0000) % 256) as u8);
    out.push(((n / 256) % 256) as u8);
    out.push((n % 256) as u8);
    assert(out@ =~= old(out)@ + be32(n));
}

// ---- Towards length prefixes ------------------------------------------------

/// Whether a unit belongs in a sample: slices and supplemental information.
/// Parameter sets are in the record, and delimiters have no place.
pub open spec fn kept(nal: Seq<u8>) -> bool {
    spec_nal_unit_type(nal) matches Some(t) && (t == 1 || t == 5 || t == 6)
}

/// A unit behind its length.
pub open spec fn prefixed(nal: Seq<u8>) -> Seq<u8> {
    be32(nal.len() as u32) + nal
}

/// A unit behind a start code.
pub open spec fn coded(nal: Seq<u8>) -> Seq<u8> {
    start_code() + nal
}

/// Those of the first `n` units that belong in a sample.
pub open spec fn sample_units(units: Seq<Seq<u8>>, n: int) -> Seq<Seq<u8>>
    decreases n,
{
    if n <= 0 {
        Seq::empty()
    } else if kept(units[n - 1]) {
        sample_units(units, n - 1).push(units[n - 1])
    } else {
        sample_units(units, n - 1)
    }
}

/// Units one behind the other, each behind its length.
pub open spec fn as_sample(units: Seq<Seq<u8>>) -> Seq<u8> {
    joined(Seq::new(units.len(), |i: int| prefixed(units[i])))
}

/// Units one behind the other, each behind a start code.
pub open spec fn as_stream(units: Seq<Seq<u8>>) -> Seq<u8> {
    joined(Seq::new(units.len(), |i: int| coded(units[i])))
}

proof fn lemma_sample_push(units: Seq<Seq<u8>>, nal: Seq<u8>)
    ensures
        as_sample(units.push(nal)) == as_sample(units) + prefixed(nal),
        as_stream(units.push(nal)) == as_stream(units) + coded(nal),
{
    let more = units.push(nal);
    let a = Seq::new(more.len(), |i: int| prefixed(more[i]));
    assert(a.drop_last() =~= Seq::new(units.len(), |i: int| prefixed(units[i])));
    let b = Seq::new(more.len(), |i: int| coded(more[i]));
    assert(b.drop_last() =~= Seq::new(units.len(), |i: int| coded(units[i])));
}

/// The slices and supplemental information of a picture, each behind its length
/// in four bytes instead of a start code.
pub fn access_unit_to_avcc(annexb_unit: &[u8]) -> (out: Vec<u8>)
    ensures
        out@ == as_sample(
            sample_units(unit_bytes(annexb_unit@), unit_bytes(annexb_unit@).len() as int),
        ),
{
    let units: Vec<&[u8]> = nal_units(annexb_unit);
    let ghost all = unit_bytes(annexb_unit@);
    let mut out: Vec<u8> = Vec::new();
    let n: usize = units.len();
    assert(out@ =~= as_sample(sample_units(all, 0)));
    for i in 0..n
        invariant
            n == units@.len(),
            all == views(units@),
            out@ == as_sample(sample_units(all, i as int)),
    {
        let nal: &[u8] = units[i];
        assert(all[i as int] == nal@);
        let belongs: bool = match nal_unit_type(nal) {
            Some(t) => t == 1 || t == 5 || t == 6,
            None => false,
        };
        if belongs {
            proof {
                lemma_sample_push(sample_units(all, i as int), nal@);
            }
            let ghost before = out@;
            push_be32(&mut out, nal.len() as u32);
            out.extend_from_slice(nal);
            assert(out@ =~= before + prefixed(nal@));
        }
    }
    out
}

/// The first unit of a type among the first `n`.
pub open spec fn first_of_type(units: Seq<Seq<u8>>, t: u8, n: int) -> Option<Seq<u8>>
    decreases n,
{
    if n <= 0 {
        None
    } else if first_of_type(units, t, n - 1) is Some {
        first_of_type(units, t, n - 1)
    } else if spec_nal_unit_type(units[n - 1]) == Some(t) {
        Some(units[n - 1])
    } else {
        None
    }
}

/// An `avcC` record of one sequence and one picture parameter set.
pub open spec fn record_of(sps: Seq<u8>, pps: Seq<u8>) -> Seq<u8> {
    seq![1u8, sps[1], sps[2], sps[3], 0xFFu8, 0xE1u8] + be16(sps.len() as u16) + sps + seq![1u8]
        + be16(pps.len() as u16) + pps
}

/// Builds the `avcC` record of the first sequence and the first picture
/// parameter set of start-coded data.
pub fn parameter_set_record(annexb_extra_data: &[u8]) -> (r: Result<Vec<u8>, Error>)
    ensures
        ({
            let units = unit_bytes(annexb_extra_data@);
            let sps = first_of_type(units, 7, units.len() as int);
            let pps = first_of_type(units, 8, units.len() as int);
            if sps is None {
                r matches Err(e) && e.is_mux("no SPS in H.264 extra_data"@)
            } else if pps is None {
                r matches Err(e) && e.is_mux("no PPS in H.264 extra_data"@)
            } else if sps->0.len() < 4 {
                r matches Err(e) && e.is_mux("SPS too short to carry profile/level"@)
            } else {
                r matches Ok(record) && record@ == record_of(sps->0, pps->0)
            }
        }),
{
    let units: Vec<&[u8]> = nal_units(annexb_extra_data);
    let ghost all = unit_bytes(annexb_extra_data@);
    let mut sps: Option<&[u8]> = None;
    let mut pps: Option<&[u8]> = None;
    let n: usize = units.len();
    for i in 0..n
        invariant
            n == units@.len(),
            all == views(units@),
            match sps {
                Some(s) => first_of_type(all, 7, i as int) == Some(s@),
                None => first_of_type(all, 7, i as int) is None,
            },
            match pps {
                Some(p) => first_of_type(all, 8, i as int) == Some(p@),
                None => first_of_type(all, 8, i as int) is None,
            },
    {
        let nal: &[u8] = units[i];
        assert(all[i as int] == nal@);
        match nal_unit_type(nal) {
            Some(t) => {
                if t == 7 && sps.is_none() {
                    sps = Some(nal);
                }
                if t == 8 && pps.is_none() {
                    pps = Some(nal);
                }
            },
            None => {},
        }
    }
    let Some(sps) = sps else {
        return Err(Error::mux("no SPS in H.264 extra_data"));
    };
    let Some(pps) = pps else {
        return Err(Error::mux("no PPS in H.264 extra_data"));
    };
    if sps.len() < 4 {
        return Err(Error::mux("SPS too short to carry profile/level"));
    }
    let mut out: Vec<u8> = Vec::new();
    // Version, then profile, compatibility and level out of the parameter set.
    out.push(1);
    out.push(sps[1]);
    out.push(sps[2]);
    out.push(sps[3]);
    // Four-byte lengths and one sequence parameter set, reserved bits set.
    out.push(0xFF);
    out.push(0xE1);
    push_be16(&mut out, sps.len() as u16);
    out.extend_from_slice(sps);
    out.push(1);
    push_be16(&mut out, pps.len() as u16);
    out.extend_from_slice(pps);
    assert(out@ =~= record_of(sps@, pps@));
    Ok(out)
}

// ---- Towards start codes ----------------------------------------------------

/// Whether data is an `avcC` record: long enough, and of version one. Data with
/// start codes begins with a zero.
pub open spec fn spec_is_avcc_record(data: Seq<u8>) -> bool {
    data.len() >= MIN_RECORD_LEN && data[0] == 1
}

/// Whether `extra_data` is an `avcC` record rather than start-coded parameter
/// sets.
pub fn is_avcc_record(extra_data: &[u8]) -> (r: bool)
    ensures
        r == spec_is_avcc_record(extra_data@),
{
    extra_data.len() >= MIN_RECORD_LEN && extra_data[0] == 1
}

/// Bytes per length prefix in samples that an `avcC` record describes.
pub open spec fn length_size(record: Seq<u8>) -> int {
    record[4] % 4 + 1
}

/// Bytes per length prefix in samples that this `avcC` record describes.
pub fn nal_length_size(avcc_record: &[u8]) -> (r: Result<usize, Error>)
    ensures
        r is Ok <==> spec_is_avcc_record(avcc_record@),
        r is Ok ==> r->Ok_0 == length_size(avcc_record@),
        r matches Err(e) ==> e.is_demux("not an avcC configuration record"@),
{
    if !is_avcc_record(avcc_record) {
        return Err(Error::demux("not an avcC configuration record"));
    }
    Ok((avcc_record[4] % 4) as usize + 1)
}

/// What reading length-prefixed data gives: bytes written, the place reached,
/// and what is wrong, if anything is.
pub struct Copied {
    pub out: Seq<u8>,
    pub pos: int,
    pub fault: Option<Seq<char>>,
}

/// `count` parameter sets behind two-byte lengths, from `pos` on, written behind
/// start codes.
pub open spec fn copied_sets(record: Seq<u8>, pos: int, count: int, out: Seq<u8>) -> Copied
    decreases count,
{
    if count <= 0 {
        Copied { out, pos, fault: None }
    } else if pos + 2 > record.len() {
        Copied { out, pos, fault: Some("avcC parameter set length is truncated"@) }
    } else {
        let len = record[pos] * 256 + record[pos + 1];
        if pos + 2 + len > record.len() {
            Copied { out, pos, fault: Some("avcC parameter set overruns the record"@) }
        } else {
            copied_sets(
                record,
                pos + 2 + len,
                count - 1,
                out + coded(record.subrange(pos + 2, pos + 2 + len)),
            )
        }
    }
}

fn copy_parameter_sets(record: &[u8], start: usize, count: usize, out: &mut Vec<u8>) -> (r: Result<
    usize,
    Error,
>)
    requires
        start <= record@.len(),
    ensures
        ({
            let c = copied_sets(record@, start as int, count as int, old(out)@);
            match c.fault {
                Some(message) => r matches Err(e) && e.is_demux(message),
                None => r matches Ok(pos) && pos == c.pos && pos <= record@.len()
                    && final(out)@ == c.out,
            }
        }),
{
    let ghost goal = copied_sets(record@, start as int, count as int, out@);
    let mut pos: usize = start;
    let n: usize = record.len();
    for done in 0..count
        invariant
            n == record@.len(),
            pos <= n,
            goal == copied_sets(record@, start as int, count as int, old(out)@),
            goal == copied_sets(record@, pos as int, count - done, out@),
    {
        if n - pos < 2 {
            return Err(Error::demux("avcC parameter set length is truncated"));
        }
        let len: usize = record[pos] as usize * 256 + record[pos + 1] as usize;
        if n - pos - 2 < len {
            return Err(Error::demux("avcC parameter set overruns the record"));
        }
        let ghost before = out@;
        let nal: &[u8] = &record[pos + 2..pos + 2 + len];
        push_start_code(out);
        out.extend_from_slice(nal);
        assert(out@ =~= before + coded(nal@));
        pos = pos + 2 + len;
    }
    Ok(pos)
}

fn push_start_code(out: &mut Vec<u8>)
    ensures
        final(out)@ == old(out)@ + start_code(),
{
    out.push(0);
    out.push(0);
    out.push(0);
    out.push(1);
    assert(out@ =~= old(out)@ + start_code());
}

/// The parameter sets of an `avcC` record behind start codes.
pub open spec fn record_sets(record: Seq<u8>) -> Copied {
    let sps = copied_sets(record, 6, record[5] as int % 32, Seq::empty());
    if sps.fault is Some {
        sps
    } else if sps.pos >= record.len() {
        Copied { fault: Some("avcC record ends before its PPS count"@), ..sps }
    } else {
        let pps = copied_sets(record, sps.pos + 1, record[sps.pos] as int, sps.out);
        if pps.fault is None && pps.out.len() == 0 {
            Copied { fault: Some("avcC record carries no parameter sets"@), ..pps }
        } else {
            pps
        }
    }
}

/// The parameter sets of an `avcC` record, each behind a start code: what has to
/// stand before the first picture, and before every picture that decoding may
/// begin with.
pub fn annexb_parameter_sets(avcc_record: &[u8]) -> (r: Result<Vec<u8>, Error>)
    ensures
        if !spec_is_avcc_record(avcc_record@) {
            r matches Err(e) && e.is_demux("not an avcC configuration record"@)
        } else {
            match record_sets(avcc_record@).fault {
                Some(message) => r matches Err(e) && e.is_demux(message),
                None => r matches Ok(out) && out@ == record_sets(avcc_record@).out,
            }
        },
{
    if !is_avcc_record(avcc_record) {
        return Err(Error::demux("not an avcC configuration record"));
    }
    let mut out: Vec<u8> = Vec::new();
    assert(out@ =~= Seq::<u8>::empty());
    let sps_count: usize = (avcc_record[5] % 32) as usize;
    let pos: usize = match copy_parameter_sets(avcc_record, 6, sps_count, &mut out) {
        Ok(pos) => pos,
        Err(e) => {
            return Err(e);
        },
    };
    if pos >= avcc_record.len() {
        return Err(Error::demux("avcC record ends before its PPS count"));
    }
    let pps_count: usize = avcc_record[pos] as usize;
    match copy_parameter_sets(avcc_record, pos + 1, pps_count, &mut out) {
        Ok(_) => {},
        Err(e) => {
            return Err(e);
        },
    }
    if out.len() == 0 {
        return Err(Error::demux("avcC record carries no parameter sets"));
    }
    Ok(out)
}

/// A sample from `pos` on, its lengths replaced by start codes.
pub open spec fn unprefixed(sample: Seq<u8>, pos: int, size: int, out: Seq<u8>) -> Copied
    decreases sample.len() - pos,
{
    if pos >= sample.len() || size < 1 {
        Copied { out, pos, fault: None }
    } else if pos + size > sample.len() {
        Copied { out, pos, fault: Some("AVCC sample ends inside a NAL length"@) }
    } else {
        let len = be_value(sample.subrange(pos, pos + size));
        if len <= 0 {
            Copied { out, pos, fault: Some("AVCC sample has a zero-length NAL"@) }
        } else if pos + size + len > sample.len() {
            Copied { out, pos, fault: Some("AVCC NAL length overruns the sample"@) }
        } else {
            unprefixed(
                sample,
                pos + size + len,
                size,
                out + coded(sample.subrange(pos + size, pos + size + len)),
            )
        }
    }
}

fn read_length(bytes: &[u8]) -> (r: u64)
    requires
        bytes@.len() <= 4,
    ensures
        r == be_value(bytes@),
        r <= 0xffff_ffff,
{
    let mut value: u64 = 0;
    let n: usize = bytes.len();
    assert(bytes@.take(0) =~= Seq::<u8>::empty());
    for i in 0..n
        invariant
            n == bytes@.len(),
            n <= 4,
            value == be_value(bytes@.take(i as int)),
            i == 0 ==> value == 0,
            i == 1 ==> value <= 0xff,
            i == 2 ==> value <= 0xffff,
            i == 3 ==> value <= 0xff_ffff,
            i == 4 ==> value <= 0xffff_ffff,
    {
        assert(bytes@.take(i + 1).drop_last() =~= bytes@.take(i as int));
        value = value * 256 + bytes[i] as u64;
    }
    assert(bytes@.take(n as int) =~= bytes@);
    value
}

/// The units of a sample, each length prefix of `length_size` bytes replaced by
/// a start code. Parameter sets stay in the record.
pub fn access_unit_to_annexb(avcc_unit: &[u8], length_size: usize) -> (r: Result<Vec<u8>, Error>)
    ensures
        if length_size != 1 && length_size != 2 && length_size != 4 {
            r matches Err(e) && e.is_demux(
                "unsupported avcC NAL length size "@ + decimal(length_size as nat),
            )
        } else {
            let c = unprefixed(avcc_unit@, 0, length_size as int, Seq::empty());
            match c.fault {
                Some(message) => r matches Err(e) && e.is_demux(message),
                None => r matches Ok(out) && out@ == c.out,
            }
        },
{
    if length_size != 1 && length_size != 2 && length_size != 4 {
        let mut message = "unsupported avcC NAL length size ".to_owned();
        put_number(&mut message, length_size as u128);
        return Err(Error::demux(message.as_str()));
    }
    let mut out: Vec<u8> = Vec::new();
    assert(out@ =~= Seq::<u8>::empty());
    let ghost goal = unprefixed(avcc_unit@, 0, length_size as int, out@);
    let n: usize = avcc_unit.len();
    let mut pos: usize = 0;
    while pos < n
        invariant
            n == avcc_unit@.len(),
            pos <= n,
            length_size == 1 || length_size == 2 || length_size == 4,
            goal == unprefixed(avcc_unit@, 0, length_size as int, Seq::empty()),
            goal == unprefixed(avcc_unit@, pos as int, length_size as int, out@),
        decreases n - pos,
    {
        if n - pos < length_size {
            return Err(Error::demux("AVCC sample ends inside a NAL length"));
        }
        let len: u64 = read_length(&avcc_unit[pos..pos + length_size]);
        // A start code without a unit would mislead whoever looks for the next.
        if len == 0 {
            return Err(Error::demux("AVCC sample has a zero-length NAL"));
        }
        if ((n - pos - length_size) as u64) < len {
            return Err(Error::demux("AVCC NAL length overruns the sample"));
        }
        let from: usize = pos + length_size;
        let to: usize = from + len as usize;
        let ghost before = out@;
        let nal: &[u8] = &avcc_unit[from..to];
        push_start_code(&mut out);
        out.extend_from_slice(nal);
        assert(out@ =~= before + coded(nal@));
        pos = to;
    }
    Ok(out)
}

// ---- Laws -------------------------------------------------------------------

proof fn lemma_be32(n: u32)
    ensures
        be_value(be32(n)) == n,
        be32(n).len() == 4,
{
    let b = be32(n);
    let (b3, b2, b1) = (b.drop_last(), b.drop_last().drop_last(), b.drop_last().drop_last().drop_last());
    assert(b1.drop_last() =~= Seq::<u8>::empty());
    assert(be_value(b1.drop_last()) == 0);
    assert(be_value(b1) == b[0]);
    assert(be_value(b2) == be_value(b1) * 256 + b[1]);
    assert(be_value(b3) == be_value(b2) * 256 + b[2]);
    assert(be_value(b) == be_value(b3) * 256 + b[3]);
}

/// Units a length prefix can describe.
pub open spec fn describable(units: Seq<Seq<u8>>) -> bool {
    forall|i: int|
        #![trigger units[i]]
        0 <= i < units.len() ==> 0 < units[i].len() <= 0xffff_ffff
}

proof fn lemma_unprefixed(units: Seq<Seq<u8>>, n: int, sample: Seq<u8>)
    requires
        describable(units),
        0 <= n <= units.len(),
        sample == as_sample(units),
    ensures
        as_sample(units.take(n)).len() <= sample.len(),
        sample.take(as_sample(units.take(n)).len() as int) == as_sample(units.take(n)),
        unprefixed(sample, 0, 4, Seq::empty()) == unprefixed(
            sample,
            as_sample(units.take(n)).len() as int,
            4,
            as_stream(units.take(n)),
        ),
    decreases n,
{
    lemma_sample_prefix(units, n);
    if n == 0 {
        assert(units.take(0) =~= Seq::empty());
        assert(as_sample(units.take(0)) =~= Seq::empty());
        assert(as_stream(units.take(0)) =~= Seq::empty());
    } else {
        lemma_unprefixed(units, n - 1, sample);
        let nal = units[n - 1];
        assert(units.take(n) =~= units.take(n - 1).push(nal));
        lemma_sample_push(units.take(n - 1), nal);
        let pos = as_sample(units.take(n - 1)).len() as int;
        let done = as_sample(units.take(n));
        assert(done == as_sample(units.take(n - 1)) + prefixed(nal));
        lemma_be32(nal.len() as u32);
        let length = be32(nal.len() as u32);
        let found = sample.subrange(pos, pos + 4);
        assert(found =~= length) by {
            assert forall|k: int| 0 <= k < 4 implies (#[trigger] found[k]) == length[k] by {
                assert(sample.take(done.len() as int)[pos + k] == done[pos + k]);
            }
        }
        assert(sample.subrange(pos + 4, pos + 4 + nal.len()) =~= nal) by {
            assert forall|k: int| 0 <= k < nal.len() implies (#[trigger] sample.subrange(
                pos + 4,
                pos + 4 + nal.len(),
            )[k]) == nal[k] by {
                assert(sample.take(done.len() as int)[pos + 4 + k] == done[pos + 4 + k]);
            }
        }
    }
}

proof fn lemma_sample_prefix(units: Seq<Seq<u8>>, n: int)
    requires
        0 <= n <= units.len(),
    ensures
        as_sample(units.take(n)).len() <= as_sample(units).len(),
        as_sample(units).take(as_sample(units.take(n)).len() as int) == as_sample(units.take(n)),
    decreases units.len() - n,
{
    if n == units.len() {
        assert(units.take(n) =~= units);
        assert(as_sample(units).take(as_sample(units).len() as int) =~= as_sample(units));
    } else {
        lemma_sample_prefix(units, n + 1);
        assert(units.take(n + 1) =~= units.take(n).push(units[n]));
        lemma_sample_push(units.take(n), units[n]);
        let (a, b) = (as_sample(units.take(n)), as_sample(units.take(n + 1)));
        assert(as_sample(units).take(a.len() as int) =~= b.take(a.len() as int)) by {
            assert forall|k: int| 0 <= k < a.len() implies (#[trigger] as_sample(units).take(
                a.len() as int,
            )[k]) == b.take(a.len() as int)[k] by {
                assert(as_sample(units).take(b.len() as int)[k] == b[k]);
            }
        }
        assert(b.take(a.len() as int) =~= a);
    }
}

/// Units survive the way to length prefixes and back: start codes stand where
/// the lengths stood, and nothing is wrong on the way.
pub proof fn law_units_survive_a_round_trip(units: Seq<Seq<u8>>)
    requires
        describable(units),
    ensures
        unprefixed(as_sample(units), 0, 4, Seq::empty()).fault is None,
        unprefixed(as_sample(units), 0, 4, Seq::empty()).out == as_stream(units),
{
    lemma_unprefixed(units, units.len() as int, as_sample(units));
    assert(units.take(units.len() as int) =~= units);
}

/// A picture survives the way to length prefixes and back, but for the units
/// that a sample does not carry.
pub proof fn law_access_units_survive_a_round_trip(annexb_unit: Seq<u8>)
    requires
        annexb_unit.len() <= 0xffff_ffff,
    ensures
        ({
            let units = unit_bytes(annexb_unit);
            let carried = sample_units(units, units.len() as int);
            let back = unprefixed(as_sample(carried), 0, 4, Seq::empty());
            back.fault is None && back.out == as_stream(carried)
        }),
{
    let units = unit_bytes(annexb_unit);
    super::annexb::lemma_in_order(annexb_unit, 0);
    assert forall|i: int| #![trigger units[i]] 0 <= i < units.len() implies units[i].len()
        <= 0xffff_ffff by {
        let u = super::annexb::units_from(annexb_unit, 0)[i];
    }
    lemma_sample_units(units, units.len() as int);
    law_units_survive_a_round_trip(sample_units(units, units.len() as int));
}

proof fn lemma_sample_units(units: Seq<Seq<u8>>, n: int)
    requires
        0 <= n <= units.len(),
        forall|i: int|
            #![trigger units[i]]
            0 <= i < units.len() ==> units[i].len() <= 0xffff_ffff,
    ensures
        describable(sample_units(units, n)),
    decreases n,
{
    if n > 0 {
        lemma_sample_units(units, n - 1);
        let before = sample_units(units, n - 1);
        let after = sample_units(units, n);
        assert forall|i: int| #![trigger after[i]] 0 <= i < after.len() implies 0 < after[i].len()
            <= 0xffff_ffff by {
            if i < before.len() {
                assert(after[i] == before[i]);
            } else {
                assert(after[i] == units[n - 1]);
            }
        }
    }
}

/// Parameter sets survive the way into an `avcC` record and back: out come the
/// two, each behind a start code.
pub proof fn law_parameter_sets_survive_a_round_trip(sps: Seq<u8>, pps: Seq<u8>)
    requires
        4 <= sps.len() <= 0xffff,
        pps.len() <= 0xffff,
    ensures
        ({
            let record = record_of(sps, pps);
            &&& spec_is_avcc_record(record)
            &&& length_size(record) == 4
            &&& record_sets(record).fault is None
            &&& record_sets(record).out == coded(sps) + coded(pps)
        }),
{
    let record = record_of(sps, pps);
    let n = sps.len() as int;
    let m = pps.len() as int;
    assert(record[5] == 0xE1);
    assert(record.subrange(8, 8 + n) =~= sps);
    assert(record[6] * 256 + record[7] == n);
    let first = copied_sets(record, 6, 1, Seq::empty());
    assert(first == copied_sets(record, 8 + n, 0, Seq::empty() + coded(sps)));
    assert(Seq::<u8>::empty() + coded(sps) =~= coded(sps));
    assert(first.out == coded(sps));
    assert(first.pos == 8 + n);
    assert(record[8 + n] == 1);
    assert(record[9 + n] * 256 + record[10 + n] == m);
    assert(record.subrange(11 + n, 11 + n + m) =~= pps);
    let second = copied_sets(record, 9 + n, 1, coded(sps));
    assert(second == copied_sets(record, 11 + n + m, 0, coded(sps) + coded(pps)));
    assert(0xE1u8 as int % 32 == 1);
}

/// An `avcC` record of two parameter sets that is cut short anywhere is refused:
/// no part of it comes out.
pub proof fn law_cut_records_are_refused(sps: Seq<u8>, pps: Seq<u8>, n: int)
    requires
        4 <= sps.len() <= 0xffff,
        pps.len() <= 0xffff,
        0 <= n < record_of(sps, pps).len(),
    ensures
        ({
            let cut = record_of(sps, pps).take(n);
            !spec_is_avcc_record(cut) || record_sets(cut).fault is Some
        }),
{
    let record = record_of(sps, pps);
    let cut = record.take(n);
    let (a, b) = (sps.len() as int, pps.len() as int);
    if spec_is_avcc_record(cut) {
        assert(cut[5] == 0xE1);
        assert(0xE1u8 as int % 32 == 1);
        let first = copied_sets(cut, 6, 1, Seq::empty());
        if n >= 8 {
            assert(cut[6] == record[6] && cut[7] == record[7]);
            assert(record[6] * 256 + record[7] == a);
            if n >= 8 + a {
                let out = Seq::<u8>::empty() + coded(cut.subrange(8, 8 + a));
                assert(first == copied_sets(cut, 8 + a, 0, out));
                if n > 8 + a {
                    assert(cut[8 + a] == record[8 + a] && record[8 + a] == 1);
                    if n >= 11 + a {
                        assert(cut[9 + a] == record[9 + a] && cut[10 + a] == record[10 + a]);
                        assert(record[9 + a] * 256 + record[10 + a] == b);
                    }
                }
            }
        }
    }
}

/// Start-coded data is never taken for an `avcC` record.
pub proof fn law_start_codes_are_no_record(data: Seq<u8>)
    requires
        data.len() > 0,
        data[0] == 0,
    ensures
        !spec_is_avcc_record(data),
{
}

} // verus!
