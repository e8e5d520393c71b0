//! openh264's decoder, as the comparison uses it.
use vstd::prelude::*;
use openh264::formats::YUVSource;

verus! {

/// A picture as openh264 returns it: its planes with their row padding.
#[derive(Debug)]
pub struct Decoded {
    pub width: usize,
    pub height: usize,
    pub y: Vec<u8>,
    pub u: Vec<u8>,
    pub v: Vec<u8>,
    pub strides: [usize; 3],
}

/// A picture as openh264 returns it, with its samples as sequences.
pub struct DecodedModel {
    pub width: usize,
    pub height: usize,
    pub y: Seq<u8>,
    pub u: Seq<u8>,
    pub v: Seq<u8>,
    pub strides: Seq<usize>,
}

impl View for Decoded {
    type V = DecodedModel;

    open spec fn view(&self) -> DecodedModel {
        DecodedModel {
            width: self.width,
            height: self.height,
            y: self.y@,
            u: self.u@,
            v: self.v@,
            strides: self.strides@,
        }
    }
}

/// The models of some pictures.
pub open spec fn decoded_models(list: Seq<Decoded>) -> Seq<DecodedModel> {
    Seq::new(list.len(), |i: int| list[i]@)
}

/// What a decoder has been through, and what it answered.
pub enum Step {
    /// It was given these bytes.
    Given(Seq<u8>, Result<Option<DecodedModel>, Seq<char>>),
    /// It was asked for everything that it held back.
    Drained(Result<Seq<DecodedModel>, Seq<char>>),
}

/// An answer to bytes, with its samples as sequences.
pub open spec fn answer_model(r: Result<Option<Decoded>, String>) -> Result<
    Option<DecodedModel>,
    Seq<char>,
> {
    match r {
        Ok(Some(d)) => Ok(Some(d@)),
        Ok(None) => Ok(None),
        Err(text) => Err(text@),
    }
}

/// What was held back, with its samples as sequences.
pub open spec fn rest_model(r: Result<Vec<Decoded>, String>) -> Result<Seq<DecodedModel>, Seq<char>> {
    match r {
        Ok(list) => Ok(decoded_models(list@)),
        Err(text) => Err(text@),
    }
}

/// A decoder of openh264.
#[verifier::external_body]
pub struct Oracle {
    inner: openh264::decoder::Decoder,
}

/// What a decoder has been through, in order.
pub uninterp spec fn history_of(oracle: Oracle) -> Seq<Step>;

/// openh264's `Decoder::with_api_config`, on the built-in library and a
/// configuration that prints nothing. The decoder has been through nothing.
#[verifier::external_body]
pub(crate) fn open() -> (r: Result<Oracle, String>)
    ensures
        r matches Ok(oracle) ==> history_of(oracle) == Seq::<Step>::empty(),
{
    let config = openh264::decoder::DecoderConfig::new().debug(false);
    let api = openh264::OpenH264API::from_source();
    match openh264::decoder::Decoder::with_api_config(api, config) {
        Ok(inner) => Ok(Oracle { inner }),
        Err(e) => Err(e.to_string()),
    }
}

/// openh264's `Decoder::decode`. What it answers is the decoder's own affair:
/// nothing is said of it here but that it is remembered. The library takes the
/// length as an `i32`.
#[verifier::external_body]
pub(crate) fn give(oracle: &mut Oracle, data: &[u8]) -> (r: Result<Option<Decoded>, String>)
    requires
        data@.len() <= 0x7fff_ffff,
    ensures
        history_of(*final(oracle)) == history_of(*old(oracle)).push(
            Step::Given(data@, answer_model(r)),
        ),
{
    match oracle.inner.decode(data) {
        Ok(Some(p)) => {
            let ((width, height), (a, b, c)) = (p.dimensions(), p.strides());
            let (y, u, v) = (p.y().to_vec(), p.u().to_vec(), p.v().to_vec());
            Ok(Some(Decoded { width, height, y, u, v, strides: [a, b, c] }))
        }
        Ok(None) => Ok(None),
        Err(e) => Err(e.to_string()),
    }
}

/// openh264's `Decoder::flush_remaining`. What it answers is the decoder's own
/// affair, as for [`give`].
#[verifier::external_body]
pub(crate) fn drain(oracle: &mut Oracle) -> (r: Result<Vec<Decoded>, String>)
    ensures
        history_of(*final(oracle)) == history_of(*old(oracle)).push(Step::Drained(rest_model(r))),
{
    let held = oracle.inner.flush_remaining().map_err(|e| e.to_string())?;
    let plain = held.iter().map(|p| {
        let ((width, height), (a, b, c)) = (p.dimensions(), p.strides());
        let (y, u, v) = (p.y().to_vec(), p.u().to_vec(), p.v().to_vec());
        Decoded { width, height, y, u, v, strides: [a, b, c] }
    });
    Ok(plain.collect())
}

} // verus!
