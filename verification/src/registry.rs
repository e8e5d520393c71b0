//! Which codecs can be read from and written to which containers.
use vstd::prelude::*;
use crate::media::Codec;
use crate::probe::Container;

verus! {

/// Whether a track of this codec can be read from this container. Matroska
/// takes every codec; the others that can be read hold H.264 alone.
pub open spec fn readable(container: Container, codec: Codec) -> bool {
    match container {
        Container::Matroska => true,
        Container::AnnexB | Container::Mp4 | Container::MpegTs => codec == Codec::H264,
        Container::WebM => false,
    }
}

/// Whether a track of this codec can be written to this container.
pub open spec fn writable(container: Container, codec: Codec) -> bool {
    match container {
        Container::Matroska => true,
        Container::Mp4 => codec == Codec::H264,
        Container::WebM => codec == Codec::Av1 || codec == Codec::Vp8 || codec == Codec::Vp9
            || codec == Codec::Vorbis || codec == Codec::Opus,
        Container::AnnexB | Container::MpegTs => false,
    }
}

/// Whether a track of this codec can be read from this container.
pub fn can_read(container: Container, codec: Codec) -> (r: bool)
    ensures
        r == readable(container, codec),
{
    match container {
        Container::Matroska => true,
        Container::AnnexB | Container::Mp4 | Container::MpegTs => codec == Codec::H264,
        Container::WebM => false,
    }
}

/// Whether a track of this codec can be written to this container.
pub fn can_write(container: Container, codec: Codec) -> (r: bool)
    ensures
        r == writable(container, codec),
{
    match container {
        Container::Matroska => true,
        Container::Mp4 => codec == Codec::H264,
        Container::WebM => codec == Codec::Av1 || codec == Codec::Vp8 || codec == Codec::Vp9
            || codec == Codec::Vorbis || codec == Codec::Opus,
        Container::AnnexB | Container::MpegTs => false,
    }
}

} // verus!
