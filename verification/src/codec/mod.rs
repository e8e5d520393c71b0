//! Codecs.
pub mod av1;
pub mod h264;
