//! A frame-coded H.264 decoder and the media plumbing around it.
pub mod codec;
pub mod error;
pub mod liteenc;
pub mod media;
pub mod probe;
pub mod registry;
pub mod text;
pub mod time;
