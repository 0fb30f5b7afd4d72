//! An Apple Core Audio Format (CAF) container decoder.
//!
//! A CAF file is a fixed 8-byte magic header followed by a sequence of
//! tagged, length-prefixed chunks. [`CafChunkReader`] gives sequential
//! chunk-level access over a seekable byte source; [`CafPacketReader`]
//! is built on top of it and iterates over the packets of the audio
//! data chunk.

pub mod bytes;
pub mod chunks;
pub mod enums;
pub mod error;
pub mod packets;
pub mod reader;
pub mod source;
pub mod vlq;

pub use enums::ChunkType;
pub use enums::FormatType;
pub use error::CafError;
pub use packets::CafPacketReader;
pub use reader::CafChunkReader;
pub use source::ByteSource;
pub use source::SliceSource;
