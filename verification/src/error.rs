//! The error kinds a decoding operation can fail with.
//!
//! Every failure propagates to the immediate caller as a typed result;
//! nothing is silently swallowed, and nothing is retried.

use vstd::prelude::*;
use crate::enums::ChunkType;

verus! {

/// Everything that can go wrong while decoding a CAF container.
#[derive(Debug, Clone, Copy, PartialEq, Eq, Structural)]
pub enum CafError {
    /// The underlying byte source failed a read or a seek (short read,
    /// end of stream, or a byte span outside the signed 64-bit range
    /// that every seekable source is limited to).
    Io,
    /// The given stream doesn't start with a CAF header.
    NotCaf,
    /// The chunk can't be decoded because its type is not supported.
    UnsupportedChunkType(ChunkType),
    /// A chunk body holds a malformed field: a truncated fixed-width
    /// field, a truncated variable-length integer, a truncated or
    /// non-UTF-8 string pair, or a negative count.
    MalformedField,
    /// A variable-length integer's continuation-bit run exceeds the
    /// byte cap.
    MalformedVlq,
    /// The "body extends to the end of the stream" size sentinel was
    /// met where the requested operation is incompatible with an
    /// unbounded body.
    UnboundedChunkRead,
}

} // verus!
