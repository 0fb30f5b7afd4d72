//! Identifier registries: chunk tags and audio format ids.
//!
//! The CAF specification reserves a set of 4-character codes for chunk
//! types and another for format ids, and explicitly says both lists are
//! open-ended. Each registry is therefore rendered as an enum with one
//! variant per reserved code plus an `Other` variant carrying the raw
//! 32-bit value, and the mapping from a raw value is total: it never
//! fails.

use vstd::prelude::*;

verus! {

/// Reserved chunk tag "desc" (Audio Description).
pub const AUDIO_DESCRIPTION: u32 = 0x64_65_73_63;
/// Reserved chunk tag "data" (Audio Data).
pub const AUDIO_DATA: u32 = 0x64_61_74_61;
/// Reserved chunk tag "pakt" (Packet Table).
pub const PACKET_TABLE: u32 = 0x70_61_6b_74;
/// Reserved chunk tag "chan" (Channel Layout).
pub const CHANNEL_LAYOUT: u32 = 0x63_68_61_6e;
/// Reserved chunk tag "kuki" (Magic Cookie).
pub const MAGIC_COOKIE: u32 = 0x6b_75_6b_69;
/// Reserved chunk tag "strg" (Strings).
pub const STRINGS: u32 = 0x73_74_42_67;
/// Reserved chunk tag "mark" (Marker).
pub const MARKER: u32 = 0x6d_61_72_6b;
/// Reserved chunk tag "regn" (Region).
pub const REGION: u32 = 0x72_65_67_6e;
/// Reserved chunk tag "inst" (Instrument).
pub const INSTRUMENT: u32 = 0x69_6e_73_74;
/// Reserved chunk tag "midi" (MIDI).
pub const MIDI: u32 = 0x6d_69_64_69;
/// Reserved chunk tag "ovvw" (Overview).
pub const OVERVIEW: u32 = 0x6f_76_76_77;
/// Reserved chunk tag "peak" (Peak).
pub const PEAK: u32 = 0x70_65_61_6b;
/// Reserved chunk tag "edct" (Edit Comments).
pub const EDIT_COMMENTS: u32 = 0x65_64_63_74;
/// Reserved chunk tag "info" (Information).
pub const INFO: u32 = 0x69_6e_66_6f;
/// Reserved chunk tag "umid" (Unique Material Identifier).
pub const UNIQUE_MATERIAL_IDENTIFIER: u32 = 0x75_6d_69_64;
/// Reserved chunk tag "uuid" (User-Defined).
pub const USER_DEFINED: u32 = 0x75_75_69_64;
/// Reserved chunk tag "free" (Free).
pub const FREE: u32 = 0x66_72_65_65;

/// Possible chunk types defined by the CAF specification.
///
/// The chunks in a CAF file after the file header form the uppermost
/// layer of granularity. The specification says the list of reserved
/// tags is not exhaustive; tags outside it are carried verbatim by the
/// `Other` variant.
#[derive(Debug, Clone, Copy, PartialEq, Eq, Structural)]
pub enum ChunkType {
    /// Tag of the "Audio Description" chunk
    AudioDescription,
    /// Tag of the "Audio Data" chunk
    AudioData,
    /// Tag of the "Packet Table" chunk
    PacketTable,
    /// Tag of the "Channel Layout" chunk
    ChannelLayout,
    /// Tag of the "Magic Cookie" chunk
    MagicCookie,
    /// Tag of the "Strings" chunk
    Strings,
    /// Tag of the "Marker" chunk
    Marker,
    /// Tag of the "Region" chunk
    Region,
    /// Tag of the "Instrument" chunk
    Instrument,
    /// Tag of the "MIDI" chunk
    Midi,
    /// Tag of the "Overview" chunk
    Overview,
    /// Tag of the "Peak" chunk
    Peak,
    /// Tag of the "Edit Comments" chunk
    EditComments,
    /// Tag of the "Information" chunk
    Info,
    /// Tag of the "Unique Material Identifier" chunk
    UniqueMaterialIdentifier,
    /// Tag of the "User-Defined" chunk
    UserDefined,
    /// Tag of the "Free" chunk
    Free,
    /// Any tag outside the reserved list, carrying the raw value.
    Other(u32),
}

/// The chunk type a raw 32-bit tag resolves to: total, never a failure.
pub open spec fn spec_chunk_type_of(v: u32) -> ChunkType {
    if v == AUDIO_DESCRIPTION {
        ChunkType::AudioDescription
    } else if v == AUDIO_DATA {
        ChunkType::AudioData
    } else if v == PACKET_TABLE {
        ChunkType::PacketTable
    } else if v == CHANNEL_LAYOUT {
        ChunkType::ChannelLayout
    } else if v == MAGIC_COOKIE {
        ChunkType::MagicCookie
    } else if v == STRINGS {
        ChunkType::Strings
    } else if v == MARKER {
        ChunkType::Marker
    } else if v == REGION {
        ChunkType::Region
    } else if v == INSTRUMENT {
        ChunkType::Instrument
    } else if v == MIDI {
        ChunkType::Midi
    } else if v == OVERVIEW {
        ChunkType::Overview
    } else if v == PEAK {
        ChunkType::Peak
    } else if v == EDIT_COMMENTS {
        ChunkType::EditComments
    } else if v == INFO {
        ChunkType::Info
    } else if v == UNIQUE_MATERIAL_IDENTIFIER {
        ChunkType::UniqueMaterialIdentifier
    } else if v == USER_DEFINED {
        ChunkType::UserDefined
    } else if v == FREE {
        ChunkType::Free
    } else {
        ChunkType::Other(v)
    }
}

impl From<u32> for ChunkType {
    /// Resolves a raw 32-bit chunk tag; values outside the reserved
    /// registry map to `Other`.
    fn from(v: u32) -> (r: Self) {
        match v {
            AUDIO_DESCRIPTION => ChunkType::AudioDescription,
            AUDIO_DATA => ChunkType::AudioData,
            PACKET_TABLE => ChunkType::PacketTable,
            CHANNEL_LAYOUT => ChunkType::ChannelLayout,
            MAGIC_COOKIE => ChunkType::MagicCookie,
            STRINGS => ChunkType::Strings,
            MARKER => ChunkType::Marker,
            REGION => ChunkType::Region,
            INSTRUMENT => ChunkType::Instrument,
            MIDI => ChunkType::Midi,
            OVERVIEW => ChunkType::Overview,
            PEAK => ChunkType::Peak,
            EDIT_COMMENTS => ChunkType::EditComments,
            INFO => ChunkType::Info,
            UNIQUE_MATERIAL_IDENTIFIER => ChunkType::UniqueMaterialIdentifier,
            USER_DEFINED => ChunkType::UserDefined,
            FREE => ChunkType::Free,
            _ => ChunkType::Other(v),
        }
    }
}

impl vstd::std_specs::convert::FromSpecImpl<u32> for ChunkType {
    open spec fn obeys_from_spec() -> bool {
        true
    }

    open spec fn from_spec(v: u32) -> Self {
        spec_chunk_type_of(v)
    }
}

/// Reserved format id "lpcm" (Linear PCM).
pub const LINEAR_PCM: u32 = 0x6c_70_63_6d;
/// Reserved format id "ima4" (IMA 4:1 ADPCM).
pub const APPLE_IMA4: u32 = 0x69_6d_61_34;
/// Reserved format id "aac " (MPEG-4 AAC).
pub const MPEG4_AAC: u32 = 0x61_61_63_20;
/// Reserved format id "MAC3" (MACE 3:1).
pub const MACE3: u32 = 0x4d_41_43_33;
/// Reserved format id "MAC6" (MACE 6:1).
pub const MACE6: u32 = 0x4d_41_43_36;
/// Reserved format id "ulaw" (uLaw 2:1).
pub const U_LAW: u32 = 0x75_6c_61_77;
/// Reserved format id "alaw" (aLaw 2:1).
pub const A_LAW: u32 = 0x61_6c_61_77;
/// Reserved format id ".mp1" (MPEG-1 layer 1).
pub const MPEG_LAYER_1: u32 = 0x2e_6d_70_31;
/// Reserved format id ".mp2" (MPEG layer 2).
pub const MPEG_LAYER_2: u32 = 0x2e_6d_70_32;
/// Reserved format id ".mp3" (MPEG layer 3).
pub const MPEG_LAYER_3: u32 = 0x2e_6d_70_33;
/// Reserved format id "alac" (Apple Lossless).
pub const AAPL_LOSSLESS: u32 = 0x61_6c_61_63;

/// Payload format types defined by the CAF specification.
///
/// One variant for each reserved format id; the list is open-ended, so
/// unreserved values are carried verbatim by the `Other` variant.
#[derive(Debug, Clone, Copy, PartialEq, Eq, Structural)]
pub enum FormatType {
    /// Format id of Linear PCM
    LinearPcm,
    /// Format id of IMA 4:1 ADPCM
    AppleIma4,
    /// Format id of MPEG-4 AAC
    Mpeg4Aac,
    /// Format id of MACE 3:1
    Mace3,
    /// Format id of MACE 6:1
    Mace6,
    /// Format id of uLaw 2:1
    Ulaw,
    /// Format id of aLaw 2:1
    Alaw,
    /// Format id of MPEG-1
    MpegLayer1,
    /// Format id of MPEG-{1,2}
    MpegLayer2,
    /// Format id of MPEG-{1,2,3}
    MpegLayer3,
    /// Format id of Apple Lossless
    AppleLossless,
    /// Any format id outside the reserved list, carrying the raw value.
    Other(u32),
}

/// The format type a raw 32-bit format id resolves to: total, never a
/// failure.
pub open spec fn spec_format_type_of(v: u32) -> FormatType {
    if v == LINEAR_PCM {
        FormatType::LinearPcm
    } else if v == APPLE_IMA4 {
        FormatType::AppleIma4
    } else if v == MPEG4_AAC {
        FormatType::Mpeg4Aac
    } else if v == MACE3 {
        FormatType::Mace3
    } else if v == MACE6 {
        FormatType::Mace6
    } else if v == U_LAW {
        FormatType::Ulaw
    } else if v == A_LAW {
        FormatType::Alaw
    } else if v == MPEG_LAYER_1 {
        FormatType::MpegLayer1
    } else if v == MPEG_LAYER_2 {
        FormatType::MpegLayer2
    } else if v == MPEG_LAYER_3 {
        FormatType::MpegLayer3
    } else if v == AAPL_LOSSLESS {
        FormatType::AppleLossless
    } else {
        FormatType::Other(v)
    }
}

impl From<u32> for FormatType {
    /// Resolves a raw 32-bit format id; values outside the reserved
    /// registry map to `Other`.
    fn from(v: u32) -> (r: Self) {
        match v {
            LINEAR_PCM => FormatType::LinearPcm,
            APPLE_IMA4 => FormatType::AppleIma4,
            MPEG4_AAC => FormatType::Mpeg4Aac,
            MACE3 => FormatType::Mace3,
            MACE6 => FormatType::Mace6,
            U_LAW => FormatType::Ulaw,
            A_LAW => FormatType::Alaw,
            MPEG_LAYER_1 => FormatType::MpegLayer1,
            MPEG_LAYER_2 => FormatType::MpegLayer2,
            MPEG_LAYER_3 => FormatType::MpegLayer3,
            AAPL_LOSSLESS => FormatType::AppleLossless,
            _ => FormatType::Other(v),
        }
    }
}

impl vstd::std_specs::convert::FromSpecImpl<u32> for FormatType {
    open spec fn obeys_from_spec() -> bool {
        true
    }

    open spec fn from_spec(v: u32) -> Self {
        spec_format_type_of(v)
    }
}

/// The raw 32-bit format id a format type stands for: the reserved
/// code of a named variant, or the value `Other` carries.
pub open spec fn spec_format_code(f: FormatType) -> u32 {
    match f {
        FormatType::LinearPcm => LINEAR_PCM,
        FormatType::AppleIma4 => APPLE_IMA4,
        FormatType::Mpeg4Aac => MPEG4_AAC,
        FormatType::Mace3 => MACE3,
        FormatType::Mace6 => MACE6,
        FormatType::Ulaw => U_LAW,
        FormatType::Alaw => A_LAW,
        FormatType::MpegLayer1 => MPEG_LAYER_1,
        FormatType::MpegLayer2 => MPEG_LAYER_2,
        FormatType::MpegLayer3 => MPEG_LAYER_3,
        FormatType::AppleLossless => AAPL_LOSSLESS,
        FormatType::Other(v) => v,
    }
}

/// The raw 32-bit format id a format type stands for.
pub fn format_type_code(f: FormatType) -> (r: u32)
    ensures
        r == spec_format_code(f),
{
    match f {
        FormatType::LinearPcm => LINEAR_PCM,
        FormatType::AppleIma4 => APPLE_IMA4,
        FormatType::Mpeg4Aac => MPEG4_AAC,
        FormatType::Mace3 => MACE3,
        FormatType::Mace6 => MACE6,
        FormatType::Ulaw => U_LAW,
        FormatType::Alaw => A_LAW,
        FormatType::MpegLayer1 => MPEG_LAYER_1,
        FormatType::MpegLayer2 => MPEG_LAYER_2,
        FormatType::MpegLayer3 => MPEG_LAYER_3,
        FormatType::AppleLossless => AAPL_LOSSLESS,
        FormatType::Other(v) => v,
    }
}

} // verus!
