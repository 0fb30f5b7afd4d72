//! Chunk bodies and their decoding.
//!
//! A chunk body is decoded purely from the exact body bytes already
//! read; no further reading happens here. Every fixed-width field is
//! big-endian. Each supported chunk kind has a spec-level parse
//! function saying exactly what the bytes denote, and the executable
//! decoder is proved to return exactly that.
//!
//! Fields the reference format stores as IEEE-754 floating point (the
//! sample rate, the channel coordinates) are carried as their raw bit
//! patterns; this library never computes with them.

use vstd::prelude::*;
use crate::bytes::{
    be_i32_at,
    be_i64_at,
    be_u32_at,
    be_u64_at,
    be_u32_bytes,
    be_u64_bytes,
    lemma_be_u32_round_trip,
    lemma_be_u64_round_trip,
    push_be_u32,
    push_be_u64,
    read_be_i32,
    read_be_i64,
    read_be_u32,
    read_be_u64,
};
use crate::enums::{ChunkType, FormatType, format_type_code, spec_format_code, spec_format_type_of};
use crate::error::CafError;
use crate::vlq::{read_vlq, spec_read_vlq};

verus! {

/// A decoded CAF chunk header.
#[derive(Debug, Clone, Copy, PartialEq, Eq, Structural)]
pub struct CafChunkHeader {
    pub ch_type: ChunkType,
    /// The size of the chunk's body (without the header) in bytes.
    ///
    /// -1 is a sentinel meaning the body extends to the end of the
    /// stream; the format allows it only for the audio data chunk,
    /// which is then necessarily last.
    pub ch_size: i64,
}

/// The decoded Audio Description chunk body.
///
/// `sample_rate_bits` holds the raw bits of the IEEE-754 double
/// sample rate field.
#[derive(Debug, Clone, Copy, PartialEq, Eq, Structural)]
pub struct AudioDescription {
    pub sample_rate_bits: u64,
    pub format_id: FormatType,
    pub format_flags: u32,
    pub bytes_per_packet: u32,
    pub frames_per_packet: u32,
    pub channels_per_frame: u32,
    pub bits_per_channel: u32,
}

/// The decoded Packet Table chunk body. Its `lengths` hold one entry
/// per packet, exactly as many as the chunk declared.
#[derive(Debug, Clone, PartialEq, Eq)]
pub struct PacketTable {
    pub num_valid_frames: i64,
    pub num_priming_frames: i32,
    pub num_remainder_frames: i32,
    pub lengths: Vec<u64>,
}

/// The mathematical value of a [`PacketTable`].
pub struct PacketTableView {
    pub num_valid_frames: i64,
    pub num_priming_frames: i32,
    pub num_remainder_frames: i32,
    pub lengths: Seq<u64>,
}

impl View for PacketTable {
    type V = PacketTableView;

    open spec fn view(&self) -> PacketTableView {
        PacketTableView {
            num_valid_frames: self.num_valid_frames,
            num_priming_frames: self.num_priming_frames,
            num_remainder_frames: self.num_remainder_frames,
            lengths: self.lengths@,
        }
    }
}

/// One channel description of a Channel Layout chunk.
///
/// `coordinates_bits` holds the raw bits of the three IEEE-754 single
/// coordinate fields.
#[derive(Debug, Clone, Copy, PartialEq, Eq, Structural)]
pub struct ChannelDescription {
    pub channel_label: u32,
    pub channel_flags: u32,
    pub coordinates_bits_0: u32,
    pub coordinates_bits_1: u32,
    pub coordinates_bits_2: u32,
}

/// The decoded Channel Layout chunk body.
#[derive(Debug, Clone, PartialEq, Eq)]
pub struct ChannelLayout {
    pub channel_layout_tag: u32,
    pub channel_bitmap: u32,
    pub channel_descriptions: Vec<ChannelDescription>,
}

/// The mathematical value of a [`ChannelLayout`].
pub struct ChannelLayoutView {
    pub channel_layout_tag: u32,
    pub channel_bitmap: u32,
    pub channel_descriptions: Seq<ChannelDescription>,
}

impl View for ChannelLayout {
    type V = ChannelLayoutView;

    open spec fn view(&self) -> ChannelLayoutView {
        ChannelLayoutView {
            channel_layout_tag: self.channel_layout_tag,
            channel_bitmap: self.channel_bitmap,
            channel_descriptions: self.channel_descriptions@,
        }
    }
}

/// An in-memory decoded CAF chunk: one variant per supported kind.
/// Unsupported tags never produce a variant; decoding fails instead.
#[derive(Debug, Clone, PartialEq, Eq)]
pub enum CafChunk {
    Desc(AudioDescription),
    /// The audio data chunk's edit count and its packet payload.
    AudioDataInMemory(u32, Vec<u8>),
    PacketTable(PacketTable),
    ChanLayout(ChannelLayout),
    MagicCookie(Vec<u8>),
    /// Key/value pairs of the Information chunk.
    Info(Vec<(String, String)>),
}

/// The mathematical value of an information-chunk entry list.
pub open spec fn info_view(v: Seq<(String, String)>) -> Seq<(Seq<char>, Seq<char>)> {
    Seq::new(v.len(), |i: int| (v[i].0@, v[i].1@))
}

/// The mathematical value of a [`CafChunk`].
pub enum CafChunkView {
    Desc(AudioDescription),
    AudioDataInMemory(u32, Seq<u8>),
    PacketTable(PacketTableView),
    ChanLayout(ChannelLayoutView),
    MagicCookie(Seq<u8>),
    Info(Seq<(Seq<char>, Seq<char>)>),
}

impl View for CafChunk {
    type V = CafChunkView;

    open spec fn view(&self) -> CafChunkView {
        match self {
            CafChunk::Desc(d) => CafChunkView::Desc(*d),
            CafChunk::AudioDataInMemory(ec, p) => CafChunkView::AudioDataInMemory(*ec, p@),
            CafChunk::PacketTable(t) => CafChunkView::PacketTable(t@),
            CafChunk::ChanLayout(l) => CafChunkView::ChanLayout(l@),
            CafChunk::MagicCookie(b) => CafChunkView::MagicCookie(b@),
            CafChunk::Info(v) => CafChunkView::Info(info_view(v@)),
        }
    }
}

/// The chunk type a decoded chunk value belongs to.
pub open spec fn chunk_view_type(c: CafChunkView) -> ChunkType {
    match c {
        CafChunkView::Desc(_) => ChunkType::AudioDescription,
        CafChunkView::AudioDataInMemory(_, _) => ChunkType::AudioData,
        CafChunkView::PacketTable(_) => ChunkType::PacketTable,
        CafChunkView::ChanLayout(_) => ChunkType::ChannelLayout,
        CafChunkView::MagicCookie(_) => ChunkType::MagicCookie,
        CafChunkView::Info(_) => ChunkType::Info,
    }
}

impl CafChunk {
    /// The chunk type this decoded chunk belongs to.
    pub fn get_type(&self) -> (t: ChunkType)
        ensures
            t == chunk_view_type(self@),
    {
        match self {
            CafChunk::Desc(_) => ChunkType::AudioDescription,
            CafChunk::AudioDataInMemory(_, _) => ChunkType::AudioData,
            CafChunk::PacketTable(_) => ChunkType::PacketTable,
            CafChunk::ChanLayout(_) => ChunkType::ChannelLayout,
            CafChunk::MagicCookie(_) => ChunkType::MagicCookie,
            CafChunk::Info(_) => ChunkType::Info,
        }
    }
}

/// The chunk kinds `decode_chunk` can decode.
pub open spec fn spec_can_decode(chunk_type: ChunkType) -> bool {
    match chunk_type {
        ChunkType::AudioDescription => true,
        ChunkType::AudioData => true,
        ChunkType::PacketTable => true,
        ChunkType::ChannelLayout => true,
        ChunkType::MagicCookie => true,
        ChunkType::Info => true,
        _ => false,
    }
}

/// Returns whether `decode_chunk` can decode chunks with the given
/// type.
pub fn can_decode_chunk_type(chunk_type: ChunkType) -> (r: bool)
    ensures
        r == spec_can_decode(chunk_type),
{
    match chunk_type {
        ChunkType::AudioDescription => true,
        ChunkType::AudioData => true,
        ChunkType::PacketTable => true,
        ChunkType::ChannelLayout => true,
        ChunkType::MagicCookie => true,
        ChunkType::Info => true,
        _ => false,
    }
}

/// The Audio Description record denoted by a body of at least 32
/// bytes.
pub open spec fn spec_audio_description(s: Seq<u8>) -> AudioDescription
    recommends
        s.len() >= 32,
{
    AudioDescription {
        sample_rate_bits: be_u64_at(s, 0) as u64,
        format_id: spec_format_type_of(be_u32_at(s, 8) as u32),
        format_flags: be_u32_at(s, 12) as u32,
        bytes_per_packet: be_u32_at(s, 16) as u32,
        frames_per_packet: be_u32_at(s, 20) as u32,
        channels_per_frame: be_u32_at(s, 24) as u32,
        bits_per_channel: be_u32_at(s, 28) as u32,
    }
}

/// Reads the `n` VLQ-encoded packet lengths that follow `pos`:
/// the lengths and the position after them, or the first error.
pub open spec fn spec_parse_vlq_seq(s: Seq<u8>, pos: int, n: nat) -> Result<
    (Seq<u64>, int),
    CafError,
>
    decreases n,
{
    if n == 0 {
        Ok((Seq::empty(), pos))
    } else {
        match spec_read_vlq(s, pos) {
            Err(e) => Err(e),
            Ok((v, used)) => match spec_parse_vlq_seq(s, pos + used, (n - 1) as nat) {
                Err(e) => Err(e),
                Ok((rest, end)) => Ok((seq![v] + rest, end)),
            },
        }
    }
}

/// The Packet Table record denoted by a chunk body: a 24-byte fixed
/// header declaring the entry count, then that many VLQ lengths.
/// A short body or a negative count is malformed.
pub open spec fn spec_decode_packet_table(s: Seq<u8>) -> Result<PacketTableView, CafError> {
    if s.len() < 24 {
        Err(CafError::MalformedField)
    } else {
        let num_packets = be_i64_at(s, 0);
        if num_packets < 0 {
            Err(CafError::MalformedField)
        } else {
            match spec_parse_vlq_seq(s, 24, num_packets as nat) {
                Err(e) => Err(e),
                Ok((lengths, _end)) => Ok(
                    PacketTableView {
                        num_valid_frames: be_i64_at(s, 8),
                        num_priming_frames: be_i32_at(s, 16),
                        num_remainder_frames: be_i32_at(s, 20),
                        lengths,
                    },
                ),
            }
        }
    }
}

/// The channel description whose 20 bytes start at `i`.
pub open spec fn spec_channel_description_at(s: Seq<u8>, i: int) -> ChannelDescription
    recommends
        0 <= i,
        i + 20 <= s.len(),
{
    ChannelDescription {
        channel_label: be_u32_at(s, i) as u32,
        channel_flags: be_u32_at(s, i + 4) as u32,
        coordinates_bits_0: be_u32_at(s, i + 8) as u32,
        coordinates_bits_1: be_u32_at(s, i + 12) as u32,
        coordinates_bits_2: be_u32_at(s, i + 16) as u32,
    }
}

/// The Channel Layout record denoted by a chunk body: a 12-byte fixed
/// header declaring the description count, then that many 20-byte
/// descriptions. A body too short for them is malformed.
pub open spec fn spec_decode_channel_layout(s: Seq<u8>) -> Result<ChannelLayoutView, CafError> {
    if s.len() < 12 {
        Err(CafError::MalformedField)
    } else {
        let n = be_u32_at(s, 8);
        if s.len() < 12 + n * 20 {
            Err(CafError::MalformedField)
        } else {
            Ok(
                ChannelLayoutView {
                    channel_layout_tag: be_u32_at(s, 0) as u32,
                    channel_bitmap: be_u32_at(s, 4) as u32,
                    channel_descriptions: Seq::new(
                        n as nat,
                        |j: int| spec_channel_description_at(s, 12 + j * 20),
                    ),
                },
            )
        }
    }
}

/// What a byte sequence decodes to as UTF-8, when it does. The result
/// depends on the bytes alone.
pub uninterp spec fn utf8_decode(s: Seq<u8>) -> Option<Seq<char>>;

/// Relies on String::from_utf8: turns bytes into the string they
/// UTF-8-decode to, failing exactly on invalid UTF-8.
#[verifier::external_body]
fn utf8_to_string(bytes: Vec<u8>) -> (r: Result<String, CafError>)
    ensures
        match r {
            Ok(t) => utf8_decode(bytes@) == Some(t@),
            Err(e) => utf8_decode(bytes@) is None && e == CafError::MalformedField,
        },
{
    match String::from_utf8(bytes) {
        Ok(s) => Ok(s),
        Err(_) => Err(CafError::MalformedField),
    }
}

/// How many consecutive bytes from `pos` are not the NUL terminator.
pub open spec fn nonzero_run(s: Seq<u8>, pos: int) -> nat
    decreases s.len() - pos,
{
    if pos < 0 || pos >= s.len() {
        0
    } else if s[pos] != 0 {
        1 + nonzero_run(s, pos + 1)
    } else {
        0
    }
}

/// The bytes of the NUL-terminated string at `pos` (terminator
/// excluded) and the position after it; data ending before a
/// terminator is malformed.
pub open spec fn spec_read_nulterm(s: Seq<u8>, pos: int) -> Result<(Seq<u8>, int), CafError> {
    let run = nonzero_run(s, pos);
    if pos + run >= s.len() {
        Err(CafError::MalformedField)
    } else {
        Ok((s.subrange(pos, pos + run), pos + run + 1 as int))
    }
}

/// Reads the `n` NUL-terminated key/value string pairs from `pos`,
/// each side decoded as UTF-8; a truncated pair or invalid UTF-8 is
/// malformed.
pub open spec fn spec_parse_info_pairs(s: Seq<u8>, pos: int, n: nat) -> Result<
    Seq<(Seq<char>, Seq<char>)>,
    CafError,
>
    decreases n,
{
    if n == 0 {
        Ok(Seq::empty())
    } else {
        match spec_read_nulterm(s, pos) {
            Err(e) => Err(e),
            Ok((kb, p1)) => match spec_read_nulterm(s, p1) {
                Err(e) => Err(e),
                Ok((vb, p2)) => match (utf8_decode(kb), utf8_decode(vb)) {
                    (Some(k), Some(v)) => match spec_parse_info_pairs(s, p2, (n - 1) as nat) {
                        Err(e) => Err(e),
                        Ok(rest) => Ok(seq![(k, v)] + rest),
                    },
                    _ => Err(CafError::MalformedField),
                },
            },
        }
    }
}

/// The Information entries denoted by a chunk body: an entry count,
/// then that many string pairs.
pub open spec fn spec_decode_info(s: Seq<u8>) -> Result<Seq<(Seq<char>, Seq<char>)>, CafError> {
    if s.len() < 4 {
        Err(CafError::MalformedField)
    } else {
        spec_parse_info_pairs(s, 4, be_u32_at(s, 0) as nat)
    }
}

/// What decoding a chunk body yields, for every supported kind, and
/// the error for every other input.
pub open spec fn spec_decode_chunk(chunk_type: ChunkType, s: Seq<u8>) -> Result<
    CafChunkView,
    CafError,
> {
    match chunk_type {
        ChunkType::AudioDescription => if s.len() < 32 {
            Err(CafError::MalformedField)
        } else {
            Ok(CafChunkView::Desc(spec_audio_description(s)))
        },
        ChunkType::AudioData => if s.len() < 4 {
            Err(CafError::MalformedField)
        } else {
            Ok(
                CafChunkView::AudioDataInMemory(
                    be_u32_at(s, 0) as u32,
                    s.subrange(4, s.len() as int),
                ),
            )
        },
        ChunkType::PacketTable => match spec_decode_packet_table(s) {
            Ok(t) => Ok(CafChunkView::PacketTable(t)),
            Err(e) => Err(e),
        },
        ChunkType::ChannelLayout => match spec_decode_channel_layout(s) {
            Ok(l) => Ok(CafChunkView::ChanLayout(l)),
            Err(e) => Err(e),
        },
        ChunkType::MagicCookie => Ok(CafChunkView::MagicCookie(s)),
        ChunkType::Info => match spec_decode_info(s) {
            Ok(ps) => Ok(CafChunkView::Info(ps)),
            Err(e) => Err(e),
        },
        _ => Err(CafError::UnsupportedChunkType(chunk_type)),
    }
}

/// Decodes an Audio Description body.
fn decode_audio_description(content: &Vec<u8>) -> (r: Result<AudioDescription, CafError>)
    ensures
        match r {
            Ok(d) => content@.len() >= 32 && d == spec_audio_description(content@),
            Err(e) => content@.len() < 32 && e == CafError::MalformedField,
        },
{
    if content.len() < 32 {
        return Err(CafError::MalformedField);
    }
    let sample_rate_bits = read_be_u64(content, 0);
    let format_raw = read_be_u32(content, 8);
    let format_flags = read_be_u32(content, 12);
    let bytes_per_packet = read_be_u32(content, 16);
    let frames_per_packet = read_be_u32(content, 20);
    let channels_per_frame = read_be_u32(content, 24);
    let bits_per_channel = read_be_u32(content, 28);
    Ok(
        AudioDescription {
            sample_rate_bits,
            format_id: FormatType::from(format_raw),
            format_flags,
            bytes_per_packet,
            frames_per_packet,
            channels_per_frame,
            bits_per_channel,
        },
    )
}

/// Decodes a Packet Table body.
fn decode_packet_table(content: &Vec<u8>) -> (r: Result<PacketTable, CafError>)
    ensures
        match r {
            Ok(t) => spec_decode_packet_table(content@) == Ok::<PacketTableView, CafError>(t@),
            Err(e) => spec_decode_packet_table(content@) == Err::<PacketTableView, CafError>(e),
        },
{
    if content.len() < 24 {
        return Err(CafError::MalformedField);
    }
    let num_packets = read_be_i64(content, 0);
    if num_packets < 0 {
        return Err(CafError::MalformedField);
    }
    let num_valid_frames = read_be_i64(content, 8);
    let num_priming_frames = read_be_i32(content, 16);
    let num_remainder_frames = read_be_i32(content, 20);
    let n = num_packets as u64;
    let clen = content.len();
    let mut lengths: Vec<u64> = Vec::new();
    let mut pos: usize = 24;
    let mut i: u64 = 0;
    while i < n
        invariant
            i <= n,
            n == num_packets,
            num_packets == be_i64_at(content@, 0),
            clen == content@.len(),
            24 <= pos <= content@.len(),
            spec_parse_vlq_seq(content@, 24, n as nat) == (match spec_parse_vlq_seq(
                content@,
                pos as int,
                (n - i) as nat,
            ) {
                Ok((rest, end)) => Ok::<(Seq<u64>, int), CafError>((lengths@ + rest, end)),
                Err(e) => Err::<(Seq<u64>, int), CafError>(e),
            }),
        decreases n - i,
    {
        match read_vlq(content, pos) {
            Ok((v, used)) => {
                proof {
                    let s = content@;
                    let rem = (n - i) as nat;
                    assert(spec_read_vlq(s, pos as int) == Ok::<(u64, int), CafError>((
                        v,
                        used as int,
                    )));
                    let tail = spec_parse_vlq_seq(s, pos + used, (rem - 1) as nat);
                    if tail is Ok {
                        let (rest, end) = tail->Ok_0;
                        assert(lengths@ + (seq![v] + rest) =~= (lengths@.push(v)) + rest);
                    }
                }
                lengths.push(v);
                pos = pos + used;
                i = i + 1;
            },
            Err(e) => {
                return Err(e);
            },
        }
    }
    proof {
        assert(lengths@ + Seq::<u64>::empty() =~= lengths@);
    }
    Ok(PacketTable { num_valid_frames, num_priming_frames, num_remainder_frames, lengths })
}

/// Decodes a Channel Layout body.
fn decode_channel_layout(content: &Vec<u8>) -> (r: Result<ChannelLayout, CafError>)
    ensures
        match r {
            Ok(l) => spec_decode_channel_layout(content@) == Ok::<ChannelLayoutView, CafError>(
                l@,
            ),
            Err(e) => spec_decode_channel_layout(content@) == Err::<ChannelLayoutView, CafError>(
                e,
            ),
        },
{
    if content.len() < 12 {
        return Err(CafError::MalformedField);
    }
    let channel_layout_tag = read_be_u32(content, 0);
    let channel_bitmap = read_be_u32(content, 4);
    let n = read_be_u32(content, 8);
    let need: u64 = 12 + (n as u64) * 20;
    if (content.len() as u64) < need {
        return Err(CafError::MalformedField);
    }
    let clen = content.len();
    let mut descs: Vec<ChannelDescription> = Vec::new();
    let mut j: u32 = 0;
    while j < n
        invariant
            j <= n,
            clen == content@.len(),
            12 + (n as int) * 20 <= content@.len(),
            descs@ == Seq::new(j as nat, |k: int| spec_channel_description_at(content@, 12 + k * 20)),
        decreases n - j,
    {
        proof {
            assert(12 + (j as int) * 20 + 20 <= 12 + (n as int) * 20) by (nonlinear_arith)
                requires
                    j < n,
            ;
        }
        let base: usize = 12 + (j as usize) * 20;
        let d = ChannelDescription {
            channel_label: read_be_u32(content, base),
            channel_flags: read_be_u32(content, base + 4),
            coordinates_bits_0: read_be_u32(content, base + 8),
            coordinates_bits_1: read_be_u32(content, base + 12),
            coordinates_bits_2: read_be_u32(content, base + 16),
        };
        descs.push(d);
        j = j + 1;
        proof {
            assert(descs@ =~= Seq::new(
                j as nat,
                |k: int| spec_channel_description_at(content@, 12 + k * 20),
            ));
        }
    }
    Ok(ChannelLayout { channel_layout_tag, channel_bitmap, channel_descriptions: descs })
}

/// The run of `m` non-NUL bytes up to a NUL (or the end of the data)
/// pins `nonzero_run` down to `m`.
proof fn lemma_nonzero_run_is(s: Seq<u8>, pos: int, m: int)
    requires
        0 <= pos,
        0 <= m,
        pos + m <= s.len(),
        forall|j: int| pos <= j < pos + m ==> s[j] != 0,
        pos + m == s.len() || s[pos + m] == 0,
    ensures
        nonzero_run(s, pos) == m,
    decreases m,
{
    if m > 0 {
        assert(s[pos] != 0);
        lemma_nonzero_run_is(s, pos + 1, m - 1);
    }
}

/// Reads the NUL-terminated byte string at `pos`, returning its bytes
/// (terminator excluded) and the position after it.
fn read_nulterm(data: &Vec<u8>, pos: usize) -> (r: Result<(Vec<u8>, usize), CafError>)
    requires
        pos <= data@.len(),
    ensures
        match r {
            Ok((b, p2)) => spec_read_nulterm(data@, pos as int) == Ok::<(Seq<u8>, int), CafError>(
                (b@, p2 as int),
            ),
            Err(e) => spec_read_nulterm(data@, pos as int) == Err::<(Seq<u8>, int), CafError>(e),
        },
{
    let n = data.len();
    let mut buf: Vec<u8> = Vec::new();
    let mut i: usize = pos;
    while i < n
        invariant
            pos <= i <= n == data@.len(),
            buf@ == data@.subrange(pos as int, i as int),
            forall|j: int| pos <= j < i ==> data@[j] != 0,
        decreases n - i,
    {
        let b = data[i];
        if b == 0 {
            proof {
                lemma_nonzero_run_is(data@, pos as int, i - pos);
            }
            return Ok((buf, i + 1));
        }
        buf.push(b);
        i = i + 1;
        proof {
            assert(buf@ =~= data@.subrange(pos as int, i as int));
        }
    }
    proof {
        lemma_nonzero_run_is(data@, pos as int, n as int - pos);
    }
    Err(CafError::MalformedField)
}

/// Decodes an Information body.
fn decode_info(content: &Vec<u8>) -> (r: Result<Vec<(String, String)>, CafError>)
    ensures
        match r {
            Ok(v) => spec_decode_info(content@) == Ok::<Seq<(Seq<char>, Seq<char>)>, CafError>(
                info_view(v@),
            ),
            Err(e) => spec_decode_info(content@) == Err::<Seq<(Seq<char>, Seq<char>)>, CafError>(
                e,
            ),
        },
{
    if content.len() < 4 {
        return Err(CafError::MalformedField);
    }
    let n = read_be_u32(content, 0);
    let mut res: Vec<(String, String)> = Vec::new();
    let mut pos: usize = 4;
    let mut i: u32 = 0;
    while i < n
        invariant
            i <= n,
            n == be_u32_at(content@, 0),
            4 <= pos <= content@.len(),
            spec_parse_info_pairs(content@, 4, n as nat) == (match spec_parse_info_pairs(
                content@,
                pos as int,
                (n - i) as nat,
            ) {
                Ok(rest) => Ok::<Seq<(Seq<char>, Seq<char>)>, CafError>(info_view(res@) + rest),
                Err(e) => Err::<Seq<(Seq<char>, Seq<char>)>, CafError>(e),
            }),
        decreases n - i,
    {
        let ghost s = content@;
        let ghost rem = (n - i) as nat;
        let (key_bytes, p1) = match read_nulterm(content, pos) {
            Ok(kp) => kp,
            Err(e) => {
                return Err(e);
            },
        };
        let (val_bytes, p2) = match read_nulterm(content, p1) {
            Ok(vp) => vp,
            Err(e) => {
                return Err(e);
            },
        };
        let ghost kb = key_bytes@;
        let ghost vb = val_bytes@;
        let key = match utf8_to_string(key_bytes) {
            Ok(k) => k,
            Err(e) => {
                return Err(e);
            },
        };
        let val = match utf8_to_string(val_bytes) {
            Ok(v) => v,
            Err(e) => {
                return Err(e);
            },
        };
        proof {
            let tail = spec_parse_info_pairs(s, p2 as int, (rem - 1) as nat);
            if tail is Ok {
                let rest = tail->Ok_0;
                assert(info_view(res@.push((key, val))) =~= info_view(res@).push((key@, val@)));
                assert(info_view(res@) + (seq![(key@, val@)] + rest) =~= info_view(
                    res@.push((key, val)),
                ) + rest);
            }
        }
        res.push((key, val));
        pos = p2;
        i = i + 1;
    }
    proof {
        assert(info_view(res@) + Seq::<(Seq<char>, Seq<char>)>::empty() =~= info_view(res@));
    }
    Ok(res)
}

/// Decodes an in-memory chunk body given its resolved type.
///
/// Exactly the supported kinds decode; any other type fails with
/// `UnsupportedChunkType`, and a body that does not fit its kind's
/// layout fails with the error the kind's parse gives.
pub fn decode_chunk(chunk_type: ChunkType, chunk_content: Vec<u8>) -> (r: Result<
    CafChunk,
    CafError,
>)
    ensures
        match r {
            Ok(c) => spec_decode_chunk(chunk_type, chunk_content@) == Ok::<CafChunkView, CafError>(
                c@,
            ),
            Err(e) => spec_decode_chunk(chunk_type, chunk_content@) == Err::<
                CafChunkView,
                CafError,
            >(e),
        },
{
    match chunk_type {
        ChunkType::AudioDescription => match decode_audio_description(&chunk_content) {
            Ok(d) => Ok(CafChunk::Desc(d)),
            Err(e) => Err(e),
        },
        ChunkType::AudioData => {
            if chunk_content.len() < 4 {
                return Err(CafError::MalformedField);
            }
            let edit_count = read_be_u32(&chunk_content, 0);
            let n = chunk_content.len();
            let mut payload: Vec<u8> = Vec::new();
            let mut i: usize = 4;
            while i < n
                invariant
                    4 <= i <= n == chunk_content@.len(),
                    payload@ == chunk_content@.subrange(4, i as int),
                decreases n - i,
            {
                payload.push(chunk_content[i]);
                i = i + 1;
                proof {
                    assert(payload@ =~= chunk_content@.subrange(4, i as int));
                }
            }
            Ok(CafChunk::AudioDataInMemory(edit_count, payload))
        },
        ChunkType::PacketTable => match decode_packet_table(&chunk_content) {
            Ok(t) => Ok(CafChunk::PacketTable(t)),
            Err(e) => Err(e),
        },
        ChunkType::ChannelLayout => match decode_channel_layout(&chunk_content) {
            Ok(l) => Ok(CafChunk::ChanLayout(l)),
            Err(e) => Err(e),
        },
        ChunkType::MagicCookie => Ok(CafChunk::MagicCookie(chunk_content)),
        ChunkType::Info => match decode_info(&chunk_content) {
            Ok(v) => Ok(CafChunk::Info(v)),
            Err(e) => Err(e),
        },
        _ => Err(CafError::UnsupportedChunkType(chunk_type)),
    }
}

/// Parsing `n` lengths yields exactly `n` lengths.
proof fn lemma_vlq_seq_len(s: Seq<u8>, pos: int, n: nat)
    ensures
        spec_parse_vlq_seq(s, pos, n) matches Ok((lengths, _end)) ==> lengths.len() == n,
    decreases n,
{
    if n > 0 {
        match spec_read_vlq(s, pos) {
            Err(_) => {},
            Ok((_v, used)) => {
                lemma_vlq_seq_len(s, pos + used, (n - 1) as nat);
            },
        }
    }
}

/// A decoded packet table holds exactly as many lengths as the chunk
/// declared.
pub proof fn lemma_packet_table_length(s: Seq<u8>)
    ensures
        spec_decode_packet_table(s) matches Ok(t) ==> s.len() >= 24 && t.lengths.len()
            == be_i64_at(s, 0),
{
    if s.len() >= 24 && be_i64_at(s, 0) >= 0 {
        lemma_vlq_seq_len(s, 24, be_i64_at(s, 0) as nat);
    }
}

/// Parsing a run of VLQs fails only on a malformed or truncated one.
proof fn lemma_vlq_seq_err_kind(s: Seq<u8>, pos: int, n: nat)
    ensures
        spec_parse_vlq_seq(s, pos, n) matches Err(e) ==> (e == CafError::MalformedVlq || e
            == CafError::MalformedField),
    decreases n,
{
    if n > 0 {
        match spec_read_vlq(s, pos) {
            Err(_) => {},
            Ok((_v, used)) => {
                lemma_vlq_seq_err_kind(s, pos + used, (n - 1) as nat);
            },
        }
    }
}

/// Parsing information pairs fails only on a malformed field.
proof fn lemma_info_pairs_err_kind(s: Seq<u8>, pos: int, n: nat)
    ensures
        spec_parse_info_pairs(s, pos, n) matches Err(e) ==> e == CafError::MalformedField,
    decreases n,
{
    if n > 0 {
        match spec_read_nulterm(s, pos) {
            Err(_) => {},
            Ok((kb, p1)) => match spec_read_nulterm(s, p1) {
                Err(_) => {},
                Ok((vb, p2)) => match (utf8_decode(kb), utf8_decode(vb)) {
                    (Some(_), Some(_)) => {
                        lemma_info_pairs_err_kind(s, p2, (n - 1) as nat);
                    },
                    _ => {},
                },
            },
        }
    }
}

/// Decoding a chunk body fails only with a malformed-input kind or
/// the unsupported-type kind: never with an I/O, header, or
/// unbounded-body kind.
pub proof fn lemma_decode_err_kind(t: ChunkType, s: Seq<u8>)
    ensures
        spec_decode_chunk(t, s) matches Err(e) ==> (e == CafError::MalformedField || e
            == CafError::MalformedVlq || e == CafError::UnsupportedChunkType(t)),
{
    match t {
        ChunkType::PacketTable => {
            if s.len() >= 24 && be_i64_at(s, 0) >= 0 {
                lemma_vlq_seq_err_kind(s, 24, be_i64_at(s, 0) as nat);
            }
        },
        ChunkType::Info => {
            if s.len() >= 4 {
                lemma_info_pairs_err_kind(s, 4, be_u32_at(s, 0) as nat);
            }
        },
        _ => {},
    }
}

/// A chunk value only ever decodes under its own chunk type.
pub proof fn lemma_decode_ok_type(t: ChunkType, s: Seq<u8>, c: CafChunkView)
    requires
        spec_decode_chunk(t, s) == Ok::<CafChunkView, CafError>(c),
    ensures
        chunk_view_type(c) == t,
{
    match t {
        ChunkType::AudioDescription => {},
        ChunkType::AudioData => {},
        ChunkType::PacketTable => {},
        ChunkType::ChannelLayout => {},
        ChunkType::MagicCookie => {},
        ChunkType::Info => {},
        _ => {},
    }
}

/// The 32 bytes that denote an audio description record.
pub open spec fn spec_audio_description_bytes(d: AudioDescription) -> Seq<u8> {
    be_u64_bytes(d.sample_rate_bits) + be_u32_bytes(spec_format_code(d.format_id)) + be_u32_bytes(
        d.format_flags,
    ) + be_u32_bytes(d.bytes_per_packet) + be_u32_bytes(d.frames_per_packet) + be_u32_bytes(
        d.channels_per_frame,
    ) + be_u32_bytes(d.bits_per_channel)
}

/// Encodes an audio description record as an Audio Description chunk
/// body.
pub fn encode_audio_description(d: &AudioDescription) -> (r: Vec<u8>)
    ensures
        r@ == spec_audio_description_bytes(*d),
{
    let mut out: Vec<u8> = Vec::new();
    push_be_u64(&mut out, d.sample_rate_bits);
    push_be_u32(&mut out, format_type_code(d.format_id));
    push_be_u32(&mut out, d.format_flags);
    push_be_u32(&mut out, d.bytes_per_packet);
    push_be_u32(&mut out, d.frames_per_packet);
    push_be_u32(&mut out, d.channels_per_frame);
    push_be_u32(&mut out, d.bits_per_channel);
    proof {
        assert(out@ =~= spec_audio_description_bytes(*d));
    }
    out
}

/// Decoding the bytes written for an audio description reproduces
/// every field exactly. The format id must be canonical: an `Other`
/// value carrying a reserved code would resolve to the named variant
/// instead, and no decoded record ever carries one.
pub proof fn lemma_audio_description_round_trip(d: AudioDescription)
    requires
        spec_format_type_of(spec_format_code(d.format_id)) == d.format_id,
    ensures
        spec_decode_chunk(ChunkType::AudioDescription, spec_audio_description_bytes(d)) == Ok::<
            CafChunkView,
            CafError,
        >(CafChunkView::Desc(d)),
{
    let s = spec_audio_description_bytes(d);
    lemma_be_u64_round_trip(d.sample_rate_bits);
    lemma_be_u32_round_trip(spec_format_code(d.format_id));
    lemma_be_u32_round_trip(d.format_flags);
    lemma_be_u32_round_trip(d.bytes_per_packet);
    lemma_be_u32_round_trip(d.frames_per_packet);
    lemma_be_u32_round_trip(d.channels_per_frame);
    lemma_be_u32_round_trip(d.bits_per_channel);
    assert(s.len() == 32);
    assert(s.subrange(0, 8) =~= be_u64_bytes(d.sample_rate_bits));
    assert(s.subrange(8, 12) =~= be_u32_bytes(spec_format_code(d.format_id)));
    assert(s.subrange(12, 16) =~= be_u32_bytes(d.format_flags));
    assert(s.subrange(16, 20) =~= be_u32_bytes(d.bytes_per_packet));
    assert(s.subrange(20, 24) =~= be_u32_bytes(d.frames_per_packet));
    assert(s.subrange(24, 28) =~= be_u32_bytes(d.channels_per_frame));
    assert(s.subrange(28, 32) =~= be_u32_bytes(d.bits_per_channel));
    assert(be_u64_at(s, 0) == be_u64_at(be_u64_bytes(d.sample_rate_bits), 0));
    assert(be_u32_at(s, 8) == be_u32_at(be_u32_bytes(spec_format_code(d.format_id)), 0));
    assert(be_u32_at(s, 12) == be_u32_at(be_u32_bytes(d.format_flags), 0));
    assert(be_u32_at(s, 16) == be_u32_at(be_u32_bytes(d.bytes_per_packet), 0));
    assert(be_u32_at(s, 20) == be_u32_at(be_u32_bytes(d.frames_per_packet), 0));
    assert(be_u32_at(s, 24) == be_u32_at(be_u32_bytes(d.channels_per_frame), 0));
    assert(be_u32_at(s, 28) == be_u32_at(be_u32_bytes(d.bits_per_channel), 0));
    assert(spec_audio_description(s) == d);
}


} // verus!
