//! Packet-level reading over the audio data chunk.
//!
//! A [`CafPacketReader`] drives a [`CafChunkReader`] through a
//! two-pass chunk discovery at construction: one scan that must find
//! the Audio Description chunk (capturing the Packet Table and any
//! caller-requested chunk types on the way), a second scan for the
//! Packet Table when the description demands one, and then a seek to
//! the start of the audio data chunk's body — backward, by the exact
//! byte span of the chunks skipped since it was passed, when its
//! header was already seen, and forward otherwise. After the 4-byte
//! edit count the reader exposes byte-accurate sequential and random
//! packet access.
//!
//! The session state — packet cursor and byte offset within the audio
//! body — is owned exclusively by the reader and advances only
//! through its own operations.

use vstd::prelude::*;
use crate::bytes::be_u32_at;
use crate::chunks::{
    chunk_view_type,
    lemma_decode_ok_type,
    spec_decode_chunk,
    AudioDescription,
    CafChunk,
    CafChunkHeader,
    CafChunkView,
    PacketTable,
    PacketTableView,
};
use crate::enums::ChunkType;
use crate::error::CafError;
use crate::reader::{
    scan_capture_ok,
    scan_header_ok,
    spec_captured,
    spec_chunk_pos,
    spec_header_at,
    CafChunkReader,
};
use crate::source::ByteSource;

verus! {

/// Every header of the log parses from the stream at its chunk
/// position after `start`.
pub open spec fn headers_chain(data: Seq<u8>, start: int, hdrs: Seq<CafChunkHeader>) -> bool {
    forall|k: int| 0 <= k < hdrs.len() ==> #[trigger] scan_header_ok(data, start, hdrs, k)
}

/// The description was not invented: somewhere in the stream stands
/// a chunk header with the Audio Description type whose body decodes
/// to exactly this record.
pub open spec fn desc_from_stream(data: Seq<u8>, d: AudioDescription) -> bool {
    exists|p: int|
        {
            &&& (#[trigger] spec_header_at(data, p)).ch_type == ChunkType::AudioDescription
            &&& spec_decode_chunk(
                ChunkType::AudioDescription,
                data.subrange(p + 12, p + 12 + spec_header_at(data, p).ch_size),
            ) == Ok::<CafChunkView, CafError>(CafChunkView::Desc(d))
        }
}

/// The packet table was not invented: somewhere in the stream stands
/// a chunk header with the Packet Table type whose body decodes to
/// exactly this table.
pub open spec fn table_from_stream(data: Seq<u8>, t: PacketTableView) -> bool {
    exists|p: int|
        {
            &&& (#[trigger] spec_header_at(data, p)).ch_type == ChunkType::PacketTable
            &&& spec_decode_chunk(
                ChunkType::PacketTable,
                data.subrange(p + 12, p + 12 + spec_header_at(data, p).ch_size),
            ) == Ok::<CafChunkView, CafError>(CafChunkView::PacketTable(t))
        }
}

/// The reader stands at a genuine audio data chunk: a chunk header
/// with the Audio Data type and the recorded body length sits
/// immediately before the body start.
pub open spec fn packet_reader_placed(data: Seq<u8>, body_start: int, chunk_len: i64) -> bool {
    spec_header_at(data, body_start - 12) == (CafChunkHeader {
        ch_type: ChunkType::AudioData,
        ch_size: chunk_len,
    })
}

/// Chunk positions compose: the `k`-th chunk after the `m`-th chunk
/// is the `(m+k)`-th chunk.
proof fn lemma_chunk_pos_add(s: Seq<u8>, start: int, m: nat, k: nat)
    ensures
        spec_chunk_pos(s, spec_chunk_pos(s, start, m), k) == spec_chunk_pos(
            s,
            start,
            (m + k) as nat,
        ),
    decreases k,
{
    if k > 0 {
        lemma_chunk_pos_add(s, start, m, (k - 1) as nat);
    }
}

/// Two consecutive header chains concatenate into one chain, and the
/// end position of the whole is the end position of the second.
proof fn lemma_chain_concat(
    data: Seq<u8>,
    start: int,
    h1: Seq<CafChunkHeader>,
    h2: Seq<CafChunkHeader>,
)
    requires
        headers_chain(data, start, h1),
        headers_chain(data, spec_chunk_pos(data, start, h1.len() as nat), h2),
    ensures
        headers_chain(data, start, h1 + h2),
        spec_chunk_pos(data, start, (h1 + h2).len() as nat) == spec_chunk_pos(
            data,
            spec_chunk_pos(data, start, h1.len() as nat),
            h2.len() as nat,
        ),
{
    let mid = spec_chunk_pos(data, start, h1.len() as nat);
    assert forall|k: int| 0 <= k < (h1 + h2).len() implies #[trigger] scan_header_ok(
        data,
        start,
        h1 + h2,
        k,
    ) by {
        if k < h1.len() {
            assert(scan_header_ok(data, start, h1, k));
            assert((h1 + h2)[k] == h1[k]);
        } else {
            assert(scan_header_ok(data, mid, h2, k - h1.len()));
            assert((h1 + h2)[k] == h2[k - h1.len()]);
            lemma_chunk_pos_add(data, start, h1.len() as nat, (k - h1.len()) as nat);
        }
    }
    lemma_chunk_pos_add(data, start, h1.len() as nat, h2.len() as nat);
}

/// Appends a header log to another.
fn append_headers(dst: &mut Vec<CafChunkHeader>, src: &Vec<CafChunkHeader>)
    ensures
        final (dst)@ == old(dst)@ + src@,
{
    let mut i: usize = 0;
    while i < src.len()
        invariant
            i <= src@.len(),
            dst@ == old(dst)@ + src@.take(i as int),
        decreases src@.len() - i,
    {
        dst.push(src[i]);
        i = i + 1;
        proof {
            assert(dst@ =~= old(dst)@ + src@.take(i as int));
        }
    }
    proof {
        assert(dst@ =~= old(dst)@ + src@);
    }
}

/// Moves every chunk of `src` onto the end of `dst`, in order.
fn append_chunks(dst: &mut Vec<CafChunk>, src: Vec<CafChunk>)
    ensures
        final (dst)@ == old(dst)@ + src@,
{
    let mut src = src;
    let ghost src0 = src@;
    while src.len() > 0
        invariant
            dst@ + src@ == old(dst)@ + src0,
        decreases src@.len(),
    {
        let c = src.remove(0);
        dst.push(c);
        proof {
            assert(dst@ + src@ =~= old(dst)@ + src0);
        }
    }
    proof {
        assert(dst@ =~= dst@ + src@);
    }
}

/// The byte span from the start of chunk `k0` to the end of the last
/// logged chunk: what a backward seek must cover, plus one header.
fn chunks_span(
    headers: &Vec<CafChunkHeader>,
    k0: usize,
    Ghost(data): Ghost<Seq<u8>>,
    Ghost(start): Ghost<int>,
) -> (r: Result<i64, CafError>)
    requires
        k0 < headers@.len(),
        headers_chain(data, start, headers@),
    ensures
        match r {
            Ok(b) => b == spec_chunk_pos(data, start, headers@.len() as nat) - spec_chunk_pos(
                data,
                start,
                k0 as nat,
            ) && b >= 0,
            Err(e) => e == CafError::Io,
        },
{
    let n = headers.len();
    let mut back: i64 = 0;
    let mut u: usize = k0;
    while u < n
        invariant
            k0 <= u <= n == headers@.len(),
            headers_chain(data, start, headers@),
            back == spec_chunk_pos(data, start, u as nat) - spec_chunk_pos(data, start, k0 as nat),
            back >= 0,
        decreases n - u,
    {
        let h = headers[u];
        proof {
            assert(scan_header_ok(data, start, headers@, u as int));
        }
        if h.ch_size > i64::MAX - 12 - back {
            return Err(CafError::Io);
        }
        back = back + 12 + h.ch_size;
        u = u + 1;
        proof {
            assert(spec_chunk_pos(data, start, u as nat) == spec_chunk_pos(
                data,
                start,
                (u - 1) as nat,
            ) + 12 + spec_header_at(data, spec_chunk_pos(data, start, (u - 1) as nat)).ch_size);
        }
    }
    Ok(back)
}

/// High-level packet reading: an iterator-like view over the packets
/// of the audio data chunk.
pub struct CafPacketReader<T: ByteSource> {
    ch_rdr: CafChunkReader<T>,
    /// The mandatory Audio Description chunk, consumed at
    /// construction.
    pub audio_desc: AudioDescription,
    /// The Packet Table chunk. Present exactly when the description's
    /// `bytes_per_packet` or `frames_per_packet` is zero; a table the
    /// scan captured although sizes are constant stays among the
    /// ordinary chunks instead.
    pub packet_table: Option<PacketTable>,
    /// The other chunks captured during construction, in scan order.
    pub chunks: Vec<CafChunk>,
    /// The edit count stored at the start of the audio data chunk's
    /// body.
    pub edit_count: u32,
    audio_chunk_len: i64,
    audio_chunk_offs: i64,
    packet_idx: usize,
    body_start: Ghost<int>,
}

impl<T: ByteSource> CafPacketReader<T> {
    /// The source's whole byte stream.
    pub closed spec fn data(&self) -> Seq<u8> {
        self.ch_rdr.data()
    }

    /// The reader's position in the stream.
    pub closed spec fn stream_pos(&self) -> int {
        self.ch_rdr.pos()
    }

    /// Where the audio data chunk's body begins in the stream.
    pub closed spec fn body_start(&self) -> int {
        self.body_start@
    }

    /// The audio data chunk's declared body length; -1 means the body
    /// extends to the end of the stream.
    pub closed spec fn chunk_len(&self) -> i64 {
        self.audio_chunk_len
    }

    /// The byte offset within the audio data body; starts at 4, past
    /// the edit count.
    pub closed spec fn offs(&self) -> int {
        self.audio_chunk_offs as int
    }

    /// The packet cursor: the index of the next packet to read.
    pub closed spec fn cursor(&self) -> int {
        self.packet_idx as int
    }

    /// The session-state invariant, fixed at construction: a packet
    /// table is present exactly when the description makes packet
    /// sizes non-constant; the declared body length is -1 or
    /// non-negative; the byte offset is non-negative; and the stream
    /// position sits exactly at the body start plus that offset.
    pub closed spec fn wf(&self) -> bool {
        &&& ((self.audio_desc.bytes_per_packet == 0 || self.audio_desc.frames_per_packet == 0)
            <==> self.packet_table is Some)
        &&& self.audio_chunk_len >= -1
        &&& self.audio_chunk_offs >= 0
        &&& self.ch_rdr.pos() == self.body_start@ + self.audio_chunk_offs
    }

    /// The packet table's mathematical value, when one is present.
    pub closed spec fn table_view(&self) -> Option<PacketTableView> {
        match self.packet_table {
            Some(t) => Some(t@),
            None => None,
        }
    }

    /// The audio description this reader was built around.
    pub closed spec fn spec_desc(&self) -> AudioDescription {
        self.audio_desc
    }

    /// The edit count read from the audio data chunk's body.
    pub closed spec fn spec_edit_count(&self) -> u32 {
        self.edit_count
    }

    /// Creates a packet reader from a source: reads the container
    /// header, then performs the construction scan. Equal to calling
    /// `CafChunkReader::new` and passing its result on.
    pub fn new(rdr: T, filter_by: Vec<ChunkType>) -> (r: Result<Self, CafError>)
        ensures
            match r {
                Ok(pr) => {
                    &&& pr.wf()
                    &&& pr.cursor() == 0
                    &&& pr.offs() == 4
                    &&& pr.data() == rdr.data()
                    &&& packet_reader_placed(pr.data(), pr.body_start(), pr.chunk_len())
                    &&& pr.body_start() + 4 <= pr.data().len()
                    &&& pr.spec_edit_count() as int == be_u32_at(pr.data(), pr.body_start())
                    &&& pr.stream_pos() == pr.body_start() + 4
                    &&& desc_from_stream(pr.data(), pr.spec_desc())
                    &&& (pr.table_view() is Some <==> (pr.spec_desc().bytes_per_packet == 0
                        || pr.spec_desc().frames_per_packet == 0))
                    &&& (match pr.table_view() {
                        Some(t) => table_from_stream(pr.data(), t),
                        None => true,
                    })
                },
                Err(_) => true,
            },
    {
        let ch_rdr = match CafChunkReader::new(rdr) {
            Ok(c) => c,
            Err(e) => {
                return Err(e);
            },
        };
        CafPacketReader::from_chunk_reader(ch_rdr, filter_by)
    }

    /// Creates a packet reader from an already-positioned chunk
    /// reader.
    ///
    /// `filter_by` names additional chunk types to capture; the Audio
    /// Description, Packet Table and Audio Data types are handled
    /// implicitly and should not be in it. A scan that ends without an
    /// Audio Description chunk, or without a Packet Table where the
    /// description requires one, is a fatal construction error,
    /// reported at once as `MalformedField`.
    #[verifier::rlimit(100)]
    pub fn from_chunk_reader(ch_rdr: CafChunkReader<T>, filter_by: Vec<ChunkType>) -> (r: Result<
        Self,
        CafError,
    >)
        ensures
            match r {
                Ok(pr) => {
                    &&& pr.wf()
                    &&& pr.cursor() == 0
                    &&& pr.offs() == 4
                    &&& pr.data() == ch_rdr.data()
                    &&& packet_reader_placed(pr.data(), pr.body_start(), pr.chunk_len())
                    &&& pr.body_start() + 4 <= pr.data().len()
                    &&& pr.spec_edit_count() as int == be_u32_at(pr.data(), pr.body_start())
                    &&& pr.stream_pos() == pr.body_start() + 4
                    &&& desc_from_stream(pr.data(), pr.spec_desc())
                    &&& (pr.table_view() is Some <==> (pr.spec_desc().bytes_per_packet == 0
                        || pr.spec_desc().frames_per_packet == 0))
                    &&& (match pr.table_view() {
                        Some(t) => table_from_stream(pr.data(), t),
                        None => true,
                    })
                },
                Err(_) => true,
            },
    {
        let ghost data = ch_rdr.data();
        let mut ch_rdr = ch_rdr;
        let ghost start1 = ch_rdr.pos();
        let mut filter_by = filter_by;
        filter_by.push(ChunkType::AudioDescription);
        let mut content_read: Vec<ChunkType> = Vec::new();
        let mut ci: usize = 0;
        while ci < filter_by.len()
            invariant
                ci <= filter_by@.len(),
                content_read@ == filter_by@.take(ci as int),
            decreases filter_by@.len() - ci,
        {
            content_read.push(filter_by[ci]);
            ci = ci + 1;
            proof {
                assert(content_read@ =~= filter_by@.take(ci as int));
            }
        }
        proof {
            assert(content_read@ =~= filter_by@);
        }
        content_read.push(ChunkType::PacketTable);
        let ghost cap = content_read@;

        // 1. Read the chunks we need to memory.
        let (mut chunks_in_mem, mut scan_headers) = match ch_rdr.read_chunks_to_mem(
            filter_by,
            content_read.as_slice(),
        ) {
            Ok(x) => x,
            Err(e) => {
                return Err(e);
            },
        };

        // 2. Extract the Audio Description chunk.
        let ghost hdrs1 = scan_headers@;
        let ghost chunks0 = chunks_in_mem@;
        let mut audio_desc_idx: Option<usize> = None;
        let mut i: usize = 0;
        while i < chunks_in_mem.len()
            invariant
                i <= chunks_in_mem@.len(),
                chunks0 == chunks_in_mem@,
                match audio_desc_idx {
                    Some(x) => x < chunks_in_mem@.len() && chunk_view_type(
                        chunks_in_mem@[x as int]@,
                    ) == ChunkType::AudioDescription,
                    None => true,
                },
            decreases chunks_in_mem@.len() - i,
        {
            let is_desc = match chunks_in_mem[i].get_type() {
                ChunkType::AudioDescription => true,
                _ => false,
            };
            if is_desc {
                audio_desc_idx = Some(i);
                break ;
            }
            i = i + 1;
        }
        let audio_desc = match audio_desc_idx {
            Some(idx) => match chunks_in_mem.remove(idx) {
                CafChunk::Desc(d) => d,
                _ => {
                    return Err(CafError::MalformedField);
                },
            },
            None => {
                return Err(CafError::MalformedField);
            },
        };
        proof {
            let idx = audio_desc_idx->0 as int;
            assert(chunks0[idx]@ == CafChunkView::Desc(audio_desc));
            assert(scan_capture_ok(data, start1, hdrs1, cap, chunks0, idx));
            let k = spec_captured(hdrs1, cap)[idx];
            let p = spec_chunk_pos(data, start1, k as nat);
            lemma_decode_ok_type(
                hdrs1[k].ch_type,
                data.subrange(p + 12, p + 12 + hdrs1[k].ch_size),
                CafChunkView::Desc(audio_desc),
            );
            assert(scan_header_ok(data, start1, hdrs1, k));
            assert(spec_header_at(data, p).ch_type == ChunkType::AudioDescription);
            assert(desc_from_stream(data, audio_desc));
        }
        let p_table_required = audio_desc.bytes_per_packet == 0 || audio_desc.frames_per_packet
            == 0;

        // 3. Extract the Packet Table chunk when the description makes
        // packet sizes non-constant, scanning further for it when it
        // was not captured yet. When sizes are constant no table is
        // kept: a captured one stays among the ordinary chunks.
        let mut packet_table: Option<PacketTable> = None;
        if p_table_required {
            let ghost chunks1 = chunks_in_mem@;
            let mut packet_table_idx: Option<usize> = None;
            let mut j: usize = 0;
            while j < chunks_in_mem.len()
                invariant
                    j <= chunks_in_mem@.len(),
                    chunks1 == chunks_in_mem@,
                    match packet_table_idx {
                        Some(x) => x < chunks_in_mem@.len() && chunk_view_type(
                            chunks_in_mem@[x as int]@,
                        ) == ChunkType::PacketTable,
                        None => true,
                    },
                decreases chunks_in_mem@.len() - j,
            {
                let is_table = match chunks_in_mem[j].get_type() {
                    ChunkType::PacketTable => true,
                    _ => false,
                };
                if is_table {
                    packet_table_idx = Some(j);
                    break ;
                }
                j = j + 1;
            }
            match packet_table_idx {
                Some(idx) => {
                    match chunks_in_mem.remove(idx) {
                        CafChunk::PacketTable(t) => {
                            proof {
                                // The found chunk is one of the first
                                // scan's captures, shifted by the earlier
                                // removal of the description.
                                let di = audio_desc_idx->0 as int;
                                let oi: int = if idx < di {
                                    idx as int
                                } else {
                                    idx + 1
                                };
                                assert(chunks1[idx as int] == chunks0[oi]);
                                assert(scan_capture_ok(data, start1, hdrs1, cap, chunks0, oi));
                                let k = spec_captured(hdrs1, cap)[oi];
                                let pch = spec_chunk_pos(data, start1, k as nat);
                                lemma_decode_ok_type(
                                    hdrs1[k].ch_type,
                                    data.subrange(pch + 12, pch + 12 + hdrs1[k].ch_size),
                                    CafChunkView::PacketTable(t@),
                                );
                                assert(scan_header_ok(data, start1, hdrs1, k));
                                assert(table_from_stream(data, t@));
                            }
                            packet_table = Some(t);
                        },
                        _ => {
                            return Err(CafError::MalformedField);
                        },
                    }
                },
                None => {
                    let mut req2: Vec<ChunkType> = Vec::new();
                    req2.push(ChunkType::PacketTable);
                    let ghost start2 = ch_rdr.pos();
                    let (mut chunks2, hdrs2) = match ch_rdr.read_chunks_to_mem(
                        req2,
                        content_read.as_slice(),
                    ) {
                        Ok(x) => x,
                        Err(e) => {
                            return Err(e);
                        },
                    };
                    let ghost c2 = chunks2@;
                    let mut table_idx2: Option<usize> = None;
                    let mut m: usize = 0;
                    while m < chunks2.len()
                        invariant
                            m <= chunks2@.len(),
                            c2 == chunks2@,
                            match table_idx2 {
                                Some(x) => x < chunks2@.len() && chunk_view_type(
                                    chunks2@[x as int]@,
                                ) == ChunkType::PacketTable,
                                None => true,
                            },
                        decreases chunks2@.len() - m,
                    {
                        let is_table = match chunks2[m].get_type() {
                            ChunkType::PacketTable => true,
                            _ => false,
                        };
                        if is_table {
                            table_idx2 = Some(m);
                            break ;
                        }
                        m = m + 1;
                    }
                    match table_idx2 {
                        Some(ti) => match chunks2.remove(ti) {
                            CafChunk::PacketTable(t) => {
                                proof {
                                    assert(scan_capture_ok(
                                        data,
                                        start2,
                                        hdrs2@,
                                        cap,
                                        c2,
                                        ti as int,
                                    ));
                                    let k = spec_captured(hdrs2@, cap)[ti as int];
                                    let pch = spec_chunk_pos(data, start2, k as nat);
                                    lemma_decode_ok_type(
                                        hdrs2@[k].ch_type,
                                        data.subrange(pch + 12, pch + 12 + hdrs2@[k].ch_size),
                                        CafChunkView::PacketTable(t@),
                                    );
                                    assert(scan_header_ok(data, start2, hdrs2@, k));
                                    assert(table_from_stream(data, t@));
                                }
                                packet_table = Some(t);
                            },
                            _ => {
                                return Err(CafError::MalformedField);
                            },
                        },
                        None => {
                            return Err(CafError::MalformedField);
                        },
                    }
                    append_chunks(&mut chunks_in_mem, chunks2);
                    append_headers(&mut scan_headers, &hdrs2);
                    proof {
                        lemma_chain_concat(data, start1, hdrs1, hdrs2@);
                    }
                },
            }
        }

        proof {
            assert(headers_chain(data, start1, scan_headers@));
            assert(ch_rdr.pos() == spec_chunk_pos(data, start1, scan_headers@.len() as nat));
        }

        // 4. Navigate to the audio data chunk's body. If its header
        // was already passed during scanning, seek backward by the
        // span of everything read since, minus one header; otherwise
        // it lies ahead: skip forward to it.
        let mut audio_idx: Option<usize> = None;
        let mut t: usize = 0;
        while t < scan_headers.len()
            invariant
                t <= scan_headers@.len(),
                match audio_idx {
                    Some(x) => x < scan_headers@.len() && scan_headers@[x as int].ch_type
                        == ChunkType::AudioData,
                    None => true,
                },
            decreases scan_headers@.len() - t,
        {
            let is_audio = match scan_headers[t].ch_type {
                ChunkType::AudioData => true,
                _ => false,
            };
            if is_audio {
                audio_idx = Some(t);
                break ;
            }
            t = t + 1;
        }
        let mut audio_chunk_len: i64 = 0;
        let ghost mut bs: int = 0;
        match audio_idx {
            Some(k0) => {
                let hdr0 = scan_headers[k0];
                proof {
                    assert(scan_header_ok(data, start1, scan_headers@, k0 as int));
                }
                audio_chunk_len = hdr0.ch_size;
                let back = match chunks_span(
                    &scan_headers,
                    k0,
                    Ghost(data),
                    Ghost(start1),
                ) {
                    Ok(b) => b,
                    Err(e) => {
                        return Err(e);
                    },
                };
                proof {
                    assert(back >= 12 + hdr0.ch_size) by {
                        assert(spec_chunk_pos(data, start1, (k0 + 1) as nat) == spec_chunk_pos(
                            data,
                            start1,
                            k0 as nat,
                        ) + 12 + hdr0.ch_size);
                        lemma_chunk_pos_after(data, start1, scan_headers@, k0 as int + 1);
                    }
                }
                let back2 = back - 12;
                match ch_rdr.seek(-back2) {
                    Ok(_) => (),
                    Err(e) => {
                        return Err(e);
                    },
                }
                proof {
                    bs = spec_chunk_pos(data, start1, k0 as nat) + 12;
                }
            },
            None => {
                let len0 = match Self::locate_audio_forward(&mut ch_rdr) {
                    Ok(l) => l,
                    Err(e) => {
                        return Err(e);
                    },
                };
                audio_chunk_len = len0;
                proof {
                    bs = ch_rdr.pos();
                }
            },
        }

        // 5. Read the edit count at the body start.
        let buf = match ch_rdr.read_exact(4) {
            Ok(b) => b,
            Err(e) => {
                return Err(e);
            },
        };
        let edit_count = crate::bytes::read_be_u32(&buf, 0);
        proof {
            assert(be_u32_at(buf@, 0) == be_u32_at(data, bs));
        }
        Ok(
            CafPacketReader {
                ch_rdr,
                audio_desc,
                packet_table,
                chunks: chunks_in_mem,
                edit_count,
                audio_chunk_len,
                audio_chunk_offs: 4,
                packet_idx: 0,
                body_start: Ghost(bs),
            },
        )
    }

    /// Skips forward, chunk by chunk, to the audio data chunk that
    /// lies ahead, leaving the position at its body start and
    /// returning its declared body length.
    fn locate_audio_forward(ch_rdr: &mut CafChunkReader<T>) -> (r: Result<i64, CafError>)
        ensures
            final (ch_rdr).data() == old(ch_rdr).data(),
            match r {
                Ok(len) => {
                    &&& len >= -1
                    &&& packet_reader_placed(final (ch_rdr).data(), final (ch_rdr).pos(), len)
                    &&& final (ch_rdr).pos() - 12 >= 0
                    &&& final (ch_rdr).pos() <= final (ch_rdr).data().len()
                },
                Err(_) => true,
            },
    {
        let ghost data = old(ch_rdr).data();
        loop
            invariant
                data == old(ch_rdr).data(),
                ch_rdr.data() == data,
            decreases vstd::math::max(0, data.len() - ch_rdr.pos()),
        {
            let ch_hdr = match ch_rdr.read_chunk_header() {
                Ok(h) => h,
                Err(e) => {
                    return Err(e);
                },
            };
            let is_audio = match ch_hdr.ch_type {
                ChunkType::AudioData => true,
                _ => false,
            };
            if is_audio {
                if ch_hdr.ch_size < -1 {
                    return Err(CafError::MalformedField);
                }
                return Ok(ch_hdr.ch_size);
            }
            match ch_rdr.to_next_chunk(&ch_hdr) {
                Ok(_) => (),
                Err(e) => {
                    return Err(e);
                },
            }
        }
    }

    /// Returns the chunk reader this reader wraps.
    pub fn into_inner(self) -> (r: CafChunkReader<T>)
        ensures
            r.data() == self.data(),
            r.pos() == self.stream_pos(),
    {
        self.ch_rdr
    }

    /// Returns whether the size of the packets doesn't change: true
    /// iff the description's `bytes_per_packet` is non-zero.
    pub fn packet_size_is_constant(&self) -> (r: bool)
        ensures
            r == (self.spec_desc().bytes_per_packet != 0),
    {
        self.audio_desc.bytes_per_packet != 0
    }

    /// Returns the index of the packet the cursor stands at.
    pub fn get_packet_idx(&self) -> (r: usize)
        ensures
            r as int == self.cursor(),
    {
        self.packet_idx
    }

    /// What the next packet size is, as a function of the reader's
    /// state.
    pub open spec fn spec_next_size(&self) -> Option<int> {
        spec_next_packet_size(
            self.spec_desc().bytes_per_packet,
            self.table_view(),
            self.cursor(),
            self.offs(),
            self.chunk_len(),
        )
    }

    /// Returns the size of the next packet in bytes, and `None` once
    /// all packets were read: when the cursor runs off the packet
    /// table, or when a bounded audio body has fewer bytes left than
    /// the packet would need.
    pub fn next_packet_size(&self) -> (r: Option<usize>)
        requires
            self.wf(),
        ensures
            match r {
                Some(sz) => self.spec_next_size() == Some(sz as int),
                None => self.spec_next_size() is None,
            },
    {
        let cand: u64 = if self.audio_desc.bytes_per_packet != 0 {
            self.audio_desc.bytes_per_packet as u64
        } else {
            match &self.packet_table {
                Some(t) => {
                    if self.packet_idx < t.lengths.len() {
                        t.lengths[self.packet_idx]
                    } else {
                        return None;
                    }
                },
                None => {
                    proof {
                        assert(false);
                    }
                    return None;
                },
            }
        };
        if self.audio_chunk_len != -1 {
            if self.audio_chunk_offs > self.audio_chunk_len {
                return None;
            }
            let remaining = (self.audio_chunk_len - self.audio_chunk_offs) as u64;
            if cand > remaining {
                return None;
            }
        }
        if cand > usize::MAX as u64 {
            return None;
        }
        Some(cand as usize)
    }

    /// How many packets the stream holds, as a function of the
    /// reader's state: the table length when a table is present,
    /// else the bounded body's payload divided by the constant packet
    /// size, and unknown for an unbounded body.
    pub open spec fn spec_packet_count(&self) -> Option<int> {
        match self.table_view() {
            Some(t) => Some(t.lengths.len() as int),
            None => if self.chunk_len() == -1 {
                None
            } else {
                let cnt: int = if self.chunk_len() < 4 {
                    0
                } else {
                    (self.chunk_len() - 4) / (self.spec_desc().bytes_per_packet as int)
                };
                if cnt > usize::MAX {
                    None
                } else {
                    Some(cnt)
                }
            },
        }
    }

    /// Gets the number of packets if it is known: the packet table's
    /// entry count when a table is present; else, for a bounded audio
    /// body, its payload length divided by the constant packet size;
    /// `None` for an unbounded body without a table.
    pub fn get_packet_count(&self) -> (r: Option<usize>)
        requires
            self.wf(),
        ensures
            match r {
                Some(c) => self.spec_packet_count() == Some(c as int),
                None => self.spec_packet_count() is None,
            },
    {
        match &self.packet_table {
            Some(t) => Some(t.lengths.len()),
            None => {
                // The constructor enforces a table whenever sizes are
                // not constant, so sizes are constant here.
                proof {
                    assert(self.audio_desc.bytes_per_packet != 0);
                }
                if self.audio_chunk_len == -1 {
                    None
                } else if self.audio_chunk_len < 4 {
                    Some(0)
                } else {
                    let cnt = (self.audio_chunk_len - 4) / (self.audio_desc.bytes_per_packet
                        as i64);
                    if (cnt as u64) > (usize::MAX as u64) {
                        None
                    } else {
                        Some(cnt as usize)
                    }
                }
            },
        }
    }

    /// Reads one packet from the audio chunk: the next packet's exact
    /// bytes, or `None` once all packets were read. On success the
    /// cursor advances by one and the byte offset by the packet's
    /// size.
    pub fn next_packet(&mut self) -> (r: Result<Option<Vec<u8>>, CafError>)
        requires
            old(self).wf(),
        ensures
            final (self).data() == old(self).data(),
            final (self).spec_desc() == old(self).spec_desc(),
            final (self).table_view() == old(self).table_view(),
            final (self).chunk_len() == old(self).chunk_len(),
            final (self).body_start() == old(self).body_start(),
            final (self).spec_edit_count() == old(self).spec_edit_count(),
            old(self).spec_next_size() is None ==> (r matches Ok(None)),
            match r {
                Ok(Some(v)) => {
                    &&& final (self).wf()
                    &&& old(self).spec_next_size() == Some(v@.len() as int)
                    &&& v@ == old(self).data().subrange(
                        old(self).body_start() + old(self).offs(),
                        old(self).body_start() + old(self).offs() + v@.len(),
                    )
                    &&& final (self).cursor() == old(self).cursor() + 1
                    &&& final (self).offs() == old(self).offs() + v@.len()
                },
                Ok(None) => old(self).spec_next_size() is None && *final (self) == *old(self),
                Err(e) => {
                    &&& e == CafError::Io
                    &&& final (self).cursor() == old(self).cursor()
                    &&& final (self).offs() == old(self).offs()
                },
            },
    {
        let sz = match self.next_packet_size() {
            Some(s) => s,
            None => {
                return Ok(None);
            },
        };
        if self.packet_idx == usize::MAX {
            return Err(CafError::Io);
        }
        if (sz as u64) > (i64::MAX as u64) {
            return Err(CafError::Io);
        }
        if self.audio_chunk_offs > i64::MAX - (sz as i64) {
            return Err(CafError::Io);
        }
        let buf = match self.ch_rdr.read_exact(sz) {
            Ok(b) => b,
            Err(e) => {
                return Err(e);
            },
        };
        self.packet_idx = self.packet_idx + 1;
        self.audio_chunk_offs = self.audio_chunk_offs + (sz as i64);
        Ok(Some(buf))
    }

    /// Reads one packet into a pre-allocated buffer, blindly using
    /// the buffer's length: the caller must have sized it with
    /// `next_packet_size`. On success the buffer holds the packet's
    /// exact bytes, the cursor advances by one and the byte offset by
    /// the buffer's length.
    pub fn read_packet_into(&mut self, data: &mut Vec<u8>) -> (r: Result<(), CafError>)
        requires
            old(self).wf(),
        ensures
            final (self).data() == old(self).data(),
            final (self).spec_desc() == old(self).spec_desc(),
            final (self).table_view() == old(self).table_view(),
            final (self).chunk_len() == old(self).chunk_len(),
            final (self).body_start() == old(self).body_start(),
            final (self).spec_edit_count() == old(self).spec_edit_count(),
            match r {
                Ok(_) => {
                    &&& final (self).wf()
                    &&& final (data)@.len() == old(data)@.len()
                    &&& final (data)@ == old(self).data().subrange(
                        old(self).body_start() + old(self).offs(),
                        old(self).body_start() + old(self).offs() + old(data)@.len(),
                    )
                    &&& final (self).cursor() == old(self).cursor() + 1
                    &&& final (self).offs() == old(self).offs() + old(data)@.len()
                },
                Err(e) => {
                    &&& e == CafError::Io
                    &&& *final (data) == *old(data)
                    &&& final (self).cursor() == old(self).cursor()
                    &&& final (self).offs() == old(self).offs()
                },
            },
    {
        let n = data.len();
        if self.packet_idx == usize::MAX {
            return Err(CafError::Io);
        }
        if (n as u64) > (i64::MAX as u64) {
            return Err(CafError::Io);
        }
        if self.audio_chunk_offs > i64::MAX - (n as i64) {
            return Err(CafError::Io);
        }
        let buf = match self.ch_rdr.read_exact(n) {
            Ok(b) => b,
            Err(e) => {
                return Err(e);
            },
        };
        *data = buf;
        self.packet_idx = self.packet_idx + 1;
        self.audio_chunk_offs = self.audio_chunk_offs + (n as i64);
        Ok(())
    }

    /// Seeks to the packet with the given index.
    ///
    /// The byte span between the current cursor and the target is the
    /// packet count between them times the constant size, or the sum
    /// of the table lengths over the half-open range between the
    /// smaller and the larger of the two; the reader then seeks by
    /// that span, forward or backward. A target equal to the current
    /// cursor performs zero byte movement and leaves the reader
    /// untouched. With table-driven sizes, both cursors must lie
    /// within the table.
    pub fn seek_to_packet(&mut self, packet_idx: usize) -> (r: Result<(), CafError>)
        requires
            old(self).wf(),
            old(self).spec_desc().bytes_per_packet == 0 ==> (match old(self).table_view() {
                Some(t) => packet_idx as int <= t.lengths.len() && old(self).cursor()
                    <= t.lengths.len(),
                None => false,
            }),
        ensures
            final (self).data() == old(self).data(),
            final (self).spec_desc() == old(self).spec_desc(),
            final (self).table_view() == old(self).table_view(),
            final (self).chunk_len() == old(self).chunk_len(),
            final (self).body_start() == old(self).body_start(),
            final (self).spec_edit_count() == old(self).spec_edit_count(),
            match r {
                Ok(_) => {
                    let span = spec_seek_span(
                        old(self).spec_desc().bytes_per_packet,
                        old(self).table_view(),
                        old(self).cursor(),
                        packet_idx as int,
                    );
                    let delta: int = if packet_idx as int >= old(self).cursor() {
                        span
                    } else {
                        -span
                    };
                    &&& final (self).wf()
                    &&& final (self).cursor() == packet_idx as int
                    &&& final (self).offs() == old(self).offs() + delta
                    &&& final (self).stream_pos() == old(self).stream_pos() + delta
                    &&& (packet_idx as int == old(self).cursor() ==> *final (self) == *old(self))
                },
                Err(e) => e == CafError::Io && packet_idx as int != old(self).cursor(),
            },
    {
        let cur = self.packet_idx;
        let lo = if cur <= packet_idx {
            cur
        } else {
            packet_idx
        };
        let hi = if cur <= packet_idx {
            packet_idx
        } else {
            cur
        };
        let span: i64;
        if self.audio_desc.bytes_per_packet != 0 {
            let diff = (hi - lo) as u128;
            let b = self.audio_desc.bytes_per_packet as u128;
            proof {
                assert(diff * b <= 0xffff_ffff_ffff_ffffu128 * 0xffff_ffffu128)
                    by (nonlinear_arith)
                    requires
                        diff <= 0xffff_ffff_ffff_ffffu128,
                        b <= 0xffff_ffffu128,
                ;
            }
            let prod = diff * b;
            if prod > i64::MAX as u128 {
                proof {
                    if cur == packet_idx {
                        assert(diff == 0);
                        assert(prod == 0) by (nonlinear_arith)
                            requires
                                diff == 0,
                                prod == diff * b,
                        ;
                    }
                }
                return Err(CafError::Io);
            }
            span = prod as i64;
        } else {
            match &self.packet_table {
                Some(t) => {
                    let ghost lengths = t@.lengths;
                    let mut acc: i64 = 0;
                    let mut w: usize = lo;
                    proof {
                        lemma_table_span_nonneg(lengths, lo as int, hi as int);
                    }
                    while w < hi
                        invariant
                            lo <= w <= hi <= t@.lengths.len(),
                            cur as int == old(self).cursor(),
                            cur == packet_idx ==> lo == hi,
                            lengths == t@.lengths,
                            0 <= acc,
                            spec_table_span(lengths, lo as int, hi as int) == acc
                                + spec_table_span(lengths, w as int, hi as int),
                        decreases hi - w,
                    {
                        let v = t.lengths[w];
                        if v > ((i64::MAX - acc) as u64) {
                            proof {
                                assert(lo < hi);
                            }
                            return Err(CafError::Io);
                        }
                        acc = acc + (v as i64);
                        w = w + 1;
                        proof {
                            lemma_table_span_nonneg(lengths, w as int, hi as int);
                        }
                    }
                    span = acc;
                    proof {
                        assert(spec_table_span(lengths, hi as int, hi as int) == 0);
                    }
                },
                None => {
                    proof {
                        assert(false);
                    }
                    return Err(CafError::Io);
                },
            }
        }
        if cur < packet_idx {
            if self.audio_chunk_offs > i64::MAX - span {
                return Err(CafError::Io);
            }
            match self.ch_rdr.seek(span) {
                Ok(_) => (),
                Err(e) => {
                    return Err(e);
                },
            }
            self.audio_chunk_offs = self.audio_chunk_offs + span;
            self.packet_idx = packet_idx;
        } else if cur > packet_idx {
            if span > self.audio_chunk_offs {
                return Err(CafError::Io);
            }
            match self.ch_rdr.seek(-span) {
                Ok(_) => (),
                Err(e) => {
                    return Err(e);
                },
            }
            self.audio_chunk_offs = self.audio_chunk_offs - span;
            self.packet_idx = packet_idx;
        }
        proof {
            if packet_idx as int == old(self).cursor() {
                lemma_seek_span_self(
                    old(self).spec_desc().bytes_per_packet,
                    old(self).table_view(),
                    old(self).cursor(),
                );
            }
        }
        Ok(())
    }
}

/// How many bytes the next packet spans, if one is there to read:
/// the constant `bpp` when it is non-zero, else the table entry at
/// the cursor. There is none when the cursor runs off the table, when
/// a bounded body has fewer bytes left than the packet needs, or when
/// the size cannot be addressed on this machine.
pub open spec fn spec_next_packet_size(
    bpp: u32,
    table: Option<PacketTableView>,
    cursor: int,
    offs: int,
    len: i64,
) -> Option<int> {
    let cand: Option<int> = if bpp != 0 {
        Some(bpp as int)
    } else {
        match table {
            Some(t) => if cursor < t.lengths.len() {
                Some(t.lengths[cursor] as int)
            } else {
                None
            },
            None => None,
        }
    };
    match cand {
        Some(sz) => if len != -1 && offs + sz > len {
            None
        } else if sz > usize::MAX {
            None
        } else {
            Some(sz)
        },
        None => None,
    }
}

/// The sum of the table's lengths over `[lo, hi)`.
pub open spec fn spec_table_span(lengths: Seq<u64>, lo: int, hi: int) -> int
    decreases hi - lo,
{
    if lo >= hi {
        0
    } else {
        lengths[lo] + spec_table_span(lengths, lo + 1, hi)
    }
}

/// The byte span between two packet cursors: packets times the
/// constant size, or the sum of the table lengths over the half-open
/// range between the smaller and the larger cursor.
pub open spec fn spec_seek_span(
    bpp: u32,
    table: Option<PacketTableView>,
    cur: int,
    target: int,
) -> int {
    let lo = if cur <= target {
        cur
    } else {
        target
    };
    let hi = if cur <= target {
        target
    } else {
        cur
    };
    if bpp != 0 {
        (hi - lo) * (bpp as int)
    } else {
        match table {
            Some(t) => spec_table_span(t.lengths, lo, hi),
            None => 0,
        }
    }
}

/// The span between a cursor and itself is zero.
proof fn lemma_seek_span_self(bpp: u32, table: Option<PacketTableView>, c: int)
    ensures
        spec_seek_span(bpp, table, c, c) == 0,
{
    match table {
        Some(t) => {
            assert(spec_table_span(t.lengths, c, c) == 0);
        },
        None => {
        },
    }
}

/// A table span is never negative.
proof fn lemma_table_span_nonneg(lengths: Seq<u64>, lo: int, hi: int)
    ensures
        spec_table_span(lengths, lo, hi) >= 0,
    decreases hi - lo,
{
    if lo < hi {
        lemma_table_span_nonneg(lengths, lo + 1, hi);
    }
}

/// With a constant packet size `bpp`, no packet table, and a bounded
/// audio body of exactly `4 + bpp * n` bytes, a reader whose cursor
/// stands at `c` with the matching byte offset `4 + bpp * c` sees:
/// the packet count is `n`; the next packet size is `bpp` as long as
/// the cursor is below `n`; and there is no next packet once it has
/// reached `n`.
pub proof fn lemma_constant_size_packets<T: ByteSource>(
    r: CafPacketReader<T>,
    n: int,
    c: int,
)
    requires
        r.wf(),
        r.spec_desc().bytes_per_packet != 0,
        r.table_view() is None,
        0 <= n <= usize::MAX,
        r.chunk_len() == 4 + (r.spec_desc().bytes_per_packet as int) * n,
        0 <= c,
        r.cursor() == c,
        r.offs() == 4 + (r.spec_desc().bytes_per_packet as int) * c,
    ensures
        r.spec_packet_count() == Some(n),
        c < n ==> r.spec_next_size() == Some(r.spec_desc().bytes_per_packet as int),
        c >= n ==> r.spec_next_size() is None,
{
    let b = r.spec_desc().bytes_per_packet as int;
    assert(r.chunk_len() != -1);
    assert((4 + b * n - 4) / b == n) by (nonlinear_arith)
        requires
            b > 0,
            n >= 0,
    ;
    assert(c < n ==> 4 + b * c + b <= 4 + b * n) by (nonlinear_arith)
        requires
            b > 0,
    ;
    assert(c >= n ==> 4 + b * c + b > 4 + b * n) by (nonlinear_arith)
        requires
            b > 0,
    ;
    assert(b <= usize::MAX);
}

/// A chunk position within the log never lies before the position of
/// an earlier chunk: sizes are non-negative along a chain.
proof fn lemma_chunk_pos_after(data: Seq<u8>, start: int, hdrs: Seq<CafChunkHeader>, k: int)
    requires
        headers_chain(data, start, hdrs),
        0 <= k <= hdrs.len(),
    ensures
        spec_chunk_pos(data, start, hdrs.len() as nat) >= spec_chunk_pos(data, start, k as nat),
    decreases hdrs.len() - k,
{
    if k < hdrs.len() {
        assert(scan_header_ok(data, start, hdrs, k));
        assert(spec_chunk_pos(data, start, (k + 1) as nat) == spec_chunk_pos(data, start, k as nat)
            + 12 + hdrs[k].ch_size);
        lemma_chunk_pos_after(data, start, hdrs, k + 1);
    }
}

} // verus!
