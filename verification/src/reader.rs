//! Sequential chunk-level reading.
//!
//! A [`CafChunkReader`] owns one seekable byte source, validates the
//! container's 8-byte magic header once at construction, and then
//! reads chunk headers and bodies, skips chunks forward or backward,
//! and scans until a set of required chunk types has been seen.
//!
//! The contracts speak of the source's whole byte stream and the
//! reader's position in it. After a failed operation the position is
//! unspecified; the stream's bytes never change.

use vstd::prelude::*;
use crate::bytes::{be_i64_at, be_u32_at, read_be_i64, read_be_u32};
use crate::chunks::{decode_chunk, spec_decode_chunk, CafChunk, CafChunkHeader};
use crate::enums::{spec_chunk_type_of, ChunkType};
use crate::error::CafError;
use crate::source::ByteSource;

verus! {

/// Whether `s` is the 8-byte CAF file header.
pub open spec fn spec_is_magic(s: Seq<u8>) -> bool {
    &&& s.len() == 8
    &&& s[0] == 0x63u8
    &&& s[1] == 0x61u8
    &&& s[2] == 0x66u8
    &&& s[3] == 0x66u8
    &&& s[4] == 0x00u8
    &&& s[5] == 0x01u8
    &&& s[6] == 0x00u8
    &&& s[7] == 0x00u8
}

/// A sequence differing from the CAF file header in any single byte is
/// not the CAF file header.
pub proof fn lemma_magic_single_byte_corruption(s: Seq<u8>, good: Seq<u8>, i: int)
    requires
        spec_is_magic(good),
        s.len() == 8,
        0 <= i < 8,
        s[i] != good[i],
    ensures
        !spec_is_magic(s),
{
}

/// The chunk header whose 12 bytes start at `i`: a 4-byte big-endian
/// tag, then an 8-byte big-endian signed body size.
pub open spec fn spec_header_at(s: Seq<u8>, i: int) -> CafChunkHeader
    recommends
        0 <= i,
        i + 12 <= s.len(),
{
    CafChunkHeader {
        ch_type: spec_chunk_type_of(be_u32_at(s, i) as u32),
        ch_size: be_i64_at(s, i + 4),
    }
}

/// Where the `k`-th chunk after position `start` begins: each chunk
/// spans its 12-byte header plus its declared body size.
pub open spec fn spec_chunk_pos(s: Seq<u8>, start: int, k: nat) -> int
    decreases k,
{
    if k == 0 {
        start
    } else {
        let p = spec_chunk_pos(s, start, (k - 1) as nat);
        p + 12 + spec_header_at(s, p).ch_size
    }
}

/// Reads and validates the container's magic header, then gives
/// chunk-level access to what follows.
pub struct CafChunkReader<T: ByteSource> {
    rdr: T,
}

impl<T: ByteSource> CafChunkReader<T> {
    /// The source's whole byte stream.
    pub closed spec fn data(&self) -> Seq<u8> {
        self.rdr.data()
    }

    /// The reader's position in the stream.
    pub closed spec fn pos(&self) -> int {
        self.rdr.pos()
    }

    /// Wraps a source, reading and checking the 8-byte magic header at
    /// its position. On a mismatch the construction fails with
    /// `NotCaf` and no reader exists; nothing is retried.
    pub fn new(rdr: T) -> (r: Result<Self, CafError>)
        ensures
            match r {
                Ok(s) => {
                    &&& s.data() == rdr.data()
                    &&& 0 <= rdr.pos()
                    &&& rdr.pos() + 8 <= rdr.data().len()
                    &&& spec_is_magic(rdr.data().subrange(rdr.pos(), rdr.pos() + 8))
                    &&& s.pos() == rdr.pos() + 8
                },
                Err(CafError::NotCaf) => {
                    &&& 0 <= rdr.pos()
                    &&& rdr.pos() + 8 <= rdr.data().len()
                    &&& !spec_is_magic(rdr.data().subrange(rdr.pos(), rdr.pos() + 8))
                },
                Err(CafError::Io) => true,
                Err(_) => false,
            },
    {
        let mut rdr = rdr;
        let buf = match rdr.read_bytes(8) {
            Ok(b) => b,
            Err(e) => {
                return Err(e);
            },
        };
        if buf[0] == 0x63 && buf[1] == 0x61 && buf[2] == 0x66 && buf[3] == 0x66 && buf[4] == 0x00
            && buf[5] == 0x01 && buf[6] == 0x00 && buf[7] == 0x00 {
            Ok(CafChunkReader { rdr })
        } else {
            Err(CafError::NotCaf)
        }
    }

    /// Reads exactly `n` bytes at the position.
    pub(crate) fn read_exact(&mut self, n: usize) -> (r: Result<Vec<u8>, CafError>)
        ensures
            final (self).data() == old(self).data(),
            match r {
                Ok(v) => {
                    &&& 0 <= old(self).pos()
                    &&& old(self).pos() + n <= old(self).data().len()
                    &&& v@ == old(self).data().subrange(old(self).pos(), old(self).pos() + n)
                    &&& final (self).pos() == old(self).pos() + n
                },
                Err(e) => e == CafError::Io,
            },
    {
        self.rdr.read_bytes(n)
    }

    /// Moves the position by `delta` bytes.
    pub(crate) fn seek(&mut self, delta: i64) -> (r: Result<(), CafError>)
        ensures
            final (self).data() == old(self).data(),
            match r {
                Ok(_) => final (self).pos() == old(self).pos() + delta,
                Err(e) => e == CafError::Io,
            },
    {
        self.rdr.seek_by(delta)
    }

    /// Returns the source this reader wraps.
    pub fn into_inner(self) -> (r: T)
        ensures
            r.data() == self.data(),
            r.pos() == self.pos(),
    {
        self.rdr
    }

    /// Reads the 12-byte chunk header at the position: a 4-byte
    /// big-endian tag, resolved, then an 8-byte big-endian signed body
    /// size.
    pub fn read_chunk_header(&mut self) -> (r: Result<CafChunkHeader, CafError>)
        ensures
            final (self).data() == old(self).data(),
            match r {
                Ok(h) => {
                    &&& 0 <= old(self).pos()
                    &&& old(self).pos() + 12 <= old(self).data().len()
                    &&& h == spec_header_at(old(self).data(), old(self).pos())
                    &&& final (self).pos() == old(self).pos() + 12
                },
                Err(e) => e == CafError::Io,
            },
    {
        let buf = match self.rdr.read_bytes(12) {
            Ok(b) => b,
            Err(e) => {
                return Err(e);
            },
        };
        let tag_raw = read_be_u32(&buf, 0);
        let ch_size = read_be_i64(&buf, 4);
        proof {
            let data = old(self).data();
            let p = old(self).pos();
            assert(be_u32_at(buf@, 0) == be_u32_at(data, p));
            assert(be_i64_at(buf@, 4) == be_i64_at(data, p + 4));
        }
        Ok(CafChunkHeader { ch_type: ChunkType::from(tag_raw), ch_size })
    }

    /// Reads a chunk body into memory and decodes it.
    ///
    /// A body size of -1 is the legal "extends to the end of the
    /// stream" case: the rest of the stream is the body. Any other
    /// negative size is malformed. Otherwise exactly `ch_size` bytes
    /// are read.
    pub fn read_chunk_body(&mut self, hdr: &CafChunkHeader) -> (r: Result<CafChunk, CafError>)
        ensures
            final (self).data() == old(self).data(),
            match r {
                Ok(c) => {
                    ||| {
                        &&& hdr.ch_size >= 0
                        &&& 0 <= old(self).pos()
                        &&& old(self).pos() + hdr.ch_size <= old(self).data().len()
                        &&& spec_decode_chunk(
                            hdr.ch_type,
                            old(self).data().subrange(
                                old(self).pos(),
                                old(self).pos() + hdr.ch_size,
                            ),
                        ) == Ok::<crate::chunks::CafChunkView, CafError>(c@)
                        &&& final (self).pos() == old(self).pos() + hdr.ch_size
                    }
                    ||| {
                        &&& hdr.ch_size == -1
                        &&& 0 <= old(self).pos() <= old(self).data().len()
                        &&& spec_decode_chunk(
                            hdr.ch_type,
                            old(self).data().subrange(
                                old(self).pos(),
                                old(self).data().len() as int,
                            ),
                        ) == Ok::<crate::chunks::CafChunkView, CafError>(c@)
                        &&& final (self).pos() == old(self).data().len()
                    }
                },
                Err(e) => {
                    ||| e == CafError::Io
                    ||| (hdr.ch_size < -1 && e == CafError::MalformedField)
                    ||| {
                        &&& hdr.ch_size >= 0
                        &&& old(self).pos() + hdr.ch_size <= old(self).data().len()
                        &&& spec_decode_chunk(
                            hdr.ch_type,
                            old(self).data().subrange(
                                old(self).pos(),
                                old(self).pos() + hdr.ch_size,
                            ),
                        ) == Err::<crate::chunks::CafChunkView, CafError>(e)
                    }
                    ||| {
                        &&& hdr.ch_size == -1
                        &&& spec_decode_chunk(
                            hdr.ch_type,
                            old(self).data().subrange(
                                old(self).pos(),
                                old(self).data().len() as int,
                            ),
                        ) == Err::<crate::chunks::CafChunkView, CafError>(e)
                    }
                },
            },
    {
        if hdr.ch_size == -1 {
            let body = match self.rdr.read_to_end() {
                Ok(b) => b,
                Err(e) => {
                    return Err(e);
                },
            };
            return decode_chunk(hdr.ch_type, body);
        }
        if hdr.ch_size < 0 {
            return Err(CafError::MalformedField);
        }
        if (hdr.ch_size as u64) > (usize::MAX as u64) {
            return Err(CafError::Io);
        }
        let body = match self.rdr.read_bytes(hdr.ch_size as usize) {
            Ok(b) => b,
            Err(e) => {
                return Err(e);
            },
        };
        decode_chunk(hdr.ch_type, body)
    }

    /// Reads the chunk header at the position and then its body.
    pub fn read_chunk(&mut self) -> (r: Result<CafChunk, CafError>)
        ensures
            final (self).data() == old(self).data(),
            match r {
                Ok(c) => {
                    let h = spec_header_at(old(self).data(), old(self).pos());
                    let body_start = old(self).pos() + 12;
                    &&& 0 <= old(self).pos()
                    &&& old(self).pos() + 12 <= old(self).data().len()
                    &&& {
                        ||| {
                            &&& h.ch_size >= 0
                            &&& body_start + h.ch_size <= old(self).data().len()
                            &&& spec_decode_chunk(
                                h.ch_type,
                                old(self).data().subrange(body_start, body_start + h.ch_size),
                            ) == Ok::<crate::chunks::CafChunkView, CafError>(c@)
                            &&& final (self).pos() == body_start + h.ch_size
                        }
                        ||| {
                            &&& h.ch_size == -1
                            &&& spec_decode_chunk(
                                h.ch_type,
                                old(self).data().subrange(
                                    body_start,
                                    old(self).data().len() as int,
                                ),
                            ) == Ok::<crate::chunks::CafChunkView, CafError>(c@)
                            &&& final (self).pos() == old(self).data().len()
                        }
                    }
                },
                Err(_) => true,
            },
    {
        let hdr = match self.read_chunk_header() {
            Ok(h) => h,
            Err(e) => {
                return Err(e);
            },
        };
        self.read_chunk_body(&hdr)
    }

    /// Seeks forward over the body of the chunk whose header was just
    /// read, to the next chunk header. Fails with `UnboundedChunkRead`
    /// on the -1 size sentinel: skipping an unbounded body would mean
    /// seeking to the end of the stream.
    pub fn to_next_chunk(&mut self, hdr: &CafChunkHeader) -> (r: Result<(), CafError>)
        ensures
            final (self).data() == old(self).data(),
            match r {
                Ok(_) => hdr.ch_size >= 0 && final (self).pos() == old(self).pos() + hdr.ch_size,
                Err(e) => {
                    ||| (e == CafError::Io && hdr.ch_size >= 0)
                    ||| (hdr.ch_size == -1 && e == CafError::UnboundedChunkRead && *final (self)
                        == *old(self))
                    ||| (hdr.ch_size < -1 && e == CafError::MalformedField && *final (self)
                        == *old(self))
                },
            },
    {
        if hdr.ch_size == -1 {
            return Err(CafError::UnboundedChunkRead);
        }
        if hdr.ch_size < 0 {
            return Err(CafError::MalformedField);
        }
        self.rdr.seek_by(hdr.ch_size)
    }

    /// Seeks backward over the body of a chunk, from its end to its
    /// start. Fails with `UnboundedChunkRead` on the -1 size sentinel.
    pub fn to_previous_chunk(&mut self, hdr: &CafChunkHeader) -> (r: Result<(), CafError>)
        ensures
            final (self).data() == old(self).data(),
            match r {
                Ok(_) => hdr.ch_size >= 0 && final (self).pos() == old(self).pos() - hdr.ch_size,
                Err(e) => {
                    ||| (e == CafError::Io && hdr.ch_size >= 0)
                    ||| (hdr.ch_size == -1 && e == CafError::UnboundedChunkRead && *final (self)
                        == *old(self))
                    ||| (hdr.ch_size < -1 && e == CafError::MalformedField && *final (self)
                        == *old(self))
                },
            },
    {
        if hdr.ch_size == -1 {
            return Err(CafError::UnboundedChunkRead);
        }
        if hdr.ch_size < 0 {
            return Err(CafError::MalformedField);
        }
        self.rdr.seek_by(-hdr.ch_size)
    }

    /// Reads chunks from a whitelist to memory.
    ///
    /// Repeatedly reads chunk headers. Each header's type removes one
    /// matching occurrence from `required`; chunks whose type is in
    /// `content_read` are read and decoded into the first result,
    /// others are skipped without reading their content. Every header
    /// seen is appended to the second result. The scan stops as soon
    /// as `required` is exhausted — with an empty `required`, after
    /// one chunk. A chunk with the unbounded-body size sentinel met
    /// mid-scan is a stream-shape anomaly and fails fast with
    /// `UnboundedChunkRead`.
    pub fn read_chunks_to_mem(&mut self, required: Vec<ChunkType>, content_read: &[ChunkType])
        -> (r: Result<(Vec<CafChunk>, Vec<CafChunkHeader>), CafError>)
        ensures
            final (self).data() == old(self).data(),
            match r {
                Ok((res, hdrs)) => scan_post(
                    old(self).data(),
                    old(self).pos(),
                    required@,
                    content_read@,
                    res@,
                    hdrs@,
                    final (self).pos(),
                ),
                Err(e) => e == CafError::UnboundedChunkRead ==> exists|n: nat|
                    {
                        &&& 0 <= #[trigger] spec_chunk_pos(old(self).data(), old(self).pos(), n)
                        &&& spec_chunk_pos(old(self).data(), old(self).pos(), n) + 12 <= old(
                            self,
                        ).data().len()
                        &&& spec_header_at(
                            old(self).data(),
                            spec_chunk_pos(old(self).data(), old(self).pos(), n),
                        ).ch_size == -1
                    },
            },
    {
        let ghost data = old(self).data();
        let ghost start = old(self).pos();
        let ghost req0 = required@;
        let ghost cap = content_read@;
        let mut required = required;
        let mut res: Vec<CafChunk> = Vec::new();
        let mut read_headers: Vec<CafChunkHeader> = Vec::new();
        loop
            invariant_except_break
                read_headers@.len() == 0 || required@.len() > 0,
            invariant
                self.data() == data,
                data == old(self).data(),
                start == old(self).pos(),
                cap == content_read@,
                scan_inv(data, start, req0, cap, required@, res@, read_headers@, self.pos()),
            ensures
                self.data() == data,
                read_headers@.len() >= 1,
                required@.len() == 0,
                scan_inv(data, start, req0, cap, required@, res@, read_headers@, self.pos()),
            decreases vstd::math::max(0, data.len() - self.pos()),
        {
            let ghost n_before = read_headers@.len() as nat;
            match self.scan_step(
                &mut required,
                content_read,
                &mut res,
                &mut read_headers,
                Ghost(start),
                Ghost(req0),
            ) {
                Ok(_) => (),
                Err(e) => {
                    proof {
                        if e == CafError::UnboundedChunkRead {
                            let p = spec_chunk_pos(data, start, n_before);
                            assert(spec_header_at(data, p).ch_size == -1);
                        }
                    }
                    return Err(e);
                },
            }
            if required.len() == 0 {
                break ;
            }
        }
        proof {
            assert(spec_required_after(req0, read_headers@) =~= Seq::<ChunkType>::empty());
        }
        Ok((res, read_headers))
    }

    /// One step of the scan: reads the header at the position, fails
    /// fast on an unbounded or negative body size, captures or skips
    /// the body, removes one matching occurrence from `required`, and
    /// logs the header.
    fn scan_step(
        &mut self,
        required: &mut Vec<ChunkType>,
        content_read: &[ChunkType],
        res: &mut Vec<CafChunk>,
        read_headers: &mut Vec<CafChunkHeader>,
        Ghost(start): Ghost<int>,
        Ghost(req0): Ghost<Seq<ChunkType>>,
    ) -> (r: Result<(), CafError>)
        requires
            scan_inv(
                old(self).data(),
                start,
                req0,
                content_read@,
                old(required)@,
                old(res)@,
                old(read_headers)@,
                old(self).pos(),
            ),
            old(read_headers)@.len() == 0 || old(required)@.len() > 0,
        ensures
            final (self).data() == old(self).data(),
            match r {
                Ok(_) => {
                    &&& scan_inv(
                        old(self).data(),
                        start,
                        req0,
                        content_read@,
                        final (required)@,
                        final (res)@,
                        final (read_headers)@,
                        final (self).pos(),
                    )
                    &&& final (read_headers)@.len() == old(read_headers)@.len() + 1
                    &&& old(self).pos() + 12 <= old(self).data().len()
                    &&& final (self).pos() >= old(self).pos() + 12
                },
                Err(e) => e == CafError::UnboundedChunkRead ==> {
                    &&& 0 <= old(self).pos()
                    &&& old(self).pos() + 12 <= old(self).data().len()
                    &&& spec_header_at(old(self).data(), old(self).pos()).ch_size == -1
                },
            },
    {
        let ghost data = old(self).data();
        let ghost cap = content_read@;
        let ghost hdrs_old = old(read_headers)@;
        let ghost req_before = old(required)@;
        let ghost res_old = old(res)@;
        let ghost n = hdrs_old.len() as int;
        let hdr = match self.read_chunk_header() {
            Ok(h) => h,
            Err(e) => {
                return Err(e);
            },
        };
        if hdr.ch_size == -1 {
            return Err(CafError::UnboundedChunkRead);
        }
        if hdr.ch_size < 0 {
            return Err(CafError::MalformedField);
        }
        let required_idx = find_first(required, hdr.ch_type);
        let in_capture = contains_type(content_read, hdr.ch_type);
        if in_capture {
            let c = match self.read_chunk_body(&hdr) {
                Ok(c) => c,
                Err(e) => {
                    proof {
                        // A body-decode failure is never the
                        // unbounded-body kind.
                        crate::chunks::lemma_decode_err_kind(
                            hdr.ch_type,
                            data.subrange(
                                spec_chunk_pos(data, start, n as nat) + 12,
                                spec_chunk_pos(data, start, n as nat) + 12 + hdr.ch_size,
                            ),
                        );
                    }
                    return Err(e);
                },
            };
            proof {
                let p = spec_chunk_pos(data, start, n as nat);
                assert(spec_decode_chunk(
                    hdr.ch_type,
                    data.subrange(p + 12, p + 12 + hdr.ch_size),
                ) == Ok::<crate::chunks::CafChunkView, CafError>(c@));
                lemma_scan_step_captured(data, start, cap, hdrs_old, res_old, hdr, c);
            }
            res.push(c);
        } else {
            match self.to_next_chunk(&hdr) {
                Ok(_) => (),
                Err(e) => {
                    return Err(e);
                },
            }
            proof {
                lemma_scan_step_skipped(data, start, cap, hdrs_old, res_old, hdr);
            }
        }
        match required_idx {
            Some(i) => {
                required.remove(i);
            },
            None => (),
        }
        read_headers.push(hdr);
        proof {
            lemma_scan_step_headers(data, start, req0, hdrs_old, hdr);
            assert(read_headers@ == hdrs_old.push(hdr));
            assert(required@ == spec_remove_one(req_before, hdr.ch_type));
        }
        Ok(())
    }
}

/// The first index holding `t`, or -1 when none does.
pub open spec fn spec_first_index(s: Seq<ChunkType>, t: ChunkType) -> int
    decreases s.len(),
{
    if s.len() == 0 {
        -1
    } else if s[0] == t {
        0
    } else {
        let r = spec_first_index(s.drop_first(), t);
        if r < 0 {
            -1
        } else {
            r + 1
        }
    }
}

/// `s` with its first occurrence of `t` removed, when there is one.
pub open spec fn spec_remove_one(s: Seq<ChunkType>, t: ChunkType) -> Seq<ChunkType> {
    let i = spec_first_index(s, t);
    if i < 0 {
        s
    } else {
        s.remove(i)
    }
}

/// What is left of the required types after each header's type has
/// removed one matching occurrence, in order.
pub open spec fn spec_required_after(req: Seq<ChunkType>, hdrs: Seq<CafChunkHeader>) -> Seq<
    ChunkType,
>
    decreases hdrs.len(),
{
    if hdrs.len() == 0 {
        req
    } else {
        spec_required_after(spec_remove_one(req, hdrs[0].ch_type), hdrs.drop_first())
    }
}

/// The indices of the headers whose types are in `cap`, in order.
pub open spec fn spec_captured(hdrs: Seq<CafChunkHeader>, cap: Seq<ChunkType>) -> Seq<int>
    decreases hdrs.len(),
{
    if hdrs.len() == 0 {
        Seq::empty()
    } else {
        let pre = spec_captured(hdrs.drop_last(), cap);
        if cap.contains(hdrs.last().ch_type) {
            pre.push(hdrs.len() - 1)
        } else {
            pre
        }
    }
}

/// The `k`-th header of a scan parses from the stream at its chunk
/// position, is bounded, and its header bytes lie in the stream.
pub open spec fn scan_header_ok(
    data: Seq<u8>,
    start: int,
    hdrs: Seq<CafChunkHeader>,
    k: int,
) -> bool {
    let p = spec_chunk_pos(data, start, k as nat);
    &&& hdrs[k] == spec_header_at(data, p)
    &&& hdrs[k].ch_size >= 0
    &&& p + 12 <= data.len()
}

/// The `j`-th captured chunk of a scan decodes from the body bytes of
/// the `j`-th header whose type is in `cap`.
pub open spec fn scan_capture_ok(
    data: Seq<u8>,
    start: int,
    hdrs: Seq<CafChunkHeader>,
    cap: Seq<ChunkType>,
    chunks: Seq<CafChunk>,
    j: int,
) -> bool {
    let k = spec_captured(hdrs, cap)[j];
    let p = spec_chunk_pos(data, start, k as nat);
    &&& 0 <= k < hdrs.len()
    &&& cap.contains(hdrs[k].ch_type)
    &&& p + 12 + hdrs[k].ch_size <= data.len()
    &&& spec_decode_chunk(hdrs[k].ch_type, data.subrange(p + 12, p + 12 + hdrs[k].ch_size))
        == Ok::<crate::chunks::CafChunkView, CafError>(chunks[j]@)
}

/// The running state of a scan: the position sits right after the
/// chunks logged so far, every logged header parses from the stream
/// at its chunk position and is bounded, the required list holds what
/// the logged headers have not yet removed, no proper prefix had
/// already exhausted it, and the captured chunks decode, in order,
/// from the bodies of the logged headers whose types are in `cap`.
pub open spec fn scan_inv(
    data: Seq<u8>,
    start: int,
    req0: Seq<ChunkType>,
    cap: Seq<ChunkType>,
    required: Seq<ChunkType>,
    chunks: Seq<CafChunk>,
    hdrs: Seq<CafChunkHeader>,
    pos: int,
) -> bool {
    &&& pos == spec_chunk_pos(data, start, hdrs.len() as nat)
    &&& required == spec_required_after(req0, hdrs)
    &&& forall|k: int| 0 <= k < hdrs.len() ==> #[trigger] scan_header_ok(data, start, hdrs, k)
    &&& forall|k: int|
        1 <= k < hdrs.len() ==> spec_required_after(req0, #[trigger] hdrs.take(k)).len() > 0
    &&& chunks.len() == spec_captured(hdrs, cap).len()
    &&& forall|j: int|
        0 <= j < chunks.len() ==> #[trigger] scan_capture_ok(data, start, hdrs, cap, chunks, j)
}

/// Everything a successful scan promises: at least one header was
/// read; every header parses from the stream at its chunk position
/// and is bounded; the position ends right after the last chunk; the
/// required types are exhausted, and were not exhausted by any proper
/// prefix longer than nothing; and the captured chunks decode, in
/// order, from the bodies of the headers whose types are captured.
pub open spec fn scan_post(
    data: Seq<u8>,
    start: int,
    req: Seq<ChunkType>,
    cap: Seq<ChunkType>,
    chunks: Seq<CafChunk>,
    hdrs: Seq<CafChunkHeader>,
    end_pos: int,
) -> bool {
    &&& hdrs.len() >= 1
    &&& spec_required_after(req, hdrs).len() == 0
    &&& scan_inv(data, start, req, cap, Seq::empty(), chunks, hdrs, end_pos)
}

/// A match at `i` with none before it pins the first index down.
proof fn lemma_first_index_is(s: Seq<ChunkType>, t: ChunkType, i: int)
    requires
        0 <= i < s.len(),
        s[i] == t,
        forall|j: int| 0 <= j < i ==> s[j] != t,
    ensures
        spec_first_index(s, t) == i,
    decreases i,
{
    if i == 0 {
    } else {
        assert(s[0] != t);
        lemma_first_index_is(s.drop_first(), t, i - 1);
    }
}

/// No match anywhere means no first index.
proof fn lemma_first_index_none(s: Seq<ChunkType>, t: ChunkType)
    requires
        forall|j: int| 0 <= j < s.len() ==> s[j] != t,
    ensures
        spec_first_index(s, t) == -1,
    decreases s.len(),
{
    if s.len() > 0 {
        assert(s[0] != t);
        lemma_first_index_none(s.drop_first(), t);
    }
}

/// Seeing one more header removes one more occurrence.
proof fn lemma_required_after_snoc(req: Seq<ChunkType>, hdrs: Seq<CafChunkHeader>, h: CafChunkHeader)
    ensures
        spec_required_after(req, hdrs.push(h)) == spec_remove_one(
            spec_required_after(req, hdrs),
            h.ch_type,
        ),
    decreases hdrs.len(),
{
    if hdrs.len() == 0 {
        assert(hdrs.push(h)[0] == h);
        assert(hdrs.push(h).drop_first() =~= Seq::<CafChunkHeader>::empty());
        assert(spec_required_after(req, hdrs.push(h)) == spec_required_after(
            spec_remove_one(req, h.ch_type),
            Seq::<CafChunkHeader>::empty(),
        ));
        assert(spec_required_after(
            spec_remove_one(req, h.ch_type),
            Seq::<CafChunkHeader>::empty(),
        ) == spec_remove_one(req, h.ch_type));
    } else {
        assert(hdrs.push(h)[0] == hdrs[0]);
        assert(hdrs.push(h).drop_first() =~= hdrs.drop_first().push(h));
        lemma_required_after_snoc(spec_remove_one(req, hdrs[0].ch_type), hdrs.drop_first(), h);
        assert(spec_required_after(req, hdrs.push(h)) == spec_required_after(
            spec_remove_one(req, hdrs[0].ch_type),
            hdrs.drop_first().push(h),
        ));
        assert(spec_required_after(req, hdrs) == spec_required_after(
            spec_remove_one(req, hdrs[0].ch_type),
            hdrs.drop_first(),
        ));
    }
}

/// One scan step's effect on the header log: the new header parses at
/// its chunk position, the required list loses one occurrence of its
/// type, and no proper prefix was already exhausted unless the scan
/// would have stopped there.
proof fn lemma_scan_step_headers(
    data: Seq<u8>,
    start: int,
    req0: Seq<ChunkType>,
    hdrs_old: Seq<CafChunkHeader>,
    hdr: CafChunkHeader,
)
    requires
        forall|k: int|
            0 <= k < hdrs_old.len() ==> #[trigger] scan_header_ok(data, start, hdrs_old, k),
        forall|k: int|
            1 <= k < hdrs_old.len() ==> spec_required_after(
                req0,
                #[trigger] hdrs_old.take(k),
            ).len() > 0,
        hdrs_old.len() == 0 || spec_required_after(req0, hdrs_old).len() > 0,
        hdr == spec_header_at(data, spec_chunk_pos(data, start, hdrs_old.len() as nat)),
        hdr.ch_size >= 0,
        spec_chunk_pos(data, start, hdrs_old.len() as nat) + 12 <= data.len(),
    ensures
        spec_required_after(req0, hdrs_old.push(hdr)) == spec_remove_one(
            spec_required_after(req0, hdrs_old),
            hdr.ch_type,
        ),
        forall|k: int|
            0 <= k < hdrs_old.push(hdr).len() ==> #[trigger] scan_header_ok(
                data,
                start,
                hdrs_old.push(hdr),
                k,
            ),
        forall|k: int|
            1 <= k < hdrs_old.push(hdr).len() ==> spec_required_after(
                req0,
                #[trigger] hdrs_old.push(hdr).take(k),
            ).len() > 0,
        spec_chunk_pos(data, start, (hdrs_old.len() + 1) as nat) == spec_chunk_pos(
            data,
            start,
            hdrs_old.len() as nat,
        ) + 12 + hdr.ch_size,
{
    let n = hdrs_old.len() as int;
    let new_hdrs = hdrs_old.push(hdr);
    lemma_required_after_snoc(req0, hdrs_old, hdr);
    assert forall|k: int| 0 <= k < new_hdrs.len() implies #[trigger] scan_header_ok(
        data,
        start,
        new_hdrs,
        k,
    ) by {
        if k < n {
            assert(scan_header_ok(data, start, hdrs_old, k));
            assert(new_hdrs[k] == hdrs_old[k]);
        } else {
            assert(new_hdrs[k] == hdr);
        }
    }
    assert forall|k: int| 1 <= k < new_hdrs.len() implies spec_required_after(
        req0,
        #[trigger] new_hdrs.take(k),
    ).len() > 0 by {
        if k < n {
            assert(new_hdrs.take(k) =~= hdrs_old.take(k));
            assert(spec_required_after(req0, hdrs_old.take(k)).len() > 0);
        } else {
            assert(new_hdrs.take(k) =~= hdrs_old);
        }
    }
}

/// One scan step's effect on the captured chunks when the new chunk
/// is skipped: nothing changes.
proof fn lemma_scan_step_skipped(
    data: Seq<u8>,
    start: int,
    cap: Seq<ChunkType>,
    hdrs_old: Seq<CafChunkHeader>,
    res_old: Seq<CafChunk>,
    hdr: CafChunkHeader,
)
    requires
        !cap.contains(hdr.ch_type),
        res_old.len() == spec_captured(hdrs_old, cap).len(),
        forall|j: int|
            0 <= j < res_old.len() ==> #[trigger] scan_capture_ok(
                data,
                start,
                hdrs_old,
                cap,
                res_old,
                j,
            ),
    ensures
        res_old.len() == spec_captured(hdrs_old.push(hdr), cap).len(),
        forall|j: int|
            0 <= j < res_old.len() ==> #[trigger] scan_capture_ok(
                data,
                start,
                hdrs_old.push(hdr),
                cap,
                res_old,
                j,
            ),
{
    let new_hdrs = hdrs_old.push(hdr);
    assert(new_hdrs.drop_last() =~= hdrs_old);
    assert(new_hdrs.last() == hdr);
    assert(spec_captured(new_hdrs, cap) == spec_captured(hdrs_old, cap));
    assert forall|j: int| 0 <= j < res_old.len() implies #[trigger] scan_capture_ok(
        data,
        start,
        new_hdrs,
        cap,
        res_old,
        j,
    ) by {
        assert(scan_capture_ok(data, start, hdrs_old, cap, res_old, j));
        let k = spec_captured(hdrs_old, cap)[j];
        assert(new_hdrs[k] == hdrs_old[k]);
    }
}

/// One scan step's effect on the captured chunks when the new chunk
/// is captured: its decoded value joins the list, at the new header's
/// index.
proof fn lemma_scan_step_captured(
    data: Seq<u8>,
    start: int,
    cap: Seq<ChunkType>,
    hdrs_old: Seq<CafChunkHeader>,
    res_old: Seq<CafChunk>,
    hdr: CafChunkHeader,
    c: CafChunk,
)
    requires
        cap.contains(hdr.ch_type),
        res_old.len() == spec_captured(hdrs_old, cap).len(),
        forall|j: int|
            0 <= j < res_old.len() ==> #[trigger] scan_capture_ok(
                data,
                start,
                hdrs_old,
                cap,
                res_old,
                j,
            ),
        hdr.ch_size >= 0,
        spec_chunk_pos(data, start, hdrs_old.len() as nat) + 12 + hdr.ch_size <= data.len(),
        spec_decode_chunk(
            hdr.ch_type,
            data.subrange(
                spec_chunk_pos(data, start, hdrs_old.len() as nat) + 12,
                spec_chunk_pos(data, start, hdrs_old.len() as nat) + 12 + hdr.ch_size,
            ),
        ) == Ok::<crate::chunks::CafChunkView, CafError>(c@),
    ensures
        res_old.push(c).len() == spec_captured(hdrs_old.push(hdr), cap).len(),
        forall|j: int|
            0 <= j < res_old.push(c).len() ==> #[trigger] scan_capture_ok(
                data,
                start,
                hdrs_old.push(hdr),
                cap,
                res_old.push(c),
                j,
            ),
{
    let n = hdrs_old.len() as int;
    let new_hdrs = hdrs_old.push(hdr);
    let res_new = res_old.push(c);
    assert(new_hdrs.drop_last() =~= hdrs_old);
    assert(new_hdrs.last() == hdr);
    assert(spec_captured(new_hdrs, cap) == spec_captured(hdrs_old, cap).push(n));
    assert forall|j: int| 0 <= j < res_new.len() implies #[trigger] scan_capture_ok(
        data,
        start,
        new_hdrs,
        cap,
        res_new,
        j,
    ) by {
        if j < res_old.len() {
            assert(scan_capture_ok(data, start, hdrs_old, cap, res_old, j));
            assert(res_new[j] == res_old[j]);
            let k = spec_captured(hdrs_old, cap)[j];
            assert(new_hdrs[k] == hdrs_old[k]);
        } else {
            assert(spec_captured(new_hdrs, cap)[j] == n);
            assert(new_hdrs[n] == hdr);
            assert(res_new[j] == c);
        }
    }
}

/// The first index holding `t`, if any.
fn find_first(v: &Vec<ChunkType>, t: ChunkType) -> (r: Option<usize>)
    ensures
        match r {
            Some(i) => 0 <= i < v@.len() && spec_first_index(v@, t) == i as int,
            None => spec_first_index(v@, t) == -1,
        },
{
    let mut i: usize = 0;
    while i < v.len()
        invariant
            i <= v@.len(),
            forall|j: int| 0 <= j < i ==> v@[j] != t,
        decreases v@.len() - i,
    {
        if v[i] == t {
            proof {
                lemma_first_index_is(v@, t, i as int);
            }
            return Some(i);
        }
        i = i + 1;
    }
    proof {
        lemma_first_index_none(v@, t);
    }
    None
}

/// Whether `v` holds `t`.
fn contains_type(v: &[ChunkType], t: ChunkType) -> (r: bool)
    ensures
        r == v@.contains(t),
{
    let mut i: usize = 0;
    let n = v.len();
    while i < n
        invariant
            i <= n == v@.len(),
            forall|j: int| 0 <= j < i ==> v@[j] != t,
        decreases n - i,
    {
        if v[i] == t {
            assert(v@.contains(t)) by {
                assert(v@[i as int] == t);
            }
            return true;
        }
        i = i + 1;
    }
    false
}

} // verus!
