//! Tests for the chunk-level and packet-level readers.

use caf::chunks::{encode_audio_description, AudioDescription, CafChunk};
use caf::enums::{AUDIO_DATA, AUDIO_DESCRIPTION, MAGIC_COOKIE, PACKET_TABLE};
use caf::vlq::encode_vlq;
use caf::{CafChunkReader, CafError, CafPacketReader, ChunkType, FormatType, SliceSource};

const MAGIC: [u8; 8] = [0x63, 0x61, 0x66, 0x66, 0x00, 0x01, 0x00, 0x00];

fn chunk(tag: u32, body: &[u8]) -> Vec<u8> {
    let mut out = tag.to_be_bytes().to_vec();
    out.extend_from_slice(&(body.len() as i64).to_be_bytes());
    out.extend_from_slice(body);
    out
}

fn container(chunks: &[Vec<u8>]) -> Vec<u8> {
    let mut out = MAGIC.to_vec();
    for c in chunks {
        out.extend_from_slice(c);
    }
    out
}

fn desc_body(bytes_per_packet: u32, frames_per_packet: u32) -> Vec<u8> {
    encode_audio_description(&AudioDescription {
        sample_rate_bits: 44100.0f64.to_bits(),
        format_id: FormatType::LinearPcm,
        format_flags: 0,
        bytes_per_packet,
        frames_per_packet,
        channels_per_frame: 2,
        bits_per_channel: 16,
    })
}

fn packet_table_body(lengths: &[u64]) -> Vec<u8> {
    let mut body = (lengths.len() as i64).to_be_bytes().to_vec();
    body.extend_from_slice(&0i64.to_be_bytes());
    body.extend_from_slice(&0i32.to_be_bytes());
    body.extend_from_slice(&0i32.to_be_bytes());
    for &l in lengths {
        body.extend_from_slice(&encode_vlq(l));
    }
    body
}

fn audio_body(edit_count: u32, payload: &[u8]) -> Vec<u8> {
    let mut body = edit_count.to_be_bytes().to_vec();
    body.extend_from_slice(payload);
    body
}

#[test]
fn magic_header_accepted() {
    let data = container(&[chunk(MAGIC_COOKIE, &[1, 2])]);
    assert!(CafChunkReader::new(SliceSource::new(data)).is_ok());
}

#[test]
fn magic_single_byte_corruption_rejected() {
    // Any single corrupted byte of the magic fails construction with
    // NotCaf, leaving no usable reader.
    let good = container(&[chunk(MAGIC_COOKIE, &[1, 2])]);
    for i in 0..8 {
        let mut bad = good.clone();
        bad[i] ^= 0x40;
        match CafChunkReader::new(SliceSource::new(bad)) {
            Err(CafError::NotCaf) => (),
            other => panic!("byte {}: expected NotCaf, got {:?}", i, other.is_ok()),
        }
    }
}

#[test]
fn truncated_magic_is_io() {
    assert!(matches!(
        CafChunkReader::new(SliceSource::new(vec![0x63, 0x61])),
        Err(CafError::Io)
    ));
}

#[test]
fn read_chunk_header_and_body() {
    let data = container(&[chunk(MAGIC_COOKIE, &[5, 6, 7])]);
    let mut rdr = CafChunkReader::new(SliceSource::new(data)).unwrap();
    let hdr = rdr.read_chunk_header().unwrap();
    assert!(matches!(hdr.ch_type, ChunkType::MagicCookie));
    assert_eq!(hdr.ch_size, 3);
    match rdr.read_chunk_body(&hdr) {
        Ok(CafChunk::MagicCookie(b)) => assert_eq!(b, vec![5, 6, 7]),
        other => panic!("expected the cookie body, got {:?}", other),
    }
}

#[test]
fn read_chunk_unbounded_body_to_eof() {
    // A -1 body size means the chunk extends to the end of the
    // stream; reading such a body succeeds.
    let mut data = container(&[]);
    data.extend_from_slice(&AUDIO_DATA.to_be_bytes());
    data.extend_from_slice(&(-1i64).to_be_bytes());
    data.extend_from_slice(&audio_body(0, &[1, 2, 3]));
    let mut rdr = CafChunkReader::new(SliceSource::new(data)).unwrap();
    let hdr = rdr.read_chunk_header().unwrap();
    assert_eq!(hdr.ch_size, -1);
    match rdr.read_chunk_body(&hdr) {
        Ok(CafChunk::AudioDataInMemory(ec, payload)) => {
            assert_eq!(ec, 0);
            assert_eq!(payload, vec![1, 2, 3]);
        },
        other => panic!("expected audio data, got {:?}", other),
    }
}

#[test]
fn skip_forward_and_backward() {
    let data = container(&[chunk(MAGIC_COOKIE, &[9; 10]), chunk(AUDIO_DESCRIPTION, &desc_body(4, 1))]);
    let mut rdr = CafChunkReader::new(SliceSource::new(data)).unwrap();
    let h1 = rdr.read_chunk_header().unwrap();
    rdr.to_next_chunk(&h1).unwrap();
    // The position now sits at the end of the first chunk's body:
    // step back over it and read it after all.
    rdr.to_previous_chunk(&h1).unwrap();
    match rdr.read_chunk_body(&h1) {
        Ok(CafChunk::MagicCookie(b)) => assert_eq!(b, vec![9; 10]),
        other => panic!("expected the cookie body, got {:?}", other),
    }
    let h2 = rdr.read_chunk_header().unwrap();
    assert!(matches!(h2.ch_type, ChunkType::AudioDescription));
}

#[test]
fn skip_unbounded_chunk_fails() {
    let mut data = container(&[]);
    data.extend_from_slice(&AUDIO_DATA.to_be_bytes());
    data.extend_from_slice(&(-1i64).to_be_bytes());
    data.extend_from_slice(&[0; 8]);
    let mut rdr = CafChunkReader::new(SliceSource::new(data)).unwrap();
    let hdr = rdr.read_chunk_header().unwrap();
    assert_eq!(rdr.to_next_chunk(&hdr), Err(CafError::UnboundedChunkRead));
}

#[test]
fn scan_captures_selected_and_stops_early() {
    // Chunks: MagicCookie, PacketTable, AudioDescription, AudioData;
    // required = {AudioDescription}, capture = {AudioDescription,
    // PacketTable}. The cookie is skipped undecoded, the table and
    // the description are captured, and the scan stops before
    // reading the audio data.
    let data = container(&[
        chunk(MAGIC_COOKIE, &[1, 2, 3]),
        chunk(PACKET_TABLE, &packet_table_body(&[3, 5, 2])),
        chunk(AUDIO_DESCRIPTION, &desc_body(0, 0)),
        chunk(AUDIO_DATA, &audio_body(0, &[0xaa; 10])),
    ]);
    let mut rdr = CafChunkReader::new(SliceSource::new(data)).unwrap();
    let required = vec![ChunkType::AudioDescription];
    let capture = [ChunkType::AudioDescription, ChunkType::PacketTable];
    let (chunks, headers) = rdr.read_chunks_to_mem(required, &capture).unwrap();
    assert_eq!(chunks.len(), 2);
    assert!(matches!(chunks[0], CafChunk::PacketTable(_)));
    assert!(matches!(chunks[1], CafChunk::Desc(_)));
    assert_eq!(headers.len(), 3);
    assert!(matches!(headers[0].ch_type, ChunkType::MagicCookie));
    assert!(matches!(headers[1].ch_type, ChunkType::PacketTable));
    assert!(matches!(headers[2].ch_type, ChunkType::AudioDescription));
}

#[test]
fn scan_with_empty_required_reads_one_chunk() {
    let data = container(&[chunk(MAGIC_COOKIE, &[1]), chunk(MAGIC_COOKIE, &[2])]);
    let mut rdr = CafChunkReader::new(SliceSource::new(data)).unwrap();
    let (chunks, headers) = rdr.read_chunks_to_mem(vec![], &[]).unwrap();
    assert_eq!(chunks.len(), 0);
    assert_eq!(headers.len(), 1);
}

#[test]
fn scan_fails_fast_on_unbounded_chunk() {
    let mut data = container(&[chunk(MAGIC_COOKIE, &[1])]);
    data.extend_from_slice(&AUDIO_DATA.to_be_bytes());
    data.extend_from_slice(&(-1i64).to_be_bytes());
    data.extend_from_slice(&[0; 16]);
    let mut rdr = CafChunkReader::new(SliceSource::new(data)).unwrap();
    let required = vec![ChunkType::AudioDescription];
    assert_eq!(
        rdr.read_chunks_to_mem(required, &[]),
        Err(CafError::UnboundedChunkRead)
    );
}

#[test]
fn constant_size_packets_count_and_iteration() {
    // bytes_per_packet = 4, frames_per_packet = 1, an audio chunk of
    // exactly 4*N+4 bytes and no packet table: the count is N, N
    // sequential packets of 4 bytes come out, and the (N+1)-th call
    // returns None.
    let n = 5usize;
    let payload: Vec<u8> = (0..4 * n as u8).collect();
    let data = container(&[
        chunk(AUDIO_DESCRIPTION, &desc_body(4, 1)),
        chunk(AUDIO_DATA, &audio_body(3, &payload)),
    ]);
    let mut rdr = CafPacketReader::new(SliceSource::new(data), vec![]).unwrap();
    assert_eq!(rdr.edit_count, 3);
    assert!(rdr.packet_size_is_constant());
    assert!(rdr.packet_table.is_none());
    assert_eq!(rdr.get_packet_count(), Some(n));
    for k in 0..n {
        assert_eq!(rdr.get_packet_idx(), k);
        assert_eq!(rdr.next_packet_size(), Some(4));
        let p = rdr.next_packet().unwrap().unwrap();
        assert_eq!(p, payload[4 * k..4 * k + 4]);
    }
    assert_eq!(rdr.next_packet_size(), None);
    assert_eq!(rdr.next_packet().unwrap(), None);
}

#[test]
fn table_driven_packets_in_order() {
    // bytes_per_packet = 0 with a packet table [3, 5, 2]: three
    // packets of exactly those lengths, then None.
    let payload: Vec<u8> = (0..10).collect();
    let data = container(&[
        chunk(AUDIO_DESCRIPTION, &desc_body(0, 1)),
        chunk(PACKET_TABLE, &packet_table_body(&[3, 5, 2])),
        chunk(AUDIO_DATA, &audio_body(0, &payload)),
    ]);
    let mut rdr = CafPacketReader::new(SliceSource::new(data), vec![]).unwrap();
    assert!(!rdr.packet_size_is_constant());
    assert_eq!(rdr.get_packet_count(), Some(3));
    let p0 = rdr.next_packet().unwrap().unwrap();
    assert_eq!(p0, vec![0, 1, 2]);
    let p1 = rdr.next_packet().unwrap().unwrap();
    assert_eq!(p1, vec![3, 4, 5, 6, 7]);
    let p2 = rdr.next_packet().unwrap().unwrap();
    assert_eq!(p2, vec![8, 9]);
    assert_eq!(rdr.next_packet().unwrap(), None);
}

#[test]
fn table_after_description_found_by_second_scan() {
    // The packet table sits after the audio description, so the
    // first scan stops before it; construction runs a second scan.
    let payload: Vec<u8> = (0..6).collect();
    let data = container(&[
        chunk(AUDIO_DESCRIPTION, &desc_body(0, 1)),
        chunk(MAGIC_COOKIE, &[7, 7]),
        chunk(PACKET_TABLE, &packet_table_body(&[4, 2])),
        chunk(AUDIO_DATA, &audio_body(0, &payload)),
    ]);
    let mut rdr = CafPacketReader::new(SliceSource::new(data), vec![]).unwrap();
    assert_eq!(rdr.get_packet_count(), Some(2));
    assert_eq!(rdr.next_packet().unwrap().unwrap(), vec![0, 1, 2, 3]);
    assert_eq!(rdr.next_packet().unwrap().unwrap(), vec![4, 5]);
    assert_eq!(rdr.next_packet().unwrap(), None);
}

#[test]
fn audio_data_before_description_reached_by_seek_back() {
    // The audio data chunk comes first: its header is passed by the
    // scan, and construction seeks backward to its body.
    let payload: Vec<u8> = (10..30).collect();
    let data = container(&[
        chunk(AUDIO_DATA, &audio_body(1, &payload)),
        chunk(AUDIO_DESCRIPTION, &desc_body(4, 1)),
    ]);
    let mut rdr = CafPacketReader::new(SliceSource::new(data), vec![]).unwrap();
    assert_eq!(rdr.edit_count, 1);
    assert_eq!(rdr.get_packet_count(), Some(5));
    assert_eq!(rdr.next_packet().unwrap().unwrap(), vec![10, 11, 12, 13]);
}

#[test]
fn non_required_table_is_not_kept() {
    // Constant packet sizes: a packet table the scan captured is not
    // adopted as the reader's table — the presence invariant makes it
    // absent — but it stays among the captured chunks.
    let payload: Vec<u8> = (0..8).collect();
    let data = container(&[
        chunk(PACKET_TABLE, &packet_table_body(&[4, 4])),
        chunk(AUDIO_DESCRIPTION, &desc_body(4, 1)),
        chunk(AUDIO_DATA, &audio_body(0, &payload)),
    ]);
    let mut rdr = CafPacketReader::new(SliceSource::new(data), vec![]).unwrap();
    assert!(rdr.packet_table.is_none());
    assert_eq!(rdr.chunks.len(), 1);
    assert!(matches!(rdr.chunks[0], CafChunk::PacketTable(_)));
    assert_eq!(rdr.get_packet_count(), Some(2));
    assert_eq!(rdr.next_packet().unwrap().unwrap(), vec![0, 1, 2, 3]);
}

#[test]
fn zero_frames_per_packet_requires_table() {
    // frames_per_packet == 0 alone makes the table mandatory, even
    // with a constant byte size.
    let payload: Vec<u8> = (0..8).collect();
    let data = container(&[
        chunk(AUDIO_DESCRIPTION, &desc_body(4, 0)),
        chunk(PACKET_TABLE, &packet_table_body(&[4, 4])),
        chunk(AUDIO_DATA, &audio_body(0, &payload)),
    ]);
    let mut rdr = CafPacketReader::new(SliceSource::new(data), vec![]).unwrap();
    assert!(rdr.packet_table.is_some());
    assert_eq!(rdr.next_packet().unwrap().unwrap(), vec![0, 1, 2, 3]);
}

#[test]
fn missing_description_is_an_error() {
    let data = container(&[chunk(MAGIC_COOKIE, &[1])]);
    assert!(CafPacketReader::new(SliceSource::new(data), vec![]).is_err());
}

#[test]
fn missing_required_table_is_an_error() {
    // Non-constant sizes but no packet table anywhere.
    let data = container(&[
        chunk(AUDIO_DESCRIPTION, &desc_body(0, 0)),
        chunk(AUDIO_DATA, &audio_body(0, &[1, 2, 3])),
    ]);
    assert!(CafPacketReader::new(SliceSource::new(data), vec![]).is_err());
}

#[test]
fn unbounded_audio_data_streams_to_exhaustion() {
    // A trailing audio data chunk with the -1 size sentinel: packets
    // keep coming until the stream is exhausted.
    let mut data = container(&[chunk(AUDIO_DESCRIPTION, &desc_body(4, 1))]);
    data.extend_from_slice(&AUDIO_DATA.to_be_bytes());
    data.extend_from_slice(&(-1i64).to_be_bytes());
    data.extend_from_slice(&audio_body(0, &[1, 2, 3, 4, 5, 6, 7, 8]));
    let mut rdr = CafPacketReader::new(SliceSource::new(data), vec![]).unwrap();
    assert_eq!(rdr.get_packet_count(), None);
    assert_eq!(rdr.next_packet().unwrap().unwrap(), vec![1, 2, 3, 4]);
    assert_eq!(rdr.next_packet().unwrap().unwrap(), vec![5, 6, 7, 8]);
    assert!(matches!(rdr.next_packet(), Err(CafError::Io)));
}

#[test]
fn filter_by_captures_extra_chunks() {
    let data = container(&[
        chunk(MAGIC_COOKIE, &[0xc0, 0x01]),
        chunk(AUDIO_DESCRIPTION, &desc_body(4, 1)),
        chunk(AUDIO_DATA, &audio_body(0, &[1, 2, 3, 4])),
    ]);
    let rdr = CafPacketReader::new(
        SliceSource::new(data),
        vec![ChunkType::MagicCookie],
    )
    .unwrap();
    assert_eq!(rdr.chunks.len(), 1);
    match &rdr.chunks[0] {
        CafChunk::MagicCookie(b) => assert_eq!(b, &vec![0xc0, 0x01]),
        other => panic!("expected the cookie, got {:?}", other),
    }
}

#[test]
fn read_packet_into_uses_buffer_length() {
    let payload: Vec<u8> = (0..8).collect();
    let data = container(&[
        chunk(AUDIO_DESCRIPTION, &desc_body(4, 1)),
        chunk(AUDIO_DATA, &audio_body(0, &payload)),
    ]);
    let mut rdr = CafPacketReader::new(SliceSource::new(data), vec![]).unwrap();
    let mut buf = vec![0u8; rdr.next_packet_size().unwrap()];
    rdr.read_packet_into(&mut buf).unwrap();
    assert_eq!(buf, vec![0, 1, 2, 3]);
    assert_eq!(rdr.get_packet_idx(), 1);
}

#[test]
fn seek_to_current_packet_moves_nothing_constant() {
    // Seeking to the current cursor performs zero byte movement with
    // constant-size packets.
    let payload: Vec<u8> = (0..12).collect();
    let data = container(&[
        chunk(AUDIO_DESCRIPTION, &desc_body(4, 1)),
        chunk(AUDIO_DATA, &audio_body(0, &payload)),
    ]);
    let mut rdr = CafPacketReader::new(SliceSource::new(data), vec![]).unwrap();
    rdr.next_packet().unwrap().unwrap();
    rdr.seek_to_packet(1).unwrap();
    assert_eq!(rdr.get_packet_idx(), 1);
    assert_eq!(rdr.next_packet().unwrap().unwrap(), vec![4, 5, 6, 7]);
}

#[test]
fn seek_to_current_packet_moves_nothing_table() {
    // Seeking to the current cursor performs zero byte movement with
    // table-driven packets.
    let payload: Vec<u8> = (0..10).collect();
    let data = container(&[
        chunk(AUDIO_DESCRIPTION, &desc_body(0, 1)),
        chunk(PACKET_TABLE, &packet_table_body(&[3, 5, 2])),
        chunk(AUDIO_DATA, &audio_body(0, &payload)),
    ]);
    let mut rdr = CafPacketReader::new(SliceSource::new(data), vec![]).unwrap();
    rdr.next_packet().unwrap().unwrap();
    rdr.seek_to_packet(1).unwrap();
    assert_eq!(rdr.get_packet_idx(), 1);
    assert_eq!(rdr.next_packet().unwrap().unwrap(), vec![3, 4, 5, 6, 7]);
}

#[test]
fn seek_forward_and_backward_lands_exactly() {
    let payload: Vec<u8> = (0..10).collect();
    let data = container(&[
        chunk(AUDIO_DESCRIPTION, &desc_body(0, 1)),
        chunk(PACKET_TABLE, &packet_table_body(&[3, 5, 2])),
        chunk(AUDIO_DATA, &audio_body(0, &payload)),
    ]);
    let mut rdr = CafPacketReader::new(SliceSource::new(data), vec![]).unwrap();
    rdr.seek_to_packet(2).unwrap();
    assert_eq!(rdr.next_packet().unwrap().unwrap(), vec![8, 9]);
    rdr.seek_to_packet(1).unwrap();
    assert_eq!(rdr.next_packet().unwrap().unwrap(), vec![3, 4, 5, 6, 7]);
    rdr.seek_to_packet(0).unwrap();
    assert_eq!(rdr.next_packet().unwrap().unwrap(), vec![0, 1, 2]);
}

#[test]
fn into_inner_returns_the_source() {
    let data = container(&[chunk(MAGIC_COOKIE, &[1])]);
    let rdr = CafChunkReader::new(SliceSource::new(data.clone())).unwrap();
    let src = rdr.into_inner();
    assert_eq!(src.into_inner(), data);
}

#[test]
fn packet_reader_into_inner_returns_chunk_reader() {
    let payload: Vec<u8> = (0..4).collect();
    let data = container(&[
        chunk(AUDIO_DESCRIPTION, &desc_body(4, 1)),
        chunk(AUDIO_DATA, &audio_body(0, &payload)),
    ]);
    let rdr = CafPacketReader::new(SliceSource::new(data), vec![]).unwrap();
    let _chunk_reader: CafChunkReader<SliceSource> = rdr.into_inner();
}

#[test]
fn truncated_audio_packet_table_overrun_gives_none() {
    // The table promises more bytes than the bounded audio chunk
    // holds: the overrunning packet reads as None, like an ordinary
    // end of stream.
    let payload: Vec<u8> = (0..4).collect();
    let data = container(&[
        chunk(AUDIO_DESCRIPTION, &desc_body(0, 1)),
        chunk(PACKET_TABLE, &packet_table_body(&[3, 5])),
        chunk(AUDIO_DATA, &audio_body(0, &payload)),
    ]);
    let mut rdr = CafPacketReader::new(SliceSource::new(data), vec![]).unwrap();
    assert_eq!(rdr.next_packet().unwrap().unwrap(), vec![0, 1, 2]);
    assert_eq!(rdr.next_packet_size(), None);
    assert_eq!(rdr.next_packet().unwrap(), None);
}
