//! Tests for the byte-level codecs and the chunk body decoder.

use caf::bytes::{push_be_u32, push_be_u64, read_be_i64, read_be_u32, read_be_u64};
use caf::chunks::{
    can_decode_chunk_type, decode_chunk, encode_audio_description, AudioDescription, CafChunk,
};
use caf::enums::format_type_code;
use caf::vlq::{encode_vlq, read_vlq};
use caf::{CafError, ChunkType, FormatType};

fn be32(v: u32) -> Vec<u8> {
    v.to_be_bytes().to_vec()
}

fn be64(v: u64) -> Vec<u8> {
    v.to_be_bytes().to_vec()
}

#[test]
fn be_readers_exact_values() {
    let data = vec![0x12, 0x34, 0x56, 0x78, 0x9a, 0xbc, 0xde, 0xf0];
    assert_eq!(read_be_u32(&data, 0), 0x12345678);
    assert_eq!(read_be_u32(&data, 4), 0x9abcdef0);
    assert_eq!(read_be_u64(&data, 0), 0x123456789abcdef0);
    let neg = vec![0xff; 8];
    assert_eq!(read_be_i64(&neg, 0), -1);
}

#[test]
fn be_writers_round_trip() {
    let mut out = Vec::new();
    push_be_u32(&mut out, 0xdeadbeef);
    push_be_u64(&mut out, 0x0102030405060708);
    assert_eq!(out[..4], 0xdeadbeefu32.to_be_bytes());
    assert_eq!(out[4..], 0x0102030405060708u64.to_be_bytes());
}

#[test]
fn vlq_encode_expected_bytes() {
    assert_eq!(encode_vlq(0), vec![0x00]);
    assert_eq!(encode_vlq(127), vec![0x7f]);
    assert_eq!(encode_vlq(128), vec![0x81, 0x00]);
    assert_eq!(encode_vlq(300), vec![0x82, 0x2c]);
}

#[test]
fn vlq_round_trip_many() {
    let cases: Vec<u64> = vec![
        0,
        1,
        127,
        128,
        129,
        300,
        16383,
        16384,
        0xffff_ffff,
        (1u64 << 63) - 1,
        u64::MAX,
    ];
    for v in cases {
        let enc = encode_vlq(v);
        assert!(enc.len() <= 10);
        if v < (1u64 << 63) {
            assert!(enc.len() <= 9);
        }
        let (decoded, used) = read_vlq(&enc, 0).unwrap();
        assert_eq!(decoded, v);
        assert_eq!(used, enc.len());
    }
}

#[test]
fn vlq_continuation_run_fails_not_loops() {
    // Ten continuation bytes: the cap is hit, no terminator in sight.
    let bad = vec![0x80u8; 12];
    assert_eq!(read_vlq(&bad, 0), Err(CafError::MalformedVlq));
    // Data that ends before the run terminates.
    let short = vec![0x80u8; 3];
    assert_eq!(read_vlq(&short, 0), Err(CafError::MalformedField));
}

#[test]
fn chunk_type_resolution_is_total() {
    assert!(matches!(ChunkType::from(0x64657363), ChunkType::AudioDescription));
    assert!(matches!(ChunkType::from(0x64617461), ChunkType::AudioData));
    assert!(matches!(ChunkType::from(0x70616b74), ChunkType::PacketTable));
    assert!(matches!(ChunkType::from(0x6b756b69), ChunkType::MagicCookie));
    assert!(matches!(ChunkType::from(0x696e666f), ChunkType::Info));
    assert!(matches!(ChunkType::from(0x12345678), ChunkType::Other(0x12345678)));
}

#[test]
fn format_type_resolution_round_trips() {
    let codes = vec![0x6c70636d, 0x616c6163, 0x2e6d7033, 0x99999999];
    for code in codes {
        let f = FormatType::from(code);
        assert_eq!(format_type_code(f), code);
    }
    assert!(matches!(FormatType::from(0x6c70636d), FormatType::LinearPcm));
}

#[test]
fn can_decode_supported_kinds_only() {
    assert!(can_decode_chunk_type(ChunkType::AudioDescription));
    assert!(can_decode_chunk_type(ChunkType::AudioData));
    assert!(can_decode_chunk_type(ChunkType::PacketTable));
    assert!(can_decode_chunk_type(ChunkType::ChannelLayout));
    assert!(can_decode_chunk_type(ChunkType::MagicCookie));
    assert!(can_decode_chunk_type(ChunkType::Info));
    assert!(!can_decode_chunk_type(ChunkType::Free));
    assert!(!can_decode_chunk_type(ChunkType::Other(7)));
}

#[test]
fn audio_description_round_trips_exactly() {
    let desc = AudioDescription {
        sample_rate_bits: 44100.0f64.to_bits(),
        format_id: FormatType::LinearPcm,
        format_flags: 0x2,
        bytes_per_packet: 4,
        frames_per_packet: 1,
        channels_per_frame: 2,
        bits_per_channel: 16,
    };
    let body = encode_audio_description(&desc);
    assert_eq!(body.len(), 32);
    match decode_chunk(ChunkType::AudioDescription, body) {
        Ok(CafChunk::Desc(d)) => assert_eq!(d, desc),
        other => panic!("expected a decoded description, got {:?}", other),
    }
}

#[test]
fn audio_description_truncated_is_malformed() {
    let body = vec![0u8; 31];
    assert_eq!(
        decode_chunk(ChunkType::AudioDescription, body),
        Err(CafError::MalformedField)
    );
}

#[test]
fn audio_data_strips_edit_count() {
    let mut body = be32(7);
    body.extend_from_slice(&[1, 2, 3, 4, 5]);
    match decode_chunk(ChunkType::AudioData, body) {
        Ok(CafChunk::AudioDataInMemory(ec, payload)) => {
            assert_eq!(ec, 7);
            assert_eq!(payload, vec![1, 2, 3, 4, 5]);
        },
        other => panic!("expected in-memory audio data, got {:?}", other),
    }
    assert_eq!(
        decode_chunk(ChunkType::AudioData, vec![0, 0, 0]),
        Err(CafError::MalformedField)
    );
}

#[test]
fn packet_table_decodes_lengths() {
    let mut body = Vec::new();
    body.extend_from_slice(&be64(3)); // number of packets
    body.extend_from_slice(&(900i64).to_be_bytes()); // valid frames
    body.extend_from_slice(&(10i32).to_be_bytes()); // priming frames
    body.extend_from_slice(&(2i32).to_be_bytes()); // remainder frames
    body.extend_from_slice(&encode_vlq(3));
    body.extend_from_slice(&encode_vlq(300));
    body.extend_from_slice(&encode_vlq(2));
    match decode_chunk(ChunkType::PacketTable, body) {
        Ok(CafChunk::PacketTable(t)) => {
            assert_eq!(t.num_valid_frames, 900);
            assert_eq!(t.num_priming_frames, 10);
            assert_eq!(t.num_remainder_frames, 2);
            assert_eq!(t.lengths, vec![3, 300, 2]);
        },
        other => panic!("expected a packet table, got {:?}", other),
    }
}

#[test]
fn packet_table_negative_count_is_malformed() {
    let mut body = Vec::new();
    body.extend_from_slice(&(-1i64).to_be_bytes());
    body.extend_from_slice(&[0u8; 16]);
    assert_eq!(
        decode_chunk(ChunkType::PacketTable, body),
        Err(CafError::MalformedField)
    );
}

#[test]
fn packet_table_truncated_vlq_is_malformed() {
    let mut body = Vec::new();
    body.extend_from_slice(&be64(1));
    body.extend_from_slice(&[0u8; 16]);
    body.push(0x80); // a continuation byte with nothing after it
    assert_eq!(
        decode_chunk(ChunkType::PacketTable, body),
        Err(CafError::MalformedField)
    );
}

#[test]
fn channel_layout_decodes_descriptions() {
    let mut body = Vec::new();
    body.extend_from_slice(&be32(0x650002)); // layout tag
    body.extend_from_slice(&be32(0x3)); // bitmap
    body.extend_from_slice(&be32(2)); // description count
    for label in 1u32..3 {
        body.extend_from_slice(&be32(label));
        body.extend_from_slice(&be32(0));
        body.extend_from_slice(&be32(1.0f32.to_bits()));
        body.extend_from_slice(&be32(0.5f32.to_bits()));
        body.extend_from_slice(&be32(0.25f32.to_bits()));
    }
    match decode_chunk(ChunkType::ChannelLayout, body) {
        Ok(CafChunk::ChanLayout(l)) => {
            assert_eq!(l.channel_layout_tag, 0x650002);
            assert_eq!(l.channel_bitmap, 0x3);
            assert_eq!(l.channel_descriptions.len(), 2);
            assert_eq!(l.channel_descriptions[0].channel_label, 1);
            assert_eq!(l.channel_descriptions[1].channel_label, 2);
            assert_eq!(l.channel_descriptions[0].coordinates_bits_0, 1.0f32.to_bits());
            assert_eq!(l.channel_descriptions[1].coordinates_bits_2, 0.25f32.to_bits());
        },
        other => panic!("expected a channel layout, got {:?}", other),
    }
    // A count the body cannot hold is malformed.
    let mut short = Vec::new();
    short.extend_from_slice(&be32(0));
    short.extend_from_slice(&be32(0));
    short.extend_from_slice(&be32(5));
    assert_eq!(
        decode_chunk(ChunkType::ChannelLayout, short),
        Err(CafError::MalformedField)
    );
}

#[test]
fn magic_cookie_is_opaque() {
    let body = vec![9, 8, 7];
    match decode_chunk(ChunkType::MagicCookie, body) {
        Ok(CafChunk::MagicCookie(b)) => assert_eq!(b, vec![9, 8, 7]),
        other => panic!("expected a magic cookie, got {:?}", other),
    }
}

#[test]
fn info_decodes_string_pairs() {
    let mut body = be32(2);
    body.extend_from_slice(b"artist\0nobody\0");
    body.extend_from_slice(b"year\01970\0");
    match decode_chunk(ChunkType::Info, body) {
        Ok(CafChunk::Info(entries)) => {
            assert_eq!(entries.len(), 2);
            assert_eq!(entries[0].0, "artist");
            assert_eq!(entries[0].1, "nobody");
            assert_eq!(entries[1].0, "year");
            assert_eq!(entries[1].1, "1970");
        },
        other => panic!("expected information entries, got {:?}", other),
    }
}

#[test]
fn info_truncated_pair_is_malformed() {
    let mut body = be32(1);
    body.extend_from_slice(b"key\0value"); // no terminator on the value
    assert_eq!(decode_chunk(ChunkType::Info, body), Err(CafError::MalformedField));
}

#[test]
fn info_invalid_utf8_is_malformed() {
    let mut body = be32(1);
    body.extend_from_slice(&[0xff, 0xfe, 0x00]); // invalid UTF-8 key
    body.extend_from_slice(b"v\0");
    assert_eq!(decode_chunk(ChunkType::Info, body), Err(CafError::MalformedField));
}

#[test]
fn unsupported_chunk_kind_is_reported() {
    assert_eq!(
        decode_chunk(ChunkType::Free, vec![0u8; 4]),
        Err(CafError::UnsupportedChunkType(ChunkType::Free))
    );
    assert_eq!(
        decode_chunk(ChunkType::Other(42), vec![]),
        Err(CafError::UnsupportedChunkType(ChunkType::Other(42)))
    );
}
