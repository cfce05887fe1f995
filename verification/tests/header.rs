use flac_decoder::crc::crc8_of;
use flac_decoder::cursor::BitCursor;
use flac_decoder::error::{DecodeError, VarintFault};
use flac_decoder::header::{decode_frame_header, ChannelAssignment, FrameHeader};
use flac_decoder::stream_info::StreamInfo;

fn stream() -> StreamInfo {
    StreamInfo::new(4096, 4096, 0, 0, 44100, 2, 16, 0, [0; 16])
}

fn sealed(mut bytes: Vec<u8>) -> Vec<u8> {
    let crc = crc8_of(&bytes, 0, bytes.len());
    bytes.push(crc);
    bytes
}

fn decode(bytes: &[u8], info: &StreamInfo) -> Result<FrameHeader, DecodeError> {
    let mut cursor = BitCursor::new(bytes).unwrap();
    decode_frame_header(&mut cursor, info)
}

#[test]
fn a_plain_header_resolves_its_selectors() {
    let bytes = [0xFF, 0xF8, 0xC0, 0x18, 0x00, 0xF8];
    let mut cursor = BitCursor::new(&bytes).unwrap();
    let header = decode_frame_header(&mut cursor, &stream()).unwrap();
    assert_eq!(cursor.bit_position(), 48);
    assert_eq!(
        header,
        FrameHeader {
            sync_code: 0x3FFE,
            blocking_strategy: 0,
            block_size_code: 12,
            sample_rate_code: 0,
            channel_assignment_code: 1,
            bit_depth_code: 4,
            mandatory: 0,
            frame_or_sample_number: 0,
            block_size: 4096,
            sample_rate: 44100,
            channel_assignment: ChannelAssignment::Independent(2),
            bit_depth: 16,
            crc8: 0xF8,
        }
    );
}

#[test]
fn the_selectors_of_a_header_spell_its_first_four_bytes() {
    for first in [[0xFFu8, 0xF8, 0xC0, 0x18], [0xFF, 0xF9, 0x19, 0xA2], [0xFF, 0xF8, 0x5B, 0x7C]] {
        let mut bytes = first.to_vec();
        bytes.push(0x05);
        let bytes = sealed(bytes);
        let header = decode(&bytes, &stream()).unwrap();
        let word = u32::from_be_bytes(first) as u64;
        assert_eq!(header.selector_bits(), word);
    }
}

#[test]
fn block_size_table() {
    let sizes = [
        (1u8, 192u16),
        (2, 576),
        (3, 1152),
        (4, 2304),
        (5, 4608),
        (8, 256),
        (9, 512),
        (10, 1024),
        (11, 2048),
        (12, 4096),
        (13, 8192),
        (14, 16384),
        (15, 32768),
    ];
    for (code, size) in sizes {
        let bytes = sealed(vec![0xFF, 0xF8, code << 4 | 0x9, 0x18, 0x00]);
        let header = decode(&bytes, &stream()).unwrap();
        assert_eq!(header.block_size_code, code);
        assert_eq!(header.block_size, size);
    }
}

#[test]
fn block_size_from_the_field_after_the_number() {
    let bytes = sealed(vec![0xFF, 0xF8, 0x69, 0x18, 0x00, 0x00]);
    assert_eq!(decode(&bytes, &stream()).unwrap().block_size, 1);
    let bytes = sealed(vec![0xFF, 0xF8, 0x69, 0x18, 0x00, 0xFF]);
    assert_eq!(decode(&bytes, &stream()).unwrap().block_size, 256);
    let bytes = sealed(vec![0xFF, 0xF8, 0x79, 0x18, 0x00, 0x12, 0x33]);
    assert_eq!(decode(&bytes, &stream()).unwrap().block_size, 0x1234);
    let bytes = sealed(vec![0xFF, 0xF8, 0x79, 0x18, 0x00, 0xFF, 0xFE]);
    assert_eq!(decode(&bytes, &stream()).unwrap().block_size, 65535);
    let bytes = sealed(vec![0xFF, 0xF8, 0x79, 0x18, 0x00, 0xFF, 0xFF]);
    assert_eq!(decode(&bytes, &stream()), Err(DecodeError::ReservedFieldUsed));
}

#[test]
fn sample_rate_table() {
    let rates = [
        (0u8, 44100u64),
        (1, 88200),
        (2, 176400),
        (3, 192000),
        (4, 8000),
        (5, 16000),
        (6, 22050),
        (7, 24000),
        (8, 32000),
        (9, 44100),
        (10, 48000),
        (11, 96000),
    ];
    for (code, rate) in rates {
        let bytes = sealed(vec![0xFF, 0xF8, 0xC0 | code, 0x18, 0x00]);
        let header = decode(&bytes, &stream()).unwrap();
        assert_eq!(header.sample_rate_code, code);
        assert_eq!(header.sample_rate, rate);
    }
    let other = StreamInfo::new(16, 16, 0, 0, 12345, 1, 8, 0, [0; 16]);
    let bytes = sealed(vec![0xFF, 0xF8, 0xC0, 0x18, 0x00]);
    assert_eq!(decode(&bytes, &other).unwrap().sample_rate, 12345);
}

#[test]
fn sample_rate_from_the_field_after_the_block_size() {
    let bytes = sealed(vec![0xFF, 0xF8, 0xCC, 0x18, 0x00, 48]);
    assert_eq!(decode(&bytes, &stream()).unwrap().sample_rate, 48000);
    let bytes = sealed(vec![0xFF, 0xF8, 0xCD, 0x18, 0x00, 0xAC, 0x44]);
    assert_eq!(decode(&bytes, &stream()).unwrap().sample_rate, 44100);
    let bytes = sealed(vec![0xFF, 0xF8, 0xCE, 0x18, 0x00, 0x11, 0x3A]);
    assert_eq!(decode(&bytes, &stream()).unwrap().sample_rate, 44100);
    let bytes = sealed(vec![0xFF, 0xF8, 0x6D, 0x18, 0x00, 0x09, 0xAC, 0x44]);
    let header = decode(&bytes, &stream()).unwrap();
    assert_eq!((header.block_size, header.sample_rate), (10, 44100));
}

#[test]
fn channel_assignments() {
    for code in 0u8..8 {
        let bytes = sealed(vec![0xFF, 0xF8, 0xC9, code << 4 | 0x8, 0x00]);
        let header = decode(&bytes, &stream()).unwrap();
        assert_eq!(header.channel_assignment, ChannelAssignment::Independent(code + 1));
        assert_eq!(header.channel_assignment.channel_count(), code + 1);
    }
    let stereo = [
        (8u8, ChannelAssignment::LeftSide),
        (9, ChannelAssignment::SideRight),
        (10, ChannelAssignment::MidSide),
    ];
    for (code, layout) in stereo {
        let bytes = sealed(vec![0xFF, 0xF8, 0xC9, code << 4 | 0x8, 0x00]);
        let header = decode(&bytes, &stream()).unwrap();
        assert_eq!(header.channel_assignment, layout);
        assert_eq!(header.channel_assignment.channel_count(), 2);
    }
    assert!(ChannelAssignment::LeftSide.is_side_channel(1));
    assert!(!ChannelAssignment::LeftSide.is_side_channel(0));
    assert!(ChannelAssignment::SideRight.is_side_channel(0));
    assert!(ChannelAssignment::MidSide.is_side_channel(1));
    assert!(!ChannelAssignment::Independent(2).is_side_channel(1));
}

#[test]
fn bit_depth_table() {
    let depths = [(0u8, 16u32), (1, 8), (2, 12), (4, 16), (5, 20), (6, 24), (7, 32)];
    for (code, depth) in depths {
        let bytes = sealed(vec![0xFF, 0xF8, 0xC9, 0x10 | code << 1, 0x00]);
        let header = decode(&bytes, &stream()).unwrap();
        assert_eq!(header.bit_depth_code, code);
        assert_eq!(header.bit_depth, depth);
    }
}

#[test]
fn a_stream_depth_out_of_range_cannot_be_deferred_to() {
    let bytes = sealed(vec![0xFF, 0xF8, 0xC9, 0x10, 0x00]);
    for bps in [0u8, 3, 33, 255] {
        let info = StreamInfo::new(16, 16, 0, 0, 44100, 2, bps, 0, [0; 16]);
        assert_eq!(decode(&bytes, &info), Err(DecodeError::ReservedFieldUsed));
    }
    for bps in [4u8, 32] {
        let info = StreamInfo::new(16, 16, 0, 0, 44100, 2, bps, 0, [0; 16]);
        assert_eq!(decode(&bytes, &info).unwrap().bit_depth, bps as u32);
    }
}

#[test]
fn reserved_values_are_refused() {
    let cases: [[u8; 4]; 6] = [
        [0xFF, 0xFA, 0xC9, 0x18],
        [0xFF, 0xF8, 0x09, 0x18],
        [0xFF, 0xF8, 0xCF, 0x18],
        [0xFF, 0xF8, 0xC9, 0xB8],
        [0xFF, 0xF8, 0xC9, 0x16],
        [0xFF, 0xF8, 0xC9, 0x19],
    ];
    for first in cases {
        let mut bytes = first.to_vec();
        bytes.push(0x00);
        let bytes = sealed(bytes);
        assert_eq!(decode(&bytes, &stream()), Err(DecodeError::ReservedFieldUsed));
    }
}

#[test]
fn a_missing_sync_pattern_is_a_lost_sync() {
    let bytes = sealed(vec![0xFF, 0xF0, 0xC9, 0x18, 0x00]);
    assert_eq!(decode(&bytes, &stream()), Err(DecodeError::SyncLost));
    let bytes = sealed(vec![0x00, 0x00, 0x00, 0x00, 0x00]);
    assert_eq!(decode(&bytes, &stream()), Err(DecodeError::SyncLost));
}

#[test]
fn a_header_cut_short_is_the_end_of_input() {
    let whole = sealed(vec![0xFF, 0xF8, 0x7E, 0x18, 0xC2, 0xA9, 0x01, 0x02, 0x03, 0x04]);
    assert!(decode(&whole, &stream()).is_ok());
    for len in 0..whole.len() {
        assert_eq!(decode(&whole[..len], &stream()), Err(DecodeError::UnexpectedEndOfInput));
    }
}

#[test]
fn the_number_of_the_frame_or_sample() {
    let bytes = sealed(vec![0xFF, 0xF9, 0xC9, 0x18, 0xC2, 0xA9]);
    let header = decode(&bytes, &stream()).unwrap();
    assert_eq!(header.blocking_strategy, 1);
    assert_eq!(header.frame_or_sample_number, 169);
    let bytes = sealed(vec![0xFF, 0xF8, 0xC9, 0x18, 0x80]);
    assert_eq!(
        decode(&bytes, &stream()),
        Err(DecodeError::InvalidVarint(VarintFault::InvalidVarintLength))
    );
    let bytes = sealed(vec![0xFF, 0xF8, 0xC9, 0x18, 0xC2, 0x00]);
    assert_eq!(
        decode(&bytes, &stream()),
        Err(DecodeError::InvalidVarint(VarintFault::MalformedVarint))
    );
}

#[test]
fn a_flipped_bit_in_the_header_is_detected() {
    let good = [0xFFu8, 0xF8, 0xC0, 0x18, 0x00, 0xF8];
    assert!(decode(&good, &stream()).is_ok());
    for byte in 0..good.len() {
        for bit in 0..8 {
            let mut bad = good;
            bad[byte] ^= 1 << bit;
            assert!(decode(&bad, &stream()).is_err());
        }
    }
    let mut bad = good;
    bad[2] ^= 0x01;
    assert_eq!(decode(&bad, &stream()), Err(DecodeError::HeaderChecksumMismatch));
    let mut bad = good;
    bad[5] ^= 0x10;
    assert_eq!(decode(&bad, &stream()), Err(DecodeError::HeaderChecksumMismatch));
}
