use flac_decoder::crc::{crc16_of, crc8_of};
use flac_decoder::cursor::BitCursor;
use flac_decoder::error::DecodeError;
use flac_decoder::frame::{decode_frame, decode_frame_best_effort, Frame};
use flac_decoder::header::ChannelAssignment;
use flac_decoder::stream_info::StreamInfo;
use flac_decoder::subframe::{
    constant_value, find_wasted_bits, verbatim, Prediction, Subframe,
};

struct Bits(Vec<bool>);

impl Bits {
    fn new() -> Self {
        Bits(Vec::new())
    }

    fn put(&mut self, width: u32, value: i64) -> &mut Self {
        for i in (0..width).rev() {
            self.0.push((value >> i) & 1 == 1);
        }
        self
    }

    fn unary(&mut self, run: u32) -> &mut Self {
        for _ in 0..run {
            self.0.push(false);
        }
        self.0.push(true);
        self
    }

    fn rice(&mut self, parameter: u32, value: i64) -> &mut Self {
        let code = if value >= 0 { 2 * value } else { -2 * value - 1 } as u64;
        self.unary((code >> parameter) as u32);
        self.put(parameter, (code & ((1 << parameter) - 1)) as i64)
    }

    fn header(&mut self, bytes: &[u8]) -> &mut Self {
        for &b in bytes {
            self.put(8, b as i64);
        }
        self.put(8, crc8_of(bytes, 0, bytes.len()) as i64)
    }

    fn subframe(&mut self, code: i64, wasted: u32) -> &mut Self {
        self.put(1, 0).put(6, code);
        if wasted == 0 {
            self.put(1, 0)
        } else {
            self.put(1, 1).unary(wasted - 1)
        }
    }

    fn bytes(&self) -> Vec<u8> {
        let mut bits = self.0.clone();
        while bits.len() % 8 != 0 {
            bits.push(false);
        }
        bits.chunks(8).map(|c| c.iter().fold(0u8, |a, &b| a << 1 | b as u8)).collect()
    }

    fn frame(&self) -> Vec<u8> {
        let mut bytes = self.bytes();
        let crc = crc16_of(&bytes, 0, bytes.len());
        bytes.extend(crc.to_be_bytes());
        bytes
    }
}

fn stream() -> StreamInfo {
    StreamInfo::new(4096, 4096, 0, 0, 44100, 2, 16, 0, [0; 16])
}

fn decode(bytes: &[u8]) -> Result<Vec<Vec<i64>>, DecodeError> {
    let mut cursor = BitCursor::new(bytes).unwrap();
    let decoded = decode_frame(&mut cursor, &stream())?;
    assert_eq!(cursor.bit_position(), bytes.len() * 8);
    assert!(decoded.checksum_valid);
    Ok(decoded.channels)
}

fn zero_frame() -> Vec<u8> {
    let mut bits = Bits::new();
    bits.header(&[0xFF, 0xF8, 0xC0, 0x18, 0x00]);
    for _ in 0..2 {
        bits.subframe(8, 0).put(2, 0).put(4, 0);
        for _ in 0..4096 {
            bits.rice(0, 0);
        }
    }
    bits.frame()
}

#[test]
fn a_frame_of_silence_from_end_to_end() {
    let bytes = zero_frame();
    assert_eq!(bytes.len(), 1036);
    assert_eq!(&bytes[..6], &[0xFF, 0xF8, 0xC0, 0x18, 0x00, 0xF8]);
    assert_eq!(&bytes[1034..], &[0xAD, 0xA4]);
    let mut cursor = BitCursor::new(&bytes).unwrap();
    let decoded = decode_frame(&mut cursor, &stream()).unwrap();
    assert_eq!(cursor.bit_position(), 1036 * 8);
    assert_eq!(decoded.header.block_size, 4096);
    assert_eq!(decoded.header.block_size_code, 0b1100);
    assert_eq!(decoded.header.sample_rate_code, 0);
    assert_eq!(decoded.header.sample_rate, 44100);
    assert_eq!(decoded.header.channel_assignment, ChannelAssignment::Independent(2));
    assert_eq!(decoded.header.bit_depth_code, 0b100);
    assert_eq!(decoded.header.bit_depth, 16);
    assert_eq!(decoded.header.frame_or_sample_number, 0);
    assert_eq!(decoded.header.crc8, 0xF8);
    assert!(decoded.checksum_valid);
    assert_eq!(decoded.channels, vec![vec![0i64; 4096]; 2]);
}

#[test]
fn frames_follow_each_other() {
    let mut bytes = zero_frame();
    bytes.extend(zero_frame());
    let mut cursor = BitCursor::new(&bytes).unwrap();
    assert!(decode_frame(&mut cursor, &stream()).is_ok());
    assert_eq!(cursor.bit_position(), 1036 * 8);
    assert!(decode_frame(&mut cursor, &stream()).is_ok());
    assert_eq!(cursor.bit_position(), 2072 * 8);
    assert_eq!(decode_frame(&mut cursor, &stream()).err(), Some(DecodeError::UnexpectedEndOfInput));
}

#[test]
fn a_footer_that_does_not_match_rejects_the_frame() {
    let mut bytes = zero_frame();
    bytes[1035] ^= 0x01;
    let mut cursor = BitCursor::new(&bytes).unwrap();
    assert_eq!(
        decode_frame(&mut cursor, &stream()).err(),
        Some(DecodeError::FrameChecksumMismatch)
    );
}

#[test]
fn a_footer_that_does_not_match_can_be_tolerated() {
    let mut bytes = zero_frame();
    bytes[1035] ^= 0x01;
    let mut cursor = BitCursor::new(&bytes).unwrap();
    let decoded = decode_frame_best_effort(&mut cursor, &stream()).unwrap();
    assert!(!decoded.checksum_valid);
    assert_eq!(decoded.channels, vec![vec![0i64; 4096]; 2]);
    let good = zero_frame();
    let mut cursor = BitCursor::new(&good).unwrap();
    assert!(decode_frame_best_effort(&mut cursor, &stream()).unwrap().checksum_valid);
}

#[test]
fn a_changed_residual_bit_fails_the_frame_checksum() {
    let mut bytes = zero_frame();
    bytes[100] ^= 0x40;
    let mut cursor = BitCursor::new(&bytes).unwrap();
    assert!(decode_frame(&mut cursor, &stream()).is_err());
}

#[test]
fn a_changed_header_bit_fails_the_header_checksum() {
    let mut bytes = zero_frame();
    bytes[2] ^= 0x01;
    let mut cursor = BitCursor::new(&bytes).unwrap();
    assert_eq!(
        decode_frame(&mut cursor, &stream()).err(),
        Some(DecodeError::HeaderChecksumMismatch)
    );
    let mut cursor = BitCursor::new(&bytes).unwrap();
    assert_eq!(
        decode_frame_best_effort(&mut cursor, &stream()).err(),
        Some(DecodeError::HeaderChecksumMismatch)
    );
}

#[test]
fn a_frame_cut_short_is_the_end_of_input() {
    let bytes = zero_frame();
    for len in [0, 3, 5, 6, 7, 8, 500, 1033, 1034, 1035] {
        let mut cursor = BitCursor::new(&bytes[..len]).unwrap();
        assert_eq!(
            decode_frame(&mut cursor, &stream()).err(),
            Some(DecodeError::UnexpectedEndOfInput)
        );
    }
}

#[test]
fn mid_side_with_verbatim_subframes() {
    let left = [10i64, -3, 5, 100, -128];
    let right = [7i64, -4, 5, -100, 127];
    let mut bits = Bits::new();
    bits.header(&[0xFF, 0xF8, 0x69, 0xA2, 0x00, 0x04]);
    bits.subframe(1, 0);
    for i in 0..5 {
        bits.put(8, (left[i] + right[i]) >> 1);
    }
    bits.subframe(1, 0);
    for i in 0..5 {
        bits.put(9, left[i] - right[i]);
    }
    assert_eq!(decode(&bits.frame()), Ok(vec![left.to_vec(), right.to_vec()]));
}

#[test]
fn left_side_and_side_right() {
    let left = [10i64, -3, 127, -128];
    let right = [7i64, -4, -128, 127];
    let mut bits = Bits::new();
    bits.header(&[0xFF, 0xF8, 0x69, 0x82, 0x00, 0x03]);
    bits.subframe(1, 0);
    for i in 0..4 {
        bits.put(8, left[i]);
    }
    bits.subframe(1, 0);
    for i in 0..4 {
        bits.put(9, left[i] - right[i]);
    }
    assert_eq!(decode(&bits.frame()), Ok(vec![left.to_vec(), right.to_vec()]));

    let mut bits = Bits::new();
    bits.header(&[0xFF, 0xF8, 0x69, 0x92, 0x00, 0x03]);
    bits.subframe(1, 0);
    for i in 0..4 {
        bits.put(9, left[i] - right[i]);
    }
    bits.subframe(1, 0);
    for i in 0..4 {
        bits.put(8, right[i]);
    }
    assert_eq!(decode(&bits.frame()), Ok(vec![left.to_vec(), right.to_vec()]));
}

#[test]
fn a_constant_subframe_repeats_its_sample() {
    let mut bits = Bits::new();
    bits.header(&[0xFF, 0xF8, 0x69, 0x02, 0x00, 0x06]);
    bits.subframe(0, 0).put(8, -5);
    assert_eq!(decode(&bits.frame()), Ok(vec![vec![-5; 7]]));
}

#[test]
fn wasted_bits_are_put_back() {
    let mut bits = Bits::new();
    bits.header(&[0xFF, 0xF8, 0x69, 0x02, 0x00, 0x02]);
    bits.subframe(1, 3).put(5, -16).put(5, 15).put(5, 1);
    assert_eq!(decode(&bits.frame()), Ok(vec![vec![-128, 120, 8]]));

    let mut bits = Bits::new();
    bits.header(&[0xFF, 0xF8, 0x69, 0x02, 0x00, 0x02]);
    bits.subframe(0, 7).put(1, -1);
    assert_eq!(decode(&bits.frame()), Ok(vec![vec![-128; 3]]));

    let mut bits = Bits::new();
    bits.header(&[0xFF, 0xF8, 0x69, 0x02, 0x00, 0x02]);
    bits.subframe(9, 1).put(7, 3).put(2, 0).put(4, 0).rice(0, 1).rice(0, -2);
    assert_eq!(decode(&bits.frame()), Ok(vec![vec![6, 8, 4]]));
}

#[test]
fn wasted_bits_must_leave_a_bit_to_the_samples() {
    let mut bits = Bits::new();
    bits.header(&[0xFF, 0xF8, 0x69, 0x02, 0x00, 0x02]);
    bits.subframe(0, 8).put(8, 0);
    assert_eq!(decode(&bits.frame()), Err(DecodeError::ArithmeticOverflow));
}

#[test]
fn a_fixed_subframe_of_each_order() {
    let expected: [&[i64]; 5] = [
        &[5, -7, 0, 3, 1, 1],
        &[10, 10, 11, 8, 8, 8],
        &[1, 3, 5, 7, 10, 11],
        &[0, 1, 4, 9, 16, 25],
        &[0, 1, 8, 27, 64, 124],
    ];
    let warmup: [&[i64]; 5] = [&[], &[10], &[1, 3], &[0, 1, 4], &[0, 1, 8, 27]];
    let residual: [&[i64]; 5] =
        [&[5, -7, 0, 3, 1, 1], &[0, 1, -3, 0, 0], &[0, 0, 1, -2], &[0, 0, 0], &[0, -1]];
    for order in 0..5 {
        let mut bits = Bits::new();
        bits.header(&[0xFF, 0xF8, 0x69, 0x02, 0x00, 0x05]);
        bits.subframe(8 + order as i64, 0);
        for &w in warmup[order] {
            bits.put(8, w);
        }
        bits.put(2, 0).put(4, 1);
        for &r in residual[order] {
            bits.rice(1, r);
        }
        assert_eq!(decode(&bits.frame()), Ok(vec![expected[order].to_vec()]));
    }
}

#[test]
fn a_linear_subframe_reads_precision_shift_coefficients_and_warm_up() {
    let mut bits = Bits::new();
    bits.header(&[0xFF, 0xF8, 0x69, 0x02, 0x00, 0x04]);
    bits.subframe(33, 0);
    bits.put(4, 4).put(5, 2);
    bits.put(5, 7).put(5, -3);
    bits.put(8, 10).put(8, -20);
    bits.put(2, 0).put(4, 2).rice(2, 1).rice(2, 1).rice(2, 0);
    assert_eq!(decode(&bits.frame()), Ok(vec![vec![10, -20, -42, -58, -70]]));
}

#[test]
fn a_linear_subframe_of_the_highest_order() {
    let mut bits = Bits::new();
    bits.header(&[0xFF, 0xF8, 0x69, 0x02, 0x00, 0x20]);
    bits.subframe(63, 0);
    bits.put(4, 0).put(5, 0);
    for _ in 0..32 {
        bits.put(1, 0);
    }
    for i in 0..32 {
        bits.put(8, i);
    }
    bits.put(2, 0).put(4, 0).rice(0, -9);
    let mut expected: Vec<i64> = (0..32).collect();
    expected.push(-9);
    assert_eq!(decode(&bits.frame()), Ok(vec![expected]));
}

#[test]
fn reserved_subframe_types_are_refused() {
    for code in (2..8).chain(13..32) {
        let mut bits = Bits::new();
        bits.header(&[0xFF, 0xF8, 0x69, 0x02, 0x00, 0x02]);
        bits.subframe(code, 0).put(64, 0);
        assert_eq!(decode(&bits.frame()), Err(DecodeError::InvalidSubframeType));
    }
}

#[test]
fn reserved_bits_of_a_subframe_are_refused() {
    let mut bits = Bits::new();
    bits.header(&[0xFF, 0xF8, 0x69, 0x02, 0x00, 0x02]);
    bits.put(1, 1).put(6, 0).put(1, 0).put(8, 0);
    assert_eq!(decode(&bits.frame()), Err(DecodeError::ReservedFieldUsed));

    let mut bits = Bits::new();
    bits.header(&[0xFF, 0xF8, 0x69, 0x02, 0x00, 0x02]);
    bits.subframe(32, 0).put(4, 15).put(5, 0).put(64, 0);
    assert_eq!(decode(&bits.frame()), Err(DecodeError::ReservedFieldUsed));
}

#[test]
fn a_partition_order_that_does_not_tile_the_block_is_refused() {
    let mut bits = Bits::new();
    bits.header(&[0xFF, 0xF8, 0x69, 0x02, 0x00, 0x02]);
    bits.subframe(8, 0).put(2, 1).put(64, 0);
    assert_eq!(decode(&bits.frame()), Err(DecodeError::InvalidPartitionOrder));

    let mut bits = Bits::new();
    bits.header(&[0xFF, 0xF8, 0x69, 0x02, 0x00, 0x02]);
    bits.subframe(12, 0).put(32, 0).put(2, 0).put(64, 0);
    assert_eq!(decode(&bits.frame()), Err(DecodeError::InvalidPartitionOrder));
}

#[test]
fn a_frame_with_a_sample_beyond_the_width_is_refused() {
    let mut bits = Bits::new();
    bits.header(&[0xFF, 0xF8, 0x69, 0x02, 0x00, 0x01]);
    bits.subframe(9, 0).put(8, 127).put(2, 0).put(4, 0).rice(0, 1);
    assert_eq!(decode(&bits.frame()), Err(DecodeError::ArithmeticOverflow));

    let mut bits = Bits::new();
    bits.header(&[0xFF, 0xF8, 0x69, 0x82, 0x00, 0x00]);
    bits.subframe(0, 0).put(8, 127);
    bits.subframe(0, 0).put(9, -1);
    assert_eq!(decode(&bits.frame()), Err(DecodeError::ArithmeticOverflow));
}

#[test]
fn a_frame_of_eight_channels_at_32_bits() {
    let mut bits = Bits::new();
    bits.header(&[0xFF, 0xF8, 0x69, 0x7E, 0x00, 0x01]);
    let mut expected = Vec::new();
    for c in 0..8i64 {
        let samples = vec![i64::from(i32::MIN) + c, i64::from(i32::MAX) - c];
        bits.subframe(1, 0).put(32, samples[0]).put(32, samples[1]);
        expected.push(samples);
    }
    assert_eq!(decode(&bits.frame()), Ok(expected));
}

#[test]
fn the_parts_of_a_frame_as_they_were_read() {
    let mut bits = Bits::new();
    bits.header(&[0xFF, 0xF8, 0x69, 0x82, 0x00, 0x02]);
    bits.subframe(0, 2).put(6, -5);
    bits.subframe(10, 0).put(9, 4).put(9, -4);
    bits.put(2, 0).put(4, 0).rice(0, 12);
    let bytes = bits.frame();
    let mut cursor = BitCursor::new(&bytes).unwrap();
    let frame = Frame::decode(&mut cursor, &stream()).unwrap();
    assert_eq!(frame.footer, frame.checksum);
    assert_eq!(frame.footer, u16::from_be_bytes([bytes[bytes.len() - 2], bytes[bytes.len() - 1]]));
    assert_eq!(frame.subframes.len(), 2);
    assert_eq!(frame.subframes[0].wasted_bits, 2);
    assert!(matches!(frame.subframes[0].prediction, Prediction::Constant { value: -5 }));
    assert_eq!(frame.subframes[1].wasted_bits, 0);
    match &frame.subframes[1].prediction {
        Prediction::Fixed { order, warmup, residual } => {
            assert_eq!((*order, &warmup[..], &residual[..]), (2, &[4i64, -4][..], &[12i64][..]));
        }
        other => panic!("{:?}", other),
    }
    assert_eq!(frame.subframes[0].samples(8, 3), Ok(vec![-20, -20, -20]));
    assert_eq!(frame.subframes[1].samples(9, 3), Ok(vec![4, -4, 0]));
    assert_eq!(frame.samples(), Ok(vec![vec![-20, -20, -20], vec![-24, -16, -20]]));
}

#[test]
fn the_readers_of_the_parts_of_a_subframe() {
    let mut bits = Bits::new();
    bits.put(1, 0).put(1, 1).unary(0).put(1, 1).unary(4);
    bits.put(5, -9).put(3, 3).put(3, -4);
    let bytes = bits.bytes();
    let mut cursor = BitCursor::new(&bytes).unwrap();
    assert_eq!(find_wasted_bits(&mut cursor), Ok(0));
    assert_eq!(find_wasted_bits(&mut cursor), Ok(1));
    assert_eq!(find_wasted_bits(&mut cursor), Ok(5));
    assert_eq!(constant_value(&mut cursor, 5), Ok(-9));
    assert_eq!(verbatim(&mut cursor, 3, 2), Ok(vec![3, -4]));
    let empty: [u8; 0] = [];
    let mut cursor = BitCursor::new(&empty).unwrap();
    assert_eq!(find_wasted_bits(&mut cursor), Err(DecodeError::UnexpectedEndOfInput));
    let mut cursor = BitCursor::new(&[0x80]).unwrap();
    assert_eq!(find_wasted_bits(&mut cursor), Err(DecodeError::UnexpectedEndOfInput));
}

#[test]
fn a_subframe_by_itself() {
    let mut bits = Bits::new();
    bits.subframe(1, 0).put(4, 7).put(4, -8);
    let bytes = bits.bytes();
    let mut cursor = BitCursor::new(&bytes).unwrap();
    let subframe = Subframe::decode(&mut cursor, 4, 2).unwrap();
    assert_eq!(cursor.bit_position(), 16);
    assert_eq!(subframe.samples(4, 2), Ok(vec![7, -8]));
}
