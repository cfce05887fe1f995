use flac_decoder::cursor::BitCursor;
use flac_decoder::error::DecodeError;
use flac_decoder::residual::{decode_rice_residual, zigzag, PartitionCoding, ResidualPartition};

struct Bits(Vec<bool>);

impl Bits {
    fn new() -> Self {
        Bits(Vec::new())
    }

    fn put(&mut self, width: u32, value: i64) -> &mut Self {
        for i in (0..width).rev() {
            self.0.push((value >> i) & 1 == 1);
        }
        self
    }

    fn unary(&mut self, run: u32) -> &mut Self {
        for _ in 0..run {
            self.0.push(false);
        }
        self.0.push(true);
        self
    }

    fn rice(&mut self, parameter: u32, value: i64) -> &mut Self {
        let code = if value >= 0 { 2 * value } else { -2 * value - 1 } as u64;
        self.unary((code >> parameter) as u32);
        self.put(parameter, (code & ((1 << parameter) - 1)) as i64)
    }

    fn bytes(&self) -> Vec<u8> {
        let mut bits = self.0.clone();
        while bits.len() % 8 != 0 {
            bits.push(false);
        }
        bits.chunks(8).map(|c| c.iter().fold(0u8, |a, &b| a << 1 | b as u8)).collect()
    }
}

fn decode(bits: &Bits, order: u8, block_size: u32) -> (Result<Vec<i64>, DecodeError>, usize) {
    let bytes = bits.bytes();
    let mut cursor = BitCursor::new(&bytes).unwrap();
    let residual = decode_rice_residual(&mut cursor, order, block_size);
    (residual, cursor.bit_position())
}

#[test]
fn zigzag_codes() {
    assert_eq!(zigzag(0), 0);
    assert_eq!(zigzag(1), -1);
    assert_eq!(zigzag(2), 1);
    assert_eq!(zigzag(3), -2);
    assert_eq!(zigzag(4), 2);
    assert_eq!(zigzag(0xF_FFFF_FFFE), 0x7_FFFF_FFFF);
    assert_eq!(zigzag(0xF_FFFF_FFFF), -0x8_0000_0000);
    assert_eq!(zigzag(u64::MAX), i64::MIN);
    assert_eq!(zigzag(u64::MAX - 1), i64::MAX);
}

#[test]
fn zigzag_undoes_the_encoding() {
    for value in [0i64, 1, -1, 2, -2, 1000, -1000, (1 << 35) - 1, -(1 << 35)] {
        let code = if value >= 0 { 2 * value } else { -2 * value - 1 } as u64;
        assert_eq!(zigzag(code), value);
    }
}

#[test]
fn a_code_of_zero_is_the_residual_zero() {
    for parameter in [0u32, 1, 4, 14] {
        let mut bits = Bits::new();
        bits.put(2, 0).put(4, parameter as i64);
        bits.unary(0).put(parameter, 0);
        assert_eq!(decode(&bits, 0, 1), (Ok(vec![0]), (7 + parameter) as usize));
    }
}

#[test]
fn one_partition_of_rice_codes() {
    let values = [0i64, 1, -1, 5, -6, 17, -100, 3];
    let mut bits = Bits::new();
    bits.put(2, 0).put(4, 2);
    for v in values {
        bits.rice(2, v);
    }
    let len = bits.0.len();
    assert_eq!(decode(&bits, 0, 8), (Ok(values.to_vec()), len));
}

#[test]
fn quotient_and_remainder_make_up_the_code() {
    let mut bits = Bits::new();
    bits.put(2, 0).put(4, 3);
    bits.unary(2).put(3, 0b101);
    bits.unary(0).put(3, 0b110);
    assert_eq!(decode(&bits, 0, 2).0, Ok(vec![-11, 3]));
}

#[test]
fn the_first_partition_is_shorter_by_the_order() {
    let mut bits = Bits::new();
    bits.put(2, 2);
    bits.put(4, 1).rice(1, 7).rice(1, -7);
    bits.put(4, 0).rice(0, -1).rice(0, 2).rice(0, 0).rice(0, 0).rice(0, 1).rice(0, 1);
    bits.put(4, 3).rice(3, 40).rice(3, -40).rice(3, 9).rice(3, 8).rice(3, 7).rice(3, 6);
    bits.put(4, 2).rice(2, 1).rice(2, 1).rice(2, -1).rice(2, 0).rice(2, 0).rice(2, 3);
    let len = bits.0.len();
    assert_eq!(
        decode(&bits, 4, 24),
        (Ok(vec![7, -7, -1, 2, 0, 0, 1, 1, 40, -40, 9, 8, 7, 6, 1, 1, -1, 0, 0, 3]), len)
    );
}

#[test]
fn eight_partitions_are_the_most() {
    let mut bits = Bits::new();
    bits.put(2, 3);
    let mut expected = Vec::new();
    for k in 0..8i64 {
        bits.put(4, k).rice(k as u32, 100 * k).rice(k as u32, -k);
        expected.extend([100 * k, -k]);
    }
    let len = bits.0.len();
    assert_eq!(decode(&bits, 0, 16), (Ok(expected), len));
}

#[test]
fn the_largest_parameter() {
    let mut bits = Bits::new();
    bits.put(2, 0).put(4, 14).rice(14, 1_000_000).rice(14, -3_000_000).rice(14, 5);
    let len = bits.0.len();
    assert_eq!(decode(&bits, 0, 3), (Ok(vec![1_000_000, -3_000_000, 5]), len));
}

#[test]
fn an_escaped_partition_gives_back_the_raw_values() {
    let values = [0i64, 1, -1, 63, -64, 17];
    let mut bits = Bits::new();
    bits.put(2, 0).put(4, 15).put(5, 7);
    for v in values {
        bits.put(7, v);
    }
    let len = bits.0.len();
    assert_eq!(decode(&bits, 0, 6), (Ok(values.to_vec()), len));

    let wide = [i64::from(i32::MAX) / 2, -(1 << 30), 0, -1];
    let mut bits = Bits::new();
    bits.put(2, 0).put(4, 15).put(5, 31);
    for v in wide {
        bits.put(31, v);
    }
    assert_eq!(decode(&bits, 0, 4).0, Ok(wide.to_vec()));
}

#[test]
fn an_escaped_partition_of_width_zero_is_all_zero() {
    let mut bits = Bits::new();
    bits.put(2, 1);
    bits.put(4, 15).put(5, 0);
    bits.put(4, 0).rice(0, 3).rice(0, -3).rice(0, 1).rice(0, 0);
    let len = bits.0.len();
    assert_eq!(decode(&bits, 2, 8), (Ok(vec![0, 0, 3, -3, 1, 0]), len));
}

#[test]
fn partitions_must_tile_the_block() {
    let mut bits = Bits::new();
    bits.put(2, 1).put(4, 0).put(64, 0).put(64, 0);
    assert_eq!(decode(&bits, 0, 7).0, Err(DecodeError::InvalidPartitionOrder));
    let mut bits = Bits::new();
    bits.put(2, 2).put(4, 0).put(64, -1);
    assert_eq!(decode(&bits, 3, 8).0, Err(DecodeError::InvalidPartitionOrder));
    assert_eq!(decode(&bits, 1, 9).0, Err(DecodeError::InvalidPartitionOrder));
    assert_eq!(decode(&bits, 4, 4).0, Err(DecodeError::InvalidPartitionOrder));
    assert_eq!(decode(&bits, 8, 16).0, Err(DecodeError::InvalidPartitionOrder));
    let mut bits = Bits::new();
    bits.put(2, 0).put(4, 0).put(64, -1);
    assert_eq!(decode(&bits, 5, 4).0, Err(DecodeError::InvalidPartitionOrder));
    assert_eq!(decode(&bits, 5, 5).0, Ok(vec![]));
}

#[test]
fn a_first_partition_may_hold_nothing_but_the_warm_up() {
    let mut bits = Bits::new();
    bits.put(2, 1);
    bits.put(4, 0);
    bits.put(4, 0).rice(0, 5).rice(0, 6);
    assert_eq!(decode(&bits, 2, 4).0, Ok(vec![5, 6]));
}

#[test]
fn a_residual_cut_short_is_the_end_of_input() {
    let mut bits = Bits::new();
    bits.put(2, 0).put(4, 5).rice(5, 77).rice(5, -3);
    let bytes = bits.bytes();
    for len in 0..bytes.len() {
        let mut cursor = BitCursor::new(&bytes[..len]).unwrap();
        assert_eq!(
            decode_rice_residual(&mut cursor, 0, 40),
            Err(DecodeError::UnexpectedEndOfInput)
        );
    }
    let empty: [u8; 0] = [];
    let mut cursor = BitCursor::new(&empty).unwrap();
    assert_eq!(decode_rice_residual(&mut cursor, 0, 1), Err(DecodeError::UnexpectedEndOfInput));
}

#[test]
fn a_partition_tells_how_it_was_stored() {
    let mut bits = Bits::new();
    bits.put(4, 3).rice(3, 9).rice(3, -9);
    bits.put(4, 15).put(5, 6).put(6, -32).put(6, 31);
    bits.put(4, 14).rice(14, 1 << 20);
    bits.put(4, 15).put(5, 0);
    let bytes = bits.bytes();
    let mut cursor = BitCursor::new(&bytes).unwrap();
    let rice = ResidualPartition::decode(&mut cursor, 2).unwrap();
    assert_eq!((rice.coding, rice.values), (PartitionCoding::Rice(3), vec![9, -9]));
    let raw = ResidualPartition::decode(&mut cursor, 2).unwrap();
    assert_eq!((raw.coding, raw.values), (PartitionCoding::Escape(6), vec![-32, 31]));
    let high = ResidualPartition::decode(&mut cursor, 1).unwrap();
    assert_eq!((high.coding, high.values), (PartitionCoding::Rice(14), vec![1 << 20]));
    let none = ResidualPartition::decode(&mut cursor, 3).unwrap();
    assert_eq!((none.coding, none.values), (PartitionCoding::Escape(0), vec![0, 0, 0]));
    assert_eq!(cursor.bit_position(), bits.0.len());
}
