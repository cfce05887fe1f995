use flac_decoder::crc::{crc16_of, crc16_update, crc8_of, crc8_update};

#[test]
fn crc8_of_the_check_string() {
    let data = b"123456789";
    assert_eq!(crc8_of(data, 0, data.len()), 0xF4);
}

#[test]
fn crc16_of_the_check_string() {
    let data = b"123456789";
    assert_eq!(crc16_of(data, 0, data.len()), 0xFEE8);
}

#[test]
fn checksums_of_nothing_are_zero() {
    let data = [1u8, 2, 3];
    assert_eq!(crc8_of(&data, 1, 1), 0);
    assert_eq!(crc16_of(&data, 3, 3), 0);
}

#[test]
fn checksums_cover_the_given_range_only() {
    let data = b"xx123456789yy";
    assert_eq!(crc8_of(data, 2, 11), 0xF4);
    assert_eq!(crc16_of(data, 2, 11), 0xFEE8);
}

#[test]
fn one_byte_through_the_registers() {
    assert_eq!(crc8_update(0, 0x01), 0x07);
    assert_eq!(crc8_update(0, 0x80), 0x89);
    assert_eq!(crc16_update(0, 0x01), 0x8005);
    assert_eq!(crc16_update(0, 0x80), 0x8303);
}

#[test]
fn a_changed_bit_changes_both_checksums() {
    let data = [0xFFu8, 0xF8, 0xC0, 0x18, 0x00];
    let crc8 = crc8_of(&data, 0, data.len());
    let crc16 = crc16_of(&data, 0, data.len());
    for byte in 0..data.len() {
        for bit in 0..8 {
            let mut other = data;
            other[byte] ^= 1 << bit;
            assert_ne!(crc8_of(&other, 0, other.len()), crc8);
            assert_ne!(crc16_of(&other, 0, other.len()), crc16);
        }
    }
}
