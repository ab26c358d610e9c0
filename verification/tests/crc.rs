use ext4_core::crc::{Crc16, Crc32c};

#[test]
fn crc16_of_the_check_string() {
    let data = b"123456789".to_vec();
    let mut c = Crc16::new();
    c.write(&data, 0, data.len());
    assert_eq!(c.finish(), 0x4B37);
}

#[test]
fn crc32c_of_the_check_string_before_inversion() {
    let data = b"123456789".to_vec();
    let mut c = Crc32c::new();
    c.write(&data, 0, data.len());
    assert_eq!(c.finish(), 0x1CF9_6D7C);
    assert_eq!(!c.finish(), 0xE306_9283);
}

#[test]
fn crc_over_a_range_and_in_pieces() {
    let data = b"123456789".to_vec();
    let mut a = Crc32c::new();
    a.write(&data, 2, 6);
    assert_eq!(a.finish(), 0xEFE7_FF42);
    let mut whole = Crc16::new();
    whole.write(&data, 0, 9);
    let mut parts = Crc16::new();
    parts.write(&data, 0, 4);
    parts.write(&data, 4, 9);
    assert_eq!(whole.finish(), parts.finish());
}

#[test]
fn crc_of_nothing_is_the_start_value() {
    let data = Vec::new();
    let mut c = Crc16::new();
    c.write(&data, 0, 0);
    assert_eq!(c.finish(), 0xFFFF);
    assert_eq!(Crc32c::new().finish(), 0xFFFF_FFFF);
}
