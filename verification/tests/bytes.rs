use ext4_core::bytes::{
    copy_range, paste, read_u16, read_u32, read_u64, write_u16, write_u32, write_u64, zeroed,
};

#[test]
fn integers_are_little_endian() {
    let mut b = vec![0u8; 16];
    write_u32(&mut b, 1, 0x1234_5678);
    assert_eq!(&b[0..6], &[0, 0x78, 0x56, 0x34, 0x12, 0]);
    assert_eq!(read_u32(&b, 1), 0x1234_5678);
    assert_eq!(read_u16(&b, 2), 0x3456);
    write_u16(&mut b, 8, 0xBEEF);
    assert_eq!(&b[8..10], &[0xEF, 0xBE]);
}

#[test]
fn u64_round_trips() {
    let mut b = vec![0xAAu8; 10];
    write_u64(&mut b, 1, 0x0102_0304_0506_0708);
    assert_eq!(b[0], 0xAA);
    assert_eq!(b[9], 0xAA);
    assert_eq!(b[1], 0x08);
    assert_eq!(b[8], 0x01);
    assert_eq!(read_u64(&b, 1), 0x0102_0304_0506_0708);
}

#[test]
fn copy_range_and_paste() {
    let b = vec![1u8, 2, 3, 4, 5];
    assert_eq!(copy_range(&b, 1, 3), vec![2, 3, 4]);
    assert_eq!(copy_range(&b, 5, 0), Vec::<u8>::new());
    let mut d = zeroed(6);
    assert_eq!(d, vec![0u8; 6]);
    paste(&mut d, 2, &vec![9, 8]);
    assert_eq!(d, vec![0, 0, 9, 8, 0, 0]);
}
