use ext4_core::bitmap::{fill_range, take_first_clear, test_and_set};

#[test]
fn fill_range_sets_bits_across_a_byte_boundary() {
    let mut b = vec![0u8, 0u8];
    fill_range(&mut b, 3, 7, true);
    assert_eq!(b, vec![0xF8, 0x03]);
}

#[test]
fn fill_range_clears_bits_across_a_byte_boundary() {
    let mut b = vec![0xFFu8, 0xFF];
    fill_range(&mut b, 3, 7, false);
    assert_eq!(b, vec![0x07, 0xFC]);
}

#[test]
fn fill_range_covers_whole_bytes() {
    let mut b = vec![0u8; 4];
    fill_range(&mut b, 4, 24, true);
    assert_eq!(b, vec![0xF0, 0xFF, 0xFF, 0x0F]);
}

#[test]
fn fill_range_of_nothing_keeps_the_bitmap() {
    let mut b = vec![0x5Au8, 0xA5];
    fill_range(&mut b, 5, 0, true);
    assert_eq!(b, vec![0x5A, 0xA5]);
}

#[test]
fn test_and_set_reports_the_previous_bit() {
    let mut b = vec![0u8];
    assert!(test_and_set(&mut b, 2));
    assert_eq!(b, vec![0x04]);
    assert!(!test_and_set(&mut b, 2));
    assert_eq!(b, vec![0x04]);
}

#[test]
fn take_first_clear_takes_the_lowest_clear_bit() {
    let mut b = vec![0xFFu8, 0x01];
    assert_eq!(take_first_clear(&mut b), Some(9));
    assert_eq!(b, vec![0xFF, 0x03]);
}

#[test]
fn take_first_clear_on_a_full_bitmap_gives_nothing() {
    let mut b = vec![0xFFu8, 0xFF];
    assert_eq!(take_first_clear(&mut b), None);
    assert_eq!(b, vec![0xFF, 0xFF]);
}
