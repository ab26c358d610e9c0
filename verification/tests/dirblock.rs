use ext4_core::dirblock::{
    cleared_block, decode_file_type, encode_file_type, find_in_block, insert_in_block, remove_in_block,
};
use ext4_core::types::{FileType, FsError, InodeNumber};

#[test]
fn file_type_bytes() {
    assert_eq!(encode_file_type(FileType::RegularFile), 1);
    assert_eq!(encode_file_type(FileType::Directory), 2);
    assert_eq!(encode_file_type(FileType::SymbolicLink), 7);
    assert_eq!(encode_file_type(FileType::Unknown), 0);
    assert_eq!(decode_file_type(2), Some(FileType::Directory));
    assert_eq!(decode_file_type(6), Some(FileType::Socket));
    assert_eq!(decode_file_type(0), None);
    assert_eq!(decode_file_type(8), None);
}

#[test]
fn a_cleared_block_is_one_unused_record() {
    let b = cleared_block(1024);
    assert_eq!(b.len(), 1024);
    assert_eq!(&b[0..8], &[0, 0, 0, 0, 0x00, 0x04, 0, 0]);
    assert_eq!(find_in_block(&b, b"a"), Ok(None));
}

#[test]
fn insert_then_find_then_remove() {
    let mut b = cleared_block(1024);
    assert_eq!(insert_in_block(&mut b, b"hello", FileType::RegularFile, InodeNumber(12)), Ok(true));
    assert_eq!(&b[0..13], &[12, 0, 0, 0, 0x00, 0x04, 5, 1, b'h', b'e', b'l', b'l', b'o']);
    assert_eq!(insert_in_block(&mut b, b"world", FileType::Directory, InodeNumber(13)), Ok(true));
    // The first record is cut after its name; the new one takes the rest.
    assert_eq!(u16::from_le_bytes([b[4], b[5]]), 16);
    assert_eq!(&b[16..20], &[13, 0, 0, 0]);
    assert_eq!(u16::from_le_bytes([b[20], b[21]]), 1008);
    assert_eq!(find_in_block(&b, b"hello"), Ok(Some((InodeNumber(12), Some(FileType::RegularFile)))));
    assert_eq!(find_in_block(&b, b"world"), Ok(Some((InodeNumber(13), Some(FileType::Directory)))));
    assert_eq!(find_in_block(&b, b"hell"), Ok(None));

    // Removing a record that has one before it grows that one over it.
    assert_eq!(remove_in_block(&mut b, b"world"), Ok(Some(InodeNumber(13))));
    assert_eq!(u16::from_le_bytes([b[4], b[5]]), 1024);
    assert_eq!(find_in_block(&b, b"world"), Ok(None));

    // Removing the first record marks it unused.
    assert_eq!(remove_in_block(&mut b, b"hello"), Ok(Some(InodeNumber(12))));
    assert_eq!(&b[0..4], &[0, 0, 0, 0]);
    assert_eq!(find_in_block(&b, b"hello"), Ok(None));
    assert_eq!(remove_in_block(&mut b, b"hello"), Ok(None));

    // The unused first record is taken whole again.
    assert_eq!(insert_in_block(&mut b, b"again", FileType::Fifo, InodeNumber(14)), Ok(true));
    assert_eq!(u16::from_le_bytes([b[4], b[5]]), 1024);
    assert_eq!(find_in_block(&b, b"again"), Ok(Some((InodeNumber(14), Some(FileType::Fifo)))));
}

#[test]
fn a_full_block_takes_no_record() {
    let mut b = cleared_block(16);
    assert_eq!(insert_in_block(&mut b, b"abcd", FileType::RegularFile, InodeNumber(3)), Ok(true));
    let before = b.clone();
    assert_eq!(insert_in_block(&mut b, b"e", FileType::RegularFile, InodeNumber(4)), Ok(false));
    assert_eq!(b, before);
}

#[test]
fn a_long_name_is_refused() {
    let mut b = cleared_block(1024);
    let name = vec![b'n'; 256];
    assert_eq!(insert_in_block(&mut b, &name, FileType::RegularFile, InodeNumber(3)), Err(FsError::NameTooLong));
    assert_eq!(b, cleared_block(1024));
    let name = vec![b'n'; 255];
    assert_eq!(insert_in_block(&mut b, &name, FileType::RegularFile, InodeNumber(3)), Ok(true));
}

#[test]
fn a_broken_record_is_an_invalid_file_system() {
    let mut b = vec![0u8; 64];
    b[4] = 4; // shorter than a record header
    assert_eq!(find_in_block(&b, b"x"), Err(FsError::InvalidFs));
    assert_eq!(remove_in_block(&mut b, b"x"), Err(FsError::InvalidFs));
    assert_eq!(insert_in_block(&mut b, b"x", FileType::RegularFile, InodeNumber(3)), Err(FsError::InvalidFs));
}
