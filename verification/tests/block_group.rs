use ext4_core::block_group::{apply_delta, update_descriptor, BlockGroup, BlockGroupFlag};
use ext4_core::superblock::SuperBlock;
use ext4_core::transaction::{Event, Transaction};
use ext4_core::types::{BlockGroupId, FileType, InodeNumber, LogicalBlockNumber};

fn sb(features_readonly: u32) -> SuperBlock {
    SuperBlock {
        block_size: 1024,
        inodes_count: 16,
        blocks_count: 64,
        first_data_block: 1,
        blocks_per_group: 8192,
        inodes_per_group: 16,
        inode_size: 128,
        block_desc_size: 32,
        bg_count: 1,
        features_readonly,
        uuid: (1u8..=16).collect(),
        free_inodes_count: 5,
        raw: vec![0u8; 1024],
    }
}

fn desc() -> Vec<u8> {
    let mut d = vec![0u8; 32];
    d[0..4].copy_from_slice(&3u32.to_le_bytes());
    d[4..8].copy_from_slice(&4u32.to_le_bytes());
    d[8..12].copy_from_slice(&5u32.to_le_bytes());
    d[0xC..0xE].copy_from_slice(&44u16.to_le_bytes());
    d[0xE..0x10].copy_from_slice(&5u16.to_le_bytes());
    d[0x10..0x12].copy_from_slice(&1u16.to_le_bytes());
    d[0x1E] = 0xAB;
    d[0x1F] = 0xCD;
    d
}

#[test]
fn flags_keep_the_known_bits() {
    let f = BlockGroupFlag::from_bits_truncate(0xFF05);
    assert_eq!(f.bits, 0x5);
    assert!(f.contains(0x1));
    assert!(f.contains(0x5));
    assert!(!f.contains(0x2));
}

#[test]
fn checksum_by_features() {
    let mut d = desc();
    assert_eq!(BlockGroup::calculate_csum(BlockGroupId(2), &mut d, &sb(0)), 0);
    assert_eq!(BlockGroup::calculate_csum(BlockGroupId(2), &mut d, &sb(0x10)), 0x21E3);
    assert_eq!(BlockGroup::calculate_csum(BlockGroupId(2), &mut d, &sb(0x400)), 0x4A97);
    assert_eq!(BlockGroup::calculate_csum(BlockGroupId(2), &mut d, &sb(0x410)), 0x4A97);
    assert_eq!(d, desc());
    let mut wide = vec![0u8; 64];
    wide[..32].copy_from_slice(&desc());
    wide[0x20] = 7;
    assert_eq!(BlockGroup::calculate_csum(BlockGroupId(2), &mut wide, &sb(0x10)), 0xE2ED);
}

#[test]
fn update_descriptor_sets_counts_and_checksum() {
    let s = sb(0x10);
    let mut d = desc();
    update_descriptor(&mut d, BlockGroupId(2), &s, 40, 3, 2);
    assert_eq!(u16::from_le_bytes([d[0xC], d[0xD]]), 40);
    assert_eq!(u16::from_le_bytes([d[0xE], d[0xF]]), 3);
    assert_eq!(u16::from_le_bytes([d[0x10], d[0x11]]), 2);
    let stored = u16::from_le_bytes([d[0x1E], d[0x1F]]);
    let mut again = d.clone();
    assert_eq!(BlockGroup::calculate_csum(BlockGroupId(2), &mut again, &s), stored);
    assert_eq!(&d[0..0xC], &desc()[0..0xC]);
}

#[test]
fn update_descriptor_splits_wide_counts() {
    let s = sb(0);
    let mut d = vec![0u8; 64];
    update_descriptor(&mut d, BlockGroupId(0), &s, 0x1_0002, 0x3_0004, 0x5_0006);
    assert_eq!(&d[0xC..0x12], &[2, 0, 4, 0, 6, 0]);
    assert_eq!(&d[0x2C..0x32], &[1, 0, 3, 0, 5, 0]);
    let mut narrow = vec![0u8; 32];
    update_descriptor(&mut narrow, BlockGroupId(0), &s, 0x1_0002, 7, 8);
    assert_eq!(&narrow[0xC..0x12], &[2, 0, 7, 0, 8, 0]);
}

#[test]
fn apply_delta_stays_in_range() {
    assert_eq!(apply_delta(5, -2, 10), Some(3));
    assert_eq!(apply_delta(5, 5, 10), Some(10));
    assert_eq!(apply_delta(5, -5, 10), Some(0));
    assert_eq!(apply_delta(5, -6, 10), None);
    assert_eq!(apply_delta(5, 6, 10), None);
    assert_eq!(apply_delta(0, i64::MIN, u32::MAX), None);
    assert_eq!(apply_delta(u32::MAX, i64::MAX, u32::MAX), None);
}

#[test]
fn from_disk_reads_a_descriptor() {
    let s = sb(0);
    let bg = BlockGroup::from_disk(&desc(), BlockGroupId(0), &s).unwrap();
    assert_eq!(bg.bgid, BlockGroupId(0));
    assert_eq!(bg.block_bitmap_lba, LogicalBlockNumber(3));
    assert_eq!(bg.inode_bitmap_lba, LogicalBlockNumber(4));
    assert_eq!(bg.inode_table_first_block, LogicalBlockNumber(5));
    assert_eq!(bg.blocks_count, 8192);
    assert_eq!(bg.get_free_blocks_count(), 44);
    assert_eq!(bg.get_free_inodes_count(), 5);
    let mut wide = vec![0u8; 64];
    wide[..32].copy_from_slice(&desc());
    wide[0x20..0x24].copy_from_slice(&1u32.to_le_bytes());
    wide[0x2E..0x30].copy_from_slice(&2u16.to_le_bytes());
    let bg = BlockGroup::from_disk(&wide, BlockGroupId(0), &s).unwrap();
    assert_eq!(bg.block_bitmap_lba, LogicalBlockNumber(0x1_0000_0003));
    assert_eq!(bg.get_free_inodes_count(), 0x2_0005);
}

#[test]
fn group_counts_follow_allocations() {
    let s = sb(0);
    let mut bg = BlockGroup::from_disk(&desc(), BlockGroupId(0), &s).unwrap();
    let mut tx = Transaction::new();
    bg.allocate_inode_on_bg(11, &mut tx, FileType::Directory);
    assert_eq!(bg.get_free_inodes_count(), 4);
    bg.deallocate_inode();
    assert_eq!(bg.get_free_inodes_count(), 5);
    bg.allocate_blocks(InodeNumber(12), 19, 4, &mut tx);
    assert_eq!(bg.get_free_blocks_count(), 40);
    bg.deallocate_blocks(4);
    assert_eq!(bg.get_free_blocks_count(), 44);
    let ev = tx.events.inner.as_ref().unwrap();
    assert_eq!(ev.len(), 2);
    match &ev[1] {
        Event::BlockAllocationOnBg(e) => {
            assert_eq!((e.ino, e.bgid, e.bitmap_lba, e.ofs, e.count), (InodeNumber(12), BlockGroupId(0), LogicalBlockNumber(3), 19, 4));
        },
        _ => panic!("not a block allocation"),
    }
}

#[test]
fn counts_wrap_as_the_disk_fields_do() {
    let s = sb(0);
    let mut d = desc();
    d[0xE] = 0;
    let mut bg = BlockGroup::from_disk(&d, BlockGroupId(0), &s).unwrap();
    let mut tx = Transaction::new();
    bg.allocate_inode_on_bg(0, &mut tx, FileType::RegularFile);
    assert_eq!(bg.get_free_inodes_count(), u32::MAX);
}

#[test]
fn verify_and_initialize_keep_the_group() {
    let s = sb(0);
    let bg = BlockGroup::from_disk(&desc(), BlockGroupId(0), &s).unwrap();
    let mut again = bg.verify(BlockGroupFlag::from_bits_truncate(0x4), 0).unwrap();
    assert_eq!(again.initialize_bg(BlockGroupFlag::from_bits_truncate(0)), Ok(()));
    assert_eq!(again.get_free_blocks_count(), bg.get_free_blocks_count());
}
