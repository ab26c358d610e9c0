use ext4_core::superblock::SuperBlock;
use ext4_core::types::{BlockGroupId, FsError, InodeNumber, LogicalBlockNumber};

fn put32(b: &mut [u8], o: usize, v: u32) {
    b[o..o + 4].copy_from_slice(&v.to_le_bytes());
}

fn put16(b: &mut [u8], o: usize, v: u16) {
    b[o..o + 2].copy_from_slice(&v.to_le_bytes());
}

fn raw_sb() -> Vec<u8> {
    let mut b = vec![0u8; 1024];
    put32(&mut b, 0x0, 16384);
    put32(&mut b, 0x4, 65536);
    put32(&mut b, 0x10, 16000);
    put32(&mut b, 0x14, 0);
    put32(&mut b, 0x18, 2);
    put32(&mut b, 0x20, 32768);
    put32(&mut b, 0x28, 8192);
    put16(&mut b, 0x38, 0xEF53);
    put16(&mut b, 0x58, 256);
    for i in 0..16 {
        b[0x68 + i] = i as u8 + 1;
    }
    b
}

#[test]
fn from_raw_reads_the_fields() {
    let sb = SuperBlock::from_raw(raw_sb()).unwrap();
    assert_eq!(sb.block_size, 4096);
    assert_eq!(sb.inodes_count, 16384);
    assert_eq!(sb.blocks_count, 65536);
    assert_eq!(sb.first_data_block, 0);
    assert_eq!(sb.blocks_per_group, 32768);
    assert_eq!(sb.inodes_per_group, 8192);
    assert_eq!(sb.inode_size, 256);
    assert_eq!(sb.block_desc_size, 32);
    assert_eq!(sb.bg_count, 2);
    assert_eq!(sb.free_inodes_count, 16000);
    assert_eq!(sb.get_free_inodes_count(), 16000);
    assert_eq!(sb.uuid, (1u8..=16).collect::<Vec<u8>>());
    assert_eq!(sb.raw, raw_sb());
}

#[test]
fn from_raw_counts_a_partial_last_group() {
    let mut b = raw_sb();
    put32(&mut b, 0x4, 65537);
    let sb = SuperBlock::from_raw(b).unwrap();
    assert_eq!(sb.bg_count, 3);
}

#[test]
fn from_raw_reads_wide_descriptors_and_block_counts() {
    let mut b = raw_sb();
    put32(&mut b, 0x60, 0x80);
    put16(&mut b, 0xFE, 64);
    put32(&mut b, 0x150, 1);
    put32(&mut b, 0x20, 0x8000_0000);
    let sb = SuperBlock::from_raw(b).unwrap();
    assert_eq!(sb.block_desc_size, 64);
    assert_eq!(sb.blocks_count, 0x1_0001_0000);
    assert_eq!(sb.bg_count, 3);
}

#[test]
fn from_raw_refuses_a_bad_magic() {
    let mut b = raw_sb();
    put16(&mut b, 0x38, 0x1234);
    assert_eq!(SuperBlock::from_raw(b).err(), Some(FsError::InvalidFs));
}

#[test]
fn from_raw_refuses_a_large_block_size() {
    let mut b = raw_sb();
    put32(&mut b, 0x18, 3);
    assert_eq!(SuperBlock::from_raw(b).err(), Some(FsError::InvalidFs));
}

#[test]
fn from_raw_refuses_empty_groups() {
    let mut b = raw_sb();
    put32(&mut b, 0x20, 0);
    assert_eq!(SuperBlock::from_raw(b).err(), Some(FsError::InvalidFs));
    let mut b = raw_sb();
    put32(&mut b, 0x28, 0);
    assert_eq!(SuperBlock::from_raw(b).err(), Some(FsError::InvalidFs));
}

#[test]
fn from_raw_refuses_a_data_start_past_the_end() {
    let mut b = raw_sb();
    put32(&mut b, 0x14, 65536);
    assert_eq!(SuperBlock::from_raw(b).err(), Some(FsError::InvalidFs));
}

#[test]
fn dec_free_inodes_count_takes_one() {
    let mut sb = SuperBlock::from_raw(raw_sb()).unwrap();
    sb.dec_free_inodes_count();
    assert_eq!(sb.get_free_inodes_count(), 15999);
}

#[test]
fn inode_numbers_map_to_groups_and_back() {
    let sb = SuperBlock::from_raw(raw_sb()).unwrap();
    assert_eq!(InodeNumber(1).into_bgid_index(&sb), (BlockGroupId(0), 0));
    assert_eq!(InodeNumber(8193).into_bgid_index(&sb), (BlockGroupId(1), 0));
    assert_eq!(InodeNumber(8192).into_bgid_index(&sb), (BlockGroupId(0), 8191));
    assert_eq!(InodeNumber::from_bgid_index(BlockGroupId(1), 5, &sb), InodeNumber(8198));
}

#[test]
fn blocks_map_to_groups_and_back() {
    let sb = SuperBlock::from_raw(raw_sb()).unwrap();
    assert_eq!(LogicalBlockNumber(40000).into_bgid_index(&sb), Some((BlockGroupId(1), 7232)));
    assert_eq!(LogicalBlockNumber(65536).into_bgid_index(&sb), None);
    assert_eq!(
        LogicalBlockNumber::from_bgid_index(BlockGroupId(1), 7232, &sb),
        LogicalBlockNumber(40000)
    );
}

#[test]
fn descriptors_follow_the_superblock_block() {
    let sb = SuperBlock::from_raw(raw_sb()).unwrap();
    assert_eq!(BlockGroupId(3).into_lba_index(&sb), (LogicalBlockNumber(1), 96));
    let mut b = raw_sb();
    put32(&mut b, 0x18, 0);
    put32(&mut b, 0x14, 1);
    put32(&mut b, 0x20, 8192);
    let small = SuperBlock::from_raw(b).unwrap();
    assert_eq!(BlockGroupId(40).into_lba_index(&small), (LogicalBlockNumber(3), 256));
}
