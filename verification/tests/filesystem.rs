use std::cell::RefCell;

use ext4_core::block_alloc::Allocator as BlockAllocator;
use ext4_core::filesystem::{Config, FileSystem};
use ext4_core::inode_alloc::Allocator as InodeAllocator;
use ext4_core::mount::{open_fs, FsBlkSizeDispatch};
use ext4_core::transaction::{Event, Events, InodeUpdateOrphanLink, PostludeOps};
use ext4_core::writeback::{InodeOps, SbDelta, WritebackGroup};
use ext4_core::types::{BlockGroupId, FileType, FsError, InodeNumber, LogicalBlockNumber};

/// A device held in memory.
struct MemDisk {
    data: RefCell<Vec<u8>>,
}

impl Config for MemDisk {
    fn read_bytes(&self, ofs: usize, len: usize) -> Result<Vec<u8>, FsError> {
        let d = self.data.borrow();
        if ofs + len > d.len() {
            return Err(FsError::IoError);
        }
        Ok(d[ofs..ofs + len].to_vec())
    }

    fn write_bytes(&self, ofs: usize, buf: &Vec<u8>) -> Result<(), FsError> {
        let mut d = self.data.borrow_mut();
        if ofs + buf.len() > d.len() {
            return Err(FsError::IoError);
        }
        d[ofs..ofs + buf.len()].copy_from_slice(buf);
        Ok(())
    }

    fn write_vectored(&self, ofs: usize, bufs: &Vec<Vec<u8>>) -> Result<(), FsError> {
        let mut at = ofs;
        for b in bufs {
            self.write_bytes(at, b)?;
            at += b.len();
        }
        Ok(())
    }

    fn write_bios(&self, bio: Vec<(usize, Vec<u8>)>) -> Result<(), FsError> {
        for (ofs, b) in bio {
            self.write_bytes(ofs, &b)?;
        }
        Ok(())
    }

    fn total_size(&self) -> usize {
        self.data.borrow().len()
    }
}

fn put16(b: &mut [u8], o: usize, v: u16) {
    b[o..o + 2].copy_from_slice(&v.to_le_bytes());
}

fn put32(b: &mut [u8], o: usize, v: u32) {
    b[o..o + 4].copy_from_slice(&v.to_le_bytes());
}

fn get16(b: &[u8], o: usize) -> u16 {
    u16::from_le_bytes([b[o], b[o + 1]])
}

fn get32(b: &[u8], o: usize) -> u32 {
    u32::from_le_bytes([b[o], b[o + 1], b[o + 2], b[o + 3]])
}

/// A file system of 64 blocks of 1 KiB in one group of 16 inodes: blocks 1
/// to 19 and inodes 1 to 11 are in use. The descriptor is in block 2, the
/// block bitmap in block 3, the inode bitmap in block 4.
fn small_disk() -> MemDisk {
    let mut d = vec![0u8; 64 * 1024];
    let sb = 1024;
    put32(&mut d, sb, 16);
    put32(&mut d, sb + 0x4, 64);
    put32(&mut d, sb + 0xC, 44);
    put32(&mut d, sb + 0x10, 5);
    put32(&mut d, sb + 0x14, 1);
    put32(&mut d, sb + 0x18, 0);
    put32(&mut d, sb + 0x20, 8192);
    put32(&mut d, sb + 0x28, 16);
    put16(&mut d, sb + 0x38, 0xEF53);
    put16(&mut d, sb + 0x58, 128);
    let gd = 2 * 1024;
    put32(&mut d, gd, 3);
    put32(&mut d, gd + 0x4, 4);
    put32(&mut d, gd + 0x8, 5);
    put16(&mut d, gd + 0xC, 44);
    put16(&mut d, gd + 0xE, 5);
    let bb = 3 * 1024;
    for i in 0..1024 * 8 {
        if i < 19 || i >= 63 {
            d[bb + i / 8] |= 1 << (i % 8);
        }
    }
    let ib = 4 * 1024;
    for i in 0..1024 * 8 {
        if i < 11 || i >= 16 {
            d[ib + i / 8] |= 1 << (i % 8);
        }
    }
    MemDisk { data: RefCell::new(d) }
}

fn open_small() -> FileSystem<MemDisk> {
    match open_fs(small_disk()) {
        Ok(FsBlkSizeDispatch::Blk1024(fs)) => fs,
        _ => panic!("the small disk did not open with 1 KiB blocks"),
    }
}

#[test]
fn open_fs_reads_the_superblock_and_the_groups() {
    let fs = open_small();
    assert_eq!(fs.sb.block_size, 1024);
    assert_eq!(fs.sb.bg_count, 1);
    let bg = fs.block_groups[0].unwrap();
    assert_eq!(bg.bgid, BlockGroupId(0));
    assert_eq!(bg.block_bitmap_lba, LogicalBlockNumber(3));
    assert_eq!(bg.inode_bitmap_lba, LogicalBlockNumber(4));
    assert_eq!(bg.inode_table_first_block, LogicalBlockNumber(5));
    assert_eq!(bg.get_free_blocks_count(), 44);
    assert_eq!(bg.get_free_inodes_count(), 5);
    assert_eq!(fs.conf().total_size(), 64 * 1024);
}

#[test]
fn open_fs_refuses_a_device_without_a_superblock() {
    let disk = MemDisk { data: RefCell::new(vec![0u8; 8192]) };
    assert!(matches!(open_fs(disk), Err(FsError::InvalidFs)));
    let tiny = MemDisk { data: RefCell::new(vec![0u8; 100]) };
    assert!(matches!(open_fs(tiny), Err(FsError::IoError)));
}

#[test]
fn inodes_are_taken_in_bitmap_order() {
    let mut fs = open_small();
    let mut tx = fs.open_transaction();
    assert_eq!(InodeAllocator::allocate(&mut fs, FileType::RegularFile, &mut tx), Ok(InodeNumber(12)));
    assert_eq!(InodeAllocator::allocate(&mut fs, FileType::Directory, &mut tx), Ok(InodeNumber(13)));
    assert_eq!(fs.sb.get_free_inodes_count(), 3);
    assert_eq!(fs.block_groups[0].unwrap().get_free_inodes_count(), 3);
    let events = tx.events.inner.as_ref().unwrap();
    assert_eq!(events.len(), 4);
    assert!(matches!(&events[0], Event::InodeAllocationOnBg(e) if e.ofs == 11 && e.de == FileType::RegularFile));
    assert!(matches!(&events[1], Event::FreeInodesCountDecOnSb));
    assert!(matches!(&events[2], Event::InodeAllocationOnBg(e) if e.ofs == 12 && e.de == FileType::Directory));
}

#[test]
fn inode_allocation_stops_when_the_superblock_counts_none() {
    let mut fs = open_small();
    let mut tx = fs.open_transaction();
    for n in 12..=16 {
        assert_eq!(InodeAllocator::allocate(&mut fs, FileType::RegularFile, &mut tx), Ok(InodeNumber(n)));
    }
    assert_eq!(InodeAllocator::allocate(&mut fs, FileType::RegularFile, &mut tx), Err(FsError::FsFull));
}

#[test]
fn blocks_are_taken_from_free_runs() {
    let mut fs = open_small();
    let mut tx = fs.open_transaction();
    let (a, n) = BlockAllocator::allocate(&mut fs, InodeNumber(12), 4, LogicalBlockNumber(20), &mut tx).unwrap();
    assert!(n >= 1 && n <= 4);
    assert!(a.0 >= 20 && a.0 + n as u64 <= 64);
    let (b, m) = BlockAllocator::allocate(&mut fs, InodeNumber(12), 4, LogicalBlockNumber(20), &mut tx).unwrap();
    assert!(m >= 1 && m <= 4);
    assert!(b.0 >= 20 && b.0 + m as u64 <= 64);
    // The two runs do not overlap.
    assert!(b.0 >= a.0 + n as u64 || a.0 >= b.0 + m as u64);
    let events = tx.events.inner.as_ref().unwrap();
    assert_eq!(events.len(), 2);
    match &events[0] {
        Event::BlockAllocationOnBg(e) => {
            assert_eq!(e.ino, InodeNumber(12));
            assert_eq!(e.bgid, BlockGroupId(0));
            assert_eq!(e.bitmap_lba, LogicalBlockNumber(3));
            assert_eq!(e.ofs as u64, a.0 - 1);
            assert_eq!(e.count, n);
        },
        _ => panic!("not a block allocation"),
    }
}

#[test]
fn all_free_blocks_can_be_taken_and_then_none() {
    let mut fs = open_small();
    let mut tx = fs.open_transaction();
    let mut taken = vec![false; 64];
    let mut total = 0;
    loop {
        match BlockAllocator::allocate(&mut fs, InodeNumber(12), 8, LogicalBlockNumber(1), &mut tx) {
            Ok((a, n)) => {
                for k in 0..n {
                    let x = a.0 as usize + k;
                    assert!(x >= 20 && x < 64, "block {} was not free", x);
                    assert!(!taken[x], "block {} given twice", x);
                    taken[x] = true;
                }
                total += n;
            },
            Err(e) => {
                assert_eq!(e, FsError::FsFull);
                break;
            },
        }
    }
    assert_eq!(total, 44);
}

#[test]
fn applying_the_events_writes_bitmaps_descriptors_and_superblock() {
    let mut fs = open_small();
    let mut tx = fs.open_transaction();
    InodeAllocator::allocate(&mut fs, FileType::RegularFile, &mut tx).unwrap();
    InodeAllocator::allocate(&mut fs, FileType::Directory, &mut tx).unwrap();
    let (a, n) = BlockAllocator::allocate(&mut fs, InodeNumber(12), 2, LogicalBlockNumber(20), &mut tx).unwrap();
    let mut evs = Events { inner: tx.events.inner.take() };
    evs.apply_on_disk(&mut fs, &mut tx.collector).unwrap();
    assert!(evs.inner.is_none());

    let ib = tx.collector.blocks.get(4).expect("inode bitmap written");
    assert_eq!(ib[1], 0x07 | 0x08 | 0x10);
    let bb = tx.collector.blocks.get(3).expect("block bitmap written");
    for k in 0..n {
        let idx = (a.0 - 1) as usize + k;
        assert_eq!((bb[idx / 8] >> (idx % 8)) & 1, 1);
    }
    let gd = tx.collector.blocks.get(2).expect("descriptor written");
    assert_eq!(get16(&gd, 0xE), 3);
    assert_eq!(get16(&gd, 0xC), 44 - n as u16);
    assert_eq!(get16(&gd, 0x10), 1);
    assert!(tx.collector.sb_dirty);
    assert_eq!(get32(&fs.sb.raw, 0x10), 3);
    assert_eq!(get32(&fs.sb.raw, 0xC), 44 - n as u32);
    assert!(tx.collector.postludes.is_empty());
}

#[test]
fn inode_release_waits_for_the_transaction() {
    let mut fs = open_small();
    let mut tx = fs.open_transaction();
    let ino = InodeAllocator::allocate(&mut fs, FileType::RegularFile, &mut tx).unwrap();
    assert_eq!(InodeAllocator::deallocate(&mut fs, ino, FileType::RegularFile, &mut tx), Ok(()));
    let mut evs = Events { inner: tx.events.inner.take() };
    evs.apply_on_disk(&mut fs, &mut tx.collector).unwrap();
    assert!(tx.collector.postludes.iter().any(|p| matches!(p, PostludeOps::InodeDeallocation(i) if *i == ino)));
}

#[test]
fn the_inode_bitmap_is_read_once_and_kept() {
    let mut fs = open_small();
    assert!(fs.inodes.bitmap[0].is_none());
    assert_eq!(InodeAllocator::bitmap(&mut fs, BlockGroupId(0)), Ok(()));
    let b = fs.inodes.bitmap[0].clone().unwrap();
    assert_eq!(b.len(), 1024);
    assert_eq!(&b[0..3], &[0xFF, 0x07, 0xFF]);
    assert_eq!(InodeAllocator::try_allocate_at(&mut fs, 5), Ok(None));
    assert_eq!(InodeAllocator::try_allocate_at(&mut fs, 14), Ok(Some(InodeNumber(14))));
    assert_eq!(InodeAllocator::try_allocate_at(&mut fs, 14), Ok(None));
    assert_eq!(fs.inodes.bitmap[0].as_ref().unwrap()[1], 0x27);
    assert_eq!(InodeAllocator::get_free_ino(&mut fs, BlockGroupId(0)), Ok(Some(11)));
    assert_eq!(InodeAllocator::get_free_ino(&mut fs, BlockGroupId(0)), Ok(Some(12)));
    assert_eq!(fs.inodes.bitmap[0].as_ref().unwrap()[1], 0x3F);
}

#[test]
fn flushing_changes_that_need_no_block_succeeds() {
    let mut fs = open_small();
    let mut tx = fs.open_transaction();
    let mut w = WritebackGroup::new();
    w.sb_delta = Some(SbDelta { free_inodes_cnt_delta: -1, free_blocks_cnt_delta: 2 });
    w.inode_ops.push(InodeOps::Init(InodeNumber(12), FileType::RegularFile));
    w.inode_ops.push(InodeOps::UpdateOrphanLink(InodeUpdateOrphanLink { pred: InodeNumber(0), succ: InodeNumber(12) }));
    assert_eq!(w.flush(&mut fs, &mut tx.collector), Ok(()));
    assert!(tx.collector.sb_dirty);
    assert_eq!(get32(&fs.sb.raw, 0x10), 4);
    assert_eq!(get32(&fs.sb.raw, 0xC), 46);
    assert_eq!(get32(&fs.sb.raw, 0xE8), 12);
}

#[test]
fn put_bits_keeps_the_other_bits_of_the_block() {
    let mut fs = open_small();
    let mut tx = fs.open_transaction();
    let mut w = WritebackGroup::new();
    assert_eq!(w.put_bits(LogicalBlockNumber(3), vec![0xF0, 0x0F, 0xAA], 2, 4, true), Ok(()));
    assert_eq!(w.put_bits(LogicalBlockNumber(4), vec![0xFF, 0xFF], 4, 8, false), Ok(()));
    // A range past the block is refused.
    assert_eq!(w.put_bits(LogicalBlockNumber(5), vec![0xFF], 6, 3, true), Err(FsError::InvalidFs));
    assert_eq!(w.flush(&mut fs, &mut tx.collector), Ok(()));
    assert_eq!(tx.collector.blocks.get(3), Some(vec![0xFC, 0x0F, 0xAA]));
    assert_eq!(tx.collector.blocks.get(4), Some(vec![0x0F, 0xF0]));
    assert_eq!(tx.collector.blocks.get(5), None);
}

#[test]
fn allocating_no_block_is_refused() {
    let mut fs = open_small();
    let mut tx = fs.open_transaction();
    assert_eq!(
        BlockAllocator::allocate(&mut fs, InodeNumber(12), 0, LogicalBlockNumber(20), &mut tx),
        Err(FsError::FsFull)
    );
    assert!(tx.events.inner.as_ref().unwrap().is_empty());
}

#[test]
fn block_counts_of_an_inode_move_within_their_field() {
    let mut fs = open_small();
    let mut tx = fs.open_transaction();
    let mut dirty = false;
    let ino = InodeNumber(12);
    // 2^41 blocks of 1 KiB are 2^42 sectors, within the 48-bit field.
    let up = InodeOps::SetBlock { ino, cnt: 1i64 << 41 };
    assert_eq!(WritebackGroup::submit_inode_ops(&mut fs, up, &mut dirty, &mut tx.collector), Ok(()));
    let down = InodeOps::SetBlock { ino, cnt: -(1i64 << 41) };
    assert_eq!(WritebackGroup::submit_inode_ops(&mut fs, down, &mut dirty, &mut tx.collector), Ok(()));
    // Below zero, or past what an i64 holds, is refused.
    let below = InodeOps::SetBlock { ino, cnt: -1 };
    assert_eq!(WritebackGroup::submit_inode_ops(&mut fs, below, &mut dirty, &mut tx.collector), Err(FsError::InvalidFs));
    let huge = InodeOps::SetBlock { ino, cnt: i64::MAX };
    assert_eq!(WritebackGroup::submit_inode_ops(&mut fs, huge, &mut dirty, &mut tx.collector), Err(FsError::InvalidFs));
    assert!(!dirty);
}

#[test]
fn a_group_descriptor_parses_from_its_block() {
    let fs = open_small();
    let blk = fs.conf().read_bytes(2 * 1024, 1024).unwrap();
    let bg = ext4_core::filesystem::parse_group_desc(&blk, 0, BlockGroupId(0), &fs.sb).unwrap();
    assert_eq!(bg.block_bitmap_lba, LogicalBlockNumber(3));
    assert_eq!(bg.inode_bitmap_lba, LogicalBlockNumber(4));
    assert_eq!(bg.inode_table_first_block, LogicalBlockNumber(5));
    assert_eq!(bg.free_blocks_count, 44);
    assert_eq!(bg.free_inodes_count, 5);
    // A descriptor past the block, or one whose flags mark a bitmap
    // uninitialized, is refused.
    assert!(matches!(
        ext4_core::filesystem::parse_group_desc(&blk, 1020, BlockGroupId(0), &fs.sb),
        Err(FsError::InvalidFs)
    ));
    let mut flagged = blk.clone();
    flagged[0x12] = 1;
    assert!(matches!(
        ext4_core::filesystem::parse_group_desc(&flagged, 0, BlockGroupId(0), &fs.sb),
        Err(FsError::InvalidFs)
    ));
}

#[test]
fn setting_then_clearing_bits_gives_the_block_back() {
    let mut fs = open_small();
    let base = vec![0x01u8, 0x00, 0xFF];
    let mut tx = fs.open_transaction();
    let mut w = WritebackGroup::new();
    assert_eq!(w.put_bits(LogicalBlockNumber(3), base.clone(), 3, 9, true), Ok(()));
    assert_eq!(w.flush(&mut fs, &mut tx.collector), Ok(()));
    let set = tx.collector.blocks.get(3).unwrap();
    assert_eq!(set, vec![0xF9, 0x0F, 0xFF]);
    let mut w2 = WritebackGroup::new();
    assert_eq!(w2.put_bits(LogicalBlockNumber(3), set, 3, 9, false), Ok(()));
    assert_eq!(w2.flush(&mut fs, &mut tx.collector), Ok(()));
    assert_eq!(tx.collector.blocks.get(3).unwrap(), base);
}
