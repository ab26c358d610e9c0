use std::cell::RefCell;

use ext4_core::extent::{Entry, ExtentNode, Leaf};
use ext4_core::filesystem::{Config, FileSystem};
use ext4_core::mount::{open_fs, FsBlkSizeDispatch};
use ext4_core::path::{Leafs, Path};
use ext4_core::types::{FileBlockNumber, FsError, InodeNumber, LogicalBlockNumber};

/// A device held in memory.
struct MemDisk {
    data: RefCell<Vec<u8>>,
}

impl Config for MemDisk {
    fn read_bytes(&self, ofs: usize, len: usize) -> Result<Vec<u8>, FsError> {
        let d = self.data.borrow();
        if ofs + len > d.len() {
            return Err(FsError::IoError);
        }
        Ok(d[ofs..ofs + len].to_vec())
    }

    fn write_bytes(&self, ofs: usize, buf: &Vec<u8>) -> Result<(), FsError> {
        let mut d = self.data.borrow_mut();
        if ofs + buf.len() > d.len() {
            return Err(FsError::IoError);
        }
        d[ofs..ofs + buf.len()].copy_from_slice(buf);
        Ok(())
    }

    fn write_vectored(&self, ofs: usize, bufs: &Vec<Vec<u8>>) -> Result<(), FsError> {
        let mut at = ofs;
        for b in bufs {
            self.write_bytes(at, b)?;
            at += b.len();
        }
        Ok(())
    }

    fn write_bios(&self, bio: Vec<(usize, Vec<u8>)>) -> Result<(), FsError> {
        for (ofs, b) in bio {
            self.write_bytes(ofs, &b)?;
        }
        Ok(())
    }

    fn total_size(&self) -> usize {
        self.data.borrow().len()
    }
}

fn put16(b: &mut [u8], o: usize, v: u16) {
    b[o..o + 2].copy_from_slice(&v.to_le_bytes());
}

fn put32(b: &mut [u8], o: usize, v: u32) {
    b[o..o + 4].copy_from_slice(&v.to_le_bytes());
}

/// A file system of 64 blocks of 1 KiB in one group of 16 inodes: blocks 1
/// to 19 and inodes 1 to 11 are in use. The descriptor is in block 2, the
/// block bitmap in block 3, the inode bitmap in block 4.
fn small_disk() -> MemDisk {
    let mut d = vec![0u8; 64 * 1024];
    let sb = 1024;
    put32(&mut d, sb, 16);
    put32(&mut d, sb + 0x4, 64);
    put32(&mut d, sb + 0xC, 44);
    put32(&mut d, sb + 0x10, 5);
    put32(&mut d, sb + 0x14, 1);
    put32(&mut d, sb + 0x18, 0);
    put32(&mut d, sb + 0x20, 8192);
    put32(&mut d, sb + 0x28, 16);
    put16(&mut d, sb + 0x38, 0xEF53);
    put16(&mut d, sb + 0x58, 128);
    let gd = 2 * 1024;
    put32(&mut d, gd, 3);
    put32(&mut d, gd + 0x4, 4);
    put32(&mut d, gd + 0x8, 5);
    put16(&mut d, gd + 0xC, 44);
    put16(&mut d, gd + 0xE, 5);
    let bb = 3 * 1024;
    for i in 0..1024 * 8 {
        if i < 19 || i >= 63 {
            d[bb + i / 8] |= 1 << (i % 8);
        }
    }
    let ib = 4 * 1024;
    for i in 0..1024 * 8 {
        if i < 11 || i >= 16 {
            d[ib + i / 8] |= 1 << (i % 8);
        }
    }
    MemDisk { data: RefCell::new(d) }
}

fn open_small() -> FileSystem<MemDisk> {
    match open_fs(small_disk()) {
        Ok(FsBlkSizeDispatch::Blk1024(fs)) => fs,
        _ => panic!("the small disk did not open with 1 KiB blocks"),
    }
}


/// A file system of 64 blocks of 4 KiB whose data starts at block 0: the
/// descriptor is in block 1, the bitmaps in blocks 2 and 3, and blocks 0 to
/// 19 are in use.
fn open_4k() -> FileSystem<MemDisk> {
    let mut d = vec![0u8; 64 * 4096];
    let sb = 1024;
    put32(&mut d, sb, 16);
    put32(&mut d, sb + 0x4, 64);
    put32(&mut d, sb + 0xC, 44);
    put32(&mut d, sb + 0x10, 5);
    put32(&mut d, sb + 0x14, 0);
    put32(&mut d, sb + 0x18, 2);
    put32(&mut d, sb + 0x20, 32768);
    put32(&mut d, sb + 0x28, 16);
    put16(&mut d, sb + 0x38, 0xEF53);
    put16(&mut d, sb + 0x58, 128);
    let gd = 4096;
    put32(&mut d, gd, 2);
    put32(&mut d, gd + 0x4, 3);
    put32(&mut d, gd + 0x8, 4);
    put16(&mut d, gd + 0xC, 44);
    put16(&mut d, gd + 0xE, 5);
    let bb = 2 * 4096;
    for i in 0..4096 * 8 {
        if i < 20 || i >= 64 {
            d[bb + i / 8] |= 1 << (i % 8);
        }
    }
    match open_fs(MemDisk { data: RefCell::new(d) }) {
        Ok(FsBlkSizeDispatch::Blk4096(fs)) => fs,
        _ => panic!("the disk did not open with 4 KiB blocks"),
    }
}

fn extent(k: u32) -> Leaf {
    Leaf { block: k * 10, start: LogicalBlockNumber(1000 + 100 * k as u64), len: 2, is_init: true }
}

#[test]
fn leafs_is_a_bounded_stack() {
    let mut l: Leafs<u32> = Leafs::new();
    assert!(l.is_empty());
    assert_eq!(l.pop(), None);
    l.push(1);
    l.push(2);
    l.push(3);
    assert_eq!(l.len(), 3);
    assert_eq!(l.get(0), Some(&1));
    assert_eq!(l.get(3), None);
    assert_eq!(l.last(), Some(&3));
    *l.get_mut(1).unwrap() = 20;
    assert_eq!(l.get(1), Some(&20));
    assert_eq!(l.pop(), Some(3));
    assert_eq!(l.len(), 2);
    l.clear();
    assert!(l.is_empty());
    assert_eq!(l.last(), None);
}

#[test]
fn inserts_fill_the_root_in_order() {
    let mut fs = open_small();
    let mut tx = fs.open_transaction();
    let root = ExtentNode { depth: 0, max_entries: 4, entries: vec![] };
    let mut p = Path::<true>::empty(InodeNumber(12), root);
    for k in 0..4 {
        assert_eq!(p.insert(extent(k), InodeNumber(12), &mut tx, &mut fs), Ok(extent(k).start));
        assert_eq!(p.get_leaf(), Some(extent(k)));
    }
    assert_eq!(p.root.0.get_depth(), 0);
    // An extent that starts where the path's extent starts is refused.
    assert_eq!(p.insert(extent(3), InodeNumber(12), &mut tx, &mut fs), Err(FsError::InvalidFs));
    let got: Vec<Entry> = p.root.0.entries.clone();
    assert_eq!(got, (0..4).map(|k| Entry::Leaf(extent(k))).collect::<Vec<_>>());
}

#[test]
fn a_full_root_grows_a_level() {
    let mut fs = open_4k();
    let mut tx = fs.open_transaction();
    let root = ExtentNode { depth: 0, max_entries: 4, entries: vec![] };
    let mut p = Path::<true>::empty(InodeNumber(12), root);
    for k in 0..6 {
        assert_eq!(p.insert(extent(k), InodeNumber(12), &mut tx, &mut fs), Ok(extent(k).start));
        assert_eq!(p.get_leaf(), Some(extent(k)));
    }
    assert_eq!(p.root.0.get_depth(), 1);
    assert_eq!(p.root.0.get_entries_cnt(), 1);
    let child = match p.root.0.get(0) {
        Some(Entry::Internal(i)) => i,
        _ => panic!("the root does not point to a node"),
    };
    assert_eq!(child.block, 0);
    // The new node lies in a block the file system gave out, and the
    // transaction holds its image with all six extents.
    assert!(child.next_node.0 >= 20 && child.next_node.0 < 64);
    assert_eq!(fs.block_groups[0].unwrap().get_free_blocks_count(), 43);
    let img = tx.collector.blocks.get(child.next_node.0).expect("node image");
    let node = ExtentNode::from_bytes(&img).unwrap();
    assert_eq!(node.get_depth(), 0);
    assert_eq!(node.entries, (0..6).map(|k| Entry::Leaf(extent(k))).collect::<Vec<_>>());

    // Loading the path again finds each extent.
    let copy = ExtentNode { depth: p.root.0.depth, max_entries: p.root.0.max_entries, entries: p.root.0.entries.clone() };
    let mut q = Path::<true>::empty(InodeNumber(12), copy);
    for k in 0..6 {
        assert_eq!(q.load(FileBlockNumber(k * 10 + 1), &mut tx, &fs), Ok(()));
        assert_eq!(q.get_leaf(), Some(extent(k)));
    }
}

#[test]
fn growing_a_root_of_extents_needs_a_group_block_as_hope() {
    // The hope for the new node is the inode's group number taken as a
    // block; with 1 KiB blocks, block 0 lies before the first data block.
    let mut fs = open_small();
    let mut tx = fs.open_transaction();
    let root = ExtentNode { depth: 0, max_entries: 4, entries: vec![] };
    let mut p = Path::<true>::empty(InodeNumber(12), root);
    for k in 0..4 {
        assert_eq!(p.insert(extent(k), InodeNumber(12), &mut tx, &mut fs), Ok(extent(k).start));
    }
    assert_eq!(p.insert(extent(4), InodeNumber(12), &mut tx, &mut fs), Err(FsError::InvalidFs));
}

#[test]
fn contiguous_extents_merge() {
    let mut fs = open_small();
    let mut tx = fs.open_transaction();
    let root = ExtentNode { depth: 0, max_entries: 4, entries: vec![] };
    let mut p = Path::<true>::empty(InodeNumber(12), root);
    let a = Leaf { block: 0, start: LogicalBlockNumber(500), len: 3, is_init: true };
    let b = Leaf { block: 3, start: LogicalBlockNumber(503), len: 2, is_init: true };
    assert_eq!(p.insert(a, InodeNumber(12), &mut tx, &mut fs), Ok(LogicalBlockNumber(500)));
    assert_eq!(p.insert(b, InodeNumber(12), &mut tx, &mut fs), Ok(LogicalBlockNumber(503)));
    assert_eq!(
        p.root.0.entries,
        vec![Entry::Leaf(Leaf { block: 0, start: LogicalBlockNumber(500), len: 5, is_init: true })]
    );
}

#[test]
fn a_read_only_path_loads_from_the_root() {
    let fs = open_small();
    let root = ExtentNode { depth: 0, max_entries: 4, entries: (0..3).map(|k| Entry::Leaf(extent(k))).collect() };
    let mut p = Path::<false>::empty(InodeNumber(12), root);
    assert_eq!(p.load(FileBlockNumber(15), &fs), Ok(()));
    assert_eq!(p.get_leaf(), Some(extent(1)));
    assert_eq!(p.load(FileBlockNumber(0), &fs), Ok(()));
    assert_eq!(p.get_leaf(), Some(extent(0)));
    let bad = ExtentNode { depth: 1, max_entries: 4, entries: vec![Entry::Internal(ext4_core::extent::Internal { block: 0, next_node: LogicalBlockNumber(30) })] };
    let mut q = Path::<false>::empty(InodeNumber(12), bad);
    // Block 30 holds no extent node.
    assert_eq!(q.load(FileBlockNumber(0), &fs), Err(FsError::InvalidFs));
}

#[test]
fn an_index_entry_goes_next_to_the_followed_one() {
    let mut fs = open_4k();
    let mut tx = fs.open_transaction();
    let root = ExtentNode { depth: 0, max_entries: 4, entries: vec![] };
    let mut p = Path::<true>::empty(InodeNumber(12), root);
    for k in 0..6 {
        assert_eq!(p.insert(extent(k), InodeNumber(12), &mut tx, &mut fs), Ok(extent(k).start));
    }
    let first = p.root.0.entries[0].clone();
    let copy = ExtentNode { depth: p.root.0.depth, max_entries: p.root.0.max_entries, entries: p.root.0.entries.clone() };
    let mut q = Path::<true>::empty(InodeNumber(12), copy);
    assert_eq!(q.load(FileBlockNumber(1), &mut tx, &fs), Ok(()));
    assert_eq!(q.root.1, Some(0));
    // Past the followed entry: it goes right after it.
    let after = ext4_core::extent::Internal { block: 100, next_node: LogicalBlockNumber(40) };
    assert!(q.insert_internal(after, 0, &mut tx));
    assert_eq!(q.root.0.entries, vec![first.clone(), Entry::Internal(after)]);
    let more = ext4_core::extent::Internal { block: 200, next_node: LogicalBlockNumber(42) };
    assert!(q.insert_internal(more, 0, &mut tx));
    assert_eq!(q.root.0.entries, vec![first.clone(), Entry::Internal(more), Entry::Internal(after)]);
    // A full node is refused and left as it was.
    let mut full = Path::<true>::empty(InodeNumber(12), ExtentNode {
        depth: q.root.0.depth,
        max_entries: q.root.0.max_entries,
        entries: q.root.0.entries.clone(),
    });
    assert_eq!(full.load(FileBlockNumber(1), &mut tx, &fs), Ok(()));
    let last = ext4_core::extent::Internal { block: 300, next_node: LogicalBlockNumber(43) };
    assert!(full.insert_internal(last, 0, &mut tx));
    assert_eq!(full.root.0.entries.len(), 4);
    let refused = ext4_core::extent::Internal { block: 400, next_node: LogicalBlockNumber(44) };
    assert!(!full.insert_internal(refused, 0, &mut tx));
    assert_eq!(full.root.0.entries.len(), 4);
    // Not past it: it takes the followed entry's place, and the index stays.
    let before = ext4_core::extent::Internal { block: 0, next_node: LogicalBlockNumber(41) };
    assert!(q.insert_internal(before, 0, &mut tx));
    assert_eq!(
        q.root.0.entries,
        vec![Entry::Internal(before), first.clone(), Entry::Internal(more), Entry::Internal(after)]
    );
    assert_eq!(q.root.1, Some(0));
}

#[test]
fn leafs_pop_empties_its_slot_and_clear_keeps_them() {
    let mut l: Leafs<u32> = Leafs::new();
    l.push(7);
    l.push(8);
    assert_eq!(l.pop(), Some(8));
    assert_eq!(l.get(1), None);
    assert_eq!(l.get(0), Some(&7));
    // Clearing only forgets the levels: the slots still hold what was pushed.
    l.clear();
    assert_eq!(l.len(), 0);
    assert_eq!(l.get(0), Some(&7));
}
