use std::cell::RefCell;

use ext4_core::dirblock::{block_entries, cleared_block, find_in_block, insert_in_block, DirEntry};
use ext4_core::directory::LinearScheme;
use ext4_core::extent::{Entry, ExtentNode, Leaf};
use ext4_core::filesystem::{Config, FileSystem};
use ext4_core::mount::{open_fs, FsBlkSizeDispatch};
use ext4_core::path::Path;
use ext4_core::transaction::Event;
use ext4_core::types::{BlockGroupId, FileBlockNumber, FileType, FsError, InodeNumber, LogicalBlockNumber};

/// A device held in memory.
struct MemDisk {
    data: RefCell<Vec<u8>>,
}

impl Config for MemDisk {
    fn read_bytes(&self, ofs: usize, len: usize) -> Result<Vec<u8>, FsError> {
        let d = self.data.borrow();
        if ofs + len > d.len() {
            return Err(FsError::IoError);
        }
        Ok(d[ofs..ofs + len].to_vec())
    }

    fn write_bytes(&self, ofs: usize, buf: &Vec<u8>) -> Result<(), FsError> {
        let mut d = self.data.borrow_mut();
        if ofs + buf.len() > d.len() {
            return Err(FsError::IoError);
        }
        d[ofs..ofs + buf.len()].copy_from_slice(buf);
        Ok(())
    }

    fn write_vectored(&self, ofs: usize, bufs: &Vec<Vec<u8>>) -> Result<(), FsError> {
        let mut at = ofs;
        for b in bufs {
            self.write_bytes(at, b)?;
            at += b.len();
        }
        Ok(())
    }

    fn write_bios(&self, bio: Vec<(usize, Vec<u8>)>) -> Result<(), FsError> {
        for (ofs, b) in bio {
            self.write_bytes(ofs, &b)?;
        }
        Ok(())
    }

    fn total_size(&self) -> usize {
        self.data.borrow().len()
    }
}

fn put16(b: &mut [u8], o: usize, v: u16) {
    b[o..o + 2].copy_from_slice(&v.to_le_bytes());
}

fn put32(b: &mut [u8], o: usize, v: u32) {
    b[o..o + 4].copy_from_slice(&v.to_le_bytes());
}

/// A file system of 64 blocks of 1 KiB in one group of 16 inodes: blocks 1
/// to 19 and inodes 1 to 11 are in use. The descriptor is in block 2, the
/// block bitmap in block 3, the inode bitmap in block 4.
fn small_disk() -> MemDisk {
    let mut d = vec![0u8; 64 * 1024];
    let sb = 1024;
    put32(&mut d, sb, 16);
    put32(&mut d, sb + 0x4, 64);
    put32(&mut d, sb + 0xC, 44);
    put32(&mut d, sb + 0x10, 5);
    put32(&mut d, sb + 0x14, 1);
    put32(&mut d, sb + 0x18, 0);
    put32(&mut d, sb + 0x20, 8192);
    put32(&mut d, sb + 0x28, 16);
    put16(&mut d, sb + 0x38, 0xEF53);
    put16(&mut d, sb + 0x58, 128);
    let gd = 2 * 1024;
    put32(&mut d, gd, 3);
    put32(&mut d, gd + 0x4, 4);
    put32(&mut d, gd + 0x8, 5);
    put16(&mut d, gd + 0xC, 44);
    put16(&mut d, gd + 0xE, 5);
    let bb = 3 * 1024;
    for i in 0..1024 * 8 {
        if i < 19 || i >= 63 {
            d[bb + i / 8] |= 1 << (i % 8);
        }
    }
    let ib = 4 * 1024;
    for i in 0..1024 * 8 {
        if i < 11 || i >= 16 {
            d[ib + i / 8] |= 1 << (i % 8);
        }
    }
    MemDisk { data: RefCell::new(d) }
}

fn open_small() -> FileSystem<MemDisk> {
    match open_fs(small_disk()) {
        Ok(FsBlkSizeDispatch::Blk1024(fs)) => fs,
        _ => panic!("the small disk did not open with 1 KiB blocks"),
    }
}


fn dir_block() -> Vec<u8> {
    let mut b = cleared_block(1024);
    insert_in_block(&mut b, b".", FileType::Directory, InodeNumber(2)).unwrap();
    insert_in_block(&mut b, b"..", FileType::Directory, InodeNumber(2)).unwrap();
    insert_in_block(&mut b, b"file", FileType::RegularFile, InodeNumber(12)).unwrap();
    b
}

fn with_dir_block() -> FileSystem<MemDisk> {
    let fs = open_small();
    fs.conf().write_bytes(25 * 1024, &dir_block()).unwrap();
    fs
}

#[test]
fn find_entry_looks_through_the_blocks() {
    let fs = with_dir_block();
    let d = LinearScheme::new(InodeNumber(2), vec![Some(LogicalBlockNumber(24)), Some(LogicalBlockNumber(25))], 2048);
    // Block 24 is zeroed: one record, unused, would be needed; a zero
    // length is not a whole record.
    assert_eq!(d.find_entry(&fs, "file"), Err(FsError::InvalidFs));
    let d = LinearScheme::new(InodeNumber(2), vec![Some(LogicalBlockNumber(25))], 1024);
    assert_eq!(d.find_entry(&fs, "file"), Ok((InodeNumber(12), Some(FileType::RegularFile))));
    assert_eq!(d.find_entry(&fs, ".."), Ok((InodeNumber(2), Some(FileType::Directory))));
    assert_eq!(d.find_entry(&fs, "fil"), Err(FsError::NoEntry));
}

#[test]
fn find_entry_without_blocks() {
    let fs = with_dir_block();
    assert_eq!(LinearScheme::new(InodeNumber(2), vec![], 0).find_entry(&fs, "a"), Err(FsError::NoEntry));
    assert_eq!(LinearScheme::new(InodeNumber(2), vec![None], 1024).find_entry(&fs, "a"), Err(FsError::InvalidFs));
}

#[test]
fn remove_entry_writes_the_block_into_the_transaction() {
    let fs = with_dir_block();
    let mut tx = fs.open_transaction();
    let d = LinearScheme::new(InodeNumber(2), vec![Some(LogicalBlockNumber(25))], 1024);
    assert_eq!(d.remove_entry(&fs, "file", &mut tx.collector), Ok(InodeNumber(12)));
    let img = tx.collector.blocks.get(25).expect("block image");
    assert_eq!(find_in_block(&img, b"file"), Ok(None));
    assert_eq!(find_in_block(&img, b".."), Ok(Some((InodeNumber(2), Some(FileType::Directory)))));
    assert_eq!(d.remove_entry(&fs, "none", &mut tx.collector), Err(FsError::NoEntry));
}

#[test]
fn add_entry_uses_a_block_with_room() {
    let mut fs = with_dir_block();
    let mut tx = fs.open_transaction();
    let mut d = LinearScheme::new(InodeNumber(2), vec![Some(LogicalBlockNumber(25))], 1024);
    assert_eq!(d.add_entry(&mut fs, "new", FileType::Fifo, InodeNumber(13), &mut tx), Ok(false));
    assert_eq!(d.blocks, vec![Some(LogicalBlockNumber(25))]);
    assert_eq!(d.size, 1024);
    let img = tx.collector.blocks.get(25).expect("block image");
    assert_eq!(find_in_block(&img, b"new"), Ok(Some((InodeNumber(13), Some(FileType::Fifo)))));
    assert_eq!(find_in_block(&img, b"file"), Ok(Some((InodeNumber(12), Some(FileType::RegularFile)))));
    assert!(tx.events.inner.as_ref().unwrap().is_empty());
    let long = "n".repeat(256);
    assert_eq!(d.add_entry(&mut fs, &long, FileType::Fifo, InodeNumber(14), &mut tx), Err(FsError::NameTooLong));
}

#[test]
fn add_entry_grows_a_full_directory() {
    let mut fs = open_small();
    let mut full = cleared_block(1024);
    for k in 0..4u8 {
        let name = vec![b'a' + k; 248];
        assert_eq!(insert_in_block(&mut full, &name, FileType::RegularFile, InodeNumber(3 + k as u32)), Ok(true));
    }
    fs.conf().write_bytes(25 * 1024, &full).unwrap();
    let mut tx = fs.open_transaction();
    let mut d = LinearScheme::new(InodeNumber(2), vec![Some(LogicalBlockNumber(25))], 1024);
    assert_eq!(d.add_entry(&mut fs, "x", FileType::RegularFile, InodeNumber(12), &mut tx), Ok(true));
    assert_eq!(d.blocks.len(), 2);
    assert_eq!(d.size, 2048);
    let l = d.blocks[1].unwrap();
    assert!(l.0 >= 20 && l.0 < 64);
    let img = tx.collector.blocks.get(l.0).expect("new block image");
    assert_eq!(img.len(), 1024);
    assert_eq!(find_in_block(&img, b"x"), Ok(Some((InodeNumber(12), Some(FileType::RegularFile)))));
    assert_eq!(u16::from_le_bytes([img[4], img[5]]), 1024);
    let ev = tx.events.inner.as_ref().unwrap();
    assert!(matches!(&ev[0], Event::BlockAllocationOnBg(e) if e.ino == InodeNumber(2) && e.count == 1));
}

fn extent_at(k: u64) -> Leaf {
    Leaf { block: (k * 10) as u32, start: LogicalBlockNumber(20 + 10 * k), len: 4, is_init: true }
}

#[test]
fn truncating_gives_blocks_back() {
    let mut fs = open_small();
    let mut tx = fs.open_transaction();
    let root = ExtentNode { depth: 0, max_entries: 4, entries: (0..3).map(|k| Entry::Leaf(extent_at(k))).collect() };
    let mut p = Path::<true>::empty(InodeNumber(12), root);
    assert_eq!(p.load_last(&mut tx, &fs), Ok(Some(FileBlockNumber(23))));
    assert_eq!(p.get_leaf(), Some(extent_at(2)));
    assert_eq!(p.truncate_last(1, &mut tx, &mut fs), Ok(()));
    assert_eq!(p.get_leaf(), Some(Leaf { len: 1, ..extent_at(2) }));
    {
        let ev = tx.events.inner.as_ref().unwrap();
        assert_eq!(ev.len(), 1);
        match &ev[0] {
            Event::BlockDeallocationOnBg(e) => {
                assert_eq!((e.ino, e.bgid, e.ofs, e.count), (InodeNumber(12), BlockGroupId(0), 40, 3));
            },
            _ => panic!("not a block release"),
        }
    }
    // Shortening to nothing takes the extent out and moves to the one before.
    assert_eq!(p.truncate_last(0, &mut tx, &mut fs), Ok(()));
    assert_eq!(p.root.0.entries.len(), 2);
    assert_eq!(p.get_leaf(), Some(extent_at(1)));
}

#[test]
fn truncating_past_the_device_is_refused() {
    let mut fs = open_small();
    let mut tx = fs.open_transaction();
    let bad = Leaf { block: 0, start: LogicalBlockNumber(60), len: 8, is_init: true };
    let root = ExtentNode { depth: 0, max_entries: 4, entries: vec![Entry::Leaf(bad)] };
    let mut p = Path::<true>::empty(InodeNumber(12), root);
    assert_eq!(p.load_last(&mut tx, &fs), Ok(Some(FileBlockNumber(7))));
    assert_eq!(p.truncate_last(2, &mut tx, &mut fs), Err(FsError::InvalidFs));
    assert_eq!(p.get_leaf(), Some(bad));
}

fn names(v: &[DirEntry]) -> Vec<Vec<u8>> {
    v.iter().map(|e| e.name.clone()).collect()
}

#[test]
fn block_entries_start_at_the_record_holding_the_offset() {
    let b = dir_block();
    let (v, end, broken) = block_entries(&b, 0).unwrap();
    // The record right after the first one given is passed over.
    assert_eq!(names(&v), vec![b".".to_vec(), b"file".to_vec()]);
    assert_eq!(end, 12);
    assert!(!broken);
    assert_eq!(v[1].ino, InodeNumber(12));
    assert_eq!(v[1].ty, FileType::RegularFile);
    let (v, end, _) = block_entries(&b, 12).unwrap();
    assert_eq!(names(&v), vec![b"..".to_vec()]);
    assert_eq!(end, 24);
    let (v, end, _) = block_entries(&b, 30).unwrap();
    assert_eq!(names(&v), vec![b"file".to_vec()]);
    assert_eq!(end, 1024);
    let (v, _, broken) = block_entries(&Vec::new(), 0).unwrap();
    assert!(v.is_empty() && !broken);
}

#[test]
fn block_entries_report_a_broken_tail() {
    let mut b = vec![0u8; 64];
    for (o, name) in [(0usize, b'a'), (16, b'b'), (32, b'c')] {
        b[o] = 5;
        b[o + 4] = 16;
        b[o + 6] = 1;
        b[o + 7] = 1;
        b[o + 8] = name;
    }
    b[52] = 4; // the record at 48 is shorter than its header
    let (v, _, broken) = block_entries(&b, 0).unwrap();
    assert_eq!(names(&v), vec![b"a".to_vec(), b"c".to_vec()]);
    assert!(broken);
    let (v, _, broken) = block_entries(&b, 20).unwrap();
    assert_eq!(names(&v), vec![b"b".to_vec()]);
    assert!(broken);
    // A record that is not whole where the walk passes over one ends it.
    let (v, _, broken) = block_entries(&b, 40).unwrap();
    assert_eq!(names(&v), vec![b"c".to_vec()]);
    assert!(!broken);
    b[4] = 4;
    assert!(matches!(block_entries(&b, 0), Err(FsError::InvalidFs)));
}

#[test]
fn fill_dir_from_walks_the_blocks() {
    let fs = with_dir_block();
    let mut second = cleared_block(1024);
    insert_in_block(&mut second, b"x", FileType::Socket, InodeNumber(20)).unwrap();
    fs.conf().write_bytes(26 * 1024, &second).unwrap();
    let d = LinearScheme::new(InodeNumber(2), vec![Some(LogicalBlockNumber(25)), Some(LogicalBlockNumber(26))], 2048);
    let seen = RefCell::new(Vec::new());
    let r = d.fill_dir_from(&fs, 0, |e: DirEntry, p: usize| {
        seen.borrow_mut().push((e.name, e.ino, e.ty, p));
        true
    });
    assert_eq!(r, Ok(()));
    assert_eq!(
        seen.into_inner(),
        vec![
            (b".".to_vec(), InodeNumber(2), FileType::Directory, 12),
            (b"file".to_vec(), InodeNumber(12), FileType::RegularFile, 12),
            (b"x".to_vec(), InodeNumber(20), FileType::Socket, 2048),
        ]
    );
}

#[test]
fn fill_dir_from_stops_when_asked() {
    let fs = with_dir_block();
    let d = LinearScheme::new(InodeNumber(2), vec![Some(LogicalBlockNumber(25)), None], 2048);
    let seen = RefCell::new(Vec::new());
    let r = d.fill_dir_from(&fs, 12, |e: DirEntry, p: usize| {
        seen.borrow_mut().push((e.name, p));
        false
    });
    assert_eq!(r, Ok(()));
    assert_eq!(seen.into_inner(), vec![(b"..".to_vec(), 24)]);
    // Going on into the uninitialized block is an error.
    assert_eq!(d.fill_dir_from(&fs, 12, |_e: DirEntry, _p: usize| true), Err(FsError::InvalidFs));
    assert_eq!(d.fill_dir_from(&fs, 1024, |_e: DirEntry, _p: usize| true), Err(FsError::InvalidFs));
    assert_eq!(d.fill_dir_from(&fs, 4096, |_e: DirEntry, _p: usize| true), Ok(()));
}

#[test]
fn truncating_the_only_extent_of_a_node_gives_the_node_back() {
    let mut fs = open_small();
    let mut b50 = vec![0u8; 1024];
    ExtentNode { depth: 0, max_entries: 84, entries: vec![Entry::Leaf(extent_at(0)), Entry::Leaf(extent_at(1))] }
        .write_to(&mut b50);
    fs.conf().write_bytes(50 * 1024, &b50).unwrap();
    let mut b51 = vec![0u8; 1024];
    ExtentNode { depth: 0, max_entries: 84, entries: vec![Entry::Leaf(extent_at(2))] }.write_to(&mut b51);
    fs.conf().write_bytes(51 * 1024, &b51).unwrap();
    let root = ExtentNode {
        depth: 1,
        max_entries: 4,
        entries: vec![
            Entry::Internal(ext4_core::extent::Internal { block: 0, next_node: LogicalBlockNumber(50) }),
            Entry::Internal(ext4_core::extent::Internal { block: 20, next_node: LogicalBlockNumber(51) }),
        ],
    };
    let mut tx = fs.open_transaction();
    let mut p = Path::<true>::empty(InodeNumber(12), root);
    assert_eq!(p.load_last(&mut tx, &fs), Ok(Some(FileBlockNumber(23))));
    assert_eq!(p.get_leaf(), Some(extent_at(2)));
    assert_eq!(p.truncate_last(0, &mut tx, &mut fs), Ok(()));
    // The node at block 51 is left empty: it is given back, the root loses
    // its entry, and the path ends at the extent before.
    assert_eq!(p.root.0.entries.len(), 1);
    assert_eq!(p.root.1, Some(0));
    assert_eq!(p.get_leaf(), Some(extent_at(1)));
    let ev = tx.events.inner.as_ref().unwrap();
    assert_eq!(ev.len(), 2);
    match (&ev[0], &ev[1]) {
        (Event::BlockDeallocationOnBg(a), Event::BlockDeallocationOnBg(b)) => {
            assert_eq!((a.ino, a.ofs, a.count), (InodeNumber(12), 39, 4));
            assert_eq!((b.ino, b.ofs, b.count), (InodeNumber(12), 50, 1));
        },
        _ => panic!("not two block releases"),
    }
}

#[test]
fn fill_block_hands_the_records_in_order() {
    let b = dir_block();
    let seen = RefCell::new(Vec::new());
    let f = |e: DirEntry, p: usize| {
        seen.borrow_mut().push((e.name, p));
        true
    };
    assert_eq!(ext4_core::directory::fill_block(&b, 0, 2048, &f), Ok(true));
    // The record after the one at the offset is passed over, as in
    // `block_entries`.
    assert_eq!(seen.borrow().clone(), vec![(b".".to_vec(), 2060), (b"file".to_vec(), 2060)]);
    // Told to stop at the first record, it gives false.
    let stop = |_e: DirEntry, _p: usize| false;
    assert_eq!(ext4_core::directory::fill_block(&b, 0, 0, &stop), Ok(false));
    // A position past what a `usize` holds is refused.
    assert_eq!(ext4_core::directory::fill_block(&b, 0, usize::MAX, &f), Err(FsError::InvalidFs));
}

#[test]
fn remove_entry_takes_the_record_from_a_cached_block() {
    let fs = with_dir_block();
    let mut tx = fs.open_transaction();
    tx.collector.blocks.put(25, dir_block());
    let d = LinearScheme::new(InodeNumber(2), vec![Some(LogicalBlockNumber(25))], 1024);
    assert_eq!(d.remove_entry(&fs, "file", &mut tx.collector), Ok(InodeNumber(12)));
    let img = tx.collector.blocks.get(25).unwrap();
    assert_eq!(find_in_block(&img, b"file"), Ok(None));
    assert_eq!(find_in_block(&img, b".."), Ok(Some((InodeNumber(2), Some(FileType::Directory)))));
    assert_eq!(d.remove_entry(&fs, "file", &mut tx.collector), Err(FsError::NoEntry));
}
