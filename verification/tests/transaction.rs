use ext4_core::blockmap::BlockMap;
use ext4_core::transaction::{Collector, Event, RawInodeAddressingMode, Transaction};
use ext4_core::types::{BlockGroupId, FileType, InodeNumber, LogicalBlockNumber};

#[test]
fn block_map_keeps_the_last_image() {
    let mut m = BlockMap::new();
    assert_eq!(m.get(7), None);
    m.put(7, vec![1, 2]);
    m.put(9, vec![3]);
    m.put(7, vec![4]);
    assert_eq!(m.get(7), Some(vec![4]));
    assert_eq!(m.get(9), Some(vec![3]));
    assert_eq!(m.len(), 2);
    let mut keys: Vec<u64> = (0..m.len()).map(|i| m.entry(i).0).collect();
    keys.sort();
    assert_eq!(keys, vec![7, 9]);
}

#[test]
fn a_new_transaction_is_empty() {
    let tx = Transaction::new();
    assert_eq!(tx.events.inner.as_ref().map(|v| v.len()), Some(0));
    assert_eq!(tx.collector.blocks.len(), 0);
    assert!(!tx.collector.sb_dirty);
    assert!(tx.collector.postludes.is_empty());
    let mut c = Collector::new();
    c.set_sb_dirty();
    assert!(c.sb_dirty);
}

#[test]
fn events_are_recorded_in_order() {
    let mut tx = Transaction::new();
    tx.inode_allocation_on_bg(BlockGroupId(1), LogicalBlockNumber(4), 3, FileType::Directory);
    tx.free_inodes_count_dec_on_sb();
    tx.inode_add_link(InodeNumber(12));
    tx.inode_rm_link(InodeNumber(12));
    tx.inode_set_size(InodeNumber(12), 4096, RawInodeAddressingMode { bytes: vec![0u8; 60] });
    tx.block_deallocation_on_bg(InodeNumber(12), BlockGroupId(0), LogicalBlockNumber(3), 20, 2);
    tx.free_inodes_count_inc_on_sb();
    let ev = tx.events.inner.as_ref().unwrap();
    assert_eq!(ev.len(), 7);
    assert!(matches!(&ev[0], Event::InodeAllocationOnBg(e) if e.bgid == BlockGroupId(1) && e.ofs == 3));
    assert!(matches!(&ev[1], Event::FreeInodesCountDecOnSb));
    assert!(matches!(&ev[2], Event::InodeAddLink(e) if e.ino == InodeNumber(12)));
    assert!(matches!(&ev[3], Event::InodeRmLink(e) if e.ino == InodeNumber(12)));
    assert!(matches!(&ev[4], Event::InodeSetSize(e) if e.size == 4096));
    assert!(matches!(&ev[5], Event::BlockDeallocationOnBg(e) if e.ofs == 20 && e.count == 2));
    assert!(matches!(&ev[6], Event::FreeInodesCountIncOnSb));
}

#[test]
fn written_blocks_are_collected() {
    let mut tx = Transaction::new();
    tx.write_block(LogicalBlockNumber(5), vec![9; 4]);
    tx.write_block(LogicalBlockNumber(5), vec![8; 4]);
    assert_eq!(tx.collector.blocks.get(5), Some(vec![8; 4]));
    assert_eq!(tx.events.inner.as_ref().unwrap().len(), 0);
}
