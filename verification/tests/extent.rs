use ext4_core::extent::{Entry, ExtentNode, Internal, Leaf};
use ext4_core::types::{FileBlockNumber, FsError, LogicalBlockNumber};

fn put16(b: &mut [u8], o: usize, v: u16) {
    b[o..o + 2].copy_from_slice(&v.to_le_bytes());
}

fn put32(b: &mut [u8], o: usize, v: u32) {
    b[o..o + 4].copy_from_slice(&v.to_le_bytes());
}

fn leaf_node_bytes() -> Vec<u8> {
    let mut b = vec![0u8; 60];
    put16(&mut b, 0, 0xF30A);
    put16(&mut b, 2, 2);
    put16(&mut b, 4, 4);
    put16(&mut b, 6, 0);
    put32(&mut b, 12, 0);
    put16(&mut b, 16, 8);
    put16(&mut b, 18, 1);
    put32(&mut b, 20, 100);
    put32(&mut b, 24, 8);
    put16(&mut b, 28, 0x8003);
    put16(&mut b, 30, 0);
    put32(&mut b, 32, 200);
    b
}

#[test]
fn from_bytes_reads_leaves() {
    let n = ExtentNode::from_bytes(&leaf_node_bytes()).unwrap();
    assert_eq!(n.get_depth(), 0);
    assert_eq!(n.get_entries_cnt(), 2);
    assert_eq!(n.get_max_entries_cnt(), 4);
    assert!(!n.is_full());
    assert_eq!(
        n.get(0),
        Some(Entry::Leaf(Leaf {
            block: 0,
            start: LogicalBlockNumber(0x1_0000_0064),
            len: 8,
            is_init: true
        }))
    );
    assert_eq!(
        n.get(1),
        Some(Entry::Leaf(Leaf { block: 8, start: LogicalBlockNumber(200), len: 3, is_init: false }))
    );
    assert_eq!(n.get(2), None);
}

#[test]
fn from_bytes_reads_internal_entries() {
    let mut b = vec![0u8; 24];
    put16(&mut b, 0, 0xF30A);
    put16(&mut b, 2, 1);
    put16(&mut b, 4, 1);
    put16(&mut b, 6, 1);
    put32(&mut b, 12, 7);
    put32(&mut b, 16, 500);
    put16(&mut b, 20, 2);
    let n = ExtentNode::from_bytes(&b).unwrap();
    let e = n.get(0).unwrap();
    assert_eq!(e, Entry::Internal(Internal { block: 7, next_node: LogicalBlockNumber(0x2_0000_01F4) }));
    assert_eq!(e.next_node(), Some(LogicalBlockNumber(0x2_0000_01F4)));
    assert_eq!(e.get_leaf(), None);
    assert_eq!(e.first_block(), 7);
    assert!(n.is_full());
}

#[test]
fn from_bytes_refuses_bad_nodes() {
    let mut b = leaf_node_bytes();
    put16(&mut b, 0, 0x1234);
    assert_eq!(ExtentNode::from_bytes(&b).err(), Some(FsError::InvalidFs));
    let mut b = leaf_node_bytes();
    put16(&mut b, 2, 5);
    assert_eq!(ExtentNode::from_bytes(&b).err(), Some(FsError::InvalidFs));
    let mut b = leaf_node_bytes();
    put16(&mut b, 4, 5);
    assert_eq!(ExtentNode::from_bytes(&b).err(), Some(FsError::InvalidFs));
    assert_eq!(ExtentNode::from_bytes(&vec![0u8; 4]).err(), Some(FsError::InvalidFs));
}

#[test]
fn write_to_round_trips() {
    let n = ExtentNode::from_bytes(&leaf_node_bytes()).unwrap();
    let mut out = vec![0xEEu8; 60];
    n.write_to(&mut out);
    assert_eq!(&out[0..8], &leaf_node_bytes()[0..8]);
    assert_eq!(&out[12..36], &leaf_node_bytes()[12..36]);
    assert!(out[8..12].iter().all(|&x| x == 0xEE));
    assert!(out[36..].iter().all(|&x| x == 0xEE));
    let back = ExtentNode::from_bytes(&out).unwrap();
    assert_eq!(back.entries, n.entries);
}

#[test]
fn node_edits() {
    let mut n = ExtentNode::from_bytes(&leaf_node_bytes()).unwrap();
    let e = Entry::Leaf(Leaf { block: 20, start: LogicalBlockNumber(300), len: 1, is_init: true });
    assert_eq!(n.insert_at(e, 2), Ok(()));
    assert_eq!(n.get(2), Some(e));
    assert_eq!(n.replace_at(e, 7), Err(e));
    assert_eq!(n.replace_at(e, 0), Ok(()));
    assert_eq!(n.get(0), Some(e));
    n.set_entries_cnt(1);
    assert_eq!(n.get_entries_cnt(), 1);
    n.set_depth(3);
    assert_eq!(n.get_depth(), 3);
    let mut full = ExtentNode { depth: 0, max_entries: 1, entries: vec![e] };
    assert_eq!(full.insert_at(e, 0), Err(e));
}

#[test]
fn binary_search_finds_the_covering_entry() {
    let n = ExtentNode::from_bytes(&leaf_node_bytes()).unwrap();
    assert_eq!(n.binary_search(FileBlockNumber(0)), Some(0));
    assert_eq!(n.binary_search(FileBlockNumber(7)), Some(0));
    assert_eq!(n.binary_search(FileBlockNumber(8)), Some(1));
    assert_eq!(n.binary_search(FileBlockNumber(1000)), Some(1));
    let empty = ExtentNode { depth: 0, max_entries: 4, entries: vec![] };
    assert_eq!(empty.binary_search(FileBlockNumber(3)), None);
}

#[test]
fn leaf_last_block() {
    let l = Leaf { block: 10, start: LogicalBlockNumber(5), len: 4, is_init: true };
    assert_eq!(l.last_fba(), FileBlockNumber(13));
}
