//! Extent tree nodes: the header, the leaf and index entries, and their
//! on-disk layout of 12-byte records.
use vstd::prelude::*;
use crate::bytes::{le16, le32, read_u16, read_u32, write_u16, write_u32, same_outside};
use crate::types::{FileBlockNumber, FsError, LogicalBlockNumber};

verus! {

/// The magic number of an extent tree header.
pub const EXTENT_MAGIC: u16 = 0xF30A;

/// The longest initialized extent.
pub const MAX_INIT_LEN: u16 = 0x8000;

/// A leaf entry: `len` file blocks from `block` on are stored from `start` on.
#[derive(Clone, Copy, Debug, PartialEq, Eq, Structural)]
pub struct Leaf {
    pub block: u32,
    pub start: LogicalBlockNumber,
    pub len: u16,
    pub is_init: bool,
}

/// An index entry: the subtree of file blocks from `block` on is stored in `next_node`.
#[derive(Clone, Copy, Debug, PartialEq, Eq, Structural)]
pub struct Internal {
    pub block: u32,
    pub next_node: LogicalBlockNumber,
}

/// An entry of an extent node.
#[derive(Clone, Copy, Debug, PartialEq, Eq, Structural)]
pub enum Entry {
    Leaf(Leaf),
    Internal(Internal),
}

impl Leaf {
    /// The last file block of the extent.
    pub fn last_fba(&self) -> (r: FileBlockNumber)
        requires
            self.len >= 1,
            self.block + self.len - 1 <= u32::MAX,
        ensures
            r.0 == self.block + self.len - 1,
    {
        FileBlockNumber(self.block + ((self.len as u32) - 1))
    }
}

impl Entry {
    /// The first file block the entry covers.
    pub open spec fn first_block_spec(self) -> u32 {
        match self {
            Entry::Leaf(l) => l.block,
            Entry::Internal(i) => i.block,
        }
    }

    /// The first file block the entry covers.
    pub fn first_block(&self) -> (r: u32)
        ensures
            r == self.first_block_spec(),
    {
        match self {
            Entry::Leaf(l) => l.block,
            Entry::Internal(i) => i.block,
        }
    }

    /// The node an index entry points at.
    pub fn next_node(&self) -> (r: Option<LogicalBlockNumber>)
        ensures
            r == match self {
                Entry::Internal(i) => Some(i.next_node),
                Entry::Leaf(_) => None::<LogicalBlockNumber>,
            },
    {
        match self {
            Entry::Internal(i) => Some(i.next_node),
            Entry::Leaf(_) => None,
        }
    }

    /// The entry as a leaf entry.
    pub fn get_leaf(&self) -> (r: Option<Leaf>)
        ensures
            r == match self {
                Entry::Leaf(l) => Some(*l),
                Entry::Internal(_) => None::<Leaf>,
            },
    {
        match self {
            Entry::Leaf(l) => Some(*l),
            Entry::Internal(_) => None,
        }
    }

    /// The entry as an index entry.
    pub fn get_internal(&self) -> (r: Option<Internal>)
        ensures
            r == match self {
                Entry::Internal(i) => Some(*i),
                Entry::Leaf(_) => None::<Internal>,
            },
    {
        match self {
            Entry::Internal(i) => Some(*i),
            Entry::Leaf(_) => None,
        }
    }
}

/// An extent tree node: the root in the inode, or a node in a block.
pub struct ExtentNode {
    pub depth: u16,
    pub max_entries: u16,
    pub entries: Vec<Entry>,
}

impl ExtentNode {
    /// The entries.
    pub open spec fn view_entries(&self) -> Seq<Entry> {
        self.entries@
    }

    /// The node holds no more entries than it has room for.
    pub open spec fn wf(&self) -> bool {
        self.entries@.len() <= self.max_entries
    }

    /// The number of entries.
    pub fn get_entries_cnt(&self) -> (r: u16)
        requires
            self.wf(),
        ensures
            r == self.entries@.len(),
    {
        self.entries.len() as u16
    }

    /// The room for entries.
    pub fn get_max_entries_cnt(&self) -> (r: u16)
        ensures
            r == self.max_entries,
    {
        self.max_entries
    }

    /// The depth of the node: 0 for leaves.
    pub fn get_depth(&self) -> (r: u16)
        ensures
            r == self.depth,
    {
        self.depth
    }

    /// Whether no entry can be added.
    pub fn is_full(&self) -> (r: bool)
        ensures
            r == (self.entries@.len() >= self.max_entries),
    {
        self.entries.len() >= self.max_entries as usize
    }

    /// The entry at `i`.
    pub fn get(&self, i: usize) -> (r: Option<Entry>)
        ensures
            r == if i < self.entries@.len() {
                Some(self.entries@[i as int])
            } else {
                None::<Entry>
            },
    {
        if i < self.entries.len() {
            Some(self.entries[i])
        } else {
            None
        }
    }

    /// Keeps the first `cnt` entries.
    pub fn set_entries_cnt(&mut self, cnt: u16)
        requires
            cnt <= old(self).entries@.len(),
        ensures
            final(self).entries@ == old(self).entries@.subrange(0, cnt as int),
            final(self).depth == old(self).depth,
            final(self).max_entries == old(self).max_entries,
    {
        self.entries.truncate(cnt as usize);
    }

    /// Sets the depth.
    pub fn set_depth(&mut self, depth: u16)
        ensures
            final(self).entries@ == old(self).entries@,
            final(self).depth == depth,
            final(self).max_entries == old(self).max_entries,
    {
        self.depth = depth;
    }

    /// Inserts `e` at `pos`, or gives it back when the node is full.
    pub fn insert_at(&mut self, e: Entry, pos: usize) -> (r: Result<(), Entry>)
        requires
            pos <= old(self).entries@.len(),
        ensures
            final(self).depth == old(self).depth,
            final(self).max_entries == old(self).max_entries,
            if old(self).entries@.len() >= old(self).max_entries {
                r == Err::<(), Entry>(e) && final(self).entries@ == old(self).entries@
            } else {
                r == Ok::<(), Entry>(()) && final(self).entries@ == old(self).entries@.insert(
                    pos as int,
                    e,
                )
            },
    {
        if self.entries.len() >= self.max_entries as usize {
            return Err(e);
        }
        self.entries.insert(pos, e);
        Ok(())
    }

    /// Replaces the entry at `pos`, or gives `e` back when there is none.
    pub fn replace_at(&mut self, e: Entry, pos: usize) -> (r: Result<(), Entry>)
        ensures
            final(self).depth == old(self).depth,
            final(self).max_entries == old(self).max_entries,
            if pos < old(self).entries@.len() {
                r == Ok::<(), Entry>(()) && final(self).entries@ == old(self).entries@.update(
                    pos as int,
                    e,
                )
            } else {
                r == Err::<(), Entry>(e) && final(self).entries@ == old(self).entries@
            },
    {
        if pos >= self.entries.len() {
            return Err(e);
        }
        self.entries.set(pos, e);
        Ok(())
    }

    /// The last entry whose first block is at most `fba`, or the first entry
    /// when all start past `fba`; `None` for a node without entries.
    pub fn binary_search(&self, fba: FileBlockNumber) -> (r: Option<usize>)
        ensures
            r == search_spec(self.entries@, fba.0),
    {
        let n = self.entries.len();
        if n == 0 {
            return None;
        }
        let mut best: usize = 0;
        let mut i: usize = 1;
        while i < n
            invariant
                1 <= i <= n,
                n == self.entries@.len(),
                best < i,
                best == last_le(self.entries@, fba.0, i as int),
            decreases n - i,
        {
            if self.entries[i].first_block() <= fba.0 {
                best = i;
            }
            i = i + 1;
        }
        Some(best)
    }
}

/// The last index below `n` whose entry starts at or before `fba`, or 0.
pub open spec fn last_le(s: Seq<Entry>, fba: u32, n: int) -> usize
    decreases n,
{
    if n <= 1 {
        0
    } else if s[n - 1].first_block_spec() <= fba {
        (n - 1) as usize
    } else {
        last_le(s, fba, n - 1)
    }
}

/// `last_le` names an index below `n`.
pub proof fn lemma_last_le_bound(s: Seq<Entry>, fba: u32, n: int)
    requires
        n >= 1,
    ensures
        last_le(s, fba, n) < n,
    decreases n,
{
    if n > 1 && !(s[n - 1].first_block_spec() <= fba) {
        lemma_last_le_bound(s, fba, n - 1);
    }
}

/// What `binary_search` finds for `fba` among the entries `s`.
pub open spec fn search_spec(s: Seq<Entry>, fba: u32) -> Option<usize> {
    if s.len() == 0 {
        None
    } else {
        Some(last_le(s, fba, s.len() as int))
    }
}

/// What `search_spec` finds is an index of `s`.
pub proof fn lemma_search_bound(s: Seq<Entry>, fba: u32)
    ensures
        search_spec(s, fba) matches Some(i) ==> i < s.len(),
{
    if s.len() > 0 {
        lemma_last_le_bound(s, fba, s.len() as int);
    }
}

/// The size of an extent header and of an extent record.
pub const RECORD: usize = 12;

/// The entry a 12-byte record at `o` holds, in a node of depth `depth`.
pub open spec fn entry_at(b: Seq<u8>, o: int, depth: nat) -> Entry {
    if depth == 0 {
        let raw_len = le16(b, o + 4);
        Entry::Leaf(
            Leaf {
                block: le32(b, o) as u32,
                start: LogicalBlockNumber((le32(b, o + 8) + le16(b, o + 6) * 0x1_0000_0000) as u64),
                len: if raw_len > 0x8000 {
                    (raw_len - 0x8000) as u16
                } else {
                    raw_len as u16
                },
                is_init: raw_len <= 0x8000,
            },
        )
    } else {
        Entry::Internal(
            Internal {
                block: le32(b, o) as u32,
                next_node: LogicalBlockNumber((le32(b, o + 4) + le16(b, o + 8) * 0x1_0000_0000) as u64),
            },
        )
    }
}

/// Whether the bytes `b` hold a well-formed extent node.
pub open spec fn node_bytes_ok(b: Seq<u8>) -> bool {
    &&& b.len() >= RECORD
    &&& le16(b, 0) == EXTENT_MAGIC
    &&& le16(b, 2) <= le16(b, 4)
    &&& RECORD + RECORD * le16(b, 4) <= b.len()
}

/// The node the bytes `b` hold.
pub open spec fn node_of(b: Seq<u8>) -> (Seq<Entry>, nat, nat) {
    (
        Seq::new(le16(b, 2), |i: int| entry_at(b, RECORD + RECORD * i, le16(b, 6))),
        le16(b, 4),
        le16(b, 6),
    )
}

/// Whether `e` can be written in a record: starts below 2^48 and lengths
/// that the record's length field can tell apart.
pub open spec fn entry_storable(e: Entry) -> bool {
    match e {
        Entry::Leaf(l) => l.start.0 < 0x1_0000_0000_0000 && (if l.is_init {
            l.len <= 0x8000
        } else {
            1 <= l.len < 0x8000
        }),
        Entry::Internal(i) => i.next_node.0 < 0x1_0000_0000_0000,
    }
}

/// Reads the record at `o` of a node of depth `depth`.
fn read_entry(b: &Vec<u8>, o: usize, depth: u16) -> (r: Entry)
    requires
        o + RECORD <= b@.len(),
    ensures
        r == entry_at(b@, o as int, depth as nat),
{
    let _n: usize = b.len();
    let block = read_u32(b, o);
    if depth == 0 {
        let raw_len = read_u16(b, o + 4);
        let hi = read_u16(b, o + 6);
        let lo = read_u32(b, o + 8);
        let (len, is_init) = if raw_len > 0x8000 {
            (raw_len - 0x8000, false)
        } else {
            (raw_len, true)
        };
        Entry::Leaf(
            Leaf {
                block,
                start: LogicalBlockNumber(lo as u64 + (hi as u64) * 0x1_0000_0000),
                len,
                is_init,
            },
        )
    } else {
        let lo = read_u32(b, o + 4);
        let hi = read_u16(b, o + 8);
        Entry::Internal(
            Internal { block, next_node: LogicalBlockNumber(lo as u64 + (hi as u64) * 0x1_0000_0000) },
        )
    }
}

/// Writes `e` into the record at `o`.
fn write_entry(b: &mut Vec<u8>, o: usize, e: Entry)
    requires
        o + RECORD <= old(b)@.len(),
        entry_storable(e),
    ensures
        same_outside(old(b)@, final(b)@, o as int, RECORD as int),
        forall|d: nat|
            (d == 0) == (e is Leaf) ==> #[trigger] entry_at(final(b)@, o as int, d) == e,
{
    let _n: usize = b.len();
    match e {
        Entry::Leaf(l) => {
            write_u32(b, o, l.block);
            let raw_len: u16 = if l.is_init {
                l.len
            } else {
                l.len + 0x8000
            };
            write_u16(b, o + 4, raw_len);
            write_u16(b, o + 6, (l.start.0 / 0x1_0000_0000) as u16);
            write_u32(b, o + 8, (l.start.0 % 0x1_0000_0000) as u32);
        },
        Entry::Internal(i) => {
            write_u32(b, o, i.block);
            write_u32(b, o + 4, (i.next_node.0 % 0x1_0000_0000) as u32);
            write_u16(b, o + 8, (i.next_node.0 / 0x1_0000_0000) as u16);
            write_u16(b, o + 10, 0);
        },
    }
}

impl ExtentNode {
    /// Reads a node from its bytes.
    pub fn from_bytes(b: &Vec<u8>) -> (r: Result<ExtentNode, FsError>)
        ensures
            match r {
                Ok(n) => node_bytes_ok(b@) && (n.entries@, n.max_entries as nat, n.depth as nat)
                    == node_of(b@),
                Err(e) => !node_bytes_ok(b@) && e == FsError::InvalidFs,
            },
    {
        if b.len() < RECORD {
            return Err(FsError::InvalidFs);
        }
        let magic = read_u16(b, 0);
        let cnt = read_u16(b, 2);
        let max = read_u16(b, 4);
        let depth = read_u16(b, 6);
        if magic != EXTENT_MAGIC || cnt > max || (b.len() - RECORD) / RECORD < max as usize {
            return Err(FsError::InvalidFs);
        }
        let mut entries: Vec<Entry> = Vec::new();
        let mut i: usize = 0;
        while i < cnt as usize
            invariant
                i <= cnt,
                cnt <= max,
                RECORD + RECORD * max <= b@.len(),
                cnt == le16(b@, 2),
                depth == le16(b@, 6),
                entries@ == Seq::new(i as nat, |k: int| entry_at(b@, RECORD + RECORD * k, depth as nat)),
            decreases cnt - i,
        {
            let e = read_entry(b, RECORD + RECORD * i, depth);
            entries.push(e);
            proof {
                assert(entries@ =~= Seq::new((i + 1) as nat, |k: int| entry_at(b@, RECORD + RECORD * k, depth as nat)));
            }
            i = i + 1;
        }
        proof {
            assert(entries@ =~= node_of(b@).0);
        }
        Ok(ExtentNode { depth, max_entries: max, entries })
    }

    /// Whether every entry can be written and its kind agrees with the depth.
    pub open spec fn storable(&self) -> bool {
        &&& self.wf()
        &&& forall|i: int|
            0 <= i < self.entries@.len() ==> entry_storable(#[trigger] self.entries@[i]) && ((
            self.depth == 0) == (self.entries@[i] is Leaf))
    }

    /// Writes the node's header and entries at the front of `b`; the rest of
    /// `b` is kept.
    pub fn write_to(&self, b: &mut Vec<u8>)
        requires
            self.storable(),
            RECORD + RECORD * self.max_entries <= old(b)@.len(),
        ensures
            final(b)@.len() == old(b)@.len(),
            node_bytes_ok(final(b)@),
            node_of(final(b)@) == (self.entries@, self.max_entries as nat, self.depth as nat),
            forall|i: int|
                RECORD + RECORD * self.entries@.len() <= i < final(b)@.len() ==> #[trigger] final(b)@[i]
                    == old(b)@[i],
    {
        let ghost b0 = b@;
        let n = self.entries.len();
        write_u16(b, 0, EXTENT_MAGIC);
        write_u16(b, 2, n as u16);
        write_u16(b, 4, self.max_entries);
        write_u16(b, 6, self.depth);
        let mut i: usize = 0;
        while i < n
            invariant
                i <= n,
                n == self.entries@.len(),
                self.storable(),
                RECORD + RECORD * self.max_entries <= b@.len(),
                b@.len() == b0.len(),
                le16(b@, 0) == EXTENT_MAGIC,
                le16(b@, 2) == n,
                le16(b@, 4) == self.max_entries,
                le16(b@, 6) == self.depth,
                forall|k: int| 0 <= k < i ==> #[trigger] entry_at(b@, RECORD + RECORD * k, self.depth as nat) == self.entries@[k],
                forall|k: int| RECORD + RECORD * i <= k < b@.len() ==> #[trigger] b@[k] == b0[k],
            decreases n - i,
        {
            let ghost before = b@;
            write_entry(b, RECORD + RECORD * i, self.entries[i]);
            proof {
                assert forall|k: int| 0 <= k < i implies #[trigger] entry_at(b@, RECORD + RECORD * k, self.depth as nat) == self.entries@[k] by {
                    assert(entry_at(before, RECORD + RECORD * k, self.depth as nat) == self.entries@[k]);
                    lemma_entry_at_frame(before, b@, RECORD + RECORD * k, self.depth as nat);
                }
                assert(entry_at(b@, RECORD + RECORD * i, self.depth as nat) == self.entries@[i as int]);
                assert(le16(b@, 0) == le16(before, 0));
                assert(le16(b@, 2) == le16(before, 2));
                assert(le16(b@, 4) == le16(before, 4));
                assert(le16(b@, 6) == le16(before, 6));
            }
            i = i + 1;
        }
        proof {
            assert(node_of(b@).0 =~= self.entries@);
        }
    }
}

proof fn lemma_entry_at_frame(b: Seq<u8>, c: Seq<u8>, o: int, d: nat)
    requires
        0 <= o,
        o + RECORD <= b.len(),
        b.len() == c.len(),
        forall|i: int| o <= i < o + RECORD ==> #[trigger] c[i] == b[i],
    ensures
        entry_at(c, o, d) == entry_at(b, o, d),
{
    assert(c[o] == b[o]);
    assert(c[o + 1] == b[o + 1]);
    assert(c[o + 2] == b[o + 2]);
    assert(c[o + 3] == b[o + 3]);
    assert(c[o + 4] == b[o + 4]);
    assert(c[o + 5] == b[o + 5]);
    assert(c[o + 6] == b[o + 6]);
    assert(c[o + 7] == b[o + 7]);
    assert(c[o + 8] == b[o + 8]);
    assert(c[o + 9] == b[o + 9]);
    assert(c[o + 10] == b[o + 10]);
    assert(c[o + 11] == b[o + 11]);
}

} // verus!
