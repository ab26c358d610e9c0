//! Transactions: the events that a change of the file system records, and
//! the dirty blocks that it collects.
use vstd::prelude::*;
use crate::blockmap::BlockMap;
use crate::bytes::zeroed;
use crate::extent::{ExtentNode, RECORD, node_of, node_bytes_ok};
use crate::types::{BlockGroupId, FileType, InodeNumber, LogicalBlockNumber};

verus! {

/// The 60 bytes of an inode's block map (`i_block`).
#[derive(Debug)]
pub struct RawInodeAddressingMode {
    pub bytes: Vec<u8>,
}

/// An inode was taken in a group.
#[derive(Clone, Copy, Debug)]
pub struct InodeAllocationOnBg {
    pub bgid: BlockGroupId,
    pub bitmap_lba: LogicalBlockNumber,
    pub ofs: usize,
    pub de: FileType,
}

/// An inode was given back in a group.
#[derive(Clone, Copy, Debug)]
pub struct InodeDeallocationOnBg {
    pub ino: InodeNumber,
    pub bgid: BlockGroupId,
    pub bitmap_lba: LogicalBlockNumber,
    pub ofs: usize,
    pub de: FileType,
}

/// Blocks were taken in a group for an inode.
#[derive(Clone, Copy, Debug)]
pub struct BlockAllocationOnBg {
    pub ino: InodeNumber,
    pub bgid: BlockGroupId,
    pub bitmap_lba: LogicalBlockNumber,
    pub ofs: usize,
    pub count: usize,
}

/// Blocks of an inode were given back in a group.
#[derive(Clone, Copy, Debug)]
pub struct BlockDeallocationOnBg {
    pub ino: InodeNumber,
    pub bgid: BlockGroupId,
    pub bitmap_lba: LogicalBlockNumber,
    pub ofs: usize,
    pub count: usize,
}

/// A link to an inode was added.
#[derive(Clone, Copy, Debug)]
pub struct InodeAddLink {
    pub ino: InodeNumber,
}

/// A link to an inode was removed.
#[derive(Clone, Copy, Debug)]
pub struct InodeRmLink {
    pub ino: InodeNumber,
}

/// The orphan list link of `pred` now points at `succ`.
#[derive(Clone, Copy, Debug)]
pub struct InodeUpdateOrphanLink {
    pub pred: InodeNumber,
    pub succ: InodeNumber,
}

/// The size and the block map of an inode changed.
#[derive(Debug)]
pub struct InodeSetSize {
    pub ino: InodeNumber,
    pub size: u64,
    pub address: RawInodeAddressingMode,
}

/// A change recorded by a transaction.
#[derive(Debug)]
pub enum Event {
    BlockAllocationOnBg(BlockAllocationOnBg),
    BlockDeallocationOnBg(BlockDeallocationOnBg),
    InodeAllocationOnBg(InodeAllocationOnBg),
    InodeDeallocationOnBg(InodeDeallocationOnBg),
    InodeSetSize(InodeSetSize),
    InodeAddLink(InodeAddLink),
    InodeRmLink(InodeRmLink),
    InodeUpdateOrphanLink(InodeUpdateOrphanLink),
    FreeInodesCountDecOnSb,
    FreeInodesCountIncOnSb,
}

/// The events of a transaction, until they are applied.
pub struct Events {
    pub inner: Option<Vec<Event>>,
}

/// Work to do once a transaction is on disk.
#[derive(Clone, Copy, Debug)]
pub enum PostludeOps {
    BlockDeallocation { bgid: BlockGroupId, ofs: usize, count: usize },
    InodeDeallocation(InodeNumber),
}

/// The blocks a transaction writes and the work that follows it.
pub struct Collector {
    pub blocks: BlockMap,
    pub postludes: Vec<PostludeOps>,
    pub sb_dirty: bool,
    /// The new extent tree roots of inodes, in the order they were changed.
    pub roots: Vec<(InodeNumber, RawInodeAddressingMode)>,
}

/// A change of the file system in progress.
pub struct Transaction {
    pub events: Events,
    pub collector: Collector,
}

impl Events {
    /// The recorded events.
    pub open spec fn seq(&self) -> Seq<Event> {
        self.inner->0@
    }

    /// Records `e`.
    pub fn push(&mut self, e: Event)
        requires
            old(self).inner is Some,
        ensures
            final(self).inner is Some,
            final(self).seq() == old(self).seq().push(e),
    {
        match &mut self.inner {
            Some(v) => v.push(e),
            None => {},
        }
    }
}

impl Collector {
    /// A collector with nothing collected.
    pub fn new() -> (r: Collector)
        ensures
            r.blocks.wf(),
            r.blocks@ == Map::<u64, Seq<u8>>::empty(),
            r.postludes@ == Seq::<PostludeOps>::empty(),
            !r.sb_dirty,
            r.roots@.len() == 0,
    {
        Collector { blocks: BlockMap::new(), postludes: Vec::new(), sb_dirty: false, roots: Vec::new() }
    }

    /// Marks the superblock as to be written.
    pub fn set_sb_dirty(&mut self)
        ensures
            final(self).sb_dirty,
            final(self).blocks == old(self).blocks,
            final(self).postludes == old(self).postludes,
            final(self).roots == old(self).roots,
    {
        self.sb_dirty = true;
    }
}

impl Transaction {
    /// A transaction that has recorded nothing.
    pub fn new() -> (r: Transaction)
        ensures
            r.wf(),
            r.events.seq() == Seq::<Event>::empty(),
            r.collector.blocks@ == Map::<u64, Seq<u8>>::empty(),
            r.collector.postludes@ == Seq::<PostludeOps>::empty(),
            !r.collector.sb_dirty,
    {
        Transaction { events: Events { inner: Some(Vec::new()) }, collector: Collector::new() }
    }

    /// The transaction can still record events.
    pub open spec fn wf(&self) -> bool {
        &&& self.events.inner is Some
        &&& self.collector.blocks.wf()
    }

    /// The transaction `self` is `old` with the event `e` recorded.
    pub open spec fn recorded(&self, old: &Transaction, e: Event) -> bool {
        &&& self.wf()
        &&& self.events.seq() == old.events.seq().push(e)
        &&& self.collector == old.collector
    }

    /// Records that an inode was taken in a group.
    pub fn inode_allocation_on_bg(
        &mut self,
        bgid: BlockGroupId,
        bitmap_lba: LogicalBlockNumber,
        ofs: usize,
        de: FileType,
    )
        requires
            old(self).wf(),
        ensures
            final(self).recorded(
                old(self),
                Event::InodeAllocationOnBg(InodeAllocationOnBg { bgid, bitmap_lba, ofs, de }),
            ),
    {
        self.events.push(Event::InodeAllocationOnBg(InodeAllocationOnBg { bgid, bitmap_lba, ofs, de }));
    }

    /// Records that an inode was given back in a group.
    pub fn inode_deallocation_on_bg(
        &mut self,
        ino: InodeNumber,
        bgid: BlockGroupId,
        bitmap_lba: LogicalBlockNumber,
        ofs: usize,
        de: FileType,
    )
        requires
            old(self).wf(),
        ensures
            final(self).recorded(
                old(self),
                Event::InodeDeallocationOnBg(InodeDeallocationOnBg { ino, bgid, bitmap_lba, ofs, de }),
            ),
    {
        self.events.push(
            Event::InodeDeallocationOnBg(InodeDeallocationOnBg { ino, bgid, bitmap_lba, ofs, de }),
        );
    }

    /// Records that blocks were taken in a group.
    pub fn block_allocation_on_bg(
        &mut self,
        ino: InodeNumber,
        bgid: BlockGroupId,
        bitmap_lba: LogicalBlockNumber,
        ofs: usize,
        count: usize,
    )
        requires
            old(self).wf(),
        ensures
            final(self).recorded(
                old(self),
                Event::BlockAllocationOnBg(BlockAllocationOnBg { ino, bgid, bitmap_lba, ofs, count }),
            ),
    {
        self.events.push(
            Event::BlockAllocationOnBg(BlockAllocationOnBg { ino, bgid, bitmap_lba, ofs, count }),
        );
    }

    /// Records that blocks were given back in a group.
    pub fn block_deallocation_on_bg(
        &mut self,
        ino: InodeNumber,
        bgid: BlockGroupId,
        bitmap_lba: LogicalBlockNumber,
        ofs: usize,
        count: usize,
    )
        requires
            old(self).wf(),
        ensures
            final(self).recorded(
                old(self),
                Event::BlockDeallocationOnBg(BlockDeallocationOnBg { ino, bgid, bitmap_lba, ofs, count }),
            ),
    {
        self.events.push(
            Event::BlockDeallocationOnBg(BlockDeallocationOnBg { ino, bgid, bitmap_lba, ofs, count }),
        );
    }

    /// Records that the superblock counts one more free inode.
    pub fn free_inodes_count_inc_on_sb(&mut self)
        requires
            old(self).wf(),
        ensures
            final(self).recorded(old(self), Event::FreeInodesCountIncOnSb),
    {
        self.events.push(Event::FreeInodesCountIncOnSb);
    }

    /// Records that the superblock counts one less free inode.
    pub fn free_inodes_count_dec_on_sb(&mut self)
        requires
            old(self).wf(),
        ensures
            final(self).recorded(old(self), Event::FreeInodesCountDecOnSb),
    {
        self.events.push(Event::FreeInodesCountDecOnSb);
    }

    /// Records that a link to `ino` was added.
    pub fn inode_add_link(&mut self, ino: InodeNumber)
        requires
            old(self).wf(),
        ensures
            final(self).recorded(old(self), Event::InodeAddLink(InodeAddLink { ino })),
    {
        self.events.push(Event::InodeAddLink(InodeAddLink { ino }));
    }

    /// Records that a link to `ino` was removed.
    pub fn inode_rm_link(&mut self, ino: InodeNumber)
        requires
            old(self).wf(),
        ensures
            final(self).recorded(old(self), Event::InodeRmLink(InodeRmLink { ino })),
    {
        self.events.push(Event::InodeRmLink(InodeRmLink { ino }));
    }

    /// Records the new size and block map of `ino`.
    pub fn inode_set_size(&mut self, ino: InodeNumber, size: u64, address: RawInodeAddressingMode)
        requires
            old(self).wf(),
        ensures
            final(self).recorded(
                old(self),
                Event::InodeSetSize(InodeSetSize { ino, size, address }),
            ),
    {
        self.events.push(Event::InodeSetSize(InodeSetSize { ino, size, address }));
    }

    /// Writes the image `data` of block `lba` into the transaction.
    pub fn write_block(&mut self, lba: LogicalBlockNumber, data: Vec<u8>)
        requires
            old(self).wf(),
        ensures
            final(self).wf(),
            final(self).events == old(self).events,
            final(self).collector.blocks@ == old(self).collector.blocks@.insert(lba.0, data@),
            final(self).collector.postludes == old(self).collector.postludes,
            final(self).collector.sb_dirty == old(self).collector.sb_dirty,
            final(self).collector.roots == old(self).collector.roots,
    {
        self.collector.blocks.put(lba.0, data);
    }

    /// Writes the image of the extent node `node` of block `lba`: its header
    /// and its records.
    pub fn extent_update_node(&mut self, lba: LogicalBlockNumber, node: &ExtentNode)
        requires
            old(self).wf(),
            node.storable(),
        ensures
            final(self).wf(),
            final(self).events == old(self).events,
            final(self).collector.postludes == old(self).collector.postludes,
            final(self).collector.sb_dirty == old(self).collector.sb_dirty,
            final(self).collector.roots == old(self).collector.roots,
            final(self).collector.blocks@.dom() == old(self).collector.blocks@.dom().insert(lba.0),
            forall|k: u64| k != lba.0 ==> #[trigger] final(self).collector.blocks@[k] == old(self).collector.blocks@[k],
            node_bytes_ok(final(self).collector.blocks@[lba.0]),
            node_of(final(self).collector.blocks@[lba.0]) == (node.entries@, node.max_entries as nat, node.depth as nat),
    {
        let mut image = zeroed(RECORD + RECORD * node.max_entries as usize);
        node.write_to(&mut image);
        let ghost im = image@;
        self.collector.blocks.put(lba.0, image);
        proof {
            assert(self.collector.blocks@[lba.0] == im);
        }
    }

    /// Records the new extent tree root `root` of `ino`.
    pub fn inode_update_root(&mut self, ino: InodeNumber, root: &ExtentNode)
        requires
            old(self).wf(),
            root.storable(),
        ensures
            final(self).wf(),
            final(self).events == old(self).events,
            final(self).collector.blocks == old(self).collector.blocks,
            final(self).collector.postludes == old(self).collector.postludes,
            final(self).collector.sb_dirty == old(self).collector.sb_dirty,
            final(self).collector.roots@.len() == old(self).collector.roots@.len() + 1,
            forall|i: int| 0 <= i < old(self).collector.roots@.len() ==> #[trigger] final(self).collector.roots@[i] == old(self).collector.roots@[i],
            final(self).collector.roots@.last().0 == ino,
            node_of(final(self).collector.roots@.last().1.bytes@) == (root.entries@, root.max_entries as nat, root.depth as nat),
    {
        let mut image = zeroed(RECORD + RECORD * root.max_entries as usize);
        root.write_to(&mut image);
        self.collector.roots.push((ino, RawInodeAddressingMode { bytes: image }));
    }
}

} // verus!
