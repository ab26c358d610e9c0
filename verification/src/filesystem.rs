//! The file system: the device, the superblock, the block groups and the
//! allocators of blocks and inodes.
use vstd::prelude::*;
use crate::bitmap::bitmap_bit;
use crate::block_alloc::Allocator;
use crate::block_group::{BlockGroup, desc_len_ok, group_blocks, BLOCK_UNINIT, INODE_UNINIT};
use crate::buddy::{range, free_of};
use crate::bytes::{le16, read_u16, copy_range};
use crate::inode_alloc;
use crate::superblock::{SuperBlock, block_place, lemma_group_start, lemma_block_index_roundtrip};
use crate::block_alloc::on_chain;
use crate::transaction::{Collector, Transaction, Event, BlockAllocationOnBg, BlockDeallocationOnBg};
use crate::types::{BlockGroupId, FsError, InodeNumber, LogicalBlockNumber};

verus! {

/// A read's outcome with the bytes taken by their view.
pub open spec fn read_view(r: Result<Vec<u8>, FsError>) -> Result<Seq<u8>, FsError> {
    match r {
        Ok(v) => Ok(v@),
        Err(e) => Err(e),
    }
}

/// `r` is an outcome of reading block `lba` of `bs` bytes from the device
/// `conf`: an `IoError` when the block's byte offset does not fit a `usize`,
/// else an outcome of the device's read at that offset.
pub open spec fn block_read<C: Config>(conf: &C, lba: u64, bs: nat, r: Result<Seq<u8>, FsError>) -> bool {
    if lba * bs > usize::MAX {
        r == Err::<Seq<u8>, FsError>(FsError::IoError)
    } else {
        conf.reads_as(lba * bs, bs as int, r) && (r matches Ok(v) ==> v.len() == bs)
    }
}

/// The device a file system lives on. Users of the library implement it.
pub trait Config {
    /// Whether `r` is an outcome that reading `len` bytes at byte offset
    /// `ofs` of this device can have. A device may say which; by default any
    /// outcome can be. The library's contracts name by it which reads they
    /// made.
    open spec fn reads_as(&self, ofs: int, len: int, r: Result<Seq<u8>, FsError>) -> bool {
        true
    }

    /// Reads `len` bytes at byte offset `ofs`.
    fn read_bytes(&self, ofs: usize, len: usize) -> (r: Result<Vec<u8>, FsError>)
        ensures
            r matches Ok(v) ==> v@.len() == len,
            self.reads_as(ofs as int, len as int, read_view(r)),
    ;

    /// Writes `buf` at byte offset `ofs`.
    fn write_bytes(&self, ofs: usize, buf: &Vec<u8>) -> (r: Result<(), FsError>);

    /// Writes the buffers `bufs` one after another from byte offset `ofs`.
    fn write_vectored(&self, ofs: usize, bufs: &Vec<Vec<u8>>) -> (r: Result<(), FsError>);

    /// Writes each buffer of `bio` at its byte offset.
    fn write_bios(&self, bio: Vec<(usize, Vec<u8>)>) -> (r: Result<(), FsError>);

    /// The size of the device in bytes.
    fn total_size(&self) -> usize;
}

/// Reads and writes whole blocks of the device.
pub struct Manager<C: Config> {
    pub conf: C,
    pub block_size: usize,
    pub allocator: Allocator,
}

impl<C: Config> Manager<C> {
    /// Reads block `lba` from the device.
    pub fn get(&self, lba: LogicalBlockNumber) -> (r: Result<Vec<u8>, FsError>)
        requires
            self.block_size > 0,
        ensures
            r matches Ok(v) ==> v@.len() == self.block_size,
            lba.0 * self.block_size > usize::MAX ==> r == Err::<Vec<u8>, FsError>(FsError::IoError),
            lba.0 * self.block_size <= usize::MAX ==> self.conf.reads_as(
                lba.0 * self.block_size,
                self.block_size as int,
                read_view(r),
            ),
            block_read(&self.conf, lba.0, self.block_size as nat, read_view(r)),
    {
        let bs = self.block_size;
        if lba.0 > (usize::MAX / bs) as u64 {
            proof {
                let q = usize::MAX as int / bs as int;
                vstd::arithmetic::div_mod::lemma_fundamental_div_mod(usize::MAX as int, bs as int);
                vstd::arithmetic::div_mod::lemma_mod_pos_bound(usize::MAX as int, bs as int);
                assert(lba.0 as int * bs as int > usize::MAX) by (nonlinear_arith)
                    requires
                        usize::MAX as int == bs as int * q + (usize::MAX as int % bs as int),
                        (usize::MAX as int % bs as int) < (bs as int),
                        lba.0 as int >= q + 1,
                        bs as int > 0,
                ;
            }
            return Err(FsError::IoError);
        }
        proof {
            vstd::arithmetic::div_mod::lemma_fundamental_div_mod(usize::MAX as int, bs as int);
            vstd::arithmetic::mul::lemma_mul_inequality(lba.0 as int, (usize::MAX / bs) as int, bs as int);
            vstd::arithmetic::mul::lemma_mul_is_commutative(bs as int, (usize::MAX / bs) as int);
        }
        self.conf.read_bytes(lba.0 as usize * bs, bs)
    }

    /// Reads block `lba` as the transaction of `collector` sees it: its
    /// pending image if it has one, else the device's.
    pub fn get_mut(&self, lba: LogicalBlockNumber, collector: &Collector) -> (r: Result<
        Vec<u8>,
        FsError,
    >)
        requires
            self.block_size > 0,
            collector.blocks.wf(),
        ensures
            collector.blocks@.contains_key(lba.0) ==> (r matches Ok(v) && v@ == collector.blocks@[lba.0]),
            !collector.blocks@.contains_key(lba.0) ==> (r matches Ok(v) ==> v@.len() == self.block_size),
            !collector.blocks@.contains_key(lba.0) ==> block_read(&self.conf, lba.0, self.block_size as nat, read_view(r)),
    {
        match collector.blocks.get(lba.0) {
            Some(v) => Ok(v),
            None => self.get(lba),
        }
    }
}

/// A mounted file system.
pub struct FileSystem<C: Config> {
    pub sb: SuperBlock,
    pub block_groups: Vec<Option<BlockGroup>>,
    pub blocks: Manager<C>,
    pub inodes: inode_alloc::Allocator,
}

impl<C: Config> FileSystem<C> {
    /// The file system's invariant.
    pub open spec fn wf(&self) -> bool {
        &&& self.sb.wf()
        &&& self.sb.uuid@.len() == 16
        &&& self.block_groups@.len() == self.sb.bg_count
        &&& self.blocks.block_size == self.sb.block_size
        &&& self.blocks.allocator.wf()
        &&& self.blocks.allocator.groups() == self.sb.bg_count
        &&& self.inodes.wf()
        &&& self.inodes.groups() == self.sb.bg_count
        &&& forall|i: int|
            0 <= i < self.block_groups@.len() ==> #[trigger] self.group_ok(i)
        &&& forall|i: int|
            0 <= i < self.inodes.bitmap@.len() ==> (#[trigger] self.inodes.bitmap@[i] matches Some(b) ==> b@.len()
                == self.sb.block_size)
    }

    /// Group `i` is either not loaded and has no free chunk, or loaded with
    /// its id and size, and its free chunks lie inside it.
    pub open spec fn group_ok(&self, i: int) -> bool {
        match self.block_groups@[i] {
            Some(bg) => {
                &&& bg.bgid.0 == i
                &&& bg.blocks_count == self.sb.blocks_per_group
                &&& forall|x: int| #[trigger]
                    self.blocks.allocator.free(i).contains(x) ==> 0 <= x < self.sb.blocks_per_group
            },
            None => self.blocks.allocator.free(i) == Set::<int>::empty(),
        }
    }

    /// Whether group `i` is loaded.
    pub open spec fn loaded(&self, i: int) -> bool {
        self.block_groups@[i] is Some
    }

    /// Whether every group is loaded.
    #[verifier::opaque]
    pub open spec fn all_loaded(&self) -> bool {
        forall|i: int| 0 <= i < self.sb.bg_count ==> #[trigger] self.loaded(i)
    }

    /// Whether no group's allocator holds a free block.
    #[verifier::opaque]
    pub open spec fn no_free_block(&self) -> bool {
        forall|i: int| 0 <= i < self.sb.bg_count ==> #[trigger] self.blocks.allocator.free(i) == Set::<int>::empty()
    }

    /// Every group is loaded, one of them has a free block, and every block
    /// number a group can give fits the 48 bits of an extent entry.
    pub open spec fn alloc_ready(&self) -> bool {
        &&& self.all_loaded()
        &&& !self.no_free_block()
        &&& self.sb.blocks_count + self.sb.blocks_per_group <= 0x1_0000_0000_0000
    }

    /// The device.
    pub fn conf(&self) -> (r: &C)
        ensures
            r == &self.blocks.conf,
    {
        &self.blocks.conf
    }

    /// The device, to change.
    pub fn conf_mut(&mut self) -> (r: &mut C)
        ensures
            *r == old(self).blocks.conf,
            final(self).blocks.conf == *final(r),
            final(self).sb == old(self).sb,
            final(self).block_groups == old(self).block_groups,
            final(self).blocks.allocator == old(self).blocks.allocator,
            final(self).blocks.block_size == old(self).blocks.block_size,
            final(self).inodes == old(self).inodes,
    {
        &mut self.blocks.conf
    }

    /// Gives the device back.
    pub fn into_inner(self) -> (r: C)
        ensures
            r == self.blocks.conf,
    {
        self.blocks.conf
    }

    /// Opens a transaction that has recorded nothing.
    pub fn open_transaction(&self) -> (r: Transaction)
        ensures
            r.wf(),
            r.events.seq() == Seq::<crate::transaction::Event>::empty(),
            r.collector.blocks@ == Map::<u64, Seq<u8>>::empty(),
            r.collector.postludes@ == Seq::<crate::transaction::PostludeOps>::empty(),
            !r.collector.sb_dirty,
    {
        Transaction::new()
    }

    /// Gives the blocks whose bits are clear in `bitmap`, the block bitmap of
    /// group `bg`, to the buddy allocator of the group: the first
    /// `bg.blocks_count` bits, or all of them in a shorter bitmap.
    pub fn fill_buddy(&mut self, bg: BlockGroup, bitmap: &Vec<u8>)
        requires
            old(self).sb.wf(),
            old(self).blocks.block_size == old(self).sb.block_size,
            old(self).blocks.allocator.wf(),
            bg.bgid.0 < old(self).blocks.allocator.groups(),
            old(self).blocks.allocator.free(bg.bgid.0 as int) == Set::<int>::empty(),
            bitmap@.len() * 8 <= usize::MAX,
        ensures
            final(self).sb == old(self).sb,
            final(self).block_groups == old(self).block_groups,
            final(self).inodes == old(self).inodes,
            final(self).blocks.block_size == old(self).blocks.block_size,
            final(self).blocks.allocator.wf(),
            final(self).blocks.allocator.groups() == old(self).blocks.allocator.groups(),
            forall|i: int|
                0 <= i < old(self).blocks.allocator.groups() && i != bg.bgid.0 ==> #[trigger] final(self).blocks.allocator.buddies@[i] == old(self).blocks.allocator.buddies@[i],
            forall|x: int| #[trigger]
                final(self).blocks.allocator.free(bg.bgid.0 as int).contains(x) ==> 0 <= x
                    < bg.blocks_count,
            final(self).blocks.allocator.free(bg.bgid.0 as int) == clear_bits(
                bitmap@,
                if bg.blocks_count < bitmap@.len() * 8 {
                    bg.blocks_count as int
                } else {
                    (bitmap@.len() * 8) as int
                },
            ),
            final(self).blocks.conf == old(self).blocks.conf,
    {
        let limit: usize = if (bg.blocks_count as usize) < bitmap.len() * 8 {
            bg.blocks_count as usize
        } else {
            bitmap.len() * 8
        };
        let g = bg.bgid.0 as usize;
        let ghost b0 = self.blocks.allocator.buddies@;
        let mut i: usize = 0;
        proof {
            assert(clear_bits(bitmap@, 0) =~= Set::<int>::empty());
        }
        while i < limit
            invariant
                i <= limit,
                limit <= bitmap@.len() * 8,
                limit <= bg.blocks_count,
                self.blocks.allocator.wf(),
                self.blocks.allocator.groups() == b0.len(),
                g < b0.len(),
                g == bg.bgid.0,
                forall|x: int| #[trigger]
                    self.blocks.allocator.free(g as int).contains(x) ==> 0 <= x < i,
                self.blocks.allocator.free(g as int) == clear_bits(bitmap@, i as int),
                forall|j: int|
                    0 <= j < b0.len() && j != g ==> #[trigger] self.blocks.allocator.buddies@[j]
                        == b0[j],
                self.sb == old(self).sb,
                self.block_groups == old(self).block_groups,
                self.inodes == old(self).inodes,
                self.blocks.block_size == old(self).blocks.block_size,
                self.blocks.conf == old(self).blocks.conf,
            decreases limit - i,
        {
            let byte = bitmap[i / 8];
            if (byte >> ((i % 8) as u8)) & 1u8 == 1u8 {
                proof {
                    assert(bitmap_bit(bitmap@, i as nat));
                    assert(clear_bits(bitmap@, i + 1) =~= clear_bits(bitmap@, i as int));
                }
                i = i + 1;
            } else {
                let start = i;
                while i < limit && (bitmap[i / 8] >> ((i % 8) as u8)) & 1u8 != 1u8
                    invariant
                        start <= i <= limit,
                        start < limit,
                        limit <= bitmap@.len() * 8,
                        (bitmap@[(start / 8) as int] >> ((start % 8) as u8)) & 1u8 != 1u8,
                        forall|x: int| start <= x < i ==> !#[trigger] bitmap_bit(bitmap@, x as nat),
                    decreases limit - i,
                {
                    proof {
                        assert(!bitmap_bit(bitmap@, i as nat));
                    }
                    i = i + 1;
                }
                let ghost before = self.blocks.allocator.free(g as int);
                proof {
                    assert forall|x: int| start <= x < start + (i - start) implies !before.contains(x) by {}
                }
                self.blocks.allocator.push_chunk(start, i - start, BlockGroupId(g as u32));
                proof {
                    assert(self.blocks.allocator.free(g as int) =~= clear_bits(bitmap@, i as int)) by {
                        assert forall|x: int| #![auto] clear_bits(bitmap@, i as int).contains(x) implies
                            before.union(range(start as int, start + (i - start))).contains(x) by {
                            if x < start {
                                assert(clear_bits(bitmap@, start as int).contains(x));
                            }
                        }
                    }
                }
            }
        }
    }

    /// Gives the free blocks that the block bitmap of group `bg` shows to the
    /// buddy allocator of the group: reads block `bg.block_bitmap_lba` and
    /// hands it to `fill_buddy`.
    pub fn build_buddy(&mut self, bg: BlockGroup) -> (r: Result<(), FsError>)
        requires
            old(self).sb.wf(),
            old(self).blocks.block_size == old(self).sb.block_size,
            old(self).blocks.allocator.wf(),
            bg.bgid.0 < old(self).blocks.allocator.groups(),
            old(self).blocks.allocator.free(bg.bgid.0 as int) == Set::<int>::empty(),
        ensures
            final(self).sb == old(self).sb,
            final(self).block_groups == old(self).block_groups,
            final(self).inodes == old(self).inodes,
            final(self).blocks.block_size == old(self).blocks.block_size,
            final(self).blocks.allocator.wf(),
            final(self).blocks.allocator.groups() == old(self).blocks.allocator.groups(),
            forall|i: int|
                0 <= i < old(self).blocks.allocator.groups() && i != bg.bgid.0 ==> #[trigger] final(self).blocks.allocator.buddies@[i] == old(self).blocks.allocator.buddies@[i],
            forall|x: int| #[trigger]
                final(self).blocks.allocator.free(bg.bgid.0 as int).contains(x) ==> 0 <= x
                    < bg.blocks_count,
            r is Err ==> final(self).blocks.allocator == old(self).blocks.allocator,
            bg.block_bitmap_lba.0 * old(self).blocks.block_size > usize::MAX ==> r == Err::<(), FsError>(FsError::IoError),
            r is Ok ==> exists|b: Seq<u8>|
                b.len() == old(self).blocks.block_size && #[trigger] final(self).blocks.allocator.free(bg.bgid.0 as int)
                    == clear_bits(b, if bg.blocks_count < b.len() * 8 { bg.blocks_count as int } else { (b.len() * 8) as int }),
            r is Ok ==> exists|b: Seq<u8>|
                #[trigger] block_read(&old(self).blocks.conf, bg.block_bitmap_lba.0, old(self).blocks.block_size as nat, Ok(b))
                    && final(self).blocks.allocator.free(bg.bgid.0 as int) == clear_bits(
                    b,
                    if bg.blocks_count < b.len() * 8 {
                        bg.blocks_count as int
                    } else {
                        (b.len() * 8) as int
                    },
                ),
            r matches Err(e) ==> block_read(&old(self).blocks.conf, bg.block_bitmap_lba.0, old(self).blocks.block_size as nat, Err(e)),
            final(self).blocks.conf == old(self).blocks.conf,
    {
        let bitmap = match self.blocks.get(bg.block_bitmap_lba) {
            Ok(b) => b,
            Err(e) => return Err(e),
        };
        self.fill_buddy(bg, &bitmap);
        proof {
            assert(block_read(&self.blocks.conf, bg.block_bitmap_lba.0, self.blocks.block_size as nat, Ok::<Seq<u8>, FsError>(bitmap@)));
        }
        Ok(())
    }

    /// The block group `bgid`, read from its descriptor on first use. The
    /// buddy allocator of the group is filled from its block bitmap then.
    ///
    /// A descriptor whose flags mark its bitmaps uninitialized is reported as
    /// an invalid file system.
    pub fn get_block_group(&mut self, bgid: BlockGroupId) -> (r: Result<BlockGroup, FsError>)
        requires
            old(self).wf(),
            bgid.0 < old(self).sb.bg_count,
        ensures
            final(self).wf(),
            final(self).sb == old(self).sb,
            final(self).inodes == old(self).inodes,
            final(self).blocks.conf == old(self).blocks.conf,
            forall|i: int|
                0 <= i < old(self).sb.bg_count && old(self).loaded(i) ==> #[trigger] final(self).block_groups@[i] == old(self).block_groups@[i] && final(self).blocks.allocator.buddies@[i] == old(self).blocks.allocator.buddies@[i],
            forall|i: int|
                0 <= i < old(self).sb.bg_count && i != bgid.0 ==> #[trigger] final(self).block_groups@[i] == old(self).block_groups@[i] && final(self).blocks.allocator.buddies@[i] == old(self).blocks.allocator.buddies@[i],
            old(self).loaded(bgid.0 as int) ==> r == Ok::<BlockGroup, FsError>(
                old(self).block_groups@[bgid.0 as int]->0,
            ),
            r matches Ok(bg) ==> final(self).block_groups@[bgid.0 as int] == Some(bg),
            !old(self).loaded(bgid.0 as int) && (old(self).sb.first_data_block + 1 + (bgid.0 as int
                * old(self).sb.block_desc_size as int) / (old(self).sb.block_size as int)) * old(self).sb.block_size
                > usize::MAX ==> r == Err::<BlockGroup, FsError>(FsError::IoError),
            !old(self).loaded(bgid.0 as int) ==> (r matches Ok(bg) ==> {
                &&& exists|blk: Seq<u8>|
                    #[trigger] block_read(&old(self).blocks.conf, desc_block_of(old(self).sb, bgid), old(self).sb.block_size as nat, Ok(blk))
                        && group_parsed(blk, bgid, old(self).sb, bg)
                &&& exists|bm: Seq<u8>|
                    #[trigger] block_read(&old(self).blocks.conf, bg.block_bitmap_lba.0, old(self).sb.block_size as nat, Ok(bm))
                        && final(self).blocks.allocator.free(bgid.0 as int) == clear_bits(
                        bm,
                        if bg.blocks_count < bm.len() * 8 {
                            bg.blocks_count as int
                        } else {
                            (bm.len() * 8) as int
                        },
                    )
                &&& exists|blk: Seq<u8>| #[trigger]
                    group_parsed(blk, bgid, old(self).sb, bg)
                &&& exists|bm: Seq<u8>|
                    bm.len() == old(self).sb.block_size && #[trigger] final(self).blocks.allocator.free(bgid.0 as int)
                        == clear_bits(bm, if bg.blocks_count < bm.len() * 8 { bg.blocks_count as int } else { (bm.len() * 8) as int })
            }),
    {
        let g = bgid.0 as usize;
        match self.block_groups[g] {
            Some(bg) => {
                return Ok(bg);
            },
            None => {},
        }
        let (lba, index) = bgid.into_lba_index(&self.sb);
        let blk = match self.blocks.get(lba) {
            Ok(b) => b,
            Err(e) => return Err(e),
        };
        let bg = match parse_group_desc(&blk, index, bgid, &self.sb) {
            Ok(bg) => bg,
            Err(e) => return Err(e),
        };
        proof {
            assert(index as int == desc_index(self.sb, bgid));
            assert(group_parsed(blk@, bgid, self.sb, bg));
            assert(lba.0 == desc_block_of(self.sb, bgid));
            assert(block_read(&self.blocks.conf, desc_block_of(self.sb, bgid), self.sb.block_size as nat, Ok::<Seq<u8>, FsError>(blk@)));
        }
        proof {
            assert(old(self).group_ok(g as int));
        }
        self.block_groups.set(g, Some(bg));
        let ghost mid = self.blocks.allocator.buddies@;
        match self.build_buddy(bg) {
            Ok(()) => {},
            Err(e) => {
                proof {
                    assert forall|i: int| 0 <= i < self.block_groups@.len() implies #[trigger] self.group_ok(i) by {
                        if i != g {
                            assert(old(self).group_ok(i));
                        }
                    }
                }
                return Err(e);
            },
        }
        proof {
            assert forall|i: int| 0 <= i < self.block_groups@.len() implies #[trigger] self.group_ok(i) by {
                if i != g {
                    assert(old(self).group_ok(i));
                    assert(self.blocks.allocator.buddies@[i] == old(self).blocks.allocator.buddies@[i]);
                    assert(self.block_groups@[i] == old(self).block_groups@[i]);
                    assert(self.blocks.allocator.free(i) == old(self).blocks.allocator.free(i));
                } else {
                    assert(self.block_groups@[i] == Some(bg));
                    assert(bg.bgid.0 == i);
                    assert(bg.blocks_count == self.sb.blocks_per_group);
                    assert forall|x: int| #[trigger]
                        self.blocks.allocator.free(i).contains(x) implies 0 <= x
                        < self.sb.blocks_per_group by {}
                }
            }
        }
        Ok(bg)
    }
}

/// The block that holds the descriptor of group `bgid`.
pub open spec fn desc_block_of(sb: SuperBlock, bgid: BlockGroupId) -> u64 {
    (sb.first_data_block + 1 + (bgid.0 as int * sb.block_desc_size as int) / (sb.block_size as int)) as u64
}

/// The offset in its block of the descriptor of group `bgid`.
pub open spec fn desc_index(sb: SuperBlock, bgid: BlockGroupId) -> int {
    (bgid.0 as int * sb.block_desc_size as int) % sb.block_size as int
}

/// The descriptor at byte `index` of block `blk` can be read: it lies in
/// the block, has a size this library reads, and its flags ask for no
/// uninitialized bitmap.
pub open spec fn desc_readable(blk: Seq<u8>, index: int, sb: SuperBlock) -> bool {
    let ds = sb.block_desc_size as int;
    &&& 0 <= index
    &&& index + ds <= blk.len()
    &&& (ds == 32 || ds >= 64)
    &&& le16(blk.subrange(index, index + ds), 0x12) as int % 4 == 0
}

/// `bg` is what `parse_group_desc` gives for the descriptor of `bgid` in
/// the block `blk` of `sb.block_size` bytes that holds it.
pub open spec fn group_parsed(blk: Seq<u8>, bgid: BlockGroupId, sb: SuperBlock, bg: BlockGroup) -> bool {
    let index = desc_index(sb, bgid);
    &&& blk.len() == sb.block_size
    &&& desc_readable(blk, index, sb)
    &&& bg.matches_desc(blk.subrange(index, index + sb.block_desc_size), bgid, &sb)
}

/// Reads the descriptor of group `bgid` at byte `index` of its block `blk`.
/// A descriptor that cannot be read (see `desc_readable`) is refused as an
/// invalid file system.
pub fn parse_group_desc(blk: &Vec<u8>, index: usize, bgid: BlockGroupId, sb: &SuperBlock) -> (r: Result<BlockGroup, FsError>)
    requires
        sb.wf(),
        bgid.0 < sb.bg_count,
    ensures
        r is Ok <==> desc_readable(blk@, index as int, *sb),
        r is Err ==> r == Err::<BlockGroup, FsError>(FsError::InvalidFs),
        r matches Ok(bg) ==> bg.matches_desc(
            blk@.subrange(index as int, index + sb.block_desc_size),
            bgid,
            sb,
        ),
{
    let ds = sb.block_desc_size;
    if index > blk.len() || ds > blk.len() - index || !(ds == 32 || ds >= 64) {
        return Err(FsError::InvalidFs);
    }
    let desc = copy_range(blk, index, ds);
    let flags = read_u16(&desc, 0x12);
    if flags % 4 != 0 {
        return Err(FsError::InvalidFs);
    }
    BlockGroup::from_disk(&desc, bgid, sb)
}

impl<C: Config> FileSystem<C> {
    /// Takes `count` blocks at `ofs` of the loaded group `g` for `ino`.
    fn bg_allocate_blocks(
        &mut self,
        g: usize,
        ino: InodeNumber,
        ofs: usize,
        count: usize,
        tx: &mut Transaction,
    )
        requires
            old(self).wf(),
            old(tx).wf(),
            g < old(self).sb.bg_count,
            old(self).loaded(g as int),
        ensures
            final(self).wf(),
            final(self).sb == old(self).sb,
            final(self).blocks == old(self).blocks,
            final(self).inodes == old(self).inodes,
            final(self).block_groups@ == old(self).block_groups@.update(
                g as int,
                Some(
                    old(self).block_groups@[g as int]->0.with_counts(
                        old(self).block_groups@[g as int]->0.free_inodes_count,
                        crate::block_group::wsub32(
                            old(self).block_groups@[g as int]->0.free_blocks_count,
                            count as u32,
                        ),
                    ),
                ),
            ),
            final(tx).recorded(
                old(tx),
                Event::BlockAllocationOnBg(
                    BlockAllocationOnBg {
                        ino,
                        bgid: BlockGroupId(g as u32),
                        bitmap_lba: old(self).block_groups@[g as int]->0.block_bitmap_lba,
                        ofs,
                        count,
                    },
                ),
            ),
    {
        proof {
            assert(old(self).group_ok(g as int));
        }
        match self.block_groups[g] {
            Some(bg) => {
                let mut bg = bg;
                bg.allocate_blocks(ino, ofs, count, tx);
                self.block_groups.set(g, Some(bg));
            },
            None => {},
        }
        proof {
            assert forall|i: int| 0 <= i < self.block_groups@.len() implies #[trigger] self.group_ok(i) by {
                assert(old(self).group_ok(i));
                assert(self.blocks.allocator.free(i) == old(self).blocks.allocator.free(i));
            }
        }
    }
}

impl<C: Config> FileSystem<C> {
    /// Takes the inode at `ofs` of the loaded group `g`, for an entry of type `de`.
    pub fn bg_allocate_inode(&mut self, g: usize, ofs: u32, tx: &mut Transaction, de: crate::types::FileType)
        requires
            old(self).wf(),
            old(tx).wf(),
            g < old(self).sb.bg_count,
            old(self).loaded(g as int),
        ensures
            final(self).wf(),
            final(self).sb == old(self).sb,
            final(self).blocks == old(self).blocks,
            final(self).inodes == old(self).inodes,
            final(self).block_groups@ == old(self).block_groups@.update(
                g as int,
                Some(
                    old(self).block_groups@[g as int]->0.with_counts(
                        crate::block_group::wsub32(old(self).block_groups@[g as int]->0.free_inodes_count, 1),
                        old(self).block_groups@[g as int]->0.free_blocks_count,
                    ),
                ),
            ),
            final(tx).recorded(
                old(tx),
                Event::InodeAllocationOnBg(
                    crate::transaction::InodeAllocationOnBg {
                        bgid: BlockGroupId(g as u32),
                        bitmap_lba: old(self).block_groups@[g as int]->0.inode_bitmap_lba,
                        ofs: ofs as usize,
                        de,
                    },
                ),
            ),
    {
        proof {
            assert(old(self).group_ok(g as int));
        }
        match self.block_groups[g] {
            Some(bg) => {
                let mut bg = bg;
                bg.allocate_inode_on_bg(ofs, tx, de);
                self.block_groups.set(g, Some(bg));
            },
            None => {},
        }
        proof {
            assert forall|i: int| 0 <= i < self.block_groups@.len() implies #[trigger] self.group_ok(i) by {
                assert(old(self).group_ok(i));
                assert(self.blocks.allocator.free(i) == old(self).blocks.allocator.free(i));
            }
        }
    }
}

/// The pieces, one per group, into which `deallocate` cuts `[lba, lba + size)`:
/// each is a group, an index in it and a count.
pub open spec fn dealloc_pieces(lba: nat, size: nat, fdb: nat, bpg: nat) -> Seq<(nat, nat, nat)>
    decreases size,
{
    if size == 0 || bpg == 0 || lba < fdb {
        Seq::empty()
    } else {
        let (g, i) = block_place(lba, fdb, bpg);
        let count: nat = if (bpg - i) as nat <= size {
            (bpg - i) as nat
        } else {
            size
        };
        if count == 0 {
            Seq::empty()
        } else {
            seq![(g, i, count)] + dealloc_pieces(lba + count, (size - count) as nat, fdb, bpg)
        }
    }
}

/// The events that `deallocate` records for the pieces `p`, with the block
/// bitmaps of the groups `bgs`.
pub open spec fn dealloc_events(
    ino: InodeNumber,
    p: Seq<(nat, nat, nat)>,
    bgs: Seq<Option<BlockGroup>>,
) -> Seq<Event> {
    p.map_values(
        |e: (nat, nat, nat)|
            Event::BlockDeallocationOnBg(
                BlockDeallocationOnBg {
                    ino,
                    bgid: BlockGroupId(e.0 as u32),
                    bitmap_lba: bgs[e.0 as int]->0.block_bitmap_lba,
                    ofs: e.1 as usize,
                    count: e.2 as usize,
                },
            ),
    )
}

/// The group of every piece of `p` is one of `fs`, and loaded.
pub open spec fn pieces_loaded<C: Config>(fs: &FileSystem<C>, p: Seq<(nat, nat, nat)>) -> bool {
    forall|j: int| #![trigger p[j]] 0 <= j < p.len() ==> p[j].0 < fs.sb.bg_count && fs.loaded(p[j].0 as int)
}

/// The deallocation events of pieces whose groups are loaded stay the same
/// in a frame of the file system.
pub proof fn lemma_dealloc_events_framed<C: Config>(
    a: &FileSystem<C>,
    b: &FileSystem<C>,
    ino: InodeNumber,
    p: Seq<(nat, nat, nat)>,
)
    requires
        pieces_loaded(a, p),
        b.frame_of(a),
    ensures
        pieces_loaded(b, p),
        dealloc_events(ino, p, b.block_groups@) == dealloc_events(ino, p, a.block_groups@),
{
    assert forall|j: int| 0 <= j < p.len() implies #[trigger] p[j].0 < b.sb.bg_count && b.loaded(p[j].0 as int) by {
        let i = p[j].0 as int;
        assert(0 <= i < a.sb.bg_count && a.loaded(i));
        assert(b.loaded(i));
    }
    assert forall|j: int| 0 <= j < p.len() implies #[trigger] dealloc_events(ino, p, b.block_groups@)[j]
        == dealloc_events(ino, p, a.block_groups@)[j] by {
        let i = p[j].0 as int;
        assert(0 <= i < a.sb.bg_count && a.loaded(i));
        assert(b.loaded(i));
        assert(b.block_groups@[i]->0.block_bitmap_lba == a.block_groups@[i]->0.block_bitmap_lba);
    }
    assert(dealloc_events(ino, p, b.block_groups@) =~= dealloc_events(ino, p, a.block_groups@));
}

impl<C: Config> FileSystem<C> {
    /// `self` is `old` but for groups that were not loaded in `old`.
    pub open spec fn loaded_unchanged(&self, old: &FileSystem<C>) -> bool {
        forall|i: int|
            0 <= i < old.sb.bg_count && old.loaded(i) ==> #[trigger] self.block_groups@[i]
                == old.block_groups@[i] && self.blocks.allocator.buddies@[i]
                == old.blocks.allocator.buddies@[i]
    }

    /// `self` keeps what `old` has but for loaded groups, and those keep
    /// being loaded, with the same bitmap block, and lose free blocks only.
    pub open spec fn frame_of(&self, old: &FileSystem<C>) -> bool {
        &&& self.wf()
        &&& self.sb == old.sb
        &&& self.inodes == old.inodes
        &&& self.blocks.conf == old.blocks.conf
        &&& forall|i: int|
            0 <= i < old.sb.bg_count && old.loaded(i) ==> #[trigger] self.loaded(i)
                && self.blocks.allocator.free(i).subset_of(old.blocks.allocator.free(i))
                && self.block_groups@[i]->0.block_bitmap_lba == old.block_groups@[i]->0.block_bitmap_lba
    }

    /// `self` is `old` after `n` blocks were taken at `lba` for `ino`, and
    /// `events` is `old_events` with the allocation recorded.
    pub open spec fn allocated(
        &self,
        old: &FileSystem<C>,
        old_events: Seq<Event>,
        events: Seq<Event>,
        ino: InodeNumber,
        lba: LogicalBlockNumber,
        n: usize,
    ) -> bool {
        let g = block_place(lba.0 as nat, old.sb.first_data_block as nat, old.sb.blocks_per_group as nat).0;
        let idx = block_place(lba.0 as nat, old.sb.first_data_block as nat, old.sb.blocks_per_group as nat).1;
        &&& n >= 1
        &&& lba.0 >= old.sb.first_data_block
        &&& g < old.sb.bg_count
        &&& idx + n <= old.sb.blocks_per_group
        &&& self.loaded(g as int)
        &&& old.loaded(g as int) ==> self.block_groups@[g as int]->0.free_blocks_count == crate::block_group::wsub32(
            old.block_groups@[g as int]->0.free_blocks_count,
            n as u32,
        )
        &&& forall|x: int|
            idx <= x < idx + n ==> !self.blocks.allocator.free(g as int).contains(x) && (old.loaded(
                g as int,
            ) ==> old.blocks.allocator.free(g as int).contains(x))
        &&& events == old_events.push(
            Event::BlockAllocationOnBg(
                BlockAllocationOnBg {
                    ino,
                    bgid: BlockGroupId(g as u32),
                    bitmap_lba: self.block_groups@[g as int]->0.block_bitmap_lba,
                    ofs: idx as usize,
                    count: n,
                },
            ),
        )
    }
}

/// A block taken from a file system whose groups end below
/// `blocks_count + blocks_per_group` lies below that bound, and is a block
/// that was free before when its group was loaded.
pub proof fn lemma_allocated_below<C: Config>(
    fs: &FileSystem<C>,
    old: &FileSystem<C>,
    e0: Seq<Event>,
    e1: Seq<Event>,
    ino: InodeNumber,
    lba: LogicalBlockNumber,
    n: usize,
)
    requires
        old.wf(),
        fs.allocated(old, e0, e1, ino, lba, n),
    ensures
        lba.0 < old.sb.blocks_count + old.sb.blocks_per_group,
{
    let fdb = old.sb.first_data_block as int;
    let b = old.sb.blocks_per_group as int;
    let g = block_place(lba.0 as nat, fdb as nat, b as nat).0 as int;
    let i = block_place(lba.0 as nat, fdb as nat, b as nat).1 as int;
    vstd::arithmetic::div_mod::lemma_fundamental_div_mod(lba.0 - fdb, b);
    lemma_group_start(g, old.sb.blocks_count - fdb, b);
    assert(lba.0 == fdb + g * b + i);
}

/// The clear bits of bitmap `b` below `limit`.
pub open spec fn clear_bits(b: Seq<u8>, limit: int) -> Set<int> {
    Set::new(|x: int| 0 <= x < limit && !bitmap_bit(b, x as nat))
}

/// A file system whose groups were all loaded and stay as they were is still
/// all loaded, with the same free blocks.
proof fn lemma_groups_kept<C: Config>(fs0: FileSystem<C>, fs1: FileSystem<C>)
    requires
        fs0.all_loaded(),
        fs1.loaded_unchanged(&fs0),
        fs1.sb == fs0.sb,
    ensures
        fs1.all_loaded(),
        fs1.no_free_block() == fs0.no_free_block(),
{
    reveal(FileSystem::all_loaded);
    reveal(FileSystem::no_free_block);
    assert forall|i: int| 0 <= i < fs1.sb.bg_count implies #[trigger] fs1.loaded(i) by {
        assert(fs0.loaded(i));
    }
    assert forall|i: int| 0 <= i < fs1.sb.bg_count implies #[trigger] fs1.blocks.allocator.free(i)
        == fs0.blocks.allocator.free(i) by {
        assert(fs0.loaded(i));
        assert(fs1.block_groups@[i] == fs0.block_groups@[i]);
        assert(fs1.blocks.allocator.buddies@[i] == fs0.blocks.allocator.buddies@[i]);
    }
    if fs0.no_free_block() {
        assert forall|i: int| 0 <= i < fs1.sb.bg_count implies #[trigger] fs1.blocks.allocator.free(i)
            == Set::<int>::empty() by {
            assert(fs0.blocks.allocator.free(i) == Set::<int>::empty());
        }
    }
    if fs1.no_free_block() {
        assert forall|i: int| 0 <= i < fs0.sb.bg_count implies #[trigger] fs0.blocks.allocator.free(i)
            == Set::<int>::empty() by {
            assert(fs1.blocks.allocator.free(i) == Set::<int>::empty());
        }
    }
}

/// The groups `start`, `start + 1`, ... (in a cycle), `k` of them, hold no
/// free block.
#[verifier::opaque]
spec fn free_empty_upto<C: Config>(fs: FileSystem<C>, start: int, k: int) -> bool {
    let n = fs.sb.bg_count as int;
    forall|j: int|
        0 <= j < n && ((j >= start && j - start < k) || (j < start && j + n - start < k))
            ==> #[trigger] fs.blocks.allocator.free(j) == Set::<int>::empty()
}

/// The group asked `k`-th by a cycle over `n` groups from `start`.
pub open spec fn cyc(start: int, k: int, n: int) -> int {
    if k < n - start {
        start + k
    } else {
        k - (n - start)
    }
}

/// The buddy allocator `b` has nothing to give for `size` blocks asked at
/// `hope`: the run at `hope` is not taken, and no chunk order from the one
/// that fits `size` up holds a chunk.
pub open spec fn refuses(b: crate::buddy::BlockGroupBuddy, size: nat, hope: Option<usize>) -> bool {
    &&& !crate::buddy::hope_taken(b.chunks(), hope, size)
    &&& crate::buddy::first_order(b.chunks(), crate::buddy::fit_order(size), b.max_order_spec()) is None
}

/// What the `j`-th group of a cycle is asked for at: `index` in the first.
pub open spec fn hope_at(j: int, index: usize) -> Option<usize> {
    if j == 0 {
        Some(index)
    } else {
        None
    }
}

/// Every group of `bs` (`n` of them), asked in a cycle from `start` for `s`
/// blocks, with `index` asked of the first, refuses.
pub open spec fn all_refuse(bs: Seq<crate::buddy::BlockGroupBuddy>, start: int, index: usize, s: nat, n: int) -> bool {
    forall|j: int| 0 <= j < n ==> #[trigger] refuses(bs[cyc(start, j, n)], s, hope_at(j, index))
}

/// Every size of the halving chain from `n0` above `sz` is refused by all
/// groups.
#[verifier::opaque]
pub open spec fn refused_above(bs: Seq<crate::buddy::BlockGroupBuddy>, start: int, index: usize, n0: nat, sz: nat, n: int) -> bool {
    forall|s2: nat| #[trigger] on_chain(n0, s2) && s2 > sz ==> all_refuse(bs, start, index, s2, n)
}

/// What `allocate` gives, with every group loaded and the buddy allocators
/// `bs`: the sizes `n0`, `n0 / 2`, ... are asked in turn of the `n` groups
/// in a cycle from `start` (the first asked at `index`); the blocks come from
/// the first group that does not refuse the first size that some group does
/// not refuse, and `FsFull` when every group refuses every size.
pub open spec fn first_fit(
    bs: Seq<crate::buddy::BlockGroupBuddy>,
    start: int,
    index: usize,
    n0: nat,
    n: int,
    r: Result<(LogicalBlockNumber, usize), FsError>,
    fdb: nat,
    bpg: nat,
) -> bool {
    match r {
        Ok((lba, got)) => exists|s: nat|
            #[trigger] on_chain(n0, s) && got <= s && refused_above(bs, start, index, n0, s, n) && exists|k: int|
                0 <= k < n && cyc(start, k, n) == block_place(lba.0 as nat, fdb, bpg).0 && forall|j: int|
                    0 <= j < k ==> #[trigger] refuses(bs[cyc(start, j, n)], s, hope_at(j, index)),
        Err(e) => e == FsError::FsFull && refused_above(bs, start, index, n0, 0, n),
    }
}

proof fn lemma_refused_start(bs: Seq<crate::buddy::BlockGroupBuddy>, start: int, index: usize, n0: nat, n: int)
    ensures
        refused_above(bs, start, index, n0, n0, n),
{
    reveal(refused_above);
    assert forall|s2: nat| #[trigger] on_chain(n0, s2) && s2 > n0 implies all_refuse(bs, start, index, s2, n) by {
        crate::block_alloc::lemma_chain_le(n0, s2);
    }
}

proof fn lemma_refused_step(bs: Seq<crate::buddy::BlockGroupBuddy>, start: int, index: usize, n0: nat, sz: nat, n: int)
    requires
        refused_above(bs, start, index, n0, sz, n),
        all_refuse(bs, start, index, sz, n),
        on_chain(n0, sz),
    ensures
        refused_above(bs, start, index, n0, sz / 2, n),
{
    reveal(refused_above);
    assert forall|s2: nat| #[trigger] on_chain(n0, s2) && s2 > sz / 2 implies all_refuse(bs, start, index, s2, n) by {
        if s2 <= sz {
            crate::block_alloc::lemma_chain_gap(n0, s2, sz);
        }
    }
}

/// With every group loaded, a file system whose loaded groups stay as they
/// were has the same buddy allocators.
proof fn lemma_buddies_same<C: Config>(fs0: &FileSystem<C>, fs: &FileSystem<C>)
    requires
        fs0.wf(),
        fs.wf(),
        fs0.all_loaded(),
        fs.loaded_unchanged(fs0),
        fs.sb == fs0.sb,
    ensures
        fs.blocks.allocator.buddies@ == fs0.blocks.allocator.buddies@,
{
    reveal(FileSystem::all_loaded);
    assert forall|i: int| 0 <= i < fs0.blocks.allocator.buddies@.len() implies fs.blocks.allocator.buddies@[i]
        == fs0.blocks.allocator.buddies@[i] by {
        assert(fs0.loaded(i));
        assert(fs.block_groups@[i] == fs0.block_groups@[i]);
    }
    assert(fs.blocks.allocator.buddies@ =~= fs0.blocks.allocator.buddies@);
}

/// An allocation by the first group, in a cycle, that did not refuse `sz`,
/// after every larger size of the chain was refused, is a first fit.
proof fn lemma_fit_found<C: Config>(
    fs0: &FileSystem<C>,
    fs: &FileSystem<C>,
    start: int,
    index: usize,
    n0: nat,
    sz: nat,
    lba: LogicalBlockNumber,
    got: usize,
)
    requires
        on_chain(n0, sz),
        got <= sz,
        refused_above(fs0.blocks.allocator.buddies@, start, index, n0, sz, fs0.sb.bg_count as int),
        exists|k: int|
            0 <= k < fs0.sb.bg_count && #[trigger] cyc(start, k, fs0.sb.bg_count as int) == block_place(
                lba.0 as nat,
                fs0.sb.first_data_block as nat,
                fs0.sb.blocks_per_group as nat,
            ).0 && forall|j: int|
                0 <= j < k ==> #[trigger] refuses(
                    fs.blocks.allocator.buddies@[cyc(start, j, fs0.sb.bg_count as int)],
                    sz,
                    hope_at(j, index),
                ),
        forall|i: int|
            0 <= i < fs0.sb.bg_count && fs0.loaded(i) && i != block_place(
                lba.0 as nat,
                fs0.sb.first_data_block as nat,
                fs0.sb.blocks_per_group as nat,
            ).0 ==> #[trigger] fs.blocks.allocator.buddies@[i] == fs0.blocks.allocator.buddies@[i],
        fs0.all_loaded(),
        0 <= start < fs0.sb.bg_count,
    ensures
        first_fit(
            fs0.blocks.allocator.buddies@,
            start,
            index,
            n0,
            fs0.sb.bg_count as int,
            Ok((lba, got)),
            fs0.sb.first_data_block as nat,
            fs0.sb.blocks_per_group as nat,
        ),
{
    reveal(FileSystem::all_loaded);
    let n = fs0.sb.bg_count as int;
    let g = block_place(lba.0 as nat, fs0.sb.first_data_block as nat, fs0.sb.blocks_per_group as nat).0;
    let k = choose|k: int|
        0 <= k < fs0.sb.bg_count && #[trigger] cyc(start, k, n) == g && forall|j: int|
            0 <= j < k ==> #[trigger] refuses(fs.blocks.allocator.buddies@[cyc(start, j, n)], sz, hope_at(j, index));
    assert forall|j: int| 0 <= j < k implies #[trigger] refuses(fs0.blocks.allocator.buddies@[cyc(start, j, n)], sz, hope_at(j, index)) by {
        let gj = cyc(start, j, n);
        assert(gj != g);
        assert(fs0.loaded(gj));
        assert(fs.blocks.allocator.buddies@[gj] == fs0.blocks.allocator.buddies@[gj]);
    }
    assert(on_chain(n0, sz));
}

impl Allocator {
    /// Asks the groups, from `start` on in a cycle, for `size` blocks; the
    /// group `start` is asked for the run at `index` first.
    #[verifier::spinoff_prover]
    fn allocate_in_groups<C: Config>(
        fs: &mut FileSystem<C>,
        ino: InodeNumber,
        size: usize,
        start: usize,
        index: usize,
        tx: &mut Transaction,
    ) -> (r: Result<Option<(LogicalBlockNumber, usize)>, FsError>)
        requires
            old(fs).wf(),
            old(tx).wf(),
            start < old(fs).sb.bg_count,
            index < old(fs).sb.blocks_per_group,
            1 <= size,
            index + size <= usize::MAX,
        ensures
            final(fs).frame_of(old(fs)),
            final(tx).wf(),
            final(tx).collector == old(tx).collector,
            match r {
                Ok(Some((lba, n))) => n <= size && final(fs).allocated(
                    old(fs),
                    old(tx).events.seq(),
                    final(tx).events.seq(),
                    ino,
                    lba,
                    n,
                ),
                _ => final(tx).events.seq() == old(tx).events.seq() && final(fs).loaded_unchanged(
                    old(fs),
                ),
            },
            old(fs).all_loaded() ==> r is Ok,
            old(fs).all_loaded() && size == 1 ==> (r == Ok::<Option<(LogicalBlockNumber, usize)>, FsError>(None)
                <==> old(fs).no_free_block()),
            r matches Ok(Some((lba, _))) ==> exists|k: int|
                0 <= k < old(fs).sb.bg_count && #[trigger] cyc(start as int, k, old(fs).sb.bg_count as int)
                    == block_place(lba.0 as nat, old(fs).sb.first_data_block as nat, old(fs).sb.blocks_per_group as nat).0
                    && forall|j: int|
                    0 <= j < k ==> #[trigger] refuses(
                        final(fs).blocks.allocator.buddies@[cyc(start as int, j, old(fs).sb.bg_count as int)],
                        size as nat,
                        hope_at(j, index),
                    ),
            r matches Ok(Some((lba, _))) ==> forall|i: int|
                0 <= i < old(fs).sb.bg_count && old(fs).loaded(i) && i != block_place(
                    lba.0 as nat,
                    old(fs).sb.first_data_block as nat,
                    old(fs).sb.blocks_per_group as nat,
                ).0 ==> #[trigger] final(fs).blocks.allocator.buddies@[i] == old(fs).blocks.allocator.buddies@[i],
            r == Ok::<Option<(LogicalBlockNumber, usize)>, FsError>(None) ==> forall|j: int|
                0 <= j < old(fs).sb.bg_count ==> #[trigger] refuses(
                    final(fs).blocks.allocator.buddies@[cyc(start as int, j, old(fs).sb.bg_count as int)],
                    size as nat,
                    hope_at(j, index),
                ),
    {
        let ghost fs0: FileSystem<C> = *fs;
        let n = fs.blocks.allocator.buddies.len();
        let mut k: usize = 0;
        proof {
            reveal(free_empty_upto);
        }
        while k < n
            invariant
                fs.wf(),
                tx.wf(),
                tx.events.seq() == old(tx).events.seq(),
                tx.collector == old(tx).collector,
                fs0 == *old(fs),
                n == fs.sb.bg_count,
                start < n,
                k <= n,
                index < fs.sb.blocks_per_group,
                1 <= size,
                index + size <= usize::MAX,
                fs.sb == fs0.sb,
                fs.inodes == fs0.inodes,
                fs.blocks.conf == fs0.blocks.conf,
                fs.loaded_unchanged(&fs0),
                size == 1 && fs0.all_loaded() ==> free_empty_upto(fs0, start as int, k as int),
                fs.blocks.allocator.buddies@.len() == n,
                forall|j: int|
                    0 <= j < k ==> #[trigger] refuses(
                        fs.blocks.allocator.buddies@[cyc(start as int, j, n as int)],
                        size as nat,
                        hope_at(j, index),
                    ),
            decreases n - k,
        {
            let g: usize = if k < n - start {
                start + k
            } else {
                k - (n - start)
            };
            let ghost top: FileSystem<C> = *fs;
            match fs.get_block_group(BlockGroupId(g as u32)) {
                Ok(_) => {},
                Err(e) => {
                    proof {
                        assert forall|i: int| 0 <= i < fs0.sb.bg_count && fs0.loaded(i) implies #[trigger] fs.block_groups@[i]
                            == fs0.block_groups@[i] && fs.blocks.allocator.buddies@[i]
                            == fs0.blocks.allocator.buddies@[i] by {
                            assert(top.block_groups@[i] == fs0.block_groups@[i]);
                            assert(top.loaded(i));
                        }
                        assert forall|i: int| 0 <= i < fs0.sb.bg_count && fs0.loaded(i) implies #[trigger] fs.loaded(i)
                            && fs.blocks.allocator.free(i).subset_of(fs0.blocks.allocator.free(i)) by {
                            assert(top.block_groups@[i] == fs0.block_groups@[i]);
                            assert(top.loaded(i));
                            assert(fs.block_groups@[i] == fs0.block_groups@[i]);
                            assert(fs.blocks.allocator.buddies@[i] == fs0.blocks.allocator.buddies@[i]);
                        }
                        assert(!fs0.all_loaded()) by {
                            if fs0.all_loaded() {
                                reveal(FileSystem::all_loaded);
                                assert(fs0.loaded(g as int));
                                assert(top.block_groups@[g as int] == fs0.block_groups@[g as int]);
                                assert(top.loaded(g as int));
                            }
                        }
                        assert(fs.loaded_unchanged(&fs0));
                        assert(fs.frame_of(&fs0));
                        assert(tx.events.seq() == old(tx).events.seq());
                    }
                    return Err(e);
                },
            }
            proof {
                assert forall|i: int| 0 <= i < fs0.sb.bg_count && fs0.loaded(i) implies #[trigger] fs.block_groups@[i]
                    == fs0.block_groups@[i] && fs.blocks.allocator.buddies@[i]
                    == fs0.blocks.allocator.buddies@[i] by {
                    assert(top.block_groups@[i] == fs0.block_groups@[i]);
                    assert(top.loaded(i));
                }
            }
            let hope_here: Option<usize> = if k == 0 {
                Some(index)
            } else {
                None
            };
            let ghost mid_fs: FileSystem<C> = *fs;
            let ghost mid = fs.blocks.allocator.buddies@;
            proof {
                assert(fs.group_ok(g as int));
                assert(fs.loaded(g as int));
                assert(fs.blocks.allocator.buddies@[g as int].wf());
                assert(mid_fs.group_ok(g as int));
            }
            let got = fs.blocks.allocator.buddies[g].try_allocate(size, hope_here);
            proof {
                assert forall|i: int| 0 <= i < fs.blocks.allocator.buddies@.len() implies #[trigger] fs.blocks.allocator.buddies@[i].wf() by {
                    if i != g {
                        assert(fs.blocks.allocator.buddies@[i] == mid[i]);
                    }
                }
            }
            match got {
                Some((p, allocated)) => {
                    proof {
                        assert(mid[g as int].free().contains(p as int));
                        assert(mid_fs.group_ok(g as int));
                        assert(fs.block_groups@ == mid_fs.block_groups@);
                        assert(fs.sb == mid_fs.sb);
                        assert forall|i: int| 0 <= i < fs.block_groups@.len() implies #[trigger] fs.group_ok(i) by {
                            assert(mid_fs.group_ok(i));
                            if i != g {
                                assert(fs.blocks.allocator.buddies@[i] == mid[i]);
                                assert(fs.blocks.allocator.free(i) == mid_fs.blocks.allocator.free(i));
                            } else {
                                assert forall|x: int| #[trigger]
                                    fs.blocks.allocator.free(i).contains(x) implies 0 <= x
                                    < fs.sb.blocks_per_group by {
                                    assert(mid_fs.blocks.allocator.free(i).contains(x));
                                }
                            }
                        }
                    }
                    fs.bg_allocate_blocks(g, ino, p, allocated, tx);
                    proof {
                        assert(mid_fs.group_ok(g as int));
                        assert(mid_fs.blocks.allocator.free(g as int).contains(p as int));
                        assert(mid_fs.blocks.allocator.free(g as int).contains(p + allocated - 1));
                        lemma_group_start(
                            g as int,
                            fs.sb.blocks_count - fs.sb.first_data_block,
                            fs.sb.blocks_per_group as int,
                        );
                        lemma_block_index_roundtrip(
                            g as nat,
                            p as nat,
                            fs.sb.first_data_block as nat,
                            fs.sb.blocks_per_group as nat,
                        );
                    }
                    let lba = LogicalBlockNumber::from_bgid_index(BlockGroupId(g as u32), p, &fs.sb);
                    proof {
                        assert forall|i: int| 0 <= i < fs0.sb.bg_count && fs0.loaded(i) implies #[trigger] fs.loaded(i)
                            && fs.blocks.allocator.free(i).subset_of(fs0.blocks.allocator.free(i)) by {
                            assert(mid_fs.block_groups@[i] == fs0.block_groups@[i]);
                            assert(mid[i] == fs0.blocks.allocator.buddies@[i]);
                            if i != g {
                                assert(fs.blocks.allocator.buddies@[i] == mid[i]);
                            }
                        }
                    }
                    proof {
                        if fs0.all_loaded() {
                            reveal(FileSystem::all_loaded);
                            reveal(FileSystem::no_free_block);
                            assert(fs0.loaded(g as int));
                            assert(mid[g as int] == fs0.blocks.allocator.buddies@[g as int]);
                            assert(fs0.blocks.allocator.free(g as int).contains(p as int));
                            assert(!fs0.no_free_block());
                        }
                    }
                    proof {
                        assert forall|i: int|
                            0 <= i < fs0.sb.bg_count && fs0.loaded(i) && i != g implies #[trigger] fs.blocks.allocator.buddies@[i]
                                == fs0.blocks.allocator.buddies@[i] by {
                            assert(mid_fs.block_groups@[i] == fs0.block_groups@[i]);
                            assert(mid[i] == fs0.blocks.allocator.buddies@[i]);
                            assert(fs.blocks.allocator.buddies@[i] == mid[i]);
                        }
                        assert(g as int == cyc(start as int, k as int, n as int));
                        assert forall|j: int| 0 <= j < k implies #[trigger] refuses(
                            fs.blocks.allocator.buddies@[cyc(start as int, j, n as int)],
                            size as nat,
                            hope_at(j, index),
                        ) by {
                            let gj = cyc(start as int, j, n as int);
                            assert(gj != g);
                            assert(fs.blocks.allocator.buddies@[gj] == mid[gj]);
                            assert(mid_fs.block_groups@[gj] == top.block_groups@[gj]);
                            assert(mid[gj] == top.blocks.allocator.buddies@[gj]);
                            assert(refuses(top.blocks.allocator.buddies@[gj], size as nat, hope_at(j, index)));
                        }
                    }
                    return Ok(Some((lba, allocated)));
                },
                None => {
                    proof {
                        if size == 1 && fs0.all_loaded() {
                            reveal(FileSystem::all_loaded);
                            assert(fs0.loaded(g as int));
                            assert(mid[g as int] == fs0.blocks.allocator.buddies@[g as int]);
                            mid[g as int].lemma_no_chunk_no_free();
                            assert(fs0.blocks.allocator.free(g as int) == Set::<int>::empty());
                            reveal(free_empty_upto);
                            assert(free_empty_upto(fs0, start as int, k + 1));
                        }
                        assert(fs.blocks.allocator.buddies@ =~= mid);
                        assert(fs.block_groups@ == mid_fs.block_groups@);
                        assert(fs.sb == mid_fs.sb);
                        assert forall|i: int| 0 <= i < fs.block_groups@.len() implies #[trigger] fs.group_ok(i) by {
                            assert(mid_fs.group_ok(i));
                            assert(fs.blocks.allocator.free(i) == mid_fs.blocks.allocator.free(i));
                        }
                        assert(g as int == cyc(start as int, k as int, n as int));
                        assert(refuses(mid[g as int], size as nat, hope_at(k as int, index)));
                        assert forall|j: int| 0 <= j < k + 1 implies #[trigger] refuses(
                            fs.blocks.allocator.buddies@[cyc(start as int, j, n as int)],
                            size as nat,
                            hope_at(j, index),
                        ) by {
                            if j < k {
                                let gj = cyc(start as int, j, n as int);
                                assert(gj != g);
                                assert(mid_fs.block_groups@[gj] == top.block_groups@[gj]);
                            assert(mid[gj] == top.blocks.allocator.buddies@[gj]);
                                assert(refuses(top.blocks.allocator.buddies@[gj], size as nat, hope_at(j, index)));
                            }
                        }
                    }
                },
            }
            k = k + 1;
        }
        proof {
            if size == 1 && fs0.all_loaded() {
                reveal(free_empty_upto);
                reveal(FileSystem::no_free_block);
                assert forall|j: int| 0 <= j < fs0.sb.bg_count implies #[trigger] fs0.blocks.allocator.free(j)
                    == Set::<int>::empty() by {
                    assert((j >= start && j - start < k) || (j < start && j + n - start < k));
                }
            }
        }
        Ok(None)
    }

    /// Allocates up to `size` contiguous blocks for `ino`, at most four
    /// blocks' worth of bytes in blocks, as near `hope` as the chunks allow.
    ///
    /// Groups are tried from the group of `hope` on, in a cycle; the first
    /// group is asked for the run at `hope`. When no group can give the
    /// requested size, the size is halved (see `first_fit`). The allocation
    /// is recorded in `tx` and in the group's free count.
    #[verifier::rlimit(40)]
    #[verifier::spinoff_prover]
    pub fn allocate<C: Config>(
        fs: &mut FileSystem<C>,
        ino: InodeNumber,
        size: usize,
        hope: LogicalBlockNumber,
        tx: &mut Transaction,
    ) -> (r: Result<(LogicalBlockNumber, usize), FsError>)
        requires
            old(fs).wf(),
            old(tx).wf(),
            old(fs).sb.first_data_block <= hope.0 < old(fs).sb.blocks_count,
            old(fs).sb.blocks_per_group + 4 * old(fs).sb.block_size <= usize::MAX,
        ensures
            final(fs).frame_of(old(fs)),
            final(tx).wf(),
            final(tx).collector == old(tx).collector,
            match r {
                Ok((lba, n)) => {
                    &&& n <= size
                    &&& n <= 4 * old(fs).sb.block_size
                    &&& final(fs).allocated(
                        old(fs),
                        old(tx).events.seq(),
                        final(tx).events.seq(),
                        ino,
                        lba,
                        n,
                    )
                },
                Err(_) => final(tx).events.seq() == old(tx).events.seq() && final(fs).loaded_unchanged(
                    old(fs),
                ),
            },
            size == 0 ==> r == Err::<(LogicalBlockNumber, usize), FsError>(FsError::FsFull),
            old(fs).all_loaded() && size >= 1 ==> (r is Ok <==> !old(fs).no_free_block()),
            old(fs).all_loaded() && size >= 1 && old(fs).no_free_block() ==> r == Err::<
                (LogicalBlockNumber, usize),
                FsError,
            >(FsError::FsFull),
            old(fs).all_loaded() ==> first_fit(
                old(fs).blocks.allocator.buddies@,
                block_place(hope.0 as nat, old(fs).sb.first_data_block as nat, old(fs).sb.blocks_per_group as nat).0 as int,
                block_place(hope.0 as nat, old(fs).sb.first_data_block as nat, old(fs).sb.blocks_per_group as nat).1 as usize,
                (if 4 * old(fs).sb.block_size < size {
                    4 * old(fs).sb.block_size
                } else {
                    size as int
                }) as nat,
                old(fs).sb.bg_count as int,
                r,
                old(fs).sb.first_data_block as nat,
                old(fs).sb.blocks_per_group as nat,
            ),
    {
        let ghost size_in = size;
        let mut sz: usize = if fs.sb.block_size * 4 < size {
            fs.sb.block_size * 4
        } else {
            size
        };
        let ghost size0 = sz;
        let ghost fs0: FileSystem<C> = *fs;
        let (bgid, index) = match hope.into_bgid_index(&fs.sb) {
            Some(p) => p,
            None => {
                return Err(FsError::InvalidFs);
            },
        };
        proof {
            let s = fs.sb.blocks_count - fs.sb.first_data_block;
            let b = fs.sb.blocks_per_group as int;
            vstd::arithmetic::div_mod::lemma_div_is_ordered(hope.0 - fs.sb.first_data_block, s - 1, b);
            vstd::arithmetic::div_mod::lemma_div_plus_one(s - 1, b);
            lemma_refused_start(fs0.blocks.allocator.buddies@, bgid.0 as int, index, size0 as nat, fs0.sb.bg_count as int);
        }
        while sz > 0
            invariant
                fs.wf(),
                tx.wf(),
                tx.events.seq() == old(tx).events.seq(),
                tx.collector == old(tx).collector,
                fs0 == *old(fs),
                fs.sb.blocks_per_group + 4 * fs.sb.block_size <= usize::MAX,
                bgid.0 < fs.sb.bg_count,
                index < fs.sb.blocks_per_group,
                sz <= size0,
                size0 <= size_in,
                size_in == size,
                size0 <= 4 * fs.sb.block_size,
                size0 <= 4 * fs0.sb.block_size,
                fs.sb == fs0.sb,
                fs.inodes == fs0.inodes,
                fs.blocks.conf == fs0.blocks.conf,
                fs.loaded_unchanged(&fs0),
                size_in >= 1 && fs0.all_loaded() && !fs0.no_free_block() ==> sz >= 1,
                sz >= 1 ==> on_chain(size0 as nat, sz as nat),
                size0 as int == (if 4 * fs0.sb.block_size < size_in {
                    4 * fs0.sb.block_size
                } else {
                    size_in as int
                }),
                fs0.wf(),
                fs0.all_loaded() ==> fs.blocks.allocator.buddies@ == fs0.blocks.allocator.buddies@,
                fs0.all_loaded() ==> refused_above(
                    fs0.blocks.allocator.buddies@,
                    bgid.0 as int,
                    index,
                    size0 as nat,
                    sz as nat,
                    fs0.sb.bg_count as int,
                ),
                (bgid.0 as nat, index as nat) == block_place(
                    hope.0 as nat,
                    fs0.sb.first_data_block as nat,
                    fs0.sb.blocks_per_group as nat,
                ),
            decreases sz,
        {
            let ghost fs1: FileSystem<C> = *fs;
            match Self::allocate_in_groups(fs, ino, sz, bgid.0 as usize, index, tx) {
                Ok(Some(got)) => {
                    proof {
                        let g = block_place(got.0.0 as nat, fs0.sb.first_data_block as nat, fs0.sb.blocks_per_group as nat).0;
                        if fs0.loaded(g as int) {
                            assert(fs1.block_groups@[g as int] == fs0.block_groups@[g as int]);
                            assert(fs1.blocks.allocator.buddies@[g as int] == fs0.blocks.allocator.buddies@[g as int]);
                            assert(fs1.loaded(g as int));
                        }
                        assert(fs.allocated(&fs0, old(tx).events.seq(), tx.events.seq(), ino, got.0, got.1));
                        assert forall|i: int| 0 <= i < fs0.sb.bg_count && fs0.loaded(i) implies #[trigger] fs.loaded(i)
                            && fs.blocks.allocator.free(i).subset_of(fs0.blocks.allocator.free(i))
                            && fs.block_groups@[i]->0.block_bitmap_lba == fs0.block_groups@[i]->0.block_bitmap_lba by {
                            assert(fs1.block_groups@[i] == fs0.block_groups@[i]);
                            assert(fs1.blocks.allocator.buddies@[i] == fs0.blocks.allocator.buddies@[i]);
                            assert(fs1.loaded(i));
                            assert(fs.loaded(i) && fs.blocks.allocator.free(i).subset_of(fs1.blocks.allocator.free(i)));
                            assert(fs.block_groups@[i]->0.block_bitmap_lba == fs1.block_groups@[i]->0.block_bitmap_lba);
                        }
                        if fs0.all_loaded() {
                            reveal(FileSystem::all_loaded);
                            reveal(FileSystem::no_free_block);
                            let idx = block_place(got.0.0 as nat, fs0.sb.first_data_block as nat, fs0.sb.blocks_per_group as nat).1;
                            assert(fs0.loaded(g as int));
                            assert(fs0.blocks.allocator.free(g as int).contains(idx as int));
                        }
                        if fs0.all_loaded() {
                            lemma_fit_found(&fs0, fs, bgid.0 as int, index, size0 as nat, sz as nat, got.0, got.1);
                            let hp = block_place(hope.0 as nat, fs0.sb.first_data_block as nat, fs0.sb.blocks_per_group as nat);
                            assert(hp.0 as int == bgid.0 as int);
                            assert(hp.1 as usize == index);
                            assert(size0 as nat == (if 4 * fs0.sb.block_size < size_in {
                                4 * fs0.sb.block_size
                            } else {
                                size_in as int
                            }) as nat);
                        }
                    }
                    return Ok(got);
                },
                Ok(None) => {},
                Err(e) => {
                    proof {
                        if fs0.all_loaded() {
                            lemma_groups_kept(fs0, fs1);
                        }
                        assert forall|i: int| 0 <= i < fs0.sb.bg_count && fs0.loaded(i) implies #[trigger] fs.loaded(i)
                            && fs.blocks.allocator.free(i).subset_of(fs0.blocks.allocator.free(i))
                            && fs.block_groups@[i]->0.block_bitmap_lba == fs0.block_groups@[i]->0.block_bitmap_lba by {
                            assert(fs1.block_groups@[i] == fs0.block_groups@[i]);
                            assert(fs1.blocks.allocator.buddies@[i] == fs0.blocks.allocator.buddies@[i]);
                            assert(fs1.loaded(i));
                            assert(fs.loaded(i) && fs.blocks.allocator.free(i).subset_of(fs1.blocks.allocator.free(i)));
                            assert(fs.block_groups@[i]->0.block_bitmap_lba == fs1.block_groups@[i]->0.block_bitmap_lba);
                        }
                        assert forall|i: int| 0 <= i < fs0.sb.bg_count && fs0.loaded(i) implies #[trigger] fs.block_groups@[i]
                            == fs0.block_groups@[i] && fs.blocks.allocator.buddies@[i]
                            == fs0.blocks.allocator.buddies@[i] by {
                            assert(fs1.block_groups@[i] == fs0.block_groups@[i]);
                            assert(fs1.loaded(i));
                        }
                        assert(fs.loaded_unchanged(&fs0));
                        assert(fs.frame_of(&fs0));
                    }
                    return Err(e);
                },
            }
            proof {
                if sz >= 2 {
                    crate::block_alloc::lemma_chain_next(size0 as nat, sz as nat);
                }
                if fs0.all_loaded() {
                    lemma_buddies_same(&fs0, fs);
                    lemma_refused_step(fs0.blocks.allocator.buddies@, bgid.0 as int, index, size0 as nat, sz as nat, fs0.sb.bg_count as int);
                }
                if size_in >= 1 && fs0.all_loaded() && !fs0.no_free_block() {
                    lemma_groups_kept(fs0, fs1);
                    assert(sz != 1);
                }
            }
            sz = sz / 2;
        }
        Err(FsError::FsFull)
    }

    /// Records that the blocks `[lba, lba + size)` of `ino` are given back,
    /// one event per group that the range crosses. The buddy allocators are
    /// left as they are: the blocks become free once the transaction is on disk.
    #[verifier::spinoff_prover]
    pub fn deallocate<C: Config>(
        fs: &mut FileSystem<C>,
        ino: InodeNumber,
        lba: LogicalBlockNumber,
        size: usize,
        trans: &mut Transaction,
    ) -> (r: Result<(), FsError>)
        requires
            old(fs).wf(),
            old(trans).wf(),
            old(fs).sb.first_data_block <= lba.0,
            lba.0 + size <= old(fs).sb.blocks_count,
        ensures
            final(fs).frame_of(old(fs)),
            final(fs).loaded_unchanged(old(fs)),
            final(trans).wf(),
            final(trans).collector == old(trans).collector,
            old(trans).events.seq().is_prefix_of(final(trans).events.seq()),
            old(fs).all_loaded() ==> r is Ok,
            r is Ok ==> pieces_loaded(
                &*final(fs),
                dealloc_pieces(
                    lba.0 as nat,
                    size as nat,
                    old(fs).sb.first_data_block as nat,
                    old(fs).sb.blocks_per_group as nat,
                ),
            ),
            r is Ok ==> final(trans).events.seq() == old(trans).events.seq() + dealloc_events(
                ino,
                dealloc_pieces(
                    lba.0 as nat,
                    size as nat,
                    old(fs).sb.first_data_block as nat,
                    old(fs).sb.blocks_per_group as nat,
                ),
                final(fs).block_groups@,
            ),
    {
        let ghost fs0: FileSystem<C> = *fs;
        let ghost fdb = fs.sb.first_data_block as nat;
        let ghost bpg = fs.sb.blocks_per_group as nat;
        let ghost all = dealloc_pieces(lba.0 as nat, size as nat, fdb, bpg);
        let ghost mut done: Seq<(nat, nat, nat)> = Seq::empty();
        let mut lba = lba;
        let mut size = size;
        proof {
            assert(all == done + dealloc_pieces(lba.0 as nat, size as nat, fdb, bpg));
            assert(dealloc_events(ino, done, fs.block_groups@) =~= Seq::<Event>::empty());
            assert(trans.events.seq() =~= old(trans).events.seq() + Seq::<Event>::empty());
        }
        while size > 0
            invariant
                fs.wf(),
                trans.wf(),
                trans.collector == old(trans).collector,
                fs0 == *old(fs),
                fs.sb == fs0.sb,
                fs.inodes == fs0.inodes,
                fs.blocks.conf == fs0.blocks.conf,
                fs.loaded_unchanged(&fs0),
                fdb == fs.sb.first_data_block,
                bpg == fs.sb.blocks_per_group,
                fdb <= lba.0,
                lba.0 + size <= fs.sb.blocks_count,
                all == done + dealloc_pieces(lba.0 as nat, size as nat, fdb, bpg),
                forall|j: int| 0 <= j < done.len() ==> #[trigger] fs.loaded(done[j].0 as int) && done[j].0 < fs.sb.bg_count,
                trans.events.seq() == old(trans).events.seq() + dealloc_events(ino, done, fs.block_groups@),
                fs0.all_loaded() ==> fs.all_loaded(),
            decreases size,
        {
            let (bgid, ofs) = match lba.into_bgid_index(&fs.sb) {
                Some(p) => p,
                None => {
                    return Err(FsError::InvalidFs);
                },
            };
            proof {
                let s = fs.sb.blocks_count - fs.sb.first_data_block;
                let b = fs.sb.blocks_per_group as int;
                vstd::arithmetic::div_mod::lemma_div_is_ordered(lba.0 - fs.sb.first_data_block, s - 1, b);
                vstd::arithmetic::div_mod::lemma_div_plus_one(s - 1, b);
            }
            let ghost before: FileSystem<C> = *fs;
            let bg = match fs.get_block_group(bgid) {
                Ok(bg) => bg,
                Err(e) => {
                    proof {
                        assert(fs.loaded_unchanged(&fs0)) by {
                            assert forall|i: int| 0 <= i < fs0.sb.bg_count && fs0.loaded(i) implies #[trigger] fs.block_groups@[i]
                                == fs0.block_groups@[i] && fs.blocks.allocator.buddies@[i]
                                == fs0.blocks.allocator.buddies@[i] by {
                                assert(before.block_groups@[i] == fs0.block_groups@[i]);
                                assert(before.loaded(i));
                            }
                        }
                        assert(old(trans).events.seq().is_prefix_of(trans.events.seq()));
                        if fs0.all_loaded() {
                            reveal(FileSystem::all_loaded);
                            assert(before.loaded(bgid.0 as int));
                        }
                        assert forall|i: int| 0 <= i < fs0.sb.bg_count && fs0.loaded(i) implies #[trigger] fs.loaded(i)
                            && fs.blocks.allocator.free(i).subset_of(fs0.blocks.allocator.free(i)) by {
                            assert(before.block_groups@[i] == fs0.block_groups@[i]);
                            assert(before.loaded(i));
                            assert(fs.block_groups@[i] == fs0.block_groups@[i]);
                            assert(fs.blocks.allocator.buddies@[i] == fs0.blocks.allocator.buddies@[i]);
                        }
                        assert(fs.frame_of(&fs0));
                    }
                    return Err(e);
                },
            };
            proof {
                if fs0.all_loaded() {
                    reveal(FileSystem::all_loaded);
                    assert forall|i: int| 0 <= i < fs.sb.bg_count implies #[trigger] fs.loaded(i) by {
                        assert(before.loaded(i));
                    }
                }
                assert(fs.group_ok(bgid.0 as int));
                assert(fs.loaded_unchanged(&fs0)) by {
                    assert forall|i: int| 0 <= i < fs0.sb.bg_count && fs0.loaded(i) implies #[trigger] fs.block_groups@[i]
                        == fs0.block_groups@[i] && fs.blocks.allocator.buddies@[i]
                        == fs0.blocks.allocator.buddies@[i] by {
                        assert(before.block_groups@[i] == fs0.block_groups@[i]);
                        assert(before.loaded(i));
                    }
                }
                assert forall|j: int| 0 <= j < done.len() implies #[trigger] fs.block_groups@[done[j].0 as int]
                    == before.block_groups@[done[j].0 as int] by {
                    assert(before.loaded(done[j].0 as int));
                }
                assert(dealloc_events(ino, done, fs.block_groups@) =~= dealloc_events(ino, done, before.block_groups@));
            }
            let room: usize = bg.blocks_count as usize - ofs;
            let count: usize = if room < size {
                room
            } else {
                size
            };
            trans.block_deallocation_on_bg(ino, bgid, bg.block_bitmap_lba, ofs, count);
            proof {
                let piece = (bgid.0 as nat, ofs as nat, count as nat);
                assert(dealloc_pieces(lba.0 as nat, size as nat, fdb, bpg) == seq![piece]
                    + dealloc_pieces((lba.0 + count) as nat, (size - count) as nat, fdb, bpg));
                let done2 = done.push(piece);
                assert(all =~= done2 + dealloc_pieces((lba.0 + count) as nat, (size - count) as nat, fdb, bpg));
                assert(dealloc_events(ino, done2, fs.block_groups@) =~= dealloc_events(ino, done, fs.block_groups@).push(
                    Event::BlockDeallocationOnBg(BlockDeallocationOnBg { ino, bgid, bitmap_lba: bg.block_bitmap_lba, ofs, count })));
                assert forall|j: int| 0 <= j < done2.len() implies #[trigger] fs.loaded(done2[j].0 as int) && done2[j].0 < fs.sb.bg_count by {
                    if j < done.len() {
                        assert(done2[j] == done[j]);
                        assert(before.loaded(done[j].0 as int));
                        assert(fs.block_groups@[done[j].0 as int] == before.block_groups@[done[j].0 as int]);
                    } else {
                        assert(done2[j] == piece);
                        assert(fs.block_groups@[bgid.0 as int] == Some(bg));
                    }
                }
                done = done2;
            }
            size = size - count;
            lba = LogicalBlockNumber(lba.0 + count as u64);
        }
        proof {
            assert(dealloc_pieces(lba.0 as nat, 0, fdb, bpg) =~= Seq::<(nat, nat, nat)>::empty());
            assert(all =~= done);
            assert forall|j: int| 0 <= j < all.len() implies all[j].0 < fs.sb.bg_count && fs.loaded(#[trigger] all[j].0 as int) by {
                assert(all[j] == done[j]);
                assert(fs.loaded(done[j].0 as int) && done[j].0 < fs.sb.bg_count);
            }
        }
        Ok(())
    }
}
impl<C: Config> FileSystem<C> {
    /// Opens the file system on `conf` with the superblock `sb`, and reads the
    /// descriptors of all groups; a group that cannot be read now is read on
    /// first use.
    pub fn new(conf: C, sb: SuperBlock) -> (r: FileSystem<C>)
        requires
            sb.wf(),
            sb.uuid@.len() == 16,
        ensures
            r.wf(),
            r.sb == sb,
            r.blocks.conf == conf,
    {
        let bg_count = sb.bg_count;
        proof {
            reveal_with_fuel(crate::block_alloc::trailing_ones, 13);
        }
        let allocator = Allocator::new(sb.block_size, bg_count as usize);
        let inodes = inode_alloc::Allocator::new(bg_count as usize);
        let mut block_groups: Vec<Option<BlockGroup>> = Vec::new();
        let mut i: u32 = 0;
        while i < bg_count
            invariant
                i <= bg_count,
                block_groups@.len() == i,
                forall|j: int| 0 <= j < i ==> #[trigger] block_groups@[j] is None,
            decreases bg_count - i,
        {
            block_groups.push(None);
            i = i + 1;
        }
        let block_size = sb.block_size;
        let mut fs = FileSystem {
            sb,
            block_groups,
            blocks: Manager { conf, block_size, allocator },
            inodes,
        };
        proof {
            assert forall|j: int| 0 <= j < fs.block_groups@.len() implies #[trigger] fs.group_ok(j) by {
                assert(fs.blocks.allocator.buddies@[j].chunks() == Map::<usize, usize>::empty());
                assert(fs.blocks.allocator.free(j) =~= Set::<int>::empty());
            }
        }
        let mut i: u32 = 0;
        while i < bg_count
            invariant
                fs.wf(),
                fs.sb == sb,
                fs.blocks.conf == conf,
                bg_count == sb.bg_count,
            decreases bg_count - i,
        {
            let _ = fs.get_block_group(BlockGroupId(i));
            i = i + 1;
        }
        fs
    }
}

} // verus!
