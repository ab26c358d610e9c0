//! Block groups: the in-memory state of a group descriptor, the descriptor's
//! on-disk layout and its checksum.
use vstd::prelude::*;
use crate::bytes::{le16, le32, read_u16, read_u32, write_u16, write_u32, same_outside, zeroed};
use crate::crc::{Crc16, Crc32c, crc16_seq, crc32c_seq};
use crate::superblock::{SuperBlock, RO_COMPAT_GDT_CSUM, RO_COMPAT_METADATA_CSUM};
use crate::transaction::{Transaction, Event, InodeAllocationOnBg, BlockAllocationOnBg};
use crate::types::{BlockGroupId, FileType, FsError, InodeNumber, LogicalBlockNumber};

verus! {

/// The offset of the checksum in a group descriptor.
pub const DESC_CHECKSUM: usize = 0x1E;

/// The flags of a block group.
#[derive(Clone, Copy, Debug, PartialEq, Eq, Structural)]
pub struct BlockGroupFlag {
    pub bits: u16,
}

/// Inode table and bitmap not in use.
pub const INODE_UNINIT: u16 = 0x0001;

/// Block bitmap not in use.
pub const BLOCK_UNINIT: u16 = 0x0002;

/// On-disk inode table initialized to zero.
pub const ITABLE_ZEROED: u16 = 0x0004;

impl BlockGroupFlag {
    /// The known flags among `bits`; the others are dropped.
    pub fn from_bits_truncate(bits: u16) -> (r: BlockGroupFlag)
        ensures
            r.bits == bits & 0x7u16,
    {
        BlockGroupFlag { bits: bits & 0x7 }
    }

    /// Whether every flag of `other` is set.
    pub fn contains(&self, other: u16) -> (r: bool)
        ensures
            r == (self.bits & other == other),
    {
        self.bits & other == other
    }
}

/// `x - y` modulo 2^32.
pub open spec fn wsub32(x: u32, y: u32) -> u32 {
    if x >= y {
        (x - y) as u32
    } else {
        (x - y + 0x1_0000_0000) as u32
    }
}

/// `x + y` modulo 2^32.
pub open spec fn wadd32(x: u32, y: u32) -> u32 {
    if x + y <= u32::MAX {
        (x + y) as u32
    } else {
        (x + y - 0x1_0000_0000) as u32
    }
}

/// A 32-bit descriptor field split in a low half at `lo` and, in wide
/// descriptors, a high half at `hi`.
pub open spec fn desc_field32(raw: Seq<u8>, lo: int, hi: int) -> nat {
    if raw.len() >= 64 {
        le32(raw, lo) + le32(raw, hi) * 0x1_0000_0000
    } else {
        le32(raw, lo)
    }
}

/// A 16-bit descriptor field split in two halves, as `desc_field32`.
pub open spec fn desc_field16(raw: Seq<u8>, lo: int, hi: int) -> nat {
    if raw.len() >= 64 {
        le16(raw, lo) + le16(raw, hi) * 0x1_0000
    } else {
        le16(raw, lo)
    }
}

/// The free blocks of a descriptor.
pub open spec fn desc_free_blocks(raw: Seq<u8>) -> nat {
    desc_field16(raw, 0xC, 0x2C)
}

/// The free inodes of a descriptor.
pub open spec fn desc_free_inodes(raw: Seq<u8>) -> nat {
    desc_field16(raw, 0xE, 0x2E)
}

/// The directories of a descriptor.
pub open spec fn desc_used_dirs(raw: Seq<u8>) -> nat {
    desc_field16(raw, 0x10, 0x30)
}

/// The unused inode table entries of a descriptor.
pub open spec fn desc_itable_unused(raw: Seq<u8>) -> nat {
    desc_field16(raw, 0x1C, 0x32)
}

/// Whether `raw` is a group descriptor of a known size.
pub open spec fn desc_len_ok(raw: Seq<u8>) -> bool {
    raw.len() == 32 || raw.len() >= 64
}

/// Reads a descriptor field of two 16-bit halves.
pub(crate) fn get_field16(raw: &Vec<u8>, lo: usize, hi: usize) -> (r: u32)
    requires
        desc_len_ok(raw@),
        lo + 2 <= 32,
        32 <= hi,
        hi + 2 <= 64,
    ensures
        r == desc_field16(raw@, lo as int, hi as int),
{
    let l = read_u16(raw, lo);
    if raw.len() >= 64 {
        let h = read_u16(raw, hi);
        l as u32 + (h as u32) * 0x1_0000
    } else {
        l as u32
    }
}

/// Writes a descriptor field of two 16-bit halves; narrow descriptors keep the
/// low half only.
fn set_field16(raw: &mut Vec<u8>, lo: usize, hi: usize, v: u32)
    requires
        desc_len_ok(old(raw)@),
        lo + 2 <= 32,
        32 <= hi,
        hi + 2 <= 64,
    ensures
        desc_len_ok(final(raw)@),
        final(raw)@.len() == old(raw)@.len(),
        desc_field16(final(raw)@, lo as int, hi as int) == if old(raw)@.len() >= 64 {
            v as nat
        } else {
            v as nat % 0x1_0000
        },
        forall|i: int|
            0 <= i < old(raw)@.len() && !(lo <= i < lo + 2) && !(hi <= i < hi + 2)
                ==> #[trigger] final(raw)@[i] == old(raw)@[i],
{
    write_u16(raw, lo, (v % 0x1_0000) as u16);
    if raw.len() >= 64 {
        write_u16(raw, hi, (v / 0x1_0000) as u16);
    }
}

/// Reads a descriptor field of two 32-bit halves.
fn get_field32(raw: &Vec<u8>, lo: usize, hi: usize) -> (r: u64)
    requires
        desc_len_ok(raw@),
        lo + 4 <= 32,
        32 <= hi,
        hi + 4 <= 64,
    ensures
        r == desc_field32(raw@, lo as int, hi as int),
{
    let l = read_u32(raw, lo);
    if raw.len() >= 64 {
        let h = read_u32(raw, hi);
        l as u64 + (h as u64) * 0x1_0000_0000
    } else {
        l as u64
    }
}

/// The in-memory state of a block group.
#[derive(Clone, Copy, Debug)]
pub struct BlockGroup {
    pub bgid: BlockGroupId,
    pub inode_table_first_block: LogicalBlockNumber,
    pub block_bitmap_lba: LogicalBlockNumber,
    pub inode_bitmap_lba: LogicalBlockNumber,
    pub blocks_count: u32,
    pub free_blocks_count: u32,
    pub free_inodes_count: u32,
    pub itable_unused: u32,
}

/// The blocks of group `bgid`: full groups before the count of groups, and
/// past it what the block count leaves over for one more group.
pub open spec fn group_blocks(sb: &SuperBlock, bgid: u32) -> u32 {
    if bgid < sb.bg_count {
        sb.blocks_per_group
    } else {
        (sb.blocks_count - sb.blocks_per_group * (bgid - 1)) as u32
    }
}

impl BlockGroup {
    /// `self` is what `from_disk` reads from the descriptor `raw` of `bgid`.
    pub open spec fn matches_desc(&self, raw: Seq<u8>, bgid: BlockGroupId, sb: &SuperBlock) -> bool {
        &&& self.bgid == bgid
        &&& self.inode_table_first_block.0 == desc_field32(raw, 0x8, 0x28)
        &&& self.block_bitmap_lba.0 == desc_field32(raw, 0x0, 0x20)
        &&& self.inode_bitmap_lba.0 == desc_field32(raw, 0x4, 0x24)
        &&& self.blocks_count == group_blocks(sb, bgid.0)
        &&& self.free_blocks_count == desc_free_blocks(raw)
        &&& self.free_inodes_count == desc_free_inodes(raw)
        &&& self.itable_unused == desc_itable_unused(raw)
    }

    /// The group with `free_inodes_count` and `free_blocks_count` replaced.
    pub open spec fn with_counts(self, free_inodes: u32, free_blocks: u32) -> BlockGroup {
        BlockGroup { free_inodes_count: free_inodes, free_blocks_count: free_blocks, ..self }
    }

    /// The checksum of descriptor `desc` of group `bgid`, computed as the file
    /// system's features ask: crc32c (low 16 bits) with `metadata_csum`, crc16
    /// with `gdt_csum`, and 0 otherwise. The checksum field itself is left out.
    /// `desc` is given back unchanged.
    pub fn calculate_csum(bgid: BlockGroupId, desc: &mut Vec<u8>, sb: &SuperBlock) -> (r: u16)
        requires
            desc_len_ok(old(desc)@),
            sb.uuid@.len() == 16,
        ensures
            final(desc)@ == old(desc)@,
            r == desc_csum(bgid, old(desc)@, sb),
    {
        let ghost d0 = desc@;
        if sb.features_readonly & RO_COMPAT_METADATA_CSUM == RO_COMPAT_METADATA_CSUM {
            let orig = read_u16(desc, DESC_CHECKSUM);
            write_u16(desc, DESC_CHECKSUM, 0);
            let ghost zeroed_desc = desc@;
            let mut crc = Crc32c::new();
            crc.write(&sb.uuid, 0, 16);
            let id = le_bytes_u32(bgid.0);
            crc.write(&id, 0, 4);
            crc.write(desc, 0, desc.len());
            write_u16(desc, DESC_CHECKSUM, orig);
            proof {
                assert(desc@ =~= d0);
                assert(sb.uuid@.subrange(0, 16) =~= sb.uuid@);
                assert(id@.subrange(0, 4) =~= id@);
                assert(zeroed_desc.subrange(0, zeroed_desc.len() as int) =~= zeroed_desc);
                assert(zeroed_desc =~= csum_zeroed(d0));
            }
            (crc.finish() % 0x1_0000) as u16
        } else if sb.features_readonly & RO_COMPAT_GDT_CSUM == RO_COMPAT_GDT_CSUM {
            let mut crc = Crc16::new();
            crc.write(&sb.uuid, 0, 16);
            let id = le_bytes_u32(bgid.0);
            crc.write(&id, 0, 4);
            crc.write(desc, 0, 0x1E);
            let ghost before_tail = crc.state;
            if desc.len() > 0x20 {
                crc.write(desc, 0x20, desc.len());
            }
            proof {
                assert(sb.uuid@.subrange(0, 16) =~= sb.uuid@);
                assert(id@.subrange(0, 4) =~= id@);
            }
            crc.finish()
        } else {
            0
        }
    }

    /// Takes one inode of the group and records the allocation.
    pub fn allocate_inode_on_bg(&mut self, ofs: u32, trans: &mut Transaction, de: FileType)
        requires
            old(trans).wf(),
        ensures
            *final(self) == old(self).with_counts(
                wsub32(old(self).free_inodes_count, 1),
                old(self).free_blocks_count,
            ),
            final(trans).recorded(
                old(trans),
                Event::InodeAllocationOnBg(
                    InodeAllocationOnBg {
                        bgid: old(self).bgid,
                        bitmap_lba: old(self).inode_bitmap_lba,
                        ofs: ofs as usize,
                        de,
                    },
                ),
            ),
    {
        self.free_inodes_count = self.free_inodes_count.wrapping_sub(1);
        trans.inode_allocation_on_bg(self.bgid, self.inode_bitmap_lba, ofs as usize, de);
    }

    /// Gives one inode back to the group.
    pub fn deallocate_inode(&mut self)
        ensures
            *final(self) == old(self).with_counts(
                wadd32(old(self).free_inodes_count, 1),
                old(self).free_blocks_count,
            ),
    {
        self.free_inodes_count = self.free_inodes_count.wrapping_add(1);
    }

    /// The free inodes of the group.
    pub fn get_free_inodes_count(&self) -> (r: u32)
        ensures
            r == self.free_inodes_count,
    {
        self.free_inodes_count
    }

    /// The free blocks of the group.
    pub fn get_free_blocks_count(&self) -> (r: u32)
        ensures
            r == self.free_blocks_count,
    {
        self.free_blocks_count
    }

    /// Takes `count` blocks at `ofs` of the group for `ino` and records it.
    pub fn allocate_blocks(
        &mut self,
        ino: InodeNumber,
        ofs: usize,
        count: usize,
        trans: &mut Transaction,
    )
        requires
            old(trans).wf(),
        ensures
            *final(self) == old(self).with_counts(
                old(self).free_inodes_count,
                wsub32(old(self).free_blocks_count, count as u32),
            ),
            final(trans).recorded(
                old(trans),
                Event::BlockAllocationOnBg(
                    BlockAllocationOnBg {
                        ino,
                        bgid: old(self).bgid,
                        bitmap_lba: old(self).block_bitmap_lba,
                        ofs,
                        count,
                    },
                ),
            ),
    {
        self.free_blocks_count = self.free_blocks_count.wrapping_sub(count as u32);
        trans.block_allocation_on_bg(ino, self.bgid, self.block_bitmap_lba, ofs, count);
    }

    /// Gives `count` blocks back to the group.
    pub fn deallocate_blocks(&mut self, count: usize)
        ensures
            *final(self) == old(self).with_counts(
                old(self).free_inodes_count,
                wadd32(old(self).free_blocks_count, count as u32),
            ),
    {
        self.free_blocks_count = self.free_blocks_count.wrapping_add(count as u32);
    }

    /// Reads the group `bgid` from its descriptor `raw`.
    ///
    /// Groups whose flags ask for an uninitialized bitmap are not supported.
    pub fn from_disk(raw: &Vec<u8>, bgid: BlockGroupId, sb: &SuperBlock) -> (r: Result<
        Self,
        FsError,
    >)
        requires
            desc_len_ok(raw@),
            bgid.0 <= sb.bg_count,
            bgid.0 == sb.bg_count ==> bgid.0 >= 1 && sb.blocks_per_group * (bgid.0 - 1)
                <= sb.blocks_count,
            le16(raw@, 0x12) as int % 4 == 0,
        ensures
            r matches Ok(bg) && bg.matches_desc(raw@, bgid, sb),
    {
        let blocks_count: u32 = if bgid.0 < sb.bg_count {
            sb.blocks_per_group
        } else {
            proof {
                vstd::arithmetic::mul::lemma_mul_inequality(
                    0,
                    (bgid.0 - 1) as int,
                    sb.blocks_per_group as int,
                );
                vstd::arithmetic::mul::lemma_mul_is_commutative(
                    (bgid.0 - 1) as int,
                    sb.blocks_per_group as int,
                );
            }
            (sb.blocks_count - (sb.blocks_per_group as u64 * (bgid.0 as u64 - 1))) as u32
        };
        let flags = read_u16(raw, 0x12);
        let bg = BlockGroup {
            bgid,
            inode_table_first_block: LogicalBlockNumber(get_field32(raw, 0x8, 0x28)),
            block_bitmap_lba: LogicalBlockNumber(get_field32(raw, 0x0, 0x20)),
            inode_bitmap_lba: LogicalBlockNumber(get_field32(raw, 0x4, 0x24)),
            blocks_count,
            free_blocks_count: get_field16(raw, 0xC, 0x2C),
            free_inodes_count: get_field16(raw, 0xE, 0x2E),
            itable_unused: get_field16(raw, 0x1C, 0x32),
        };
        let csum = read_u16(raw, DESC_CHECKSUM);
        proof {
            assert(flags & 0x7u16 & 0x2u16 != 0x2u16 && flags & 0x7u16 & 0x1u16 != 0x1u16)
                by (bit_vector)
                requires
                    flags % 4 == 0,
            ;
        }
        bg.verify(BlockGroupFlag::from_bits_truncate(flags), csum)
    }

    /// Checks the group against its flags and checksum.
    pub fn verify(self, flags: BlockGroupFlag, _csum: u16) -> (r: Result<Self, FsError>)
        requires
            flags.bits & BLOCK_UNINIT != BLOCK_UNINIT,
            flags.bits & INODE_UNINIT != INODE_UNINIT,
        ensures
            r == Ok::<Self, FsError>(self),
    {
        let mut s = self;
        match s.initialize_bg(flags) {
            Ok(()) => Ok(s),
            Err(e) => Err(e),
        }
    }

    /// Brings up the bitmaps of a group whose flags mark them uninitialized.
    ///
    /// Groups with uninitialized bitmaps are not supported.
    pub fn initialize_bg(&mut self, flags: BlockGroupFlag) -> (r: Result<(), FsError>)
        requires
            flags.bits & BLOCK_UNINIT != BLOCK_UNINIT,
            flags.bits & INODE_UNINIT != INODE_UNINIT,
        ensures
            r == Ok::<(), FsError>(()),
            *final(self) == *old(self),
    {
        Ok(())
    }
}

/// The descriptor with its checksum field zeroed.
pub open spec fn csum_zeroed(d: Seq<u8>) -> Seq<u8> {
    d.update(0x1E, 0u8).update(0x1F, 0u8)
}

/// The little-endian bytes of `x`.
pub open spec fn le_seq_u32(x: u32) -> Seq<u8> {
    seq![(x % 0x100) as u8, ((x / 0x100) % 0x100) as u8, ((x / 0x1_0000) % 0x100) as u8, (x / 0x100_0000) as u8]
}

/// The checksum of descriptor `d` of group `bgid`.
pub open spec fn desc_csum(bgid: BlockGroupId, d: Seq<u8>, sb: &SuperBlock) -> u16 {
    if sb.features_readonly & RO_COMPAT_METADATA_CSUM == RO_COMPAT_METADATA_CSUM {
        (crc32c_seq(crc32c_seq(crc32c_seq(0xffff_ffffu32, sb.uuid@), le_seq_u32(bgid.0)), csum_zeroed(d))
            % 0x1_0000) as u16
    } else if sb.features_readonly & RO_COMPAT_GDT_CSUM == RO_COMPAT_GDT_CSUM {
        let head = crc16_seq(crc16_seq(crc16_seq(0xffffu16, sb.uuid@), le_seq_u32(bgid.0)), d.subrange(0, 0x1E));
        if d.len() > 0x20 {
            crc16_seq(head, d.subrange(0x20, d.len() as int))
        } else {
            head
        }
    } else {
        0
    }
}

/// The little-endian bytes of `x`.
fn le_bytes_u32(x: u32) -> (r: Vec<u8>)
    ensures
        r@ == le_seq_u32(x),
{
    let mut r: Vec<u8> = Vec::new();
    r.push((x % 0x100) as u8);
    r.push(((x / 0x100) % 0x100) as u8);
    r.push(((x / 0x1_0000) % 0x100) as u8);
    r.push((x / 0x100_0000) as u8);
    proof {
        assert(r@ =~= le_seq_u32(x));
    }
    r
}

/// Adds `delta` to a count, failing where the result leaves `[0, max]`.
pub fn apply_delta(v: u32, delta: i64, max: u32) -> (r: Option<u32>)
    ensures
        match r {
            Some(n) => n == v + delta && n <= max,
            None => v + delta < 0 || v + delta > max,
        },
{
    if delta >= 0 {
        let d = delta as u64;
        if d > (max as u64) || (v as u64) > (max as u64) - d {
            None
        } else {
            Some((v as u64 + d) as u32)
        }
    } else {
        if delta < -(v as i64) {
            None
        } else {
            let n = (v as i64 + delta) as u64;
            if n > max as u64 {
                None
            } else {
                Some(n as u32)
            }
        }
    }
}

/// Sets the free blocks, free inodes and directories of a descriptor and
/// refreshes its checksum.
pub fn update_descriptor(
    desc: &mut Vec<u8>,
    bgid: BlockGroupId,
    sb: &SuperBlock,
    free_blocks: u32,
    free_inodes: u32,
    used_dirs: u32,
)
    requires
        desc_len_ok(old(desc)@),
        sb.uuid@.len() == 16,
    ensures
        desc_len_ok(final(desc)@),
        final(desc)@.len() == old(desc)@.len(),
        desc_free_blocks(final(desc)@) == field_stored(old(desc)@, free_blocks),
        desc_free_inodes(final(desc)@) == field_stored(old(desc)@, free_inodes),
        desc_used_dirs(final(desc)@) == field_stored(old(desc)@, used_dirs),
        le16(final(desc)@, 0x1E) == desc_csum(bgid, final(desc)@, sb),
{
    set_field16(desc, 0xC, 0x2C, free_blocks);
    set_field16(desc, 0xE, 0x2E, free_inodes);
    set_field16(desc, 0x10, 0x30, used_dirs);
    let ghost before = desc@;
    let csum = BlockGroup::calculate_csum(bgid, desc, sb);
    write_u16(desc, DESC_CHECKSUM, csum);
    proof {
        assert(csum_zeroed(desc@) =~= csum_zeroed(before));
        assert(desc@.subrange(0, 0x1E) =~= before.subrange(0, 0x1E));
        assert(desc@.subrange(0x20, desc@.len() as int) =~= before.subrange(0x20, before.len() as int));
        assert(desc_csum(bgid, desc@, sb) == desc_csum(bgid, before, sb));
    }
}

/// What a descriptor of the size of `d` keeps of the 32-bit count `v`.
pub open spec fn field_stored(d: Seq<u8>, v: u32) -> nat {
    if d.len() >= 64 {
        v as nat
    } else {
        v as nat % 0x1_0000
    }
}

} // verus!
