//! The superblock and the arithmetic that places inodes and blocks in groups.
use vstd::prelude::*;
use vstd::arithmetic::div_mod::{lemma_fundamental_div_mod, lemma_fundamental_div_mod_converse};
use vstd::arithmetic::mul::{lemma_mul_inequality, lemma_mul_is_commutative};
use vstd::arithmetic::div_mod::{lemma_mod_pos_bound, lemma_div_is_ordered};
use crate::bytes::{le16, le32, read_u16, read_u32, copy_range, lemma_le32_bound, lemma_le16_bound};
use crate::types::{BlockGroupId, InodeNumber, LogicalBlockNumber, FsError};

verus! {

/// The byte offset of the superblock on the device.
pub const SB_OFFSET: usize = 1024;

/// The size of the superblock.
pub const SB_SIZE: usize = 1024;

/// The magic number of ext2/3/4.
pub const EXT4_MAGIC: u16 = 0xEF53;

/// Read-only compatible feature: group descriptors have a crc16 checksum.
pub const RO_COMPAT_GDT_CSUM: u32 = 0x10;

/// Read-only compatible feature: metadata has crc32c checksums.
pub const RO_COMPAT_METADATA_CSUM: u32 = 0x400;

/// Incompatible feature: 64-bit block numbers and wide group descriptors.
pub const INCOMPAT_64BIT: u32 = 0x80;

/// The in-memory superblock.
pub struct SuperBlock {
    pub block_size: usize,
    pub inodes_count: u32,
    pub blocks_count: u64,
    pub first_data_block: u32,
    pub blocks_per_group: u32,
    pub inodes_per_group: u32,
    pub inode_size: usize,
    pub block_desc_size: usize,
    pub bg_count: u32,
    pub features_readonly: u32,
    pub uuid: Vec<u8>,
    /// The free inodes, kept in memory as inodes are handed out.
    pub free_inodes_count: u32,
    /// The superblock as it is on disk.
    pub raw: Vec<u8>,
}

/// Whether the group descriptor fields widen to 64 bits.
pub open spec fn desc_size_of(raw: Seq<u8>) -> nat {
    if le32(raw, 0x60) as int % 0x100 >= 0x80 && le16(raw, 0xFE) >= 64 {
        le16(raw, 0xFE)
    } else {
        32
    }
}

/// The block count of the raw superblock.
pub open spec fn blocks_count_of(raw: Seq<u8>) -> nat {
    if le32(raw, 0x60) as int % 0x100 >= 0x80 {
        le32(raw, 0x4) + le32(raw, 0x150) * 0x1_0000_0000
    } else {
        le32(raw, 0x4)
    }
}

/// Whether the raw superblock describes a file system this library opens.
pub open spec fn raw_sb_valid(raw: Seq<u8>) -> bool {
    &&& raw.len() == SB_SIZE
    &&& le16(raw, 0x38) == EXT4_MAGIC
    &&& le32(raw, 0x18) <= 2
    &&& le32(raw, 0x20) > 0
    &&& le32(raw, 0x28) > 0
    &&& le16(raw, 0x58) > 0
    &&& blocks_count_of(raw) > le32(raw, 0x14)
    &&& blocks_count_of(raw) + le32(raw, 0x20) <= u64::MAX
    &&& blocks_count_of(raw) <= 0x1_0000_0000_0000
    &&& (blocks_count_of(raw) - le32(raw, 0x14) + le32(raw, 0x20) - 1) / (le32(raw, 0x20) as int)
        <= u32::MAX
}

impl SuperBlock {
    /// The superblock's invariant.
    pub open spec fn wf(&self) -> bool {
        &&& self.block_size == 1024 || self.block_size == 2048 || self.block_size == 4096
        &&& self.blocks_per_group > 0
        &&& self.inodes_per_group > 0
        &&& self.inode_size > 0
        &&& self.block_desc_size >= 32
        &&& self.block_desc_size <= 0xffff
        &&& self.blocks_count > self.first_data_block
        &&& (self.blocks_count - self.first_data_block) / (self.blocks_per_group as int) <= u32::MAX
        &&& self.blocks_count + self.blocks_per_group <= u64::MAX
        &&& self.blocks_count <= 0x1_0000_0000_0000
        &&& self.bg_count == (self.blocks_count - self.first_data_block + self.blocks_per_group - 1)
            / (self.blocks_per_group as int)
        &&& self.raw@.len() == SB_SIZE
    }

    /// The fields that `from_raw` reads from a valid raw superblock.
    pub open spec fn matches_raw(&self, raw: Seq<u8>) -> bool {
        &&& self.raw@ == raw
        &&& self.block_size == 1024 * exp2_small(le32(raw, 0x18))
        &&& self.inodes_count == le32(raw, 0x0)
        &&& self.blocks_count == blocks_count_of(raw)
        &&& self.first_data_block == le32(raw, 0x14)
        &&& self.blocks_per_group == le32(raw, 0x20)
        &&& self.inodes_per_group == le32(raw, 0x28)
        &&& self.inode_size == le16(raw, 0x58)
        &&& self.block_desc_size == desc_size_of(raw)
        &&& self.features_readonly == le32(raw, 0x64)
        &&& self.free_inodes_count == le32(raw, 0x10)
        &&& self.uuid@ == raw.subrange(0x68, 0x78)
        &&& self.bg_count == (blocks_count_of(raw) - le32(raw, 0x14) + le32(raw, 0x20) - 1) / (le32(
            raw,
            0x20,
        ) as int)
    }

    /// Reads the superblock out of its 1024 raw bytes.
    pub fn from_raw(raw: Vec<u8>) -> (r: Result<SuperBlock, FsError>)
        requires
            raw@.len() == SB_SIZE,
        ensures
            match r {
                Ok(sb) => raw_sb_valid(raw@) && sb.wf() && sb.matches_raw(raw@),
                Err(e) => !raw_sb_valid(raw@) && e == FsError::InvalidFs,
            },
    {
        let magic = read_u16(&raw, 0x38);
        let log_block_size = read_u32(&raw, 0x18);
        let blocks_per_group = read_u32(&raw, 0x20);
        let inodes_per_group = read_u32(&raw, 0x28);
        let inode_size = read_u16(&raw, 0x58);
        let first_data_block = read_u32(&raw, 0x14);
        let incompat = read_u32(&raw, 0x60);
        let lo = read_u32(&raw, 0x4);
        let wide = incompat % 0x100 >= 0x80;
        let blocks_count: u64 = if wide {
            let hi = read_u32(&raw, 0x150);
            lo as u64 + (hi as u64) * 0x1_0000_0000
        } else {
            lo as u64
        };
        if magic != EXT4_MAGIC || log_block_size > 2 || blocks_per_group == 0 || inodes_per_group
            == 0 || inode_size == 0 || blocks_count <= first_data_block as u64 || blocks_count
            > u64::MAX - blocks_per_group as u64 || blocks_count > 0x1_0000_0000_0000 {
            return Err(FsError::InvalidFs);
        }
        let span: u64 = blocks_count - first_data_block as u64;
        let q: u64 = span / (blocks_per_group as u64);
        let r: u64 = span % (blocks_per_group as u64);
        proof {
            let d = blocks_per_group as int;
            lemma_fundamental_div_mod(span as int, d);
            lemma_mod_pos_bound(span as int, d);
            lemma_ceil_div(span as int, d);
            if r != 0 {
                assert(d >= 2);
                assert(q < u64::MAX) by (nonlinear_arith)
                    requires
                        span == d * q + r,
                        d >= 2,
                        r >= 1,
                        span <= u64::MAX,
                        q >= 0,
                ;
            }
        }
        let bg_count64: u64 = if r == 0 {
            q
        } else {
            q + 1
        };
        if bg_count64 > u32::MAX as u64 {
            return Err(FsError::InvalidFs);
        }
        let desc = read_u16(&raw, 0xFE);
        let block_desc_size: usize = if wide && desc >= 64 {
            desc as usize
        } else {
            32
        };
        let block_size: usize = if log_block_size == 0 {
            1024
        } else if log_block_size == 1 {
            2048
        } else {
            4096
        };
        let uuid = copy_range(&raw, 0x68, 16);
        let free_inodes_count = read_u32(&raw, 0x10);
        let inodes_count = read_u32(&raw, 0x0);
        let features_readonly = read_u32(&raw, 0x64);
        proof {
            lemma_le16_bound(raw@, 0xFE);
        }
        Ok(SuperBlock {
            block_size,
            inodes_count,
            blocks_count,
            first_data_block,
            blocks_per_group,
            inodes_per_group,
            inode_size: inode_size as usize,
            block_desc_size,
            bg_count: bg_count64 as u32,
            features_readonly,
            uuid,
            free_inodes_count,
            raw,
        })
    }

    /// The free inodes of the file system.
    pub fn get_free_inodes_count(&self) -> (r: u32)
        ensures
            r == self.free_inodes_count,
    {
        self.free_inodes_count
    }

    /// Takes one inode off the free inodes and records it in the transaction.
    pub fn dec_free_inodes_count(&mut self)
        requires
            old(self).free_inodes_count > 0,
        ensures
            final(self).free_inodes_count == old(self).free_inodes_count - 1,
            final(self).raw == old(self).raw,
            final(self).uuid == old(self).uuid,
            final(self).block_size == old(self).block_size,
            final(self).inodes_count == old(self).inodes_count,
            final(self).blocks_count == old(self).blocks_count,
            final(self).first_data_block == old(self).first_data_block,
            final(self).blocks_per_group == old(self).blocks_per_group,
            final(self).inodes_per_group == old(self).inodes_per_group,
            final(self).inode_size == old(self).inode_size,
            final(self).block_desc_size == old(self).block_desc_size,
            final(self).bg_count == old(self).bg_count,
            final(self).features_readonly == old(self).features_readonly,
    {
        self.free_inodes_count = self.free_inodes_count - 1;
    }
}

/// `2^n` for the small exponents of the block size.
pub open spec fn exp2_small(n: nat) -> nat {
    if n == 0 {
        1
    } else if n == 1 {
        2
    } else {
        4
    }
}

proof fn lemma_ceil_div(x: int, d: int)
    requires
        x >= 0,
        d > 0,
    ensures
        (x + d - 1) / d == x / d + if x % d == 0 {
            0int
        } else {
            1int
        },
{
    lemma_fundamental_div_mod(x, d);
    lemma_mod_pos_bound(x, d);
    let q = x / d;
    let r = x % d;
    lemma_mul_is_commutative(d, q);
    if r == 0 {
        lemma_fundamental_div_mod_converse(x + d - 1, d, q, d - 1);
    } else {
        assert((q + 1) * d == q * d + d) by (nonlinear_arith);
        lemma_fundamental_div_mod_converse(x + d - 1, d, q + 1, r - 1);
    }
}

/// A group before the last starts before the end of the blocks.
pub proof fn lemma_group_start(g: int, s: int, b: int)
    requires
        b > 0,
        s > 0,
        0 <= g < (s + b - 1) / b,
    ensures
        g * b < s,
{
    lemma_fundamental_div_mod(s + b - 1, b);
    lemma_mod_pos_bound(s + b - 1, b);
    let q = (s + b - 1) / b;
    assert(g * b <= (q - 1) * b) by (nonlinear_arith)
        requires
            g <= q - 1,
            b > 0,
    ;
    assert((q - 1) * b == b * q - b) by (nonlinear_arith);
}

/// The group and the index inside the group of inode `ino`.
pub open spec fn inode_place(ino: nat, ipg: nat) -> (nat, nat) {
    (((ino - 1) / (ipg as int)) as nat, ((ino - 1) % (ipg as int)) as nat)
}

/// The group and the index inside the group of block `lba`.
pub open spec fn block_place(lba: nat, fdb: nat, bpg: nat) -> (nat, nat) {
    (((lba - fdb) / (bpg as int)) as nat, ((lba - fdb) % (bpg as int)) as nat)
}

impl InodeNumber {
    /// The group of the inode and its index in that group.
    pub fn into_bgid_index(&self, sb: &SuperBlock) -> (r: (BlockGroupId, usize))
        requires
            self.0 >= 1,
            sb.inodes_per_group > 0,
        ensures
            (r.0.0 as nat, r.1 as nat) == inode_place(self.0 as nat, sb.inodes_per_group as nat),
            r.1 < sb.inodes_per_group,
    {
        let ipg = sb.inodes_per_group;
        let g = (self.0 - 1) / ipg;
        let i = (self.0 - 1) % ipg;
        (BlockGroupId(g), i as usize)
    }

    /// The inode at index `index` of group `bgid`.
    pub fn from_bgid_index(bgid: BlockGroupId, index: usize, sb: &SuperBlock) -> (r: InodeNumber)
        requires
            bgid.0 as int * sb.inodes_per_group as int + index + 1 <= u32::MAX,
        ensures
            r.0 == bgid.0 as int * sb.inodes_per_group as int + index + 1,
    {
        proof {
            lemma_mul_inequality(0, bgid.0 as int, sb.inodes_per_group as int);
        }
        InodeNumber(bgid.0 * sb.inodes_per_group + index as u32 + 1)
    }
}

impl LogicalBlockNumber {
    /// The group of the block and its index in that group, when the block
    /// lies inside the file system's groups.
    pub fn into_bgid_index(&self, sb: &SuperBlock) -> (r: Option<(BlockGroupId, usize)>)
        requires
            sb.wf(),
        ensures
            match r {
                Some((g, i)) => {
                    &&& sb.first_data_block <= self.0 < sb.blocks_count
                    &&& (g.0 as nat, i as nat) == block_place(
                        self.0 as nat,
                        sb.first_data_block as nat,
                        sb.blocks_per_group as nat,
                    )
                    &&& i < sb.blocks_per_group
                },
                None => self.0 < sb.first_data_block || self.0 >= sb.blocks_count,
            },
    {
        if self.0 < sb.first_data_block as u64 || self.0 >= sb.blocks_count {
            return None;
        }
        let rel = self.0 - sb.first_data_block as u64;
        let bpg = sb.blocks_per_group as u64;
        let g = rel / bpg;
        let i = rel % bpg;
        proof {
            lemma_div_is_ordered(rel as int, sb.blocks_count - sb.first_data_block, bpg as int);
        }
        Some((BlockGroupId(g as u32), i as usize))
    }

    /// The block at index `index` of group `bgid`.
    pub fn from_bgid_index(bgid: BlockGroupId, index: usize, sb: &SuperBlock) -> (r:
        LogicalBlockNumber)
        requires
            sb.first_data_block + bgid.0 as int * sb.blocks_per_group as int + index <= u64::MAX,
        ensures
            r.0 == sb.first_data_block + bgid.0 as int * sb.blocks_per_group as int + index,
    {
        proof {
            lemma_mul_inequality(0, bgid.0 as int, sb.blocks_per_group as int);
        }
        LogicalBlockNumber(
            sb.first_data_block as u64 + (bgid.0 as u64) * (sb.blocks_per_group as u64)
                + index as u64,
        )
    }
}

impl BlockGroupId {
    /// The block that holds the descriptor of this group and the descriptor's
    /// byte offset in it: descriptors follow the superblock's block.
    pub fn into_lba_index(&self, sb: &SuperBlock) -> (r: (LogicalBlockNumber, usize))
        requires
            sb.wf(),
        ensures
            r.0.0 == sb.first_data_block + 1 + (self.0 as int * sb.block_desc_size as int)
                / sb.block_size as int,
            r.1 == (self.0 as int * sb.block_desc_size as int) % sb.block_size as int,
    {
        proof {
            let a = self.0 as int;
            let b = sb.block_desc_size as int;
            assert(a * b <= 0xffff_ffff * 0xffff) by (nonlinear_arith)
                requires
                    0 <= a <= 0xffff_ffff,
                    0 <= b <= 0xffff,
            ;
        }
        let off: u64 = (self.0 as u64) * (sb.block_desc_size as u64);
        let lba = sb.first_data_block as u64 + 1 + off / (sb.block_size as u64);
        let idx = off % (sb.block_size as u64);
        (LogicalBlockNumber(lba), idx as usize)
    }
}

/// An inode maps to a group and an index, and back to itself.
pub proof fn lemma_inode_place_roundtrip(ino: nat, ipg: nat)
    requires
        ino >= 1,
        ipg > 0,
    ensures
        inode_place(ino, ipg).0 * ipg + inode_place(ino, ipg).1 + 1 == ino,
        inode_place(ino, ipg).1 < ipg,
{
    lemma_fundamental_div_mod((ino - 1) as int, ipg as int);
    lemma_mod_pos_bound((ino - 1) as int, ipg as int);
    lemma_mul_is_commutative(ipg as int, (ino - 1) as int / ipg as int);
}

/// A group and an index inside it map to an inode that maps back to them.
pub proof fn lemma_inode_index_roundtrip(g: nat, i: nat, ipg: nat)
    requires
        i < ipg,
    ensures
        inode_place(g * ipg + i + 1, ipg) == (g, i),
{
    lemma_fundamental_div_mod_converse((g * ipg + i) as int, ipg as int, g as int, i as int);
}

/// A block inside the groups maps to a group and an index, and back to itself.
pub proof fn lemma_block_place_roundtrip(lba: nat, fdb: nat, bpg: nat)
    requires
        lba >= fdb,
        bpg > 0,
    ensures
        fdb + block_place(lba, fdb, bpg).0 * bpg + block_place(lba, fdb, bpg).1 == lba,
        block_place(lba, fdb, bpg).1 < bpg,
{
    lemma_fundamental_div_mod((lba - fdb) as int, bpg as int);
    lemma_mod_pos_bound((lba - fdb) as int, bpg as int);
    lemma_mul_is_commutative(bpg as int, (lba - fdb) as int / bpg as int);
}

/// A group and an index inside it map to a block that maps back to them.
pub proof fn lemma_block_index_roundtrip(g: nat, i: nat, fdb: nat, bpg: nat)
    requires
        i < bpg,
    ensures
        block_place(fdb + g * bpg + i, fdb, bpg) == (g, i),
{
    lemma_fundamental_div_mod_converse((g * bpg + i) as int, bpg as int, g as int, i as int);
}

} // verus!
