//! Applying the events of a transaction: they are first folded into the
//! changes they make to block groups, to the superblock, to inodes and to
//! bitmaps, and the changes are then written into the transaction's blocks.
use vstd::prelude::*;
use crate::bitmap::{bitmap_bit, fill_range};
use crate::bytes::{le16, le32, paste, read_u16, read_u32, same_outside, write_u16, write_u32};
use crate::inode_alloc::groups_kept;
use crate::block_group::{apply_delta, desc_csum, desc_free_blocks, desc_free_inodes, desc_len_ok, desc_used_dirs, field_stored, get_field16, update_descriptor};
use crate::bytes::copy_range;
use crate::superblock::inode_place;
use crate::filesystem::{Config, FileSystem};
use crate::transaction::{
    Collector, Event, Events, InodeAddLink, InodeRmLink, InodeSetSize, InodeUpdateOrphanLink, PostludeOps,
    BlockAllocationOnBg, BlockDeallocationOnBg, InodeAllocationOnBg, InodeDeallocationOnBg,
};
use crate::types::{BlockGroupId, FileType, FsError, InodeNumber, LogicalBlockNumber};

verus! {

/// The changes of the counts of a block group.
#[derive(Clone, Copy, Debug)]
pub struct BgDelta {
    pub free_blocks_cnt_delta: i64,
    pub free_inodes_cnt_delta: i64,
    pub used_dirs_cnt_delta: i64,
    pub max_alloc_idx_in_bg: Option<u32>,
}

/// The changes of the counts of the superblock.
#[derive(Clone, Copy, Debug)]
pub struct SbDelta {
    pub free_inodes_cnt_delta: i64,
    pub free_blocks_cnt_delta: i64,
}

/// A change of an inode.
#[derive(Debug)]
pub enum InodeOps {
    AddLink(InodeAddLink),
    RmLink(InodeRmLink),
    Init(InodeNumber, FileType),
    SetSize(InodeSetSize),
    UpdateOrphanLink(InodeUpdateOrphanLink),
    SetBlock { ino: InodeNumber, cnt: i64 },
}

/// A group with no change.
pub open spec fn no_delta() -> BgDelta {
    BgDelta { free_blocks_cnt_delta: 0, free_inodes_cnt_delta: 0, used_dirs_cnt_delta: 0, max_alloc_idx_in_bg: None }
}

impl BgDelta {
    /// A group with no change.
    pub fn new() -> (r: BgDelta)
        ensures
            r == no_delta(),
    {
        BgDelta { free_blocks_cnt_delta: 0, free_inodes_cnt_delta: 0, used_dirs_cnt_delta: 0, max_alloc_idx_in_bg: None }
    }
}

/// The changes of block groups, by group number, in a `hashbrown::HashMap`.
/// What it holds is named by `delta_entries`; the wrappers below are the only
/// way in and out.
#[verifier::external_body]
pub struct DeltaMap {
    inner: hashbrown::HashMap<u32, BgDelta>,
}

/// What a `DeltaMap` holds: each group number with its change.
pub uninterp spec fn delta_entries(m: DeltaMap) -> Map<u32, BgDelta>;

/// Calls `hashbrown::HashMap::new`, trusted to give a map with no entry.
#[verifier::external_body]
fn delta_map_new() -> (r: DeltaMap)
    ensures
        forall|k: u32| !#[trigger] delta_entries(r).contains_key(k),
        delta_entries(r).dom().finite(),
{
    DeltaMap { inner: hashbrown::HashMap::new() }
}

/// Calls `hashbrown::HashMap::get`, trusted to give (a copy of) the value
/// held for `k`, or `None` when `k` has no entry.
#[verifier::external_body]
fn delta_map_get(m: &DeltaMap, k: u32) -> (r: Option<BgDelta>)
    ensures
        r == if delta_entries(*m).contains_key(k) {
            Some(delta_entries(*m)[k])
        } else {
            None::<BgDelta>
        },
{
    m.inner.get(&k).copied()
}

/// Calls `hashbrown::HashMap::insert`, trusted to leave the map with `k`
/// holding `v` and every other entry as it was.
#[verifier::external_body]
fn delta_map_insert(m: &mut DeltaMap, k: u32, v: BgDelta)
    ensures
        delta_entries(*final(m)) == delta_entries(*old(m)).insert(k, v),
{
    m.inner.insert(k, v);
}

/// Collects `hashbrown::HashMap::into_iter`, trusted to yield every entry
/// of the map exactly once; the order in which it does is left unsaid.
#[verifier::external_body]
fn delta_map_into_vec(m: DeltaMap) -> (r: Vec<(u32, BgDelta)>)
    ensures
        r@.len() == delta_entries(m).dom().len(),
        forall|i: int| 0 <= i < r@.len() ==> #[trigger] delta_entries(m).contains_key(r@[i].0) && r@[i].1
            == delta_entries(m)[r@[i].0],
        forall|i: int, j: int| 0 <= i < j < r@.len() ==> #[trigger] r@[i].0 != #[trigger] r@[j].0,
{
    m.inner.into_iter().collect()
}

/// New images of bitmap blocks, by block number, in a `hashbrown::HashMap`.
/// What it holds is named by `bitmap_entries`; the wrappers below are the
/// only way in and out.
#[verifier::external_body]
pub struct BitmapMap {
    inner: hashbrown::HashMap<u64, Vec<u8>>,
}

/// What a `BitmapMap` holds: each block number with its image.
pub uninterp spec fn bitmap_entries(m: BitmapMap) -> Map<u64, Seq<u8>>;

/// Calls `hashbrown::HashMap::new`, trusted to give a map with no entry.
#[verifier::external_body]
fn bitmap_map_new() -> (r: BitmapMap)
    ensures
        forall|k: u64| !#[trigger] bitmap_entries(r).contains_key(k),
        bitmap_entries(r).dom().finite(),
{
    BitmapMap { inner: hashbrown::HashMap::new() }
}

/// Calls `hashbrown::HashMap::get`, trusted to give a copy of the image held
/// for `k`, or `None` when `k` has no entry.
#[verifier::external_body]
fn bitmap_map_get(m: &BitmapMap, k: u64) -> (r: Option<Vec<u8>>)
    ensures
        match r {
            Some(v) => bitmap_entries(*m).contains_key(k) && v@ == bitmap_entries(*m)[k],
            None => !bitmap_entries(*m).contains_key(k),
        },
{
    m.inner.get(&k).cloned()
}

/// Calls `hashbrown::HashMap::insert`, trusted to leave the map with `k`
/// holding `v` and every other entry as it was.
#[verifier::external_body]
fn bitmap_map_insert(m: &mut BitmapMap, k: u64, v: Vec<u8>)
    ensures
        bitmap_entries(*final(m)) == bitmap_entries(*old(m)).insert(k, v@),
{
    m.inner.insert(k, v);
}

/// Collects `hashbrown::HashMap::into_iter`, trusted to yield every entry
/// of the map exactly once; the order in which it does is left unsaid.
#[verifier::external_body]
fn bitmap_map_into_vec(m: BitmapMap) -> (r: Vec<(u64, Vec<u8>)>)
    ensures
        r@.len() == bitmap_entries(m).dom().len(),
        forall|i: int| 0 <= i < r@.len() ==> #[trigger] bitmap_entries(m).contains_key(r@[i].0) && r@[i].1@
            == bitmap_entries(m)[r@[i].0],
        forall|i: int, j: int| 0 <= i < j < r@.len() ==> #[trigger] r@[i].0 != #[trigger] r@[j].0,
{
    m.inner.into_iter().collect()
}

/// The changes that a transaction's events make, gathered before they are written.
pub struct WritebackGroup {
    pub new_bitmap: BitmapMap,
    pub bg_deltas: DeltaMap,
    pub sb_delta: Option<SbDelta>,
    pub inode_ops: Vec<InodeOps>,
}

/// The change of group `g` in `m`, or none.
pub open spec fn delta_of(m: Map<u32, BgDelta>, g: u32) -> BgDelta {
    if m.contains_key(g) {
        m[g]
    } else {
        no_delta()
    }
}

/// The change of the superblock, or none.
pub open spec fn sb_of(s: Option<SbDelta>) -> SbDelta {
    match s {
        Some(d) => d,
        None => SbDelta { free_inodes_cnt_delta: 0, free_blocks_cnt_delta: 0 },
    }
}

/// The group changes after event `e`.
pub open spec fn bg_step(m: Map<u32, BgDelta>, e: Event) -> Map<u32, BgDelta> {
    match e {
        Event::BlockAllocationOnBg(a) => {
            let d = delta_of(m, a.bgid.0);
            m.insert(a.bgid.0, BgDelta { free_blocks_cnt_delta: (d.free_blocks_cnt_delta - a.count) as i64, ..d })
        },
        Event::BlockDeallocationOnBg(a) => {
            let d = delta_of(m, a.bgid.0);
            m.insert(a.bgid.0, BgDelta { free_blocks_cnt_delta: (d.free_blocks_cnt_delta + a.count) as i64, ..d })
        },
        Event::InodeAllocationOnBg(a) => {
            let d = delta_of(m, a.bgid.0);
            m.insert(
                a.bgid.0,
                BgDelta {
                    free_inodes_cnt_delta: (d.free_inodes_cnt_delta - 1) as i64,
                    used_dirs_cnt_delta: if a.de == FileType::Directory {
                        (d.used_dirs_cnt_delta + 1) as i64
                    } else {
                        d.used_dirs_cnt_delta
                    },
                    max_alloc_idx_in_bg: match d.max_alloc_idx_in_bg {
                        Some(p) => Some(if p >= a.ofs as u32 { p } else { a.ofs as u32 }),
                        None => Some(a.ofs as u32),
                    },
                    ..d
                },
            )
        },
        Event::InodeDeallocationOnBg(a) => {
            let d = delta_of(m, a.bgid.0);
            m.insert(
                a.bgid.0,
                BgDelta {
                    free_inodes_cnt_delta: (d.free_inodes_cnt_delta + 1) as i64,
                    used_dirs_cnt_delta: if a.de == FileType::Directory {
                        (d.used_dirs_cnt_delta - 1) as i64
                    } else {
                        d.used_dirs_cnt_delta
                    },
                    ..d
                },
            )
        },
        _ => m,
    }
}

/// The superblock change after event `e`.
pub open spec fn sb_step(s: Option<SbDelta>, e: Event) -> Option<SbDelta> {
    let d = sb_of(s);
    match e {
        Event::BlockAllocationOnBg(a) => Some(
            SbDelta { free_blocks_cnt_delta: (d.free_blocks_cnt_delta - a.count) as i64, ..d },
        ),
        Event::BlockDeallocationOnBg(a) => Some(
            SbDelta { free_blocks_cnt_delta: (d.free_blocks_cnt_delta + a.count) as i64, ..d },
        ),
        Event::FreeInodesCountDecOnSb => Some(
            SbDelta { free_inodes_cnt_delta: (d.free_inodes_cnt_delta - 1) as i64, ..d },
        ),
        Event::FreeInodesCountIncOnSb => Some(
            SbDelta { free_inodes_cnt_delta: (d.free_inodes_cnt_delta + 1) as i64, ..d },
        ),
        _ => s,
    }
}

/// The inode changes that event `e` adds, for groups of `ipg` inodes.
pub open spec fn ops_step(e: Event, ipg: u32) -> Seq<InodeOps> {
    match e {
        Event::BlockAllocationOnBg(a) => seq![InodeOps::SetBlock { ino: a.ino, cnt: a.count as i64 }],
        Event::BlockDeallocationOnBg(a) => seq![InodeOps::SetBlock { ino: a.ino, cnt: -1i64 }],
        Event::InodeUpdateOrphanLink(l) => seq![InodeOps::UpdateOrphanLink(l)],
        Event::InodeAllocationOnBg(a) => seq![
            InodeOps::Init(InodeNumber((a.bgid.0 * ipg + a.ofs + 1) as u32), a.de),
        ],
        Event::InodeAddLink(l) => seq![InodeOps::AddLink(l)],
        Event::InodeRmLink(l) => seq![InodeOps::RmLink(l)],
        Event::InodeSetSize(s) => seq![InodeOps::SetSize(s)],
        _ => Seq::empty(),
    }
}

/// The work left for after the transaction that event `e` adds.
pub open spec fn post_step(e: Event) -> Seq<PostludeOps> {
    match e {
        Event::BlockDeallocationOnBg(a) => seq![
            PostludeOps::BlockDeallocation { bgid: a.bgid, ofs: a.ofs, count: a.count },
        ],
        Event::InodeDeallocationOnBg(a) => seq![PostludeOps::InodeDeallocation(a.ino)],
        _ => Seq::empty(),
    }
}

/// The group changes of the events `es`.
pub open spec fn bg_fold(es: Seq<Event>) -> Map<u32, BgDelta>
    decreases es.len(),
{
    if es.len() == 0 {
        Map::empty()
    } else {
        bg_step(bg_fold(es.drop_last()), es.last())
    }
}

/// The superblock change of the events `es`.
pub open spec fn sb_fold(es: Seq<Event>) -> Option<SbDelta>
    decreases es.len(),
{
    if es.len() == 0 {
        None
    } else {
        sb_step(sb_fold(es.drop_last()), es.last())
    }
}

/// The inode changes of the events `es`, in order.
pub open spec fn ops_fold(es: Seq<Event>, ipg: u32) -> Seq<InodeOps>
    decreases es.len(),
{
    if es.len() == 0 {
        Seq::empty()
    } else {
        ops_fold(es.drop_last(), ipg) + ops_step(es.last(), ipg)
    }
}

/// The work for after the transaction of the events `es`, in order.
pub open spec fn post_fold(es: Seq<Event>) -> Seq<PostludeOps>
    decreases es.len(),
{
    if es.len() == 0 {
        Seq::empty()
    } else {
        post_fold(es.drop_last()) + post_step(es.last())
    }
}

/// The bitmap range that event `e` sets or clears: the block, the first
/// bit, the number of bits and whether they are set.
pub open spec fn bits_step(e: Event) -> Option<(u64, nat, nat, bool)> {
    match e {
        Event::BlockAllocationOnBg(a) => Some((a.bitmap_lba.0, a.ofs as nat, a.count as nat, true)),
        Event::BlockDeallocationOnBg(a) => Some((a.bitmap_lba.0, a.ofs as nat, a.count as nat, false)),
        Event::InodeAllocationOnBg(a) => Some((a.bitmap_lba.0, a.ofs as nat, 1, true)),
        Event::InodeDeallocationOnBg(a) => Some((a.bitmap_lba.0, a.ofs as nat, 1, false)),
        _ => None,
    }
}

/// Whether `x` fits in an `i64`.
pub open spec fn in_i64(x: int) -> bool {
    i64::MIN <= x <= i64::MAX
}

/// Folding event `e` into the group changes `m` and the superblock change
/// `s` keeps every count within an `i64`, and the inode it allocates has a
/// number within a `u32` (`ipg` inodes per group).
pub open spec fn step_ok(m: Map<u32, BgDelta>, s: Option<SbDelta>, e: Event, ipg: u32) -> bool {
    let sd = sb_of(s);
    match e {
        Event::BlockAllocationOnBg(a) => {
            let d = delta_of(m, a.bgid.0);
            &&& a.count <= i64::MAX
            &&& in_i64(d.free_blocks_cnt_delta - a.count)
            &&& in_i64(sd.free_blocks_cnt_delta - a.count)
        },
        Event::BlockDeallocationOnBg(a) => {
            let d = delta_of(m, a.bgid.0);
            &&& a.count <= i64::MAX
            &&& in_i64(d.free_blocks_cnt_delta + a.count)
            &&& in_i64(sd.free_blocks_cnt_delta + a.count)
        },
        Event::InodeAllocationOnBg(a) => {
            let d = delta_of(m, a.bgid.0);
            &&& a.ofs <= u32::MAX
            &&& a.bgid.0 * ipg + a.ofs + 1 <= u32::MAX
            &&& in_i64(d.free_inodes_cnt_delta - 1)
            &&& a.de == FileType::Directory ==> in_i64(d.used_dirs_cnt_delta + 1)
        },
        Event::InodeDeallocationOnBg(a) => {
            let d = delta_of(m, a.bgid.0);
            &&& in_i64(d.free_inodes_cnt_delta + 1)
            &&& a.de == FileType::Directory ==> in_i64(d.used_dirs_cnt_delta - 1)
        },
        Event::FreeInodesCountDecOnSb => in_i64(sd.free_inodes_cnt_delta - 1),
        Event::FreeInodesCountIncOnSb => in_i64(sd.free_inodes_cnt_delta + 1),
        _ => true,
    }
}

/// Inodes of group `g` that the events `es` give back, less those they take.
pub open spec fn inodes_net(es: Seq<Event>, g: u32) -> int
    decreases es.len(),
{
    if es.len() == 0 {
        0
    } else {
        inodes_net(es.drop_last(), g) + match es.last() {
            Event::InodeDeallocationOnBg(a) => if a.bgid.0 == g { 1int } else { 0 },
            Event::InodeAllocationOnBg(a) => if a.bgid.0 == g { -1int } else { 0 },
            _ => 0,
        }
    }
}

/// Blocks of group `g` that the events `es` give back, less those they take.
pub open spec fn blocks_net(es: Seq<Event>, g: u32) -> int
    decreases es.len(),
{
    if es.len() == 0 {
        0
    } else {
        blocks_net(es.drop_last(), g) + match es.last() {
            Event::BlockDeallocationOnBg(a) => if a.bgid.0 == g { a.count as int } else { 0 },
            Event::BlockAllocationOnBg(a) => if a.bgid.0 == g { -(a.count as int) } else { 0 },
            _ => 0,
        }
    }
}

/// Directories of group `g` that the events `es` create, less those they
/// remove.
pub open spec fn dirs_net(es: Seq<Event>, g: u32) -> int
    decreases es.len(),
{
    if es.len() == 0 {
        0
    } else {
        dirs_net(es.drop_last(), g) + match es.last() {
            Event::InodeAllocationOnBg(a) => if a.bgid.0 == g && a.de == FileType::Directory { 1int } else { 0 },
            Event::InodeDeallocationOnBg(a) => if a.bgid.0 == g && a.de == FileType::Directory { -1int } else { 0 },
            _ => 0,
        }
    }
}

/// Blocks that the events `es` give back in all groups, less those they take.
pub open spec fn sb_blocks_net(es: Seq<Event>) -> int
    decreases es.len(),
{
    if es.len() == 0 {
        0
    } else {
        sb_blocks_net(es.drop_last()) + match es.last() {
            Event::BlockDeallocationOnBg(a) => a.count as int,
            Event::BlockAllocationOnBg(a) => -(a.count as int),
            _ => 0,
        }
    }
}

/// Superblock free-inode increments among the events `es`, less decrements.
pub open spec fn sb_inodes_net(es: Seq<Event>) -> int
    decreases es.len(),
{
    if es.len() == 0 {
        0
    } else {
        sb_inodes_net(es.drop_last()) + match es.last() {
            Event::FreeInodesCountIncOnSb => 1int,
            Event::FreeInodesCountDecOnSb => -1int,
            _ => 0,
        }
    }
}

/// Every event of `es` folds into the changes of the events before it
/// within the counts' range.
pub open spec fn fold_ok(es: Seq<Event>, ipg: u32) -> bool {
    forall|i: int| 0 <= i < es.len() ==> #[trigger] step_ok(bg_fold(es.take(i)), sb_fold(es.take(i)), es[i], ipg)
}

/// The change that folding events within the counts' range makes to a
/// group's counts is what the events count for that group: inodes and
/// blocks given back less those taken, and directories created less those
/// removed; the superblock's change counts over all groups.
pub proof fn lemma_fold_counts(es: Seq<Event>, ipg: u32, g: u32)
    requires
        fold_ok(es, ipg),
    ensures
        delta_of(bg_fold(es), g).free_inodes_cnt_delta == inodes_net(es, g),
        delta_of(bg_fold(es), g).free_blocks_cnt_delta == blocks_net(es, g),
        delta_of(bg_fold(es), g).used_dirs_cnt_delta == dirs_net(es, g),
        sb_of(sb_fold(es)).free_blocks_cnt_delta == sb_blocks_net(es),
        sb_of(sb_fold(es)).free_inodes_cnt_delta == sb_inodes_net(es),
    decreases es.len(),
{
    if es.len() > 0 {
        let n = es.len() - 1;
        let p = es.drop_last();
        assert forall|i: int| 0 <= i < p.len() implies #[trigger] step_ok(bg_fold(p.take(i)), sb_fold(p.take(i)), p[i], ipg) by {
            assert(p.take(i) =~= es.take(i));
            assert(p[i] == es[i]);
            assert(step_ok(bg_fold(es.take(i)), sb_fold(es.take(i)), es[i], ipg));
        }
        lemma_fold_counts(p, ipg, g);
        assert(es.take(n) =~= p);
        assert(step_ok(bg_fold(es.take(n)), sb_fold(es.take(n)), es[n], ipg));
        assert(es.last() == es[n]);
    }
}

/// The superblock's free inode and free block counts in `raw` stay within
/// their fields once `d` is added to them.
pub open spec fn sb_fits(raw: Seq<u8>, d: SbDelta) -> bool {
    &&& 0 <= le32(raw, S_FREE_INODES as int) + d.free_inodes_cnt_delta <= u32::MAX
    &&& 0 <= le32(raw, S_FREE_BLOCKS_LO as int) + le32(raw, S_FREE_BLOCKS_HI as int) * 0x1_0000_0000
        + d.free_blocks_cnt_delta <= u64::MAX
}

/// The group change `d` changes no count.
pub open spec fn delta_zero(d: BgDelta) -> bool {
    d.free_blocks_cnt_delta == 0 && d.free_inodes_cnt_delta == 0 && d.used_dirs_cnt_delta == 0
}

/// The inode change `op` touches no inode block: it is a fresh inode's, or
/// it sets the head of the orphan list.
pub open spec fn no_block_op(op: InodeOps) -> bool {
    op is Init || (op matches InodeOps::UpdateOrphanLink(l) && l.pred.0 == 0)
}

/// None of the events `es` sets or clears bitmap bits.
pub open spec fn no_bits(es: Seq<Event>) -> bool {
    forall|i: int| 0 <= i < es.len() ==> #[trigger] bits_step(es[i]) is None
}

/// The bits that event `e` sets or clears lie in a bitmap image that `bm`
/// already holds, of `bs` bytes.
pub open spec fn bits_ready(bm: Map<u64, Seq<u8>>, e: Event, bs: nat) -> bool {
    match bits_step(e) {
        Some((l, o, n, _)) => bm.contains_key(l) && o + n <= bs * 8,
        None => true,
    }
}

/// The bits that event `e` sets or clears lie in a block of `bs` bytes.
pub open spec fn range_fits(e: Event, bs: nat) -> bool {
    match bits_step(e) {
        Some((_, o, n, _)) => o + n <= bs * 8,
        None => true,
    }
}

/// Every event of `es` sets or clears bits within a block of `bs` bytes.
pub open spec fn ranges_fit(es: Seq<Event>, bs: nat) -> bool {
    forall|i: int| 0 <= i < es.len() ==> #[trigger] range_fits(es[i], bs)
}

/// Event `j` of `es` folds into the changes of the events before it and
/// fits a block of `bs` bytes.
spec fn step_fine(es: Seq<Event>, j: int, ipg: u32, bs: nat) -> bool {
    step_ok(bg_fold(es.take(j)), sb_fold(es.take(j)), es[j], ipg) && range_fits(es[j], bs)
}

/// Events that each fold and fit make a sequence that folds and fits.
proof fn lemma_all_steps(es: Seq<Event>, ipg: u32, bs: nat)
    requires
        forall|j: int| 0 <= j < es.len() ==> #[trigger] step_fine(es, j, ipg, bs),
    ensures
        fold_ok(es, ipg),
        ranges_fit(es, bs),
{
    assert forall|j: int| 0 <= j < es.len() implies #[trigger] step_ok(bg_fold(es.take(j)), sb_fold(es.take(j)), es[j], ipg) by {
        assert(step_fine(es, j, ipg, bs));
    }
    assert forall|j: int| 0 <= j < es.len() implies #[trigger] range_fits(es[j], bs) by {
        assert(step_fine(es, j, ipg, bs));
    }
}

/// When `m0` held no image of block `lba`, the image `m` holds of it was
/// made from an outcome of reading the block from the device `conf`: it
/// keeps that block's bits outside `[ofs, ofs + count)`.
pub open spec fn fresh_from_device<C: Config>(
    conf: &C,
    bs: nat,
    m0: Map<u64, Seq<u8>>,
    m: Map<u64, Seq<u8>>,
    lba: u64,
    ofs: nat,
    count: nat,
) -> bool {
    !m0.contains_key(lba) ==> exists|b: Seq<u8>|
        #[trigger] crate::filesystem::block_read(conf, lba, bs, Ok::<Seq<u8>, FsError>(b)) && forall|p: nat|
            p < m[lba].len() * 8 && !(ofs <= p < ofs + count) ==> #[trigger] bitmap_bit(m[lba], p) == bitmap_bit(b, p)
}

/// The image `img` of block `k` was made from an outcome of reading the
/// block from the device `conf`: it keeps that block's bits that none of the
/// events `es` sets or clears.
pub open spec fn img_from_device<C: Config>(conf: &C, bs: nat, es: Seq<Event>, k: u64, img: Seq<u8>) -> bool {
    exists|b: Seq<u8>|
        #[trigger] crate::filesystem::block_read(conf, k, bs, Ok::<Seq<u8>, FsError>(b)) && forall|p: nat|
            p < img.len() * 8 && !touched(es, k, p) ==> #[trigger] bitmap_bit(img, p) == bitmap_bit(b, p)
}

/// Every image of `m` was made from a read of its block from the device.
pub open spec fn from_device<C: Config>(conf: &C, bs: nat, es: Seq<Event>, m: Map<u64, Seq<u8>>) -> bool {
    forall|k: u64| #[trigger] m.contains_key(k) ==> img_from_device(conf, bs, es, k, m[k])
}

/// Whether one of the events `es` sets or clears bit `p` of block `lba`.
pub open spec fn touched(es: Seq<Event>, lba: u64, p: nat) -> bool {
    exists|i: int| 0 <= i < es.len() && (#[trigger] bits_step(es[i]) matches Some((l, o, n, _)) && l == lba && o <= p < o + n)
}

/// Block `lba` is the bitmap block of one of the events `es`.
pub open spec fn names_block(es: Seq<Event>, lba: u64) -> bool {
    exists|i: int| 0 <= i < es.len() && (#[trigger] bits_step(es[i]) matches Some((l, _, _, _)) && l == lba)
}

/// Bit `p` of block `lba` after the events `es`, starting from `base`.
pub open spec fn bit_after(es: Seq<Event>, lba: u64, p: nat, base: bool) -> bool
    decreases es.len(),
{
    if es.len() == 0 {
        base
    } else {
        match bits_step(es.last()) {
            Some((l, o, n, on)) => if l == lba && o <= p < o + n {
                on
            } else {
                bit_after(es.drop_last(), lba, p, base)
            },
            None => bit_after(es.drop_last(), lba, p, base),
        }
    }
}

/// `a + b`, when it fits in an `i64`.
fn delta_add(a: i64, b: i64) -> (r: Option<i64>)
    ensures
        r == if i64::MIN <= a + b <= i64::MAX {
            Some((a + b) as i64)
        } else {
            None::<i64>
        },
{
    if b >= 0 {
        if a > i64::MAX - b {
            None
        } else {
            Some(a + b)
        }
    } else {
        if a < i64::MIN - b {
            None
        } else {
            Some(a + b)
        }
    }
}

/// The bitmap images of `m`: each is a block of `bs` bytes.
pub open spec fn bitmaps_ok(m: Map<u64, Seq<u8>>, bs: nat) -> bool {
    forall|k: u64| #[trigger] m.contains_key(k) ==> m[k].len() == bs
}

/// Block `k` holds the descriptor of a group whose counts `deltas` changes.
pub open spec fn desc_touched(deltas: Map<u32, BgDelta>, sb: crate::superblock::SuperBlock, k: u64) -> bool {
    exists|g: u32| deltas.contains_key(g) && !delta_zero(deltas[g]) && #[trigger] desc_lba(sb, g) == k as int
}

/// The block images `c` are `c0` with the bitmap images `bm` and the
/// descriptors of the groups that `deltas` changes written over it: a
/// bitmap block holds its image unless it holds a changed descriptor, and
/// every other block is as in `c0`.
pub open spec fn staged(
    c0: Map<u64, Seq<u8>>,
    c: Map<u64, Seq<u8>>,
    bm: Map<u64, Seq<u8>>,
    deltas: Map<u32, BgDelta>,
    sb: crate::superblock::SuperBlock,
) -> bool {
    &&& forall|k: u64| #[trigger] c.contains_key(k) <==> (c0.contains_key(k) || bm.contains_key(k) || desc_touched(deltas, sb, k))
    &&& forall|k: u64|
        #[trigger] c.contains_key(k) && !bm.contains_key(k) && !desc_touched(deltas, sb, k) ==> c[k] == c0[k]
    &&& forall|k: u64| #[trigger] bm.contains_key(k) && !desc_touched(deltas, sb, k) ==> c[k] == bm[k]
    &&& forall|g: u32|
        #[trigger] deltas.contains_key(g) && !delta_zero(deltas[g]) ==> desc_written(c, sb, g, deltas[g])
}

/// `fss`, `cs` and `ds` are the file systems, block images and orphan-head
/// flags before and after each of the inode changes `ops`, made in order
/// by `submit_inode_ops`.
pub open spec fn ops_chain<C: Config>(ops: Seq<InodeOps>, fss: Seq<FileSystem<C>>, cs: Seq<Collector>, ds: Seq<bool>) -> bool {
    &&& fss.len() == ops.len() + 1
    &&& cs.len() == ops.len() + 1
    &&& ds.len() == ops.len() + 1
    &&& forall|k: int|
        0 <= k < ops.len() ==> #[trigger] inode_op_done(&fss[k], &fss[k + 1], &ops[k], ds[k], ds[k + 1], &cs[k], &cs[k + 1])
}

/// How the steps of a write-back chain sit between `fs0`, `c0` and `fs`,
/// `c`: the chain of inode changes starts from `fs0` and from `c0` with the
/// bitmap images and descriptors written over it, and ends at the blocks of
/// `c`; then the superblock's free counts take the change `sbd`.
pub open spec fn chain_framed<C: Config>(
    fs0: &FileSystem<C>,
    fs: &FileSystem<C>,
    c0: &Collector,
    c: &Collector,
    bm: Map<u64, Seq<u8>>,
    deltas: Map<u32, BgDelta>,
    sbd: Option<SbDelta>,
    n: int,
    fss: Seq<FileSystem<C>>,
    cs: Seq<Collector>,
    ds: Seq<bool>,
) -> bool {
    let e = fss[n];
    &&& fss[0] == *fs0
    &&& !ds[0]
    &&& staged(c0.blocks@, cs[0].blocks@, bm, deltas, fs0.sb)
    &&& cs[n].blocks == c.blocks
    &&& fs.block_groups == e.block_groups
    &&& fs.blocks == e.blocks
    &&& fs.inodes == e.inodes
    &&& c.sb_dirty == (c0.sb_dirty || ds[n] || sbd is Some)
    &&& match sbd {
        None => fs.sb == e.sb,
        Some(d) => {
            let raw0 = e.sb.raw@;
            let raw = fs.sb.raw@;
            &&& fs.sb == (crate::superblock::SuperBlock { raw: fs.sb.raw, ..e.sb })
            &&& same_outside2(raw0, raw, S_FREE_BLOCKS_LO as int, 8, S_FREE_BLOCKS_HI as int, 4)
            &&& le32(raw, S_FREE_INODES as int) == le32(raw0, S_FREE_INODES as int) + d.free_inodes_cnt_delta
            &&& le32(raw, S_FREE_BLOCKS_LO as int) + le32(raw, S_FREE_BLOCKS_HI as int) * 0x1_0000_0000 == le32(
                raw0,
                S_FREE_BLOCKS_LO as int,
            ) + le32(raw0, S_FREE_BLOCKS_HI as int) * 0x1_0000_0000 + d.free_blocks_cnt_delta
        },
    }
}

/// `fs`, `c` are `fs0`, `c0` once the bitmap images `bm`, the group changes
/// `deltas`, the inode changes `ops` in order and the superblock change
/// `sbd` were written.
pub open spec fn written<C: Config>(
    fs0: &FileSystem<C>,
    fs: &FileSystem<C>,
    c0: &Collector,
    c: &Collector,
    bm: Map<u64, Seq<u8>>,
    deltas: Map<u32, BgDelta>,
    sbd: Option<SbDelta>,
    ops: Seq<InodeOps>,
) -> bool {
    exists|fss: Seq<FileSystem<C>>, cs: Seq<Collector>, ds: Seq<bool>|
        #[trigger] ops_chain(ops, fss, cs, ds) && chain_framed(fs0, fs, c0, c, bm, deltas, sbd, ops.len() as int, fss, cs, ds)
}

/// Entry `i` of the list `dl` is a key of `dm` with its value.
pub open spec fn listed_delta(dm: Map<u32, BgDelta>, dl: Seq<(u32, BgDelta)>, i: int) -> bool {
    dm.contains_key(dl[i].0) && dl[i].1 == dm[dl[i].0]
}

/// Block `k` is one of the first `i` blocks of the list `l`.
pub open spec fn in_prefix(l: Seq<(u64, Vec<u8>)>, i: int, k: u64) -> bool {
    exists|j: int| 0 <= j < i && #[trigger] l[j].0 == k
}

/// The blocks that the bitmap and descriptor steps of a flush leave are
/// `staged` over what was there before.
proof fn lemma_staged(
    c0: Map<u64, Seq<u8>>,
    c1: Map<u64, Seq<u8>>,
    c2: Map<u64, Seq<u8>>,
    bm: Map<u64, Seq<u8>>,
    deltas: Map<u32, BgDelta>,
    dl: Seq<(u32, BgDelta)>,
    sb: crate::superblock::SuperBlock,
)
    requires
        deltas.dom().finite(),
        dl.len() == deltas.dom().len(),
        forall|i: int| 0 <= i < dl.len() ==> #[trigger] listed_delta(deltas, dl, i),
        forall|i: int, j: int| 0 <= i < j < dl.len() ==> #[trigger] dl[i].0 != #[trigger] dl[j].0,
        forall|k: u64| #[trigger] c1.contains_key(k) <==> (c0.contains_key(k) || bm.contains_key(k)),
        forall|k: u64| #[trigger] c1.contains_key(k) && !bm.contains_key(k) ==> c1[k] == c0[k],
        forall|k: u64| #[trigger] bm.contains_key(k) ==> c1[k] == bm[k],
        forall|k: u64| #[trigger] c2.contains_key(k) ==> c1.contains_key(k) || desc_touched(deltas, sb, k),
        forall|k: u64| #[trigger] c1.contains_key(k) ==> c2.contains_key(k),
        forall|k: u64| #[trigger] c2.contains_key(k) && !desc_touched(deltas, sb, k) ==> c2[k] == c1[k],
        forall|x: int| #![trigger dl[x]] 0 <= x < dl.len() && !delta_zero(dl[x].1) ==> desc_written(c2, sb, dl[x].0, dl[x].1),
    ensures
        staged(c0, c2, bm, deltas, sb),
{
    assert forall|g: u32| #[trigger] deltas.contains_key(g) && !delta_zero(deltas[g]) implies desc_written(c2, sb, g, deltas[g]) by {
        assert forall|i: int| 0 <= i < dl.len() implies #[trigger] deltas.contains_key(dl[i].0) by {
            assert(listed_delta(deltas, dl, i));
        }
        if forall|x: int| 0 <= x < dl.len() ==> #[trigger] dl[x].0 != g {
            lemma_keys_listed(dl, deltas, g);
        }
        let x = choose|x: int| 0 <= x < dl.len() && #[trigger] dl[x].0 == g;
        assert(listed_delta(deltas, dl, x));
        assert(dl[x].1 == deltas[g]);
    }
    assert forall|k: u64| #[trigger] c2.contains_key(k) <==> (c0.contains_key(k) || bm.contains_key(k) || desc_touched(deltas, sb, k)) by {
        if desc_touched(deltas, sb, k) {
            let g = choose|g: u32| deltas.contains_key(g) && !delta_zero(deltas[g]) && #[trigger] desc_lba(sb, g) == k as int;
            assert(desc_written(c2, sb, g, deltas[g]));
        }
        if c0.contains_key(k) || bm.contains_key(k) {
            assert(c1.contains_key(k));
        }
    }
    assert forall|k: u64| #[trigger] c2.contains_key(k) && !bm.contains_key(k) && !desc_touched(deltas, sb, k) implies c2[k]
        == c0[k] by {
        assert(c1.contains_key(k));
        assert(c2[k] == c1[k]);
    }
    assert forall|k: u64| #[trigger] bm.contains_key(k) && !desc_touched(deltas, sb, k) implies c2[k] == bm[k] by {
        assert(c1.contains_key(k));
        assert(c2.contains_key(k));
        assert(c2[k] == c1[k]);
    }
}

impl WritebackGroup {
    /// A group with no change.
    pub fn new() -> (r: WritebackGroup)
        ensures
            forall|k: u64| !#[trigger] bitmap_entries(r.new_bitmap).contains_key(k),
            bitmap_entries(r.new_bitmap).dom().finite(),
            delta_entries(r.bg_deltas) == Map::<u32, BgDelta>::empty(),
            r.sb_delta is None,
            r.inode_ops@.len() == 0,
    {
        let bg_deltas = delta_map_new();
        proof {
            assert(delta_entries(bg_deltas) =~= Map::<u32, BgDelta>::empty());
        }
        WritebackGroup { new_bitmap: bitmap_map_new(), bg_deltas, sb_delta: None, inode_ops: Vec::new() }
    }

    /// The change of group `bgid` so far.
    fn bg_delta(&self, bgid: BlockGroupId) -> (r: BgDelta)
        ensures
            r == delta_of(delta_entries(self.bg_deltas), bgid.0),
    {
        match delta_map_get(&self.bg_deltas, bgid.0) {
            Some(d) => d,
            None => BgDelta::new(),
        }
    }

    /// The change of the superblock so far.
    fn sb_delta(&self) -> (r: SbDelta)
        ensures
            r == sb_of(self.sb_delta),
    {
        match self.sb_delta {
            Some(d) => d,
            None => SbDelta { free_inodes_cnt_delta: 0, free_blocks_cnt_delta: 0 },
        }
    }

    /// Keeps as the image of bitmap block `lba` the block `base` with the
    /// bits `[ofs, ofs + count)` set (`on`) or cleared. Refuses, changing
    /// nothing, a range that goes past the block.
    pub fn put_bits(&mut self, lba: LogicalBlockNumber, base: Vec<u8>, ofs: usize, count: usize, on: bool) -> (r: Result<
        (),
        FsError,
    >)
        requires
            base@.len() * 8 + 8 <= usize::MAX,
        ensures
            final(self).bg_deltas == old(self).bg_deltas,
            final(self).sb_delta == old(self).sb_delta,
            final(self).inode_ops == old(self).inode_ops,
            r is Ok <==> ofs + count <= base@.len() * 8,
            r is Err ==> r == Err::<(), FsError>(FsError::InvalidFs) && bitmap_entries(final(self).new_bitmap)
                == bitmap_entries(old(self).new_bitmap),
            r is Ok ==> {
                let m = bitmap_entries(final(self).new_bitmap);
                &&& m == bitmap_entries(old(self).new_bitmap).insert(lba.0, m[lba.0])
                &&& m[lba.0].len() == base@.len()
                &&& forall|p: nat|
                    p < base@.len() * 8 ==> #[trigger] bitmap_bit(m[lba.0], p) == if ofs <= p < ofs + count {
                        on
                    } else {
                        bitmap_bit(base@, p)
                    }
            },
    {
        let mut blk = base;
        let n = blk.len();
        if ofs > n * 8 || count > n * 8 - ofs {
            return Err(FsError::InvalidFs);
        }
        fill_range(&mut blk, ofs, count, on);
        bitmap_map_insert(&mut self.new_bitmap, lba.0, blk);
        Ok(())
    }

    /// Sets (`on`) or clears the bits `[ofs, ofs + count)` of the image of
    /// bitmap block `lba`, read from the device first if it has none yet.
    fn mark_bitmap<C: Config>(
        &mut self,
        lba: LogicalBlockNumber,
        ofs: usize,
        count: usize,
        on: bool,
        fs: &FileSystem<C>,
    ) -> (r: Result<(), FsError>)
        requires
            fs.wf(),
            bitmaps_ok(bitmap_entries(old(self).new_bitmap), fs.sb.block_size as nat),
            bitmap_entries(old(self).new_bitmap).dom().finite(),
        ensures
            final(self).bg_deltas == old(self).bg_deltas,
            final(self).sb_delta == old(self).sb_delta,
            final(self).inode_ops == old(self).inode_ops,
            bitmap_entries(old(self).new_bitmap).contains_key(lba.0) && ofs + count <= fs.sb.block_size * 8 ==> r is Ok,
            ofs + count > fs.sb.block_size * 8 ==> r is Err,
            r is Ok ==> {
                let m0 = bitmap_entries(old(self).new_bitmap);
                let m = bitmap_entries(final(self).new_bitmap);
                &&& m.dom() == m0.dom().insert(lba.0)
                &&& bitmaps_ok(m, fs.sb.block_size as nat)
                &&& m.dom().finite()
                &&& m.contains_key(lba.0)
                &&& ofs + count <= m[lba.0].len() * 8
                &&& forall|k: u64| #[trigger] m0.contains_key(k) ==> m.contains_key(k)
                &&& forall|k: u64| k != lba.0 && #[trigger] m0.contains_key(k) ==> m[k] == m0[k]
                &&& forall|p: nat|
                    p < m[lba.0].len() * 8 ==> #[trigger] bitmap_bit(m[lba.0], p) == if ofs <= p < ofs + count {
                        on
                    } else if m0.contains_key(lba.0) {
                        bitmap_bit(m0[lba.0], p)
                    } else {
                        bitmap_bit(m[lba.0], p)
                    }
                &&& fresh_from_device(&fs.blocks.conf, fs.sb.block_size as nat, m0, m, lba.0, ofs as nat, count as nat)
            },
    {
        let blk = match bitmap_map_get(&self.new_bitmap, lba.0) {
            Some(b) => b,
            None => match fs.blocks.get(lba) {
                Ok(b) => b,
                Err(e) => {
                    return Err(e);
                },
            },
        };
        proof {
            assert(blk@.len() == fs.sb.block_size);
        }
        let ghost m0 = bitmap_entries(self.new_bitmap);
        let r = self.put_bits(lba, blk, ofs, count, on);
        proof {
            let m = bitmap_entries(self.new_bitmap);
            if r is Ok {
                assert forall|k: u64| #[trigger] m.contains_key(k) implies m[k].len() == fs.sb.block_size as nat by {
                    if k != lba.0 {
                        assert(m0.contains_key(k));
                    }
                }
                assert(m.dom() =~= m0.dom().insert(lba.0));
                if !m0.contains_key(lba.0) {
                    assert(crate::filesystem::block_read(
                        &fs.blocks.conf,
                        lba.0,
                        fs.sb.block_size as nat,
                        Ok::<Seq<u8>, FsError>(blk@),
                    ));
                    assert forall|p: nat|
                        p < m[lba.0].len() * 8 && !(ofs <= p < ofs + count) implies #[trigger] bitmap_bit(m[lba.0], p)
                            == bitmap_bit(blk@, p) by {}
                }
            }
        }
        r
    }

    /// Sets the bits `[ofs, ofs + count)` of bitmap block `lba`.
    fn set_bitmap<C: Config>(&mut self, lba: LogicalBlockNumber, ofs: usize, count: usize, fs: &FileSystem<C>) -> (r: Result<(), FsError>)
        requires
            fs.wf(),
            bitmaps_ok(bitmap_entries(old(self).new_bitmap), fs.sb.block_size as nat),
            bitmap_entries(old(self).new_bitmap).dom().finite(),
        ensures
            final(self).bg_deltas == old(self).bg_deltas,
            final(self).sb_delta == old(self).sb_delta,
            final(self).inode_ops == old(self).inode_ops,
            r is Ok ==> marked(bitmap_entries(old(self).new_bitmap), bitmap_entries(final(self).new_bitmap), lba.0, ofs as nat, count as nat, true, fs.sb.block_size as nat),
            r is Ok ==> fresh_from_device(
                &fs.blocks.conf,
                fs.sb.block_size as nat,
                bitmap_entries(old(self).new_bitmap),
                bitmap_entries(final(self).new_bitmap),
                lba.0,
                ofs as nat,
                count as nat,
            ),
            bitmap_entries(old(self).new_bitmap).contains_key(lba.0) && ofs + count <= fs.sb.block_size * 8 ==> r is Ok,
            ofs + count > fs.sb.block_size * 8 ==> r is Err,
    {
        self.mark_bitmap(lba, ofs, count, true, fs)
    }

    /// Clears the bits `[ofs, ofs + count)` of bitmap block `lba`.
    fn unset_bitmap<C: Config>(&mut self, lba: LogicalBlockNumber, ofs: usize, count: usize, fs: &FileSystem<C>) -> (r: Result<(), FsError>)
        requires
            fs.wf(),
            bitmaps_ok(bitmap_entries(old(self).new_bitmap), fs.sb.block_size as nat),
            bitmap_entries(old(self).new_bitmap).dom().finite(),
        ensures
            final(self).bg_deltas == old(self).bg_deltas,
            final(self).sb_delta == old(self).sb_delta,
            final(self).inode_ops == old(self).inode_ops,
            r is Ok ==> marked(bitmap_entries(old(self).new_bitmap), bitmap_entries(final(self).new_bitmap), lba.0, ofs as nat, count as nat, false, fs.sb.block_size as nat),
            r is Ok ==> fresh_from_device(
                &fs.blocks.conf,
                fs.sb.block_size as nat,
                bitmap_entries(old(self).new_bitmap),
                bitmap_entries(final(self).new_bitmap),
                lba.0,
                ofs as nat,
                count as nat,
            ),
            bitmap_entries(old(self).new_bitmap).contains_key(lba.0) && ofs + count <= fs.sb.block_size * 8 ==> r is Ok,
            ofs + count > fs.sb.block_size * 8 ==> r is Err,
    {
        self.mark_bitmap(lba, ofs, count, false, fs)
    }
}

/// `m` is `m0` with the bits `[ofs, ofs + count)` of block `lba` set to
/// `on`, the block read first when `m0` had no image of it.
pub open spec fn marked(m0: Map<u64, Seq<u8>>, m: Map<u64, Seq<u8>>, lba: u64, ofs: nat, count: nat, on: bool, bs: nat) -> bool {
    &&& m.dom() == m0.dom().insert(lba)
    &&& bitmaps_ok(m, bs)
    &&& m.dom().finite()
    &&& m.contains_key(lba)
    &&& ofs + count <= m[lba].len() * 8
    &&& forall|k: u64| #[trigger] m0.contains_key(k) ==> m.contains_key(k)
    &&& forall|k: u64| k != lba && #[trigger] m0.contains_key(k) ==> m[k] == m0[k]
    &&& forall|p: nat|
        p < m[lba].len() * 8 ==> #[trigger] bitmap_bit(m[lba], p) == if ofs <= p < ofs + count {
            on
        } else if m0.contains_key(lba) {
            bitmap_bit(m0[lba], p)
        } else {
            bitmap_bit(m[lba], p)
        }
}

/// Setting bits of a bitmap image that were clear and then clearing them
/// again gives the images back as they were.
pub proof fn lemma_set_then_unset(
    m0: Map<u64, Seq<u8>>,
    m1: Map<u64, Seq<u8>>,
    m2: Map<u64, Seq<u8>>,
    lba: u64,
    ofs: nat,
    count: nat,
    bs: nat,
)
    requires
        bitmaps_ok(m0, bs),
        m0.contains_key(lba),
        forall|p: nat| ofs <= p < ofs + count ==> !#[trigger] bitmap_bit(m0[lba], p),
        marked(m0, m1, lba, ofs, count, true, bs),
        marked(m1, m2, lba, ofs, count, false, bs),
    ensures
        m2 == m0,
{
    assert forall|p: nat| p < m2[lba].len() * 8 implies #[trigger] bitmap_bit(m2[lba], p) == bitmap_bit(m0[lba], p) by {
        assert(bitmap_bit(m1[lba], p) == if ofs <= p < ofs + count {
            true
        } else {
            bitmap_bit(m0[lba], p)
        });
    }
    crate::bitmap::lemma_bitmap_ext(m2[lba], m0[lba]);
    assert forall|k: u64| #[trigger] m2.contains_key(k) implies m2[k] == m0[k] by {
        if k != lba {
            assert(m1[k] == m0[k]);
        }
    }
    assert(m2 =~= m0);
}

impl WritebackGroup {
    /// Folds the event `e` into the changes: counts of its group and of the
    /// superblock, the inode changes, the bitmap bits, and the work for after
    /// the transaction in `collector`.
    fn absorb<C: Config>(&mut self, e: Event, collector: &mut Collector, fs: &FileSystem<C>) -> (r: Result<(), FsError>)
        requires
            fs.wf(),
            bitmaps_ok(bitmap_entries(old(self).new_bitmap), fs.sb.block_size as nat),
            bitmap_entries(old(self).new_bitmap).dom().finite(),
        ensures
            final(collector).blocks == old(collector).blocks,
            final(collector).sb_dirty == old(collector).sb_dirty,
            final(collector).roots == old(collector).roots,
            r is Ok ==> {
                &&& delta_entries(final(self).bg_deltas) == bg_step(delta_entries(old(self).bg_deltas), e)
                &&& final(self).sb_delta == sb_step(old(self).sb_delta, e)
                &&& final(self).inode_ops@ == old(self).inode_ops@ + ops_step(e, fs.sb.inodes_per_group)
                &&& final(collector).postludes@ == old(collector).postludes@ + post_step(e)
                &&& match bits_step(e) {
                    Some((l, o, n, on)) => marked(
                        bitmap_entries(old(self).new_bitmap),
                        bitmap_entries(final(self).new_bitmap),
                        l,
                        o,
                        n,
                        on,
                        fs.sb.block_size as nat,
                    ) && fresh_from_device(
                        &fs.blocks.conf,
                        fs.sb.block_size as nat,
                        bitmap_entries(old(self).new_bitmap),
                        bitmap_entries(final(self).new_bitmap),
                        l,
                        o,
                        n,
                    ),
                    None => bitmap_entries(final(self).new_bitmap) == bitmap_entries(old(self).new_bitmap),
                }
            },
            step_ok(delta_entries(old(self).bg_deltas), old(self).sb_delta, e, fs.sb.inodes_per_group) && bits_ready(
                bitmap_entries(old(self).new_bitmap),
                e,
                fs.sb.block_size as nat,
            ) ==> r is Ok,
            r is Ok ==> step_ok(delta_entries(old(self).bg_deltas), old(self).sb_delta, e, fs.sb.inodes_per_group)
                && range_fits(e, fs.sb.block_size as nat),
    {
        let ghost e0 = e;
        match e {
            Event::BlockAllocationOnBg(a) => {
                if a.count as u64 > i64::MAX as u64 {
                    return Err(FsError::InvalidFs);
                }
                let c = a.count as i64;
                let d = self.bg_delta(a.bgid);
                let s = self.sb_delta();
                let (nd, ns) = match (delta_add(d.free_blocks_cnt_delta, -c), delta_add(s.free_blocks_cnt_delta, -c)) {
                    (Some(x), Some(y)) => (x, y),
                    _ => {
                        return Err(FsError::InvalidFs);
                    },
                };
                delta_map_insert(&mut self.bg_deltas, a.bgid.0, BgDelta { free_blocks_cnt_delta: nd, ..d });
                self.sb_delta = Some(SbDelta { free_blocks_cnt_delta: ns, ..s });
                self.inode_ops.push(InodeOps::SetBlock { ino: a.ino, cnt: c });
                self.set_bitmap(a.bitmap_lba, a.ofs, a.count, fs)
            },
            Event::BlockDeallocationOnBg(a) => {
                if a.count as u64 > i64::MAX as u64 {
                    return Err(FsError::InvalidFs);
                }
                let c = a.count as i64;
                let d = self.bg_delta(a.bgid);
                let s = self.sb_delta();
                let (nd, ns) = match (delta_add(d.free_blocks_cnt_delta, c), delta_add(s.free_blocks_cnt_delta, c)) {
                    (Some(x), Some(y)) => (x, y),
                    _ => {
                        return Err(FsError::InvalidFs);
                    },
                };
                delta_map_insert(&mut self.bg_deltas, a.bgid.0, BgDelta { free_blocks_cnt_delta: nd, ..d });
                self.sb_delta = Some(SbDelta { free_blocks_cnt_delta: ns, ..s });
                self.inode_ops.push(InodeOps::SetBlock { ino: a.ino, cnt: -1 });
                let r = self.unset_bitmap(a.bitmap_lba, a.ofs, a.count, fs);
                collector.postludes.push(PostludeOps::BlockDeallocation { bgid: a.bgid, ofs: a.ofs, count: a.count });
                r
            },
            Event::InodeUpdateOrphanLink(l) => {
                self.inode_ops.push(InodeOps::UpdateOrphanLink(l));
                Ok(())
            },
            Event::InodeAllocationOnBg(a) => {
                let ipg = fs.sb.inodes_per_group;
                proof {
                    assert(a.bgid.0 as u64 * ipg as u64 <= 0xffff_ffff * 0xffff_ffff) by (nonlinear_arith)
                        requires
                            a.bgid.0 <= 0xffff_ffff,
                            ipg <= 0xffff_ffff,
                    ;
                }
                if a.ofs > u32::MAX as usize || a.bgid.0 as u64 * ipg as u64 + a.ofs as u64 + 1 > u32::MAX as u64 {
                    return Err(FsError::InvalidFs);
                }
                let d = self.bg_delta(a.bgid);
                let nf = match delta_add(d.free_inodes_cnt_delta, -1) {
                    Some(x) => x,
                    None => {
                        return Err(FsError::InvalidFs);
                    },
                };
                let nu = if a.de == FileType::Directory {
                    match delta_add(d.used_dirs_cnt_delta, 1) {
                        Some(x) => x,
                        None => {
                            return Err(FsError::InvalidFs);
                        },
                    }
                } else {
                    d.used_dirs_cnt_delta
                };
                let o = a.ofs as u32;
                let mx = match d.max_alloc_idx_in_bg {
                    Some(p) => Some(if p >= o { p } else { o }),
                    None => Some(o),
                };
                delta_map_insert(
                    &mut self.bg_deltas,
                    a.bgid.0,
                    BgDelta { free_inodes_cnt_delta: nf, used_dirs_cnt_delta: nu, max_alloc_idx_in_bg: mx, ..d },
                );
                let ino = InodeNumber::from_bgid_index(a.bgid, a.ofs, &fs.sb);
                self.inode_ops.push(InodeOps::Init(ino, a.de));
                self.set_bitmap(a.bitmap_lba, a.ofs, 1, fs)
            },
            Event::InodeDeallocationOnBg(a) => {
                let d = self.bg_delta(a.bgid);
                let nf = match delta_add(d.free_inodes_cnt_delta, 1) {
                    Some(x) => x,
                    None => {
                        return Err(FsError::InvalidFs);
                    },
                };
                let nu = if a.de == FileType::Directory {
                    match delta_add(d.used_dirs_cnt_delta, -1) {
                        Some(x) => x,
                        None => {
                            return Err(FsError::InvalidFs);
                        },
                    }
                } else {
                    d.used_dirs_cnt_delta
                };
                delta_map_insert(&mut self.bg_deltas, a.bgid.0, BgDelta { free_inodes_cnt_delta: nf, used_dirs_cnt_delta: nu, ..d });
                let r = self.unset_bitmap(a.bitmap_lba, a.ofs, 1, fs);
                collector.postludes.push(PostludeOps::InodeDeallocation(a.ino));
                r
            },
            Event::InodeAddLink(l) => {
                self.inode_ops.push(InodeOps::AddLink(l));
                Ok(())
            },
            Event::InodeRmLink(l) => {
                self.inode_ops.push(InodeOps::RmLink(l));
                Ok(())
            },
            Event::FreeInodesCountDecOnSb => {
                let s = self.sb_delta();
                match delta_add(s.free_inodes_cnt_delta, -1) {
                    Some(x) => {
                        self.sb_delta = Some(SbDelta { free_inodes_cnt_delta: x, ..s });
                        Ok(())
                    },
                    None => Err(FsError::InvalidFs),
                }
            },
            Event::FreeInodesCountIncOnSb => {
                let s = self.sb_delta();
                match delta_add(s.free_inodes_cnt_delta, 1) {
                    Some(x) => {
                        self.sb_delta = Some(SbDelta { free_inodes_cnt_delta: x, ..s });
                        Ok(())
                    },
                    None => Err(FsError::InvalidFs),
                }
            },
            Event::InodeSetSize(op) => {
                self.inode_ops.push(InodeOps::SetSize(op));
                Ok(())
            },
        }
    }
}

/// Every bit that the events `es` set or clear has the value the last of
/// them gave it in the images `m`.
pub open spec fn bits_inv(es: Seq<Event>, m: Map<u64, Seq<u8>>) -> bool {
    forall|lba: u64, p: nat|
        #[trigger] touched(es, lba, p) ==> m.contains_key(lba) && p < m[lba].len() * 8 && bitmap_bit(m[lba], p)
            == bit_after(es, lba, p, false)
}

/// Folding one more event into the bitmap images keeps them made from
/// reads of their blocks.
proof fn lemma_device_step<C: Config>(
    conf: &C,
    bs: nat,
    es: Seq<Event>,
    i: int,
    m0: Map<u64, Seq<u8>>,
    m: Map<u64, Seq<u8>>,
)
    requires
        0 <= i < es.len(),
        bitmaps_ok(m0, bs),
        from_device(conf, bs, es.take(i), m0),
        match bits_step(es[i]) {
            Some((l, o, n, on)) => marked(m0, m, l, o, n, on, bs) && fresh_from_device(conf, bs, m0, m, l, o, n),
            None => m == m0,
        },
    ensures
        from_device(conf, bs, es.take(i + 1), m),
{
    let a = es.take(i);
    let b = es.take(i + 1);
    assert forall|k: u64, p: nat| touched(a, k, p) implies #[trigger] touched(b, k, p) by {
        let j = choose|j: int| 0 <= j < a.len() && (#[trigger] bits_step(a[j]) matches Some((l, o, n, _)) && l == k && o <= p < o + n);
        assert(b[j] == a[j]);
    }
    assert forall|k: u64| #[trigger] m.contains_key(k) implies img_from_device(conf, bs, b, k, m[k]) by {
        match bits_step(es[i]) {
            Some((l, o, n, on)) => {
                if k == l && !m0.contains_key(k) {
                    let bb = choose|bb: Seq<u8>|
                        #[trigger] crate::filesystem::block_read(conf, k, bs, Ok::<Seq<u8>, FsError>(bb)) && forall|p: nat|
                            p < m[k].len() * 8 && !(o <= p < o + n) ==> #[trigger] bitmap_bit(m[k], p) == bitmap_bit(bb, p);
                    assert forall|p: nat| p < m[k].len() * 8 && !touched(b, k, p) implies #[trigger] bitmap_bit(m[k], p)
                        == bitmap_bit(bb, p) by {
                        if o <= p < o + n {
                            assert(b[i] == es[i]);
                            assert(touched(b, k, p));
                        }
                    }
                } else {
                    assert(m0.contains_key(k));
                    assert(img_from_device(conf, bs, a, k, m0[k]));
                    let bb = choose|bb: Seq<u8>|
                        #[trigger] crate::filesystem::block_read(conf, k, bs, Ok::<Seq<u8>, FsError>(bb)) && forall|p: nat|
                            p < m0[k].len() * 8 && !touched(a, k, p) ==> #[trigger] bitmap_bit(m0[k], p) == bitmap_bit(bb, p);
                    assert forall|p: nat| p < m[k].len() * 8 && !touched(b, k, p) implies #[trigger] bitmap_bit(m[k], p)
                        == bitmap_bit(bb, p) by {
                        assert(!touched(a, k, p));
                        if k == l {
                            if o <= p < o + n {
                                assert(b[i] == es[i]);
                                assert(touched(b, k, p));
                            }
                            assert(m[k].len() == bs && m0[k].len() == bs);
                        } else {
                            assert(m[k] == m0[k]);
                        }
                    }
                }
            },
            None => {
                assert(m0.contains_key(k));
                assert(img_from_device(conf, bs, a, k, m0[k]));
                let bb = choose|bb: Seq<u8>|
                    #[trigger] crate::filesystem::block_read(conf, k, bs, Ok::<Seq<u8>, FsError>(bb)) && forall|p: nat|
                        p < m0[k].len() * 8 && !touched(a, k, p) ==> #[trigger] bitmap_bit(m0[k], p) == bitmap_bit(bb, p);
                assert forall|p: nat| p < m[k].len() * 8 && !touched(b, k, p) implies #[trigger] bitmap_bit(m[k], p)
                    == bitmap_bit(bb, p) by {
                    assert(!touched(a, k, p));
                }
            },
        }
    }
}

/// Folding one more event into the bitmap images keeps `bits_inv`.
proof fn lemma_bits_step(es: Seq<Event>, i: int, m0: Map<u64, Seq<u8>>, m: Map<u64, Seq<u8>>, bs: nat)
    requires
        0 <= i < es.len(),
        bits_inv(es.take(i), m0),
        bitmaps_ok(m0, bs),
        match bits_step(es[i]) {
            Some((l, o, n, on)) => marked(m0, m, l, o, n, on, bs),
            None => m == m0,
        },
    ensures
        bits_inv(es.take(i + 1), m),
{
    let a = es.take(i);
    let b = es.take(i + 1);
    assert(b.drop_last() =~= a);
    assert(b.last() == es[i]);
    assert forall|lba: u64, p: nat| #[trigger] touched(b, lba, p) implies m.contains_key(lba) && p < m[lba].len() * 8
        && bitmap_bit(m[lba], p) == bit_after(b, lba, p, false) by {
        let j = choose|j: int| 0 <= j < b.len() && (#[trigger] bits_step(b[j]) matches Some((l, o, n, _)) && l == lba && o <= p < o + n);
        match bits_step(es[i]) {
            Some((l, o, n, on)) => {
                if l == lba && o <= p < o + n {
                    assert(bit_after(b, lba, p, false) == on);
                } else {
                    assert(j < i);
                    assert(b[j] == a[j]);
                    assert(touched(a, lba, p));
                    assert(bit_after(b, lba, p, false) == bit_after(a, lba, p, false));
                    assert(m0.contains_key(lba));
                    if lba == l {
                        assert(m0[lba].len() == bs);
                        assert(m[lba].len() == bs);
                    }
                }
            },
            None => {
                assert(j < i);
                assert(b[j] == a[j]);
                assert(touched(a, lba, p));
                assert(bit_after(b, lba, p, false) == bit_after(a, lba, p, false));
            },
        }
    }
}

impl Events {
    /// Folds the events `events` into the changes they make, in order.
    #[verifier::loop_isolation(false)]
    #[verifier::rlimit(40)]
    #[verifier::spinoff_prover]
    fn compress<C: Config>(events: Vec<Event>, collector: &mut Collector, fs: &FileSystem<C>) -> (r: Result<
        WritebackGroup,
        FsError,
    >)
        requires
            fs.wf(),
        ensures
            final(collector).blocks == old(collector).blocks,
            final(collector).sb_dirty == old(collector).sb_dirty,
            final(collector).roots == old(collector).roots,
            r matches Ok(w) ==> {
                &&& delta_entries(w.bg_deltas) == bg_fold(events@)
                &&& w.sb_delta == sb_fold(events@)
                &&& w.inode_ops@ == ops_fold(events@, fs.sb.inodes_per_group)
                &&& final(collector).postludes@ == old(collector).postludes@ + post_fold(events@)
                &&& bitmaps_ok(bitmap_entries(w.new_bitmap), fs.sb.block_size as nat)
                &&& bitmap_entries(w.new_bitmap).dom().finite()
                &&& delta_entries(w.bg_deltas).dom().finite()
                &&& bits_inv(events@, bitmap_entries(w.new_bitmap))
                &&& forall|k: u64| #[trigger] bitmap_entries(w.new_bitmap).contains_key(k) ==> names_block(events@, k)
                &&& from_device(&fs.blocks.conf, fs.sb.block_size as nat, events@, bitmap_entries(w.new_bitmap))
            },
            no_bits(events@) && fold_ok(events@, fs.sb.inodes_per_group) ==> r is Ok,
            r is Ok ==> fold_ok(events@, fs.sb.inodes_per_group) && ranges_fit(events@, fs.sb.block_size as nat),
    {
        let ghost es = events@;
        let ghost ready = no_bits(es) && fold_ok(es, fs.sb.inodes_per_group);
        let mut events = events;
        let mut w = WritebackGroup::new();
        let n = events.len();
        let mut i: usize = 0;
        proof {
            assert(es.take(0) =~= Seq::<Event>::empty());
            assert(delta_entries(w.bg_deltas) =~= bg_fold(es.take(0)));
            assert(old(collector).postludes@ + post_fold(es.take(0)) =~= old(collector).postludes@);
            assert(w.inode_ops@ =~= ops_fold(es.take(0), fs.sb.inodes_per_group));
        }
        while i < n
            invariant
                fs.wf(),
                n == es.len(),
                events@.len() == n,
                i <= n,
                forall|j: int| i <= j < n ==> #[trigger] events@[j] == es[j],
                delta_entries(w.bg_deltas) == bg_fold(es.take(i as int)),
                w.sb_delta == sb_fold(es.take(i as int)),
                w.inode_ops@ == ops_fold(es.take(i as int), fs.sb.inodes_per_group),
                collector.postludes@ == old(collector).postludes@ + post_fold(es.take(i as int)),
                collector.blocks == old(collector).blocks,
                collector.sb_dirty == old(collector).sb_dirty,
                collector.roots == old(collector).roots,
                bitmaps_ok(bitmap_entries(w.new_bitmap), fs.sb.block_size as nat),
                bitmap_entries(w.new_bitmap).dom().finite(),
                delta_entries(w.bg_deltas).dom().finite(),
                bits_inv(es.take(i as int), bitmap_entries(w.new_bitmap)),
                forall|k: u64| #[trigger] bitmap_entries(w.new_bitmap).contains_key(k) ==> names_block(es.take(i as int), k),
                from_device(&fs.blocks.conf, fs.sb.block_size as nat, es.take(i as int), bitmap_entries(w.new_bitmap)),
                ready == (no_bits(es) && fold_ok(es, fs.sb.inodes_per_group)),
                forall|j: int| 0 <= j < i ==> #[trigger] step_fine(es, j, fs.sb.inodes_per_group, fs.sb.block_size as nat),
            decreases n - i,
        {
            let mut e = Event::FreeInodesCountDecOnSb;
            std::mem::swap(&mut e, &mut events[i]);
            let ghost m0 = bitmap_entries(w.new_bitmap);
            let ghost p0 = collector.postludes@;
            let ghost o0 = w.inode_ops@;
            proof {
                assert(e == es[i as int]);
                let b = es.take(i + 1);
                assert(b.drop_last() =~= es.take(i as int));
                assert(b.last() == es[i as int]);
                if ready {
                    assert(step_ok(bg_fold(es.take(i as int)), sb_fold(es.take(i as int)), es[i as int], fs.sb.inodes_per_group));
                    assert(bits_step(es[i as int]) is None);
                    assert(bits_ready(m0, e, fs.sb.block_size as nat));
                    assert(step_ok(delta_entries(w.bg_deltas), w.sb_delta, e, fs.sb.inodes_per_group));
                }
            }
            match w.absorb(e, collector, fs) {
                Ok(()) => {},
                Err(x) => {
                    proof {
                        assert(!ready);
                    }
                    return Err(x);
                },
            }
            proof {
                assert(step_fine(es, i as int, fs.sb.inodes_per_group, fs.sb.block_size as nat));
                let b = es.take(i + 1);
                lemma_bits_step(es, i as int, m0, bitmap_entries(w.new_bitmap), fs.sb.block_size as nat);
                lemma_device_step(&fs.blocks.conf, fs.sb.block_size as nat, es, i as int, m0, bitmap_entries(w.new_bitmap));
                assert forall|k: u64| #[trigger] bitmap_entries(w.new_bitmap).contains_key(k) implies names_block(b, k) by {
                    if m0.contains_key(k) {
                        assert(names_block(es.take(i as int), k));
                        let j = choose|j: int| 0 <= j < es.take(i as int).len() && (#[trigger] bits_step(es.take(i as int)[j]) matches Some((l, _, _, _)) && l == k);
                        assert(b[j] == es.take(i as int)[j]);
                    } else {
                        assert(b[i as int] == es[i as int]);
                        assert(bits_step(b[i as int]) is Some);
                    }
                }
                assert(ops_fold(b, fs.sb.inodes_per_group) == ops_fold(es.take(i as int), fs.sb.inodes_per_group) + ops_step(es[i as int], fs.sb.inodes_per_group));
                assert(w.inode_ops@ =~= ops_fold(b, fs.sb.inodes_per_group));
                assert(post_fold(b) == post_fold(es.take(i as int)) + post_step(es[i as int]));
                assert(collector.postludes@ =~= old(collector).postludes@ + post_fold(b));
            }
            i = i + 1;
        }
        proof {
            assert(es.take(n as int) =~= es);
            lemma_all_steps(es, fs.sb.inodes_per_group, fs.sb.block_size as nat);
        }
        Ok(w)
    }
}

/// Offsets of inode fields.
pub const I_SIZE_LO: usize = 0x4;
pub const I_DTIME: usize = 0x14;
pub const I_LINKS_COUNT: usize = 0x1A;
pub const I_BLOCKS_LO: usize = 0x1C;
pub const I_BLOCK: usize = 0x28;
pub const I_SIZE_HIGH: usize = 0x6C;
pub const I_BLOCKS_HIGH: usize = 0x74;

/// Offsets of superblock fields.
pub const S_FREE_BLOCKS_LO: usize = 0xC;
pub const S_FREE_INODES: usize = 0x10;
pub const S_LAST_ORPHAN: usize = 0xE8;
pub const S_FREE_BLOCKS_HI: usize = 0x158;

/// Where inode `ino` is: its block and its offset in the block, for an
/// inode table that starts at `table`.
pub open spec fn inode_loc(ino: nat, ipg: nat, isz: nat, bs: nat, table: nat) -> (nat, nat) {
    let byte = inode_place(ino, ipg).1 * isz;
    ((table + byte / bs) as nat, ((byte % bs) / isz * isz) as nat)
}

/// Where inode `ino` of `fs` is, by the inode table of its group.
pub open spec fn inode_loc_of<C: Config>(fs: &FileSystem<C>, ino: InodeNumber) -> (nat, nat) {
    let g = inode_place(ino.0 as nat, fs.sb.inodes_per_group as nat).0 as int;
    inode_loc(
        ino.0 as nat,
        fs.sb.inodes_per_group as nat,
        fs.sb.inode_size as nat,
        fs.sb.block_size as nat,
        fs.block_groups@[g]->0.inode_table_first_block.0 as nat,
    )
}

/// Inode `ino` can be found without the device: its group is loaded and
/// the transaction of `c` holds the block of the inode table where it lies,
/// whole.
pub open spec fn inode_cached<C: Config>(fs: &FileSystem<C>, c: &Collector, ino: InodeNumber) -> bool {
    let g = inode_place(ino.0 as nat, fs.sb.inodes_per_group as nat).0 as int;
    let loc = inode_loc_of(fs, ino);
    &&& ino.0 >= 1
    &&& 0x80 <= fs.sb.inode_size <= 0xffff
    &&& g < fs.sb.bg_count
    &&& fs.block_groups@[g] is Some
    &&& loc.0 <= u64::MAX
    &&& c.blocks@.contains_key(loc.0 as u64)
    &&& loc.1 + fs.sb.inode_size <= c.blocks@[loc.0 as u64].len()
}

/// The image, in the transaction of `c`, of the block that holds inode `ino`.
pub open spec fn cached_inode_block<C: Config>(fs: &FileSystem<C>, c: &Collector, ino: InodeNumber) -> Seq<u8> {
    c.blocks@[inode_loc_of(fs, ino).0 as u64]
}

/// Reads the block that holds inode `ino`, as the transaction of
/// `collector` sees it, and gives its number, its bytes and the offset of
/// the inode in it.
pub fn get_inode<C: Config>(fs: &mut FileSystem<C>, ino: InodeNumber, collector: &Collector) -> (r: Result<
    (LogicalBlockNumber, Vec<u8>, usize),
    FsError,
>)
    requires
        old(fs).wf(),
        collector.blocks.wf(),
    ensures
        groups_kept(final(fs), old(fs)),
        final(fs).inodes == old(fs).inodes,
        r matches Ok((lba, b, off)) ==> {
            let g = inode_place(ino.0 as nat, old(fs).sb.inodes_per_group as nat).0 as int;
            &&& ino.0 >= 1
            &&& g < old(fs).sb.bg_count
            &&& final(fs).block_groups@[g] is Some
            &&& (lba.0 as nat, off as nat) == inode_loc(
                ino.0 as nat,
                old(fs).sb.inodes_per_group as nat,
                old(fs).sb.inode_size as nat,
                old(fs).sb.block_size as nat,
                final(fs).block_groups@[g]->0.inode_table_first_block.0 as nat,
            )
            &&& off + old(fs).sb.inode_size <= b@.len()
            &&& old(fs).sb.inode_size >= 0x80
            &&& collector.blocks@.contains_key(lba.0) ==> b@ == collector.blocks@[lba.0]
            &&& !collector.blocks@.contains_key(lba.0) ==> crate::filesystem::block_read(
                &final(fs).blocks.conf,
                lba.0,
                final(fs).sb.block_size as nat,
                Ok::<Seq<u8>, FsError>(b@),
            )
        },
        inode_cached(old(fs), collector, ino) ==> (r matches Ok((lba, b, off)) && lba.0 == inode_loc_of(old(fs), ino).0
            && off == inode_loc_of(old(fs), ino).1 && b@ == cached_inode_block(old(fs), collector, ino)),
{
    if ino.0 == 0 || fs.sb.inode_size < 0x80 || fs.sb.inode_size > 0xffff {
        return Err(FsError::InvalidFs);
    }
    let (bgid, idx) = ino.into_bgid_index(&fs.sb);
    if bgid.0 >= fs.sb.bg_count {
        return Err(FsError::InvalidFs);
    }
    let isz = fs.sb.inode_size as u64;
    let bs = fs.sb.block_size as u64;
    proof {
        assert(idx as u64 * isz <= 0xffff_ffff * 0xffff) by (nonlinear_arith)
            requires
                idx <= 0xffff_ffff,
                isz <= 0xffff,
        ;
    }
    let byte = idx as u64 * isz;
    let ghost fs0 = *fs;
    let bg = match fs.get_block_group(bgid) {
        Ok(bg) => bg,
        Err(e) => {
            return Err(e);
        },
    };
    let start = bg.inode_table_first_block.0;
    if start > u64::MAX - byte / bs {
        return Err(FsError::InvalidFs);
    }
    let lba = LogicalBlockNumber(start + byte / bs);
    proof {
        assert((byte % bs) / isz * isz <= byte % bs) by (nonlinear_arith)
            requires
                isz > 0,
        ;
    }
    let off = ((byte % bs) / isz * isz) as usize;
    let b = match fs.blocks.get_mut(lba, collector) {
        Ok(b) => b,
        Err(e) => {
            return Err(e);
        },
    };
    if off > b.len() || fs.sb.inode_size > b.len() - off {
        return Err(FsError::InvalidFs);
    }
    proof {
        assert forall|i: int| 0 <= i < fs.block_groups@.len() && fs0.loaded(i) implies #[trigger] fs.block_groups@[i] == fs0.block_groups@[i] by {}
    }
    Ok((lba, b, off))
}

/// Sets the head of the orphan list in the superblock's raw bytes.
fn set_last_orphan<C: Config>(fs: &mut FileSystem<C>, v: u32)
    requires
        old(fs).wf(),
    ensures
        final(fs).wf(),
        final(fs).block_groups == old(fs).block_groups,
        final(fs).blocks == old(fs).blocks,
        final(fs).inodes == old(fs).inodes,
        final(fs).sb.raw@.len() == old(fs).sb.raw@.len(),
        le32(final(fs).sb.raw@, S_LAST_ORPHAN as int) == v,
        same_outside(old(fs).sb.raw@, final(fs).sb.raw@, S_LAST_ORPHAN as int, 4),
        final(fs).sb == (crate::superblock::SuperBlock { raw: final(fs).sb.raw, ..old(fs).sb }),
{
    let ghost fs0 = *fs;
    write_u32(&mut fs.sb.raw, S_LAST_ORPHAN, v);
    proof {
        assert forall|i: int| 0 <= i < fs.block_groups@.len() implies #[trigger] fs.group_ok(i) by {
            assert(fs0.group_ok(i));
        }
    }
}

/// Two byte strings that agree on `[o, o + 4)` read the same `u32` there.
proof fn lemma_le32_frame(b: Seq<u8>, c: Seq<u8>, o: int)
    requires
        0 <= o,
        o + 4 <= b.len(),
        o + 4 <= c.len(),
        forall|i: int| o <= i < o + 4 ==> b[i] == c[i],
    ensures
        le32(b, o) == le32(c, o),
{
    assert(b[o] == c[o] && b[o + 1] == c[o + 1] && b[o + 2] == c[o + 2] && b[o + 3] == c[o + 3]);
}

proof fn lemma_rm_link_done<C: Config>(
    fs0: &FileSystem<C>,
    fs: &FileSystem<C>,
    ino: InodeNumber,
    d0: bool,
    d: bool,
    c0: &Collector,
    c: &Collector,
    base: Seq<u8>,
    img: Seq<u8>,
    off: int,
)
    requires
        inode_written(fs, c0, c, ino, base, img, off),
        le16(base, off + I_LINKS_COUNT) >= 1,
        le16(img, off + I_LINKS_COUNT) == le16(base, off + I_LINKS_COUNT) - 1,
        if le16(base, off + I_LINKS_COUNT) == 1 {
            &&& le32(img, off + I_DTIME) == le32(fs0.sb.raw@, S_LAST_ORPHAN as int)
            &&& le32(fs.sb.raw@, S_LAST_ORPHAN as int) == ino.0
            &&& same_outside(fs0.sb.raw@, fs.sb.raw@, S_LAST_ORPHAN as int, 4)
            &&& d
        } else {
            &&& same_outside(base, img, off + I_LINKS_COUNT, 2)
            &&& fs.sb == fs0.sb
            &&& d == d0
        },
    ensures
        inode_op_done(fs0, fs, &InodeOps::RmLink(InodeRmLink { ino }), d0, d, c0, c),
{
    let op = InodeOps::RmLink(InodeRmLink { ino });
    assert(op matches InodeOps::RmLink(InodeRmLink { ino: x }) && x == ino);
    assert(inode_written(fs, c0, c, ino, base, img, off));
    assert(exists|b2: Seq<u8>, i2: Seq<u8>, o2: int| #[trigger] inode_written(fs, c0, c, ino, b2, i2, o2));
}

/// Adds one link to inode `ino`.
fn inode_add_link<C: Config>(fs: &mut FileSystem<C>, ino: InodeNumber, collector: &mut Collector) -> (r: Result<(), FsError>)
    requires
        old(fs).wf(),
        old(collector).blocks.wf(),
    ensures
        loaded_kept(final(fs), old(fs)),
        final(fs).wf(),
        final(fs).inodes == old(fs).inodes,
        final(fs).blocks.conf == old(fs).blocks.conf,
        final(fs).sb == old(fs).sb,
        final(collector).blocks.wf(),
        final(collector).postludes == old(collector).postludes,
        final(collector).roots == old(collector).roots,
        final(collector).sb_dirty == old(collector).sb_dirty,
        forall|k: u64| #[trigger] old(collector).blocks@.contains_key(k) ==> final(collector).blocks@.contains_key(k),
        r is Ok ==> exists|base: Seq<u8>, img: Seq<u8>, off: int| {
            &&& #[trigger] inode_written(final(fs), old(collector), final(collector), ino, base, img, off)
            &&& le16(img, off + I_LINKS_COUNT) == le16(base, off + I_LINKS_COUNT) + 1
            &&& same_outside(base, img, off + I_LINKS_COUNT, 2)
        },
        inode_cached(old(fs), old(collector), ino) && le16(
            cached_inode_block(old(fs), old(collector), ino),
            inode_loc_of(old(fs), ino).1 + I_LINKS_COUNT,
        ) < 0xffff ==> r is Ok,
{
    let (lba, mut b, off) = match get_inode(fs, ino, collector) {
        Ok(x) => x,
        Err(e) => {
            return Err(e);
        },
    };
    let _n: usize = b.len();
    let ghost base = b@;
    let links = read_u16(&b, off + I_LINKS_COUNT);
    if links == u16::MAX {
        return Err(FsError::InvalidFs);
    }
    write_u16(&mut b, off + I_LINKS_COUNT, links + 1);
    let ghost img = b@;
    collector.blocks.put(lba.0, b);
    proof {
        assert(inode_written(fs, old(collector), collector, ino, base, img, off as int));
    }
    Ok(())
}

/// Removes one link from inode `ino`; at the last one the inode goes to
/// the head of the orphan list.
fn inode_rm_link<C: Config>(fs: &mut FileSystem<C>, ino: InodeNumber, sb_dirty: &mut bool, collector: &mut Collector) -> (r: Result<(), FsError>)
    requires
        old(fs).wf(),
        old(collector).blocks.wf(),
    ensures
        loaded_kept(final(fs), old(fs)),
        final(fs).wf(),
        final(fs).inodes == old(fs).inodes,
        final(fs).blocks.conf == old(fs).blocks.conf,
        final(fs).sb.raw@.len() == old(fs).sb.raw@.len(),
        final(collector).blocks.wf(),
        final(collector).postludes == old(collector).postludes,
        final(collector).roots == old(collector).roots,
        final(collector).sb_dirty == old(collector).sb_dirty,
        *old(sb_dirty) ==> *final(sb_dirty),
        forall|k: u64| #[trigger] old(collector).blocks@.contains_key(k) ==> final(collector).blocks@.contains_key(k),
        r is Ok ==> inode_op_done(old(fs), final(fs), &InodeOps::RmLink(InodeRmLink { ino }), *old(sb_dirty), *final(sb_dirty), old(collector), final(collector)),
        inode_cached(old(fs), old(collector), ino) && le16(
            cached_inode_block(old(fs), old(collector), ino),
            inode_loc_of(old(fs), ino).1 + I_LINKS_COUNT,
        ) >= 1 ==> r is Ok,
{
    let (lba, mut b, off) = match get_inode(fs, ino, collector) {
        Ok(x) => x,
        Err(e) => {
            return Err(e);
        },
    };
    let _n: usize = b.len();
    let ghost base = b@;
    let links = read_u16(&b, off + I_LINKS_COUNT);
    if links == 0 {
        return Err(FsError::InvalidFs);
    }
    let new_count = links - 1;
    if new_count == 0 {
        *sb_dirty = true;
        let last = read_u32(&fs.sb.raw, S_LAST_ORPHAN);
        write_u32(&mut b, off + I_DTIME, last);
        set_last_orphan(fs, ino.0);
    }
    let ghost mid = b@;
    write_u16(&mut b, off + I_LINKS_COUNT, new_count);
    let ghost img = b@;
    collector.blocks.put(lba.0, b);
    proof {
        assert(inode_written(fs, old(collector), collector, ino, base, img, off as int));
        assert(le16(base, off + I_LINKS_COUNT) >= 1);
        assert(le16(img, off + I_LINKS_COUNT) == le16(base, off + I_LINKS_COUNT) - 1);
        if new_count == 0 {
            lemma_le32_frame(img, mid, off + I_DTIME);
            assert(le32(img, off + I_DTIME) == le32(old(fs).sb.raw@, S_LAST_ORPHAN as int));
            assert(le32(fs.sb.raw@, S_LAST_ORPHAN as int) == ino.0);
            assert(same_outside(old(fs).sb.raw@, fs.sb.raw@, S_LAST_ORPHAN as int, 4));
        } else {
            assert(same_outside(base, img, off + I_LINKS_COUNT, 2));
            assert(fs.sb == old(fs).sb);
        }
        lemma_rm_link_done(old(fs), fs, ino, *old(sb_dirty), *sb_dirty, old(collector), collector, base, img, off as int);
        assert(inode_op_done(old(fs), fs, &InodeOps::RmLink(InodeRmLink { ino }), *old(sb_dirty), *sb_dirty, old(collector), collector));
    }
    Ok(())
}

/// Sets the size and the block map of inode `ino`.
fn inode_set_size<C: Config>(fs: &mut FileSystem<C>, ino: InodeNumber, size: u64, address: &Vec<u8>, collector: &mut Collector) -> (r: Result<(), FsError>)
    requires
        old(fs).wf(),
        old(collector).blocks.wf(),
    ensures
        loaded_kept(final(fs), old(fs)),
        final(fs).wf(),
        final(fs).inodes == old(fs).inodes,
        final(fs).blocks.conf == old(fs).blocks.conf,
        final(fs).sb == old(fs).sb,
        final(collector).blocks.wf(),
        final(collector).postludes == old(collector).postludes,
        final(collector).roots == old(collector).roots,
        final(collector).sb_dirty == old(collector).sb_dirty,
        forall|k: u64| #[trigger] old(collector).blocks@.contains_key(k) ==> final(collector).blocks@.contains_key(k),
        r is Ok ==> exists|base: Seq<u8>, img: Seq<u8>, off: int| {
            &&& #[trigger] inode_written(final(fs), old(collector), final(collector), ino, base, img, off)
            &&& le32(img, off + I_SIZE_LO) == size % 0x1_0000_0000
            &&& le32(img, off + I_SIZE_HIGH) == size / 0x1_0000_0000
            &&& img.subrange(off + I_BLOCK, off + I_BLOCK + 60) == address@
            &&& same_outside3(base, img, off + I_SIZE_LO, 4, off + I_SIZE_HIGH, 4, off + I_BLOCK, 60)
        },
        inode_cached(old(fs), old(collector), ino) && address@.len() == 60 ==> r is Ok,
{
    let (lba, mut b, off) = match get_inode(fs, ino, collector) {
        Ok(x) => x,
        Err(e) => {
            return Err(e);
        },
    };
    let _n: usize = b.len();
    let ghost base = b@;
    if address.len() != 60 {
        return Err(FsError::InvalidFs);
    }
    write_u32(&mut b, off + I_SIZE_LO, (size % 0x1_0000_0000) as u32);
    write_u32(&mut b, off + I_SIZE_HIGH, (size / 0x1_0000_0000) as u32);
    let ghost mid = b@;
    paste(&mut b, off + I_BLOCK, address);
    let ghost img = b@;
    proof {
        assert forall|i: int|
            0 <= i < base.len() && !(off + I_SIZE_LO <= i < off + I_SIZE_LO + 4) && !(off + I_SIZE_HIGH <= i < off
                + I_SIZE_HIGH + 4) && !(off + I_BLOCK <= i < off + I_BLOCK + 60) implies #[trigger] img[i] == base[i] by {
            assert(img[i] == mid[i]);
        }
    }
    collector.blocks.put(lba.0, b);
    proof {
        assert(inode_written(fs, old(collector), collector, ino, base, img, off as int));
        lemma_le32_frame(img, mid, off + I_SIZE_LO);
        lemma_le32_frame(img, mid, off + I_SIZE_HIGH);
        assert(img.subrange(off + I_BLOCK, off + I_BLOCK + 60) =~= address@);
    }
    Ok(())
}

/// Sets the orphan link (the deletion time field) of inode `pred` to `succ`.
fn inode_set_dtime<C: Config>(fs: &mut FileSystem<C>, pred: InodeNumber, succ: u32, collector: &mut Collector) -> (r: Result<(), FsError>)
    requires
        old(fs).wf(),
        old(collector).blocks.wf(),
    ensures
        loaded_kept(final(fs), old(fs)),
        final(fs).wf(),
        final(fs).inodes == old(fs).inodes,
        final(fs).blocks.conf == old(fs).blocks.conf,
        final(fs).sb == old(fs).sb,
        final(collector).blocks.wf(),
        final(collector).postludes == old(collector).postludes,
        final(collector).roots == old(collector).roots,
        final(collector).sb_dirty == old(collector).sb_dirty,
        forall|k: u64| #[trigger] old(collector).blocks@.contains_key(k) ==> final(collector).blocks@.contains_key(k),
        r is Ok ==> exists|base: Seq<u8>, img: Seq<u8>, off: int| {
            &&& #[trigger] inode_written(final(fs), old(collector), final(collector), pred, base, img, off)
            &&& le32(img, off + I_DTIME) == succ
            &&& same_outside(base, img, off + I_DTIME, 4)
        },
        inode_cached(old(fs), old(collector), pred) ==> r is Ok,
{
    let (lba, mut b, off) = match get_inode(fs, pred, collector) {
        Ok(x) => x,
        Err(e) => {
            return Err(e);
        },
    };
    let _n: usize = b.len();
    let ghost base = b@;
    write_u32(&mut b, off + I_DTIME, succ);
    let ghost img = b@;
    collector.blocks.put(lba.0, b);
    proof {
        assert(inode_written(fs, old(collector), collector, pred, base, img, off as int));
    }
    Ok(())
}

/// Adds `cnt` blocks of the file system to the 48-bit block count (in
/// 512-byte units) of inode `ino`.
fn inode_add_blocks<C: Config>(fs: &mut FileSystem<C>, ino: InodeNumber, cnt: i64, collector: &mut Collector) -> (r: Result<(), FsError>)
    requires
        old(fs).wf(),
        old(collector).blocks.wf(),
    ensures
        loaded_kept(final(fs), old(fs)),
        final(fs).wf(),
        final(fs).inodes == old(fs).inodes,
        final(fs).blocks.conf == old(fs).blocks.conf,
        final(fs).sb == old(fs).sb,
        final(collector).blocks.wf(),
        final(collector).postludes == old(collector).postludes,
        final(collector).roots == old(collector).roots,
        final(collector).sb_dirty == old(collector).sb_dirty,
        forall|k: u64| #[trigger] old(collector).blocks@.contains_key(k) ==> final(collector).blocks@.contains_key(k),
        r is Ok ==> exists|base: Seq<u8>, img: Seq<u8>, off: int| {
            &&& #[trigger] inode_written(final(fs), old(collector), final(collector), ino, base, img, off)
            &&& inode_blocks(img, off) == inode_blocks(base, off) + (old(fs).sb.block_size / 512) as int * cnt
            &&& same_outside2(base, img, off + I_BLOCKS_LO, 4, off + I_BLOCKS_HIGH, 2)
        },
        ({
            let b = cached_inode_block(old(fs), old(collector), ino);
            let nb = inode_blocks(b, inode_loc_of(old(fs), ino).1 as int) + (old(fs).sb.block_size / 512) as int * cnt;
            inode_cached(old(fs), old(collector), ino) && 0 <= nb < 0x1_0000_0000_0000 ==> r is Ok
        }),
{
    let (lba, mut b, off) = match get_inode(fs, ino, collector) {
        Ok(x) => x,
        Err(e) => {
            return Err(e);
        },
    };
    let _n: usize = b.len();
    let ghost base = b@;
    let lo = read_u32(&b, off + I_BLOCKS_LO);
    let hi = read_u16(&b, off + I_BLOCKS_HIGH);
    let blocks: i64 = lo as i64 + hi as i64 * 0x1_0000_0000;
    let unit = (fs.sb.block_size / 512) as i64;
    let delta = match unit.checked_mul(cnt) {
        Some(d) => d,
        None => {
            proof {
                assert(unit * cnt > i64::MAX || unit * cnt < i64::MIN);
            }
            return Err(FsError::InvalidFs);
        },
    };
    let nb = match blocks.checked_add(delta) {
        Some(x) => x,
        None => {
            return Err(FsError::InvalidFs);
        },
    };
    if nb < 0 || nb >= 0x1_0000_0000_0000 {
        return Err(FsError::InvalidFs);
    }
    write_u32(&mut b, off + I_BLOCKS_LO, (nb % 0x1_0000_0000) as u32);
    let ghost mid = b@;
    write_u16(&mut b, off + I_BLOCKS_HIGH, (nb / 0x1_0000_0000) as u16);
    let ghost img = b@;
    collector.blocks.put(lba.0, b);
    proof {
        assert(inode_written(fs, old(collector), collector, ino, base, img, off as int));
        lemma_le32_frame(img, mid, off + I_BLOCKS_LO);
    }
    Ok(())
}

/// The inode change `op` can be written without the device and fits the
/// inode's fields: the inodes it touches are cached in the transaction of
/// `c`, a link count neither overflows nor is already 0, a block map is 60
/// bytes, and a block count stays within 48 bits.
pub open spec fn op_ready<C: Config>(fs: &FileSystem<C>, c: &Collector, op: &InodeOps) -> bool {
    match op {
        InodeOps::AddLink(InodeAddLink { ino }) => inode_cached(fs, c, *ino) && le16(
            cached_inode_block(fs, c, *ino),
            inode_loc_of(fs, *ino).1 + I_LINKS_COUNT,
        ) < 0xffff,
        InodeOps::RmLink(InodeRmLink { ino }) => inode_cached(fs, c, *ino) && le16(
            cached_inode_block(fs, c, *ino),
            inode_loc_of(fs, *ino).1 + I_LINKS_COUNT,
        ) >= 1,
        InodeOps::Init(_, _) => true,
        InodeOps::SetSize(InodeSetSize { ino, size: _, address }) => inode_cached(fs, c, *ino)
            && address.bytes@.len() == 60,
        InodeOps::UpdateOrphanLink(InodeUpdateOrphanLink { pred, succ: _ }) => pred.0 == 0 || inode_cached(
            fs,
            c,
            *pred,
        ),
        InodeOps::SetBlock { ino, cnt } => {
            let b = cached_inode_block(fs, c, *ino);
            let nb = inode_blocks(b, inode_loc_of(fs, *ino).1 as int) + (fs.sb.block_size / 512) as int * *cnt;
            inode_cached(fs, c, *ino) && 0 <= nb < 0x1_0000_0000_0000
        },
    }
}

impl WritebackGroup {
    /// Writes the inode change `op` into the transaction's image of the
    /// inode's block. Unlinking the last link puts the inode at the head of
    /// the orphan list kept in the superblock, which `sb_dirty` then records.
    /// A fresh inode's contents are not written here.
    pub fn submit_inode_ops<C: Config>(
        fs: &mut FileSystem<C>,
        op: InodeOps,
        sb_dirty: &mut bool,
        collector: &mut Collector,
    ) -> (r: Result<(), FsError>)
        requires
            old(fs).wf(),
            old(collector).blocks.wf(),
        ensures
            final(fs).wf(),
            final(fs).inodes == old(fs).inodes,
            final(fs).blocks.conf == old(fs).blocks.conf,
            loaded_kept(final(fs), old(fs)),
            final(collector).blocks.wf(),
            final(collector).postludes == old(collector).postludes,
            final(collector).roots == old(collector).roots,
            final(collector).sb_dirty == old(collector).sb_dirty,
            *old(sb_dirty) ==> *final(sb_dirty),
            final(fs).sb.raw@.len() == old(fs).sb.raw@.len(),
            forall|k: u64| #[trigger] old(collector).blocks@.contains_key(k) ==> final(collector).blocks@.contains_key(k),
            r is Ok ==> inode_op_done(old(fs), final(fs), &op, *old(sb_dirty), *final(sb_dirty), old(collector), final(collector)),
            op_ready(old(fs), old(collector), &op) ==> r is Ok,
    {
        match op {
            InodeOps::AddLink(InodeAddLink { ino }) => inode_add_link(fs, ino, collector),
            InodeOps::RmLink(InodeRmLink { ino }) => inode_rm_link(fs, ino, sb_dirty, collector),
            InodeOps::Init(_ino, _ftype) => Ok(()),
            InodeOps::SetSize(InodeSetSize { ino, size, address }) => inode_set_size(fs, ino, size, &address.bytes, collector),
            InodeOps::UpdateOrphanLink(InodeUpdateOrphanLink { pred, succ }) => {
                if pred.0 == 0 {
                    *sb_dirty = true;
                    set_last_orphan(fs, succ.0);
                    Ok(())
                } else {
                    inode_set_dtime(fs, pred, succ.0, collector)
                }
            },
            InodeOps::SetBlock { ino, cnt } => inode_add_blocks(fs, ino, cnt, collector),
        }
    }
}

/// `c` is `b` but for the `n1` bytes at `o1` and the `n2` bytes at `o2`.
pub open spec fn same_outside2(b: Seq<u8>, c: Seq<u8>, o1: int, n1: int, o2: int, n2: int) -> bool {
    &&& b.len() == c.len()
    &&& forall|i: int| 0 <= i < b.len() && !(o1 <= i < o1 + n1) && !(o2 <= i < o2 + n2) ==> #[trigger] c[i] == b[i]
}

/// `c` is `b` but for the `n1` bytes at `o1`, the `n2` bytes at `o2` and
/// the `n3` bytes at `o3`.
pub open spec fn same_outside3(b: Seq<u8>, c: Seq<u8>, o1: int, n1: int, o2: int, n2: int, o3: int, n3: int) -> bool {
    &&& b.len() == c.len()
    &&& forall|i: int|
        0 <= i < b.len() && !(o1 <= i < o1 + n1) && !(o2 <= i < o2 + n2) && !(o3 <= i < o3 + n3) ==> #[trigger] c[i]
            == b[i]
}

/// The groups loaded in `old` are loaded in `new`, as they were, and the
/// superblock's geometry is the same.
pub open spec fn loaded_kept<C: Config>(new: &FileSystem<C>, old: &FileSystem<C>) -> bool {
    &&& new.sb == (crate::superblock::SuperBlock { raw: new.sb.raw, ..old.sb })
    &&& forall|i: int| 0 <= i < old.sb.bg_count && old.loaded(i) ==> #[trigger] new.block_groups@[i] == old.block_groups@[i]
}

/// The block that holds the descriptor of group `g`.
pub open spec fn desc_lba(sb: crate::superblock::SuperBlock, g: u32) -> int {
    sb.first_data_block + 1 + (g as int * sb.block_desc_size as int) / sb.block_size as int
}

/// The offset of the descriptor of group `g` in its block.
pub open spec fn desc_off(sb: crate::superblock::SuperBlock, g: u32) -> int {
    (g as int * sb.block_desc_size as int) % sb.block_size as int
}

/// `d1` is the descriptor `d0` with the change `delta` added to its counts.
pub open spec fn desc_applied(d0: Seq<u8>, d1: Seq<u8>, delta: BgDelta) -> bool {
    &&& desc_len_ok(d0)
    &&& desc_free_blocks(d1) == field_stored(d0, (desc_free_blocks(d0) + delta.free_blocks_cnt_delta) as u32)
    &&& desc_free_inodes(d1) == field_stored(d0, (desc_free_inodes(d0) + delta.free_inodes_cnt_delta) as u32)
    &&& desc_used_dirs(d1) == field_stored(d0, (desc_used_dirs(d0) + delta.used_dirs_cnt_delta) as u32)
}

/// The images `c` hold the descriptor of group `g` with the change `delta`
/// added to the counts of the descriptor it was made from.
pub open spec fn desc_written(c: Map<u64, Seq<u8>>, sb: crate::superblock::SuperBlock, g: u32, delta: BgDelta) -> bool {
    let lba = desc_lba(sb, g) as u64;
    let off = desc_off(sb, g);
    let ds = sb.block_desc_size as int;
    &&& ds > 0
    &&& 0 <= desc_lba(sb, g) <= u64::MAX
    &&& c.contains_key(lba)
    &&& 0 <= off && off + ds <= c[lba].len()
    &&& exists|d0: Seq<u8>| #[trigger] desc_applied(d0, c[lba].subrange(off, off + ds), delta)
}

/// Writing the descriptor of another group keeps what `desc_written` says
/// of group `g`: descriptors in one block do not overlap.
proof fn lemma_desc_kept(
    c0: &Collector,
    c: &Collector,
    sb: crate::superblock::SuperBlock,
    g: u32,
    delta: BgDelta,
    h: u32,
    base: Seq<u8>,
    img: Seq<u8>,
)
    requires
        sb.block_size > 0,
        desc_written(c0.blocks@, sb, g, delta),
        g != h,
        desc_put(c0, c, desc_lba(sb, h) as u64, desc_off(sb, h), sb.block_desc_size as int, base, img),
        0 <= desc_lba(sb, h) <= u64::MAX,
    ensures
        desc_written(c.blocks@, sb, g, delta),
{
    let lba = desc_lba(sb, g) as u64;
    let off = desc_off(sb, g);
    let ds = sb.block_desc_size as int;
    if desc_lba(sb, h) == desc_lba(sb, g) {
        let oh = desc_off(sb, h);
        let bs = sb.block_size as int;
        let a = g as int * ds;
        let b = h as int * ds;
        vstd::arithmetic::div_mod::lemma_fundamental_div_mod(a, bs);
        vstd::arithmetic::div_mod::lemma_fundamental_div_mod(b, bs);
        assert(a / bs == b / bs);
        assert(off - oh == a - b);
        assert(a - b == (g as int - h as int) * ds) by (nonlinear_arith)
            requires
                a == g as int * ds,
                b == h as int * ds,
        ;
        assert(off + ds <= oh || oh + ds <= off) by (nonlinear_arith)
            requires
                off - oh == (g as int - h as int) * ds,
                g as int != h as int,
                ds > 0,
        ;
        assert(base == c0.blocks@[lba]);
        assert(img.subrange(off, off + ds) =~= base.subrange(off, off + ds));
    }
    let d0 = choose|d0: Seq<u8>| #[trigger] desc_applied(d0, c0.blocks@[lba].subrange(off, off + ds), delta);
    assert(desc_applied(d0, c.blocks@[lba].subrange(off, off + ds), delta));
}

/// Block `k` holds the descriptor of a group.
pub open spec fn desc_block(sb: crate::superblock::SuperBlock, k: u64) -> bool {
    exists|g: u32| g < sb.bg_count && #[trigger] desc_lba(sb, g) == k
}

/// Block `k` holds an inode of a loaded group of `fs`.
pub open spec fn inode_block<C: Config>(fs: &FileSystem<C>, k: u64) -> bool {
    exists|ino: InodeNumber|
        ino.0 >= 1 && fs.loaded(inode_place(ino.0 as nat, fs.sb.inodes_per_group as nat).0 as int)
            && inode_place(ino.0 as nat, fs.sb.inodes_per_group as nat).0 < fs.sb.bg_count && #[trigger] inode_loc_of(fs, ino).0 == k
}

/// A block holding an inode of a loaded group still does once more groups
/// are loaded.
proof fn lemma_inode_block_kept<C: Config>(old: &FileSystem<C>, new: &FileSystem<C>, k: u64)
    requires
        inode_block(old, k),
        loaded_kept(new, old),
    ensures
        inode_block(new, k),
{
    let ino = choose|ino: InodeNumber|
        ino.0 >= 1 && old.loaded(inode_place(ino.0 as nat, old.sb.inodes_per_group as nat).0 as int)
            && inode_place(ino.0 as nat, old.sb.inodes_per_group as nat).0 < old.sb.bg_count && #[trigger] inode_loc_of(old, ino).0 == k;
    let g = inode_place(ino.0 as nat, old.sb.inodes_per_group as nat).0 as int;
    assert(new.block_groups@[g] == old.block_groups@[g]);
    assert(inode_loc_of(new, ino) == inode_loc_of(old, ino));
}

/// Writing the block of inode `ino` changes no other block.
proof fn lemma_written_block<C: Config>(
    fs: &FileSystem<C>,
    c0: &Collector,
    c: &Collector,
    ino: InodeNumber,
    base: Seq<u8>,
    img: Seq<u8>,
    off: int,
    k: u64,
)
    requires
        inode_written(fs, c0, c, ino, base, img, off),
    ensures
        c.blocks@[k] == c0.blocks@[k] || inode_block(fs, k),
{
    if inode_loc_of(fs, ino).0 == k {
        assert(inode_block(fs, k));
    }
}

/// An inode change writes at most the block of the inode it changes.
proof fn lemma_op_block<C: Config>(
    fs0: &FileSystem<C>,
    fs: &FileSystem<C>,
    op: &InodeOps,
    d0: bool,
    d: bool,
    c0: &Collector,
    c: &Collector,
    k: u64,
)
    requires
        inode_op_done(fs0, fs, op, d0, d, c0, c),
    ensures
        c.blocks@[k] == c0.blocks@[k] || inode_block(fs, k),
{
    let who: InodeNumber = match *op {
        InodeOps::AddLink(InodeAddLink { ino }) => ino,
        InodeOps::RmLink(InodeRmLink { ino }) => ino,
        InodeOps::SetSize(InodeSetSize { ino, size: _, address: _ }) => ino,
        InodeOps::UpdateOrphanLink(InodeUpdateOrphanLink { pred, succ: _ }) => pred,
        InodeOps::SetBlock { ino, cnt: _ } => ino,
        InodeOps::Init(ino, _) => ino,
    };
    let writes = match *op {
        InodeOps::Init(_, _) => false,
        InodeOps::UpdateOrphanLink(InodeUpdateOrphanLink { pred, succ: _ }) => pred.0 != 0,
        _ => true,
    };
    if writes {
        let (base, img, off) = choose|base: Seq<u8>, img: Seq<u8>, off: int| #[trigger] inode_written(fs, c0, c, who, base, img, off);
        lemma_written_block(fs, c0, c, who, base, img, off, k);
    }
}

/// The 48-bit block count of the inode at `off` of `b`.
pub open spec fn inode_blocks(b: Seq<u8>, off: int) -> int {
    (le32(b, off + I_BLOCKS_LO) + le16(b, off + I_BLOCKS_HIGH) * 0x1_0000_0000) as int
}

/// `c` is `c0` with the image `img` of the block that holds inode `ino` in
/// `fs`, made from `base`: the image `c0` had of that block, or else a read of
/// it; `off` is the inode's offset in the block.
pub open spec fn inode_written<C: Config>(
    fs: &FileSystem<C>,
    c0: &Collector,
    c: &Collector,
    ino: InodeNumber,
    base: Seq<u8>,
    img: Seq<u8>,
    off: int,
) -> bool {
    let g = inode_place(ino.0 as nat, fs.sb.inodes_per_group as nat).0 as int;
    let lba = inode_loc(
        ino.0 as nat,
        fs.sb.inodes_per_group as nat,
        fs.sb.inode_size as nat,
        fs.sb.block_size as nat,
        fs.block_groups@[g]->0.inode_table_first_block.0 as nat,
    ).0;
    &&& ino.0 >= 1
    &&& g < fs.sb.bg_count
    &&& fs.block_groups@[g] is Some
    &&& off == inode_loc(
        ino.0 as nat,
        fs.sb.inodes_per_group as nat,
        fs.sb.inode_size as nat,
        fs.sb.block_size as nat,
        fs.block_groups@[g]->0.inode_table_first_block.0 as nat,
    ).1
    &&& off + fs.sb.inode_size <= base.len()
    &&& fs.sb.inode_size >= 0x80
    &&& img.len() == base.len()
    &&& lba <= u64::MAX
    &&& (c0.blocks@.contains_key(lba as u64) ==> base == c0.blocks@[lba as u64])
    &&& (!c0.blocks@.contains_key(lba as u64) ==> crate::filesystem::block_read(
        &fs.blocks.conf,
        lba as u64,
        fs.sb.block_size as nat,
        Ok::<Seq<u8>, FsError>(base),
    ))
    &&& c.blocks@ == c0.blocks@.insert(lba as u64, img)
}

/// What `submit_inode_ops` does for `op`: the fields it writes in the image
/// of the inode's block, the superblock's orphan head it may set, and whether
/// the superblock is then dirty.
pub open spec fn inode_op_done<C: Config>(
    fs0: &FileSystem<C>,
    fs: &FileSystem<C>,
    op: &InodeOps,
    d0: bool,
    d: bool,
    c0: &Collector,
    c: &Collector,
) -> bool {
    match *op {
        InodeOps::AddLink(InodeAddLink { ino }) => exists|base: Seq<u8>, img: Seq<u8>, off: int| {
            &&& #[trigger] inode_written(fs, c0, c, ino, base, img, off)
            &&& le16(img, off + I_LINKS_COUNT) == le16(base, off + I_LINKS_COUNT) + 1
            &&& same_outside(base, img, off + I_LINKS_COUNT, 2)
            &&& d == d0
            &&& fs.sb == fs0.sb
        },
        InodeOps::RmLink(InodeRmLink { ino }) => exists|base: Seq<u8>, img: Seq<u8>, off: int| {
            &&& #[trigger] inode_written(fs, c0, c, ino, base, img, off)
            &&& le16(base, off + I_LINKS_COUNT) >= 1
            &&& le16(img, off + I_LINKS_COUNT) == le16(base, off + I_LINKS_COUNT) - 1
            &&& le16(base, off + I_LINKS_COUNT) == 1 ==> {
                &&& le32(img, off + I_DTIME) == le32(fs0.sb.raw@, S_LAST_ORPHAN as int)
                &&& le32(fs.sb.raw@, S_LAST_ORPHAN as int) == ino.0
                &&& same_outside(fs0.sb.raw@, fs.sb.raw@, S_LAST_ORPHAN as int, 4)
                &&& d
            }
            &&& le16(base, off + I_LINKS_COUNT) != 1 ==> {
                &&& same_outside(base, img, off + I_LINKS_COUNT, 2)
                &&& fs.sb == fs0.sb
                &&& d == d0
            }
        },
        InodeOps::Init(_, _) => c.blocks == c0.blocks && fs.sb == fs0.sb && d == d0,
        InodeOps::SetSize(InodeSetSize { ino, size, address }) => exists|base: Seq<u8>, img: Seq<u8>, off: int| {
            &&& #[trigger] inode_written(fs, c0, c, ino, base, img, off)
            &&& le32(img, off + I_SIZE_LO) == size % 0x1_0000_0000
            &&& le32(img, off + I_SIZE_HIGH) == size / 0x1_0000_0000
            &&& img.subrange(off + I_BLOCK, off + I_BLOCK + 60) == address.bytes@
            &&& same_outside3(base, img, off + I_SIZE_LO, 4, off + I_SIZE_HIGH, 4, off + I_BLOCK, 60)
            &&& fs.sb == fs0.sb
            &&& d == d0
        },
        InodeOps::UpdateOrphanLink(InodeUpdateOrphanLink { pred, succ }) => if pred.0 == 0 {
            &&& le32(fs.sb.raw@, S_LAST_ORPHAN as int) == succ.0
            &&& same_outside(fs0.sb.raw@, fs.sb.raw@, S_LAST_ORPHAN as int, 4)
            &&& c.blocks == c0.blocks
            &&& d
        } else {
            exists|base: Seq<u8>, img: Seq<u8>, off: int| {
                &&& #[trigger] inode_written(fs, c0, c, pred, base, img, off)
                &&& le32(img, off + I_DTIME) == succ.0
                &&& same_outside(base, img, off + I_DTIME, 4)
                &&& fs.sb == fs0.sb
                &&& d == d0
            }
        },
        InodeOps::SetBlock { ino, cnt } => exists|base: Seq<u8>, img: Seq<u8>, off: int| {
            &&& #[trigger] inode_written(fs, c0, c, ino, base, img, off)
            &&& inode_blocks(img, off) == inode_blocks(base, off) + (fs.sb.block_size / 512) as int * cnt
            &&& same_outside2(base, img, off + I_BLOCKS_LO, 4, off + I_BLOCKS_HIGH, 2)
            &&& fs.sb == fs0.sb
            &&& d == d0
        },
    }
}

/// `c` is `c0` with the image `img` of block `lba`, which is `base` (the
/// image `c0` had, or else a read of the block) with the `ds` bytes at `off`
/// replaced.
pub open spec fn desc_put(c0: &Collector, c: &Collector, lba: u64, off: int, ds: int, base: Seq<u8>, img: Seq<u8>) -> bool {
    &&& c.blocks@ == c0.blocks@.insert(lba, img)
    &&& (c0.blocks@.contains_key(lba) ==> base == c0.blocks@[lba])
    &&& 0 <= off && off + ds <= base.len() == img.len()
    &&& img == base.subrange(0, off) + img.subrange(off, off + ds) + base.subrange(off + ds, base.len() as int)
}

impl WritebackGroup {
    /// Adds the change `delta` to the counts in the descriptor of group
    /// `bgid`, in the transaction's image of the descriptor block, and
    /// refreshes its checksum; a group whose counts do not change is left.
    #[verifier::rlimit(60)]
    #[verifier::spinoff_prover]
    pub fn submit_block_group<C: Config>(fs: &mut FileSystem<C>, bgid: BlockGroupId, delta: BgDelta, collector: &mut Collector) -> (r: Result<
        (),
        FsError,
    >)
        requires
            old(fs).wf(),
            old(collector).blocks.wf(),
        ensures
            *final(fs) == *old(fs),
            final(collector).blocks.wf(),
            final(collector).postludes == old(collector).postludes,
            final(collector).roots == old(collector).roots,
            final(collector).sb_dirty == old(collector).sb_dirty,
            forall|k: u64| #[trigger] old(collector).blocks@.contains_key(k) ==> final(collector).blocks@.contains_key(k),
            delta.free_blocks_cnt_delta == 0 && delta.free_inodes_cnt_delta == 0 && delta.used_dirs_cnt_delta == 0
                ==> r is Ok && final(collector).blocks == old(collector).blocks,
            r is Ok ==> (delta.free_blocks_cnt_delta != 0 || delta.free_inodes_cnt_delta != 0 || delta.used_dirs_cnt_delta
                != 0) ==> exists|lba: u64, off: int, base: Seq<u8>, img: Seq<u8>| {
                let ds = old(fs).sb.block_desc_size as int;
                let d0 = base.subrange(off, off + ds);
                let d1 = img.subrange(off, off + ds);
                &&& #[trigger] desc_put(old(collector), final(collector), lba, off, old(fs).sb.block_desc_size as int, base, img)
                &&& !old(collector).blocks@.contains_key(lba) ==> crate::filesystem::block_read(
                    &old(fs).blocks.conf,
                    lba,
                    old(fs).sb.block_size as nat,
                    Ok::<Seq<u8>, FsError>(base),
                )
                &&& lba == desc_lba(old(fs).sb, bgid.0)
                &&& off == desc_off(old(fs).sb, bgid.0)
                &&& bgid.0 < old(fs).sb.bg_count
                &&& desc_len_ok(d0)
                &&& desc_free_blocks(d1) == field_stored(d0, (desc_free_blocks(d0) + delta.free_blocks_cnt_delta) as u32)
                &&& desc_free_inodes(d1) == field_stored(d0, (desc_free_inodes(d0) + delta.free_inodes_cnt_delta) as u32)
                &&& desc_used_dirs(d1) == field_stored(d0, (desc_used_dirs(d0) + delta.used_dirs_cnt_delta) as u32)
                &&& le16(d1, 0x1E) == desc_csum(bgid, d1, &old(fs).sb)
            },
            r is Ok && (delta.free_blocks_cnt_delta != 0 || delta.free_inodes_cnt_delta != 0 || delta.used_dirs_cnt_delta
                != 0) ==> {
                &&& desc_written(final(collector).blocks@, old(fs).sb, bgid.0, delta)
                &&& exists|base: Seq<u8>, img: Seq<u8>| #[trigger]
                    desc_put(
                        old(collector),
                        final(collector),
                        desc_lba(old(fs).sb, bgid.0) as u64,
                        desc_off(old(fs).sb, bgid.0),
                        old(fs).sb.block_desc_size as int,
                        base,
                        img,
                    )
            },
    {
        if delta.free_blocks_cnt_delta == 0 && delta.free_inodes_cnt_delta == 0 && delta.used_dirs_cnt_delta == 0 {
            return Ok(());
        }
        if bgid.0 >= fs.sb.bg_count {
            return Err(FsError::InvalidFs);
        }
        let (lba, off) = bgid.into_lba_index(&fs.sb);
        let mut blk = match fs.blocks.get_mut(lba, collector) {
            Ok(b) => b,
            Err(e) => {
                return Err(e);
            },
        };
        let ds = fs.sb.block_desc_size;
        if off > blk.len() || ds > blk.len() - off || !(ds == 32 || ds >= 64) {
            return Err(FsError::InvalidFs);
        }
        let ghost base = blk@;
        let mut desc = copy_range(&blk, off, ds);
        let ghost d0 = desc@;
        let max: u32 = if ds >= 64 {
            u32::MAX
        } else {
            0xffff
        };
        let fb = match apply_delta(get_field16(&desc, 0xC, 0x2C), delta.free_blocks_cnt_delta, max) {
            Some(v) => v,
            None => {
                return Err(FsError::InvalidFs);
            },
        };
        let fi = match apply_delta(get_field16(&desc, 0xE, 0x2E), delta.free_inodes_cnt_delta, max) {
            Some(v) => v,
            None => {
                return Err(FsError::InvalidFs);
            },
        };
        let ud = match apply_delta(get_field16(&desc, 0x10, 0x30), delta.used_dirs_cnt_delta, max) {
            Some(v) => v,
            None => {
                return Err(FsError::InvalidFs);
            },
        };
        update_descriptor(&mut desc, bgid, &fs.sb, fb, fi, ud);
        let ghost d1 = desc@;
        paste(&mut blk, off, &desc);
        let ghost img = blk@;
        collector.blocks.put(lba.0, blk);
        proof {
            assert(img.subrange(off as int, off + ds) =~= d1);
            assert(base.subrange(off as int, off + ds) =~= d0);
            assert(collector.blocks@ == old(collector).blocks@.insert(lba.0, img));
            assert(desc_put(old(collector), collector, lba.0, off as int, ds as int, base, img));
            assert(collector.blocks@[lba.0].subrange(off as int, off + ds) == d1);
            assert(desc_applied(d0, d1, delta));
            assert(lba.0 == desc_lba(fs.sb, bgid.0));
            assert(off == desc_off(fs.sb, bgid.0));
            assert(collector.blocks@.contains_key(lba.0));
            assert(off + ds <= collector.blocks@[lba.0].len());
            assert(desc_lba(fs.sb, bgid.0) as u64 == lba.0);
            assert(fs.sb.block_desc_size as int > 0);
            assert(desc_applied(
                d0,
                collector.blocks@[desc_lba(fs.sb, bgid.0) as u64].subrange(
                    desc_off(fs.sb, bgid.0),
                    desc_off(fs.sb, bgid.0) + fs.sb.block_desc_size as int,
                ),
                delta,
            ));
            assert(desc_written(collector.blocks@, fs.sb, bgid.0, delta));
        }
        Ok(())
    }

    /// Adds the change `delta` to the free inode and free block counts of the
    /// superblock's raw bytes, and marks the superblock to be written when it
    /// changed, here or by the inode changes before (`sb_dirty`).
    pub fn submit_sb<C: Config>(sb_delta: Option<SbDelta>, sb_dirty: bool, fs: &mut FileSystem<C>, collector: &mut Collector) -> (r: Result<
        (),
        FsError,
    >)
        requires
            old(fs).wf(),
        ensures
            final(fs).wf(),
            final(fs).block_groups == old(fs).block_groups,
            final(fs).blocks == old(fs).blocks,
            final(fs).inodes == old(fs).inodes,
            final(fs).sb == (crate::superblock::SuperBlock { raw: final(fs).sb.raw, ..old(fs).sb }),
            final(collector).blocks == old(collector).blocks,
            final(collector).postludes == old(collector).postludes,
            final(collector).roots == old(collector).roots,
            old(collector).sb_dirty ==> final(collector).sb_dirty,
            sb_delta is None ==> r is Ok && final(fs).sb == old(fs).sb && final(collector).sb_dirty == (old(collector).sb_dirty || sb_dirty),
            sb_delta matches Some(d) && sb_fits(old(fs).sb.raw@, d) ==> r is Ok,
            r is Ok ==> final(collector).sb_dirty == (old(collector).sb_dirty || sb_dirty || sb_delta is Some),
            r is Ok && sb_delta is Some ==> {
                let d = sb_delta->0;
                let raw0 = old(fs).sb.raw@;
                let raw = final(fs).sb.raw@;
                &&& le32(raw, S_FREE_INODES as int) == le32(raw0, S_FREE_INODES as int) + d.free_inodes_cnt_delta
                &&& le32(raw, S_FREE_BLOCKS_LO as int) + le32(raw, S_FREE_BLOCKS_HI as int) * 0x1_0000_0000 == le32(
                    raw0,
                    S_FREE_BLOCKS_LO as int,
                ) + le32(raw0, S_FREE_BLOCKS_HI as int) * 0x1_0000_0000 + d.free_blocks_cnt_delta
                &&& raw.len() == raw0.len()
                &&& forall|i: int|
                    0 <= i < raw.len() && !(S_FREE_BLOCKS_LO <= i < S_FREE_INODES + 4) && !(S_FREE_BLOCKS_HI <= i
                        < S_FREE_BLOCKS_HI + 4) ==> #[trigger] raw[i] == raw0[i]
            },
    {
        let mut dirty = sb_dirty;
        match sb_delta {
            Some(d) => {
                let raw = &fs.sb.raw;
                let fi = read_u32(raw, S_FREE_INODES);
                let fi2 = match apply_delta(fi, d.free_inodes_cnt_delta, u32::MAX) {
                    Some(v) => v,
                    None => {
                        return Err(FsError::InvalidFs);
                    },
                };
                let lo = read_u32(raw, S_FREE_BLOCKS_LO);
                let hi = read_u32(raw, S_FREE_BLOCKS_HI);
                let fb: u64 = lo as u64 + hi as u64 * 0x1_0000_0000;
                let nb: i128 = fb as i128 + d.free_blocks_cnt_delta as i128;
                if nb < 0 || nb > u64::MAX as i128 {
                    return Err(FsError::InvalidFs);
                }
                let nb = nb as u64;
                let ghost fs0 = *fs;
                write_u32(&mut fs.sb.raw, S_FREE_INODES, fi2);
                let ghost r1 = fs.sb.raw@;
                write_u32(&mut fs.sb.raw, S_FREE_BLOCKS_LO, (nb % 0x1_0000_0000) as u32);
                let ghost r2 = fs.sb.raw@;
                write_u32(&mut fs.sb.raw, S_FREE_BLOCKS_HI, (nb / 0x1_0000_0000) as u32);
                proof {
                    assert forall|i: int| 0 <= i < fs.block_groups@.len() implies #[trigger] fs.group_ok(i) by {
                        assert(fs0.group_ok(i));
                    }
                    lemma_le32_frame(fs.sb.raw@, r1, S_FREE_INODES as int);
                    lemma_le32_frame(fs.sb.raw@, r2, S_FREE_BLOCKS_LO as int);
                }
                dirty = true;
            },
            None => {},
        }
        if dirty {
            collector.set_sb_dirty();
        }
        Ok(())
    }

    /// Writes the changes into the transaction: the new bitmap images, the
    /// group descriptors, the inodes, and the superblock's counts.
    #[verifier::loop_isolation(false)]
    #[verifier::rlimit(100)]
    #[verifier::spinoff_prover]
    pub fn flush<C: Config>(self, fs: &mut FileSystem<C>, collector: &mut Collector) -> (r: Result<(), FsError>)
        requires
            old(fs).wf(),
            old(collector).blocks.wf(),
            bitmap_entries(self.new_bitmap).dom().finite(),
            delta_entries(self.bg_deltas).dom().finite(),
        ensures
            final(fs).wf(),
            final(fs).inodes == old(fs).inodes,
            final(fs).blocks.conf == old(fs).blocks.conf,
            final(collector).blocks.wf(),
            final(collector).postludes == old(collector).postludes,
            final(collector).roots == old(collector).roots,
            r is Ok && self.sb_delta is Some ==> final(collector).sb_dirty,
            old(collector).sb_dirty ==> final(collector).sb_dirty,
            forall|k: u64| #[trigger] old(collector).blocks@.contains_key(k) ==> final(collector).blocks@.contains_key(k),
            r is Ok ==> forall|k: u64| #[trigger] bitmap_entries(self.new_bitmap).contains_key(k) ==> final(collector).blocks@.contains_key(k),
            r is Ok ==> forall|k: u64| #[trigger] bitmap_entries(self.new_bitmap).contains_key(k) ==> final(collector).blocks@[k]
                == bitmap_entries(self.new_bitmap)[k] || desc_block(old(fs).sb, k) || inode_block(final(fs), k),
            r is Ok ==> forall|g: u32|
                #[trigger] delta_entries(self.bg_deltas).contains_key(g) && !delta_zero(delta_entries(self.bg_deltas)[g])
                    ==> desc_written(final(collector).blocks@, old(fs).sb, g, delta_entries(self.bg_deltas)[g])
                    || inode_block(final(fs), desc_lba(old(fs).sb, g) as u64),
            r is Ok && self.sb_delta is Some ==> {
                let d = self.sb_delta->0;
                let raw0 = old(fs).sb.raw@;
                let raw = final(fs).sb.raw@;
                &&& le32(raw, S_FREE_INODES as int) == le32(raw0, S_FREE_INODES as int) + d.free_inodes_cnt_delta
                &&& le32(raw, S_FREE_BLOCKS_LO as int) + le32(raw, S_FREE_BLOCKS_HI as int) * 0x1_0000_0000 == le32(
                    raw0,
                    S_FREE_BLOCKS_LO as int,
                ) + le32(raw0, S_FREE_BLOCKS_HI as int) * 0x1_0000_0000 + d.free_blocks_cnt_delta
            },
            (forall|g: u32| #[trigger] delta_entries(self.bg_deltas).contains_key(g) ==> delta_zero(delta_entries(self.bg_deltas)[g]))
                && (forall|k: int| 0 <= k < self.inode_ops@.len() ==> #[trigger] no_block_op(self.inode_ops@[k]))
                && (self.sb_delta matches Some(d) ==> sb_fits(old(fs).sb.raw@, d)) ==> r is Ok,
            r is Ok ==> written(
                old(fs),
                final(fs),
                old(collector),
                final(collector),
                bitmap_entries(self.new_bitmap),
                delta_entries(self.bg_deltas),
                self.sb_delta,
                self.inode_ops@,
            ),
    {
        let ghost ready = (forall|g: u32| #[trigger] delta_entries(self.bg_deltas).contains_key(g) ==> delta_zero(delta_entries(self.bg_deltas)[g]))
            && (forall|k: int| 0 <= k < self.inode_ops@.len() ==> #[trigger] no_block_op(self.inode_ops@[k]))
            && (self.sb_delta matches Some(d) ==> sb_fits(old(fs).sb.raw@, d));
        let ghost raw0 = fs.sb.raw@;
        let WritebackGroup { new_bitmap, bg_deltas, sb_delta, inode_ops } = self;
        let ghost c0 = *collector;
        let mut maps = bitmap_map_into_vec(new_bitmap);
        let ghost m0 = maps@;
        let n = maps.len();
        let mut i: usize = 0;
        while i < n
            invariant
                n == m0.len(),
                maps@.len() == n,
                i <= n,
                collector.blocks.wf(),
                collector.postludes == c0.postludes,
                collector.roots == c0.roots,
                collector.sb_dirty == c0.sb_dirty,
                forall|k: u64| #[trigger] c0.blocks@.contains_key(k) ==> collector.blocks@.contains_key(k),
                forall|j: int| 0 <= j < i ==> #[trigger] collector.blocks@.contains_key(m0[j].0),
                forall|j: int| 0 <= j < i ==> collector.blocks@[#[trigger] m0[j].0] == m0[j].1@,
                forall|j: int, l: int| 0 <= j < l < n ==> #[trigger] m0[j].0 != #[trigger] m0[l].0,
                forall|j: int| i <= j < n ==> #[trigger] maps@[j] == m0[j],
                forall|k: u64| #[trigger] collector.blocks@.contains_key(k) ==> c0.blocks@.contains_key(k) || in_prefix(m0, i as int, k),
                forall|k: u64|
                    #[trigger] collector.blocks@.contains_key(k) && !in_prefix(m0, i as int, k) ==> collector.blocks@[k] == c0.blocks@[k],
                c0 == *old(collector),
            decreases n - i,
        {
            let mut entry: (u64, Vec<u8>) = (0, Vec::new());
            std::mem::swap(&mut entry, &mut maps[i]);
            let ghost k = m0[i as int].0;
            proof {
                assert(entry.0 == m0[i as int].0);
            }
            let ghost cb = collector.blocks@;
            collector.blocks.put(entry.0, entry.1);
            proof {
                assert forall|x: u64| #[trigger] collector.blocks@.contains_key(x) implies c0.blocks@.contains_key(x) || in_prefix(
                    m0,
                    i + 1,
                    x,
                ) by {
                    if x == k {
                        assert(m0[i as int].0 == x);
                    } else if in_prefix(m0, i as int, x) {
                        let j = choose|j: int| 0 <= j < i && #[trigger] m0[j].0 == x;
                    }
                }
                assert forall|x: u64| #[trigger] collector.blocks@.contains_key(x) && !in_prefix(m0, i + 1, x) implies collector.blocks@[x]
                    == c0.blocks@[x] by {
                    if x == k {
                        assert(m0[i as int].0 == x);
                    } else if in_prefix(m0, i as int, x) {
                        let j = choose|j: int| 0 <= j < i && #[trigger] m0[j].0 == x;
                        assert(in_prefix(m0, i + 1, x));
                    }
                }
            }
            i = i + 1;
        }
        proof {
            assert forall|k: u64| #[trigger] bitmap_entries(new_bitmap).contains_key(k) implies collector.blocks@.contains_key(k) by {
                if !collector.blocks@.contains_key(k) {
                    assert(m0.len() == bitmap_entries(new_bitmap).dom().len());
                    assert forall|j: int| 0 <= j < m0.len() implies #[trigger] m0[j].0 != k by {
                        assert(collector.blocks@.contains_key(m0[j].0));
                    }
                    lemma_keys_listed(m0, bitmap_entries(new_bitmap), k);
                }
            }
            assert forall|k: u64| #[trigger] bitmap_entries(new_bitmap).contains_key(k) implies collector.blocks@[k]
                == bitmap_entries(new_bitmap)[k] by {
                if forall|j: int| 0 <= j < m0.len() ==> #[trigger] m0[j].0 != k {
                    lemma_keys_listed(m0, bitmap_entries(new_bitmap), k);
                }
                let j = choose|j: int| 0 <= j < m0.len() && #[trigger] m0[j].0 == k;
                assert(collector.blocks@[m0[j].0] == m0[j].1@);
            }
            assert forall|k: u64| in_prefix(m0, n as int, k) implies #[trigger] bitmap_entries(new_bitmap).contains_key(k) by {
                let j = choose|j: int| 0 <= j < n && #[trigger] m0[j].0 == k;
            }
            assert forall|k: u64| #[trigger] collector.blocks@.contains_key(k) <==> (c0.blocks@.contains_key(k)
                || bitmap_entries(new_bitmap).contains_key(k)) by {
                if collector.blocks@.contains_key(k) && !c0.blocks@.contains_key(k) {
                    assert(in_prefix(m0, n as int, k));
                }
            }
            assert forall|k: u64| #[trigger] collector.blocks@.contains_key(k) && !bitmap_entries(new_bitmap).contains_key(k)
                implies collector.blocks@[k] == c0.blocks@[k] by {
                assert(!in_prefix(m0, n as int, k));
            }
        }
        let ghost c1 = *collector;
        let ghost fs0 = *fs;
        let ghost dm = delta_entries(bg_deltas);
        let deltas = delta_map_into_vec(bg_deltas);
        let ghost dl = deltas@;
        proof {
            assert forall|i: int| 0 <= i < dl.len() implies #[trigger] listed_delta(dm, dl, i) by {
                assert(dm.contains_key(dl[i].0));
            }
        }
        proof {
            if ready {
                assert forall|i: int| 0 <= i < deltas@.len() implies #[trigger] delta_zero(deltas@[i].1) by {
                    assert(delta_entries(bg_deltas).contains_key(deltas@[i].0));
                }
            }
        }
        let mut j: usize = 0;
        while j < deltas.len()
            invariant
                j <= deltas@.len(),
                fs.wf(),
                fs.inodes == old(fs).inodes,
                fs.blocks.conf == old(fs).blocks.conf,
                collector.blocks.wf(),
                collector.postludes == c0.postludes,
                collector.roots == c0.roots,
                collector.sb_dirty == c0.sb_dirty,
                forall|k: u64| #[trigger] c1.blocks@.contains_key(k) ==> collector.blocks@.contains_key(k),
                forall|k: u64| #[trigger] c0.blocks@.contains_key(k) ==> collector.blocks@.contains_key(k),
                forall|k: u64| #[trigger] bitmap_entries(new_bitmap).contains_key(k) ==> collector.blocks@.contains_key(k),
                c0 == *old(collector),
                fs.sb.raw@ == raw0,
                *fs == fs0,
                ready ==> forall|i: int| 0 <= i < deltas@.len() ==> #[trigger] delta_zero(deltas@[i].1),
                forall|x: u64| #[trigger] bitmap_entries(new_bitmap).contains_key(x) ==> collector.blocks@[x]
                    == bitmap_entries(new_bitmap)[x] || desc_block(fs0.sb, x),
                forall|x: int| #![trigger deltas@[x]]
                    0 <= x < j && !delta_zero(deltas@[x].1) ==> desc_written(collector.blocks@, fs0.sb, deltas@[x].0, deltas@[x].1),
                deltas@ == dl,
                forall|i: int| 0 <= i < dl.len() ==> #[trigger] listed_delta(dm, dl, i),
                forall|i: int, l: int| 0 <= i < l < dl.len() ==> #[trigger] dl[i].0 != #[trigger] dl[l].0,
                dl.len() == dm.dom().len(),
                dm.dom().finite(),
                dm == delta_entries(bg_deltas),
                forall|k: u64| #[trigger] collector.blocks@.contains_key(k) ==> c1.blocks@.contains_key(k) || desc_touched(
                    delta_entries(bg_deltas),
                    fs0.sb,
                    k,
                ),
                forall|k: u64|
                    #[trigger] collector.blocks@.contains_key(k) && !desc_touched(delta_entries(bg_deltas), fs0.sb, k)
                        ==> collector.blocks@[k] == c1.blocks@[k],
            decreases deltas@.len() - j,
        {
            let (g, d) = deltas[j];
            proof {
                if ready {
                    assert(delta_zero(deltas@[j as int].1));
                }
            }
            let ghost cj = *collector;
            match Self::submit_block_group(fs, BlockGroupId(g), d, collector) {
                Ok(()) => {},
                Err(e) => {
                    return Err(e);
                },
            }
            proof {
                assert forall|x: u64| #[trigger] bitmap_entries(new_bitmap).contains_key(x) implies collector.blocks@[x]
                    == bitmap_entries(new_bitmap)[x] || desc_block(fs0.sb, x) by {
                    if x as int == desc_lba(fs0.sb, g) {
                        if g < fs0.sb.bg_count {
                            assert(desc_block(fs0.sb, x));
                        }
                    }
                }
                assert(deltas@[j as int] == (g, d));
                if !delta_zero(d) {
                    assert(dl[j as int] == (g, d));
                    assert(listed_delta(dm, dl, j as int));
                    assert(dm.contains_key(g) && dm[g] == d);
                    let (base, img) = choose|base: Seq<u8>, img: Seq<u8>| #[trigger]
                        desc_put(
                            &cj,
                            collector,
                            desc_lba(fs0.sb, g) as u64,
                            desc_off(fs0.sb, g),
                            fs0.sb.block_desc_size as int,
                            base,
                            img,
                        );
                    assert(desc_written(collector.blocks@, fs0.sb, g, d));
                    let lb = desc_lba(fs0.sb, g) as u64;
                    assert(desc_lba(fs0.sb, g) == lb as int);
                    assert(desc_touched(delta_entries(bg_deltas), fs0.sb, lb));
                    assert forall|k: u64| #[trigger] collector.blocks@.contains_key(k) implies c1.blocks@.contains_key(k)
                        || desc_touched(delta_entries(bg_deltas), fs0.sb, k) by {
                        if k != lb {
                            assert(cj.blocks@.contains_key(k));
                        }
                    }
                    assert forall|k: u64|
                        #[trigger] collector.blocks@.contains_key(k) && !desc_touched(delta_entries(bg_deltas), fs0.sb, k)
                            implies collector.blocks@[k] == c1.blocks@[k] by {
                        assert(k != lb);
                        assert(cj.blocks@.contains_key(k));
                    }
                }
                assert forall|x: int| #![trigger deltas@[x]]
                    0 <= x < j + 1 && !delta_zero(deltas@[x].1) implies desc_written(collector.blocks@, fs0.sb, deltas@[x].0, deltas@[x].1) by {
                    if x < j {
                        assert(desc_written(cj.blocks@, fs0.sb, deltas@[x].0, deltas@[x].1));
                        if !delta_zero(d) {
                            let (base, img) = choose|base: Seq<u8>, img: Seq<u8>| #[trigger]
                                desc_put(
                                    &cj,
                                    collector,
                                    desc_lba(fs0.sb, g) as u64,
                                    desc_off(fs0.sb, g),
                                    fs0.sb.block_desc_size as int,
                                    base,
                                    img,
                                );
                            assert(deltas@[x].0 != deltas@[j as int].0);
                            lemma_desc_kept(&cj, collector, fs0.sb, deltas@[x].0, deltas@[x].1, g, base, img);
                        }
                    }
                }
            }
            j = j + 1;
        }
        let ghost c2 = *collector;
        proof {
            lemma_staged(
                c0.blocks@,
                c1.blocks@,
                c2.blocks@,
                bitmap_entries(new_bitmap),
                delta_entries(bg_deltas),
                deltas@,
                fs0.sb,
            );
        }
        let ghost ops0 = inode_ops@;
        let mut ops = inode_ops;
        let nops = ops.len();
        let mut dirty = false;
        let mut k: usize = 0;
        let ghost mut fss: Seq<FileSystem<C>> = seq![*fs];
        let ghost mut cs: Seq<Collector> = seq![*collector];
        let ghost mut ds: Seq<bool> = seq![false];
        while k < nops
            invariant
                ops@.len() == nops,
                k <= nops,
                fs.wf(),
                fs.inodes == old(fs).inodes,
                fs.blocks.conf == old(fs).blocks.conf,
                collector.blocks.wf(),
                collector.postludes == c0.postludes,
                collector.roots == c0.roots,
                collector.sb_dirty == c0.sb_dirty,
                forall|x: u64| #[trigger] c2.blocks@.contains_key(x) ==> collector.blocks@.contains_key(x),
                forall|x: u64| #[trigger] c0.blocks@.contains_key(x) ==> collector.blocks@.contains_key(x),
                forall|x: u64| #[trigger] bitmap_entries(new_bitmap).contains_key(x) ==> collector.blocks@.contains_key(x),
                c0 == *old(collector),
                ready ==> forall|i: int| k <= i < nops ==> #[trigger] no_block_op(ops@[i]),
                fs.sb.raw@.len() == raw0.len() && le32(fs.sb.raw@, S_FREE_INODES as int) == le32(raw0, S_FREE_INODES as int)
                    && le32(fs.sb.raw@, S_FREE_BLOCKS_LO as int) == le32(raw0, S_FREE_BLOCKS_LO as int)
                    && le32(fs.sb.raw@, S_FREE_BLOCKS_HI as int) == le32(raw0, S_FREE_BLOCKS_HI as int),
                fs.sb == (crate::superblock::SuperBlock { raw: fs.sb.raw, ..fs0.sb }),
                forall|x: u64| #[trigger] bitmap_entries(new_bitmap).contains_key(x) ==> collector.blocks@[x]
                    == bitmap_entries(new_bitmap)[x] || desc_block(fs0.sb, x) || inode_block(&*fs, x),
                forall|x: int| #![trigger deltas@[x]]
                    0 <= x < deltas@.len() && !delta_zero(deltas@[x].1) ==> desc_written(collector.blocks@, fs0.sb, deltas@[x].0, deltas@[x].1)
                        || inode_block(&*fs, desc_lba(fs0.sb, deltas@[x].0) as u64),
                ops0.len() == nops,
                forall|i: int| k <= i < nops ==> #[trigger] ops@[i] == ops0[i],
                fss.len() == k + 1,
                cs.len() == k + 1,
                ds.len() == k + 1,
                fss[k as int] == *fs,
                cs[k as int] == *collector,
                ds[k as int] == dirty,
                fss[0] == fs0,
                cs[0] == c2,
                ds[0] == false,
                forall|i: int|
                    0 <= i < k ==> #[trigger] inode_op_done(&fss[i], &fss[i + 1], &ops0[i], ds[i], ds[i + 1], &cs[i], &cs[i + 1]),
            decreases nops - k,
        {
            let mut op = InodeOps::Init(InodeNumber(0), FileType::Unknown);
            std::mem::swap(&mut op, &mut ops[k]);
            let ghost fsk = *fs;
            let ghost ck = *collector;
            let ghost dk = dirty;
            let ghost opk = op;
            proof {
                if ready {
                    assert(no_block_op(op));
                }
            }
            match Self::submit_inode_ops(fs, op, &mut dirty, collector) {
                Ok(()) => {},
                Err(e) => {
                    return Err(e);
                },
            }
            proof {
                if fs.sb != fsk.sb {
                    assert(same_outside(fsk.sb.raw@, fs.sb.raw@, S_LAST_ORPHAN as int, 4));
                    lemma_le32_frame(fs.sb.raw@, fsk.sb.raw@, S_FREE_INODES as int);
                    lemma_le32_frame(fs.sb.raw@, fsk.sb.raw@, S_FREE_BLOCKS_LO as int);
                    lemma_le32_frame(fs.sb.raw@, fsk.sb.raw@, S_FREE_BLOCKS_HI as int);
                }
                assert forall|x: u64| #[trigger] bitmap_entries(new_bitmap).contains_key(x) implies collector.blocks@[x]
                    == bitmap_entries(new_bitmap)[x] || desc_block(fs0.sb, x) || inode_block(&*fs, x) by {
                    lemma_op_block(&fsk, fs, &opk, dk, dirty, &ck, collector, x);
                    if inode_block(&fsk, x) {
                        lemma_inode_block_kept(&fsk, fs, x);
                    }
                }
                assert forall|x: int| #![trigger deltas@[x]]
                    0 <= x < deltas@.len() && !delta_zero(deltas@[x].1) implies desc_written(collector.blocks@, fs0.sb, deltas@[x].0, deltas@[x].1)
                        || inode_block(&*fs, desc_lba(fs0.sb, deltas@[x].0) as u64) by {
                    let b = desc_lba(fs0.sb, deltas@[x].0) as u64;
                    lemma_op_block(&fsk, fs, &opk, dk, dirty, &ck, collector, b);
                    if inode_block(&fsk, b) {
                        lemma_inode_block_kept(&fsk, fs, b);
                    }
                }
                assert(opk == ops0[k as int]);
                let fss2 = fss.push(*fs);
                let cs2 = cs.push(*collector);
                let ds2 = ds.push(dirty);
                assert forall|i: int| 0 <= i < k + 1 implies #[trigger] inode_op_done(
                    &fss2[i],
                    &fss2[i + 1],
                    &ops0[i],
                    ds2[i],
                    ds2[i + 1],
                    &cs2[i],
                    &cs2[i + 1],
                ) by {
                    assert(fss2[i] == fss[i]);
                    assert(cs2[i] == cs[i]);
                    assert(ds2[i] == ds[i]);
                    if i < k {
                        assert(fss2[i + 1] == fss[i + 1]);
                        assert(cs2[i + 1] == cs[i + 1]);
                        assert(ds2[i + 1] == ds[i + 1]);
                    }
                }
                fss = fss2;
                cs = cs2;
                ds = ds2;
            }
            k = k + 1;
        }
        let ghost fsz = *fs;
        let r = Self::submit_sb(sb_delta, dirty, fs, collector);
        proof {
            assert forall|x: u64| #[trigger] bitmap_entries(new_bitmap).contains_key(x) implies collector.blocks@[x]
                == bitmap_entries(new_bitmap)[x] || desc_block(fs0.sb, x) || inode_block(&*fs, x) by {
                if inode_block(&fsz, x) {
                    lemma_inode_block_kept(&fsz, fs, x);
                }
            }
            if r is Ok {
                assert(ops_chain(ops0, fss, cs, ds));
                assert(chain_framed(
                    &fs0,
                    fs,
                    &c0,
                    collector,
                    bitmap_entries(new_bitmap),
                    delta_entries(bg_deltas),
                    sb_delta,
                    ops0.len() as int,
                    fss,
                    cs,
                    ds,
                ));
                assert forall|g: u32|
                    #[trigger] delta_entries(bg_deltas).contains_key(g) && !delta_zero(delta_entries(bg_deltas)[g]) implies desc_written(
                        collector.blocks@,
                        fs0.sb,
                        g,
                        delta_entries(bg_deltas)[g],
                    ) || inode_block(&*fs, desc_lba(fs0.sb, g) as u64) by {
                    if forall|x: int| 0 <= x < deltas@.len() ==> #[trigger] deltas@[x].0 != g {
                        lemma_keys_listed(deltas@, delta_entries(bg_deltas), g);
                    }
                    let x = choose|x: int| 0 <= x < deltas@.len() && #[trigger] deltas@[x].0 == g;
                    assert(deltas@[x].1 == delta_entries(bg_deltas)[g]);
                    let b = desc_lba(fs0.sb, g) as u64;
                    if inode_block(&fsz, b) {
                        lemma_inode_block_kept(&fsz, fs, b);
                    }
                }
            }
        }
        r
    }
}

/// A key of a finite map missing from a list that holds each key of the
/// map once, as long as the map, is not in the map.
proof fn lemma_keys_listed<K, V, W>(l: Seq<(K, V)>, m: Map<K, W>, k: K)
    requires
        m.dom().finite(),
        l.len() == m.dom().len(),
        forall|i: int| 0 <= i < l.len() ==> #[trigger] m.contains_key(l[i].0),
        forall|i: int, j: int| 0 <= i < j < l.len() ==> #[trigger] l[i].0 != #[trigger] l[j].0,
        forall|i: int| 0 <= i < l.len() ==> #[trigger] l[i].0 != k,
    ensures
        !m.contains_key(k),
{
    let keys = Set::new(|x: K| exists|i: int| 0 <= i < l.len() && #[trigger] l[i].0 == x);
    assert(keys.subset_of(m.dom())) by {
        assert forall|x: K| keys.contains(x) implies m.dom().contains(x) by {
            let i = choose|i: int| 0 <= i < l.len() && #[trigger] l[i].0 == x;
        }
    }
    let idx = Seq::new(l.len(), |i: int| l[i].0);
    assert(idx.no_duplicates()) by {
        assert forall|i: int, j: int| 0 <= i < idx.len() && 0 <= j < idx.len() && i != j implies idx[i] != idx[j] by {
            if i < j {
                assert(l[i].0 != l[j].0);
            } else {
                assert(l[j].0 != l[i].0);
            }
        }
    }
    assert(idx.to_set() =~= keys) by {
        assert forall|x: K| idx.to_set().contains(x) <==> keys.contains(x) by {
            if idx.to_set().contains(x) {
                let i = idx.index_of(x);
                assert(l[i].0 == x);
            }
            if keys.contains(x) {
                let i = choose|i: int| 0 <= i < l.len() && #[trigger] l[i].0 == x;
                assert(idx[i] == x);
            }
        }
    }
    idx.unique_seq_to_set();
    if m.contains_key(k) {
        assert(!keys.contains(k)) by {
            if keys.contains(k) {
                let i = choose|i: int| 0 <= i < l.len() && #[trigger] l[i].0 == k;
            }
        }
        assert(keys.insert(k).subset_of(m.dom()));
        vstd::set_lib::lemma_len_subset(keys.insert(k), m.dom());
    }
}


impl Events {
    /// Applies the recorded events to the blocks of the transaction of
    /// `collector`: they are folded into their changes, which are then
    /// written. The events are used up.
    pub fn apply_on_disk<C: Config>(&mut self, fs: &mut FileSystem<C>, collector: &mut Collector) -> (r: Result<(), FsError>)
        requires
            old(self).inner is Some,
            old(fs).wf(),
            old(collector).blocks.wf(),
        ensures
            final(self).inner is None,
            final(fs).wf(),
            final(fs).inodes == old(fs).inodes,
            final(fs).blocks.conf == old(fs).blocks.conf,
            final(collector).blocks.wf(),
            final(collector).roots == old(collector).roots,
            old(collector).sb_dirty ==> final(collector).sb_dirty,
            forall|k: u64| #[trigger] old(collector).blocks@.contains_key(k) ==> final(collector).blocks@.contains_key(k),
            r is Ok ==> final(collector).postludes@ == old(collector).postludes@ + post_fold(old(self).seq()),
            r is Ok && sb_fold(old(self).seq()) is Some ==> final(collector).sb_dirty,
            r is Ok ==> forall|lba: u64, p: nat| #[trigger] touched(old(self).seq(), lba, p) ==> final(collector).blocks@.contains_key(lba),
            r is Ok ==> fold_ok(old(self).seq(), old(fs).sb.inodes_per_group) && ranges_fit(
                old(self).seq(),
                old(fs).sb.block_size as nat,
            ),
            r is Ok ==> forall|g: u32|
                #![trigger delta_of(bg_fold(old(self).seq()), g)]
                delta_of(bg_fold(old(self).seq()), g).free_inodes_cnt_delta == inodes_net(old(self).seq(), g)
                    && delta_of(bg_fold(old(self).seq()), g).free_blocks_cnt_delta == blocks_net(old(self).seq(), g)
                    && delta_of(bg_fold(old(self).seq()), g).used_dirs_cnt_delta == dirs_net(old(self).seq(), g),
            r is Ok ==> sb_of(sb_fold(old(self).seq())).free_blocks_cnt_delta == sb_blocks_net(old(self).seq()) && sb_of(
                sb_fold(old(self).seq()),
            ).free_inodes_cnt_delta == sb_inodes_net(old(self).seq()),
            r is Ok ==> exists|bm: Map<u64, Seq<u8>>|
                bits_inv(old(self).seq(), bm) && bitmaps_ok(bm, old(fs).sb.block_size as nat) && (forall|k: u64|
                    #[trigger] bm.contains_key(k) ==> names_block(old(self).seq(), k)) && from_device(
                    &old(fs).blocks.conf,
                    old(fs).sb.block_size as nat,
                    old(self).seq(),
                    bm,
                ) && #[trigger] written(
                    old(fs),
                    final(fs),
                    old(collector),
                    final(collector),
                    bm,
                    bg_fold(old(self).seq()),
                    sb_fold(old(self).seq()),
                    ops_fold(old(self).seq(), old(fs).sb.inodes_per_group),
                ),
            no_bits(old(self).seq()) && fold_ok(old(self).seq(), old(fs).sb.inodes_per_group) && (forall|g: u32|
                #[trigger] bg_fold(old(self).seq()).contains_key(g) ==> delta_zero(bg_fold(old(self).seq())[g])) && (forall|k: int|
                0 <= k < ops_fold(old(self).seq(), old(fs).sb.inodes_per_group).len() ==> #[trigger] no_block_op(
                    ops_fold(old(self).seq(), old(fs).sb.inodes_per_group)[k],
                )) && (sb_fold(old(self).seq()) matches Some(d) ==> sb_fits(old(fs).sb.raw@, d)) ==> r is Ok,
    {
        let events = match self.inner.take() {
            Some(v) => v,
            None => Vec::new(),
        };
        let ghost c0 = *collector;
        let w = match Events::compress(events, collector, fs) {
            Ok(w) => w,
            Err(e) => {
                return Err(e);
            },
        };
        let ghost bm = bitmap_entries(w.new_bitmap);
        let ghost c1 = *collector;
        let ghost w0 = w;
        let r = w.flush(fs, collector);
        proof {
            if r is Ok {
                assert forall|g: u32|
                    #![trigger delta_of(bg_fold(old(self).seq()), g)]
                    delta_of(bg_fold(old(self).seq()), g).free_inodes_cnt_delta == inodes_net(old(self).seq(), g)
                        && delta_of(bg_fold(old(self).seq()), g).free_blocks_cnt_delta == blocks_net(old(self).seq(), g)
                        && delta_of(bg_fold(old(self).seq()), g).used_dirs_cnt_delta == dirs_net(old(self).seq(), g) by {
                    lemma_fold_counts(old(self).seq(), old(fs).sb.inodes_per_group, g);
                }
                lemma_fold_counts(old(self).seq(), old(fs).sb.inodes_per_group, 0);
                let ops = ops_fold(old(self).seq(), old(fs).sb.inodes_per_group);
                let (fss, cs, ds) = choose|fss: Seq<FileSystem<C>>, cs: Seq<Collector>, ds: Seq<bool>|
                    #[trigger] ops_chain(ops, fss, cs, ds) && chain_framed(
                        old(fs),
                        fs,
                        &c1,
                        collector,
                        bm,
                        bg_fold(old(self).seq()),
                        sb_fold(old(self).seq()),
                        ops.len() as int,
                        fss,
                        cs,
                        ds,
                    );
                assert(chain_framed(
                    old(fs),
                    fs,
                    old(collector),
                    collector,
                    bm,
                    bg_fold(old(self).seq()),
                    sb_fold(old(self).seq()),
                    ops.len() as int,
                    fss,
                    cs,
                    ds,
                ));
                assert(written(
                    old(fs),
                    fs,
                    old(collector),
                    collector,
                    bm,
                    bg_fold(old(self).seq()),
                    sb_fold(old(self).seq()),
                    ops,
                ));
                assert forall|lba: u64, p: nat| #[trigger] touched(old(self).seq(), lba, p) implies collector.blocks@.contains_key(lba) by {
                    assert(bm.contains_key(lba));
                }
            }
        }
        r
    }
}

} // verus!
