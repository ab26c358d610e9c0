//! The inode allocator: the inode bitmaps of the groups, read on first use,
//! in which a bit is set as its inode is handed out.
use vstd::prelude::*;
use crate::bitmap::{bitmap_bit, take_first_clear, test_and_set};
use crate::filesystem::{Config, FileSystem};
use crate::superblock::inode_place;
use crate::transaction::{Event, InodeAllocationOnBg, InodeDeallocationOnBg, Transaction};
use crate::types::{BlockGroupId, FileType, FsError, InodeNumber};

verus! {

/// An inode allocator.
pub struct Allocator {
    /// The group the last inode was taken from; the search starts there.
    pub last_inode_bg_id: u32,
    /// The inode bitmap of each group, once read.
    pub bitmap: Vec<Option<Vec<u8>>>,
}

impl Allocator {
    /// The allocator's invariant.
    pub open spec fn wf(&self) -> bool {
        true
    }

    /// The number of groups.
    pub open spec fn groups(&self) -> nat {
        self.bitmap@.len()
    }

    /// An allocator for `bg` groups with no bitmap read yet.
    pub fn new(bg: usize) -> (r: Self)
        ensures
            r.wf(),
            r.groups() == bg,
            r.last_inode_bg_id == 0,
            forall|i: int| 0 <= i < bg ==> #[trigger] r.bitmap@[i] is None,
    {
        let mut bitmap: Vec<Option<Vec<u8>>> = Vec::new();
        let mut i: usize = 0;
        while i < bg
            invariant
                i <= bg,
                bitmap@.len() == i,
                forall|j: int| 0 <= j < i ==> #[trigger] bitmap@[j] is None,
            decreases bg - i,
        {
            bitmap.push(None);
            i = i + 1;
        }
        Allocator { last_inode_bg_id: 0, bitmap }
    }
}

/// `new` is `old` with block groups read and inode bitmaps read or changed
/// only: the superblock, the device and the groups read before are kept.
pub open spec fn groups_kept<C: Config>(new: &FileSystem<C>, old: &FileSystem<C>) -> bool {
    &&& new.wf()
    &&& new.sb == old.sb
    &&& new.blocks.conf == old.blocks.conf
    &&& new.inodes.bitmap@.len() == old.inodes.bitmap@.len()
    &&& forall|i: int|
        0 <= i < old.sb.bg_count && old.loaded(i) ==> #[trigger] new.block_groups@[i] == old.block_groups@[i]
            && new.blocks.allocator.buddies@[i] == old.blocks.allocator.buddies@[i]
}

/// The bitmap of group `g` in `fs`, once read.
pub open spec fn bits_of<C: Config>(fs: &FileSystem<C>, g: int) -> Seq<u8> {
    fs.inodes.bitmap@[g]->0@
}

impl Allocator {
    /// Reads the inode bitmap of group `bgid`, unless it was read before.
    pub fn bitmap<C: Config>(fs: &mut FileSystem<C>, bgid: BlockGroupId) -> (r: Result<(), FsError>)
        requires
            old(fs).wf(),
            bgid.0 < old(fs).sb.bg_count,
        ensures
            groups_kept(final(fs), old(fs)),
            final(fs).inodes.last_inode_bg_id == old(fs).inodes.last_inode_bg_id,
            forall|i: int| 0 <= i < old(fs).sb.bg_count && i != bgid.0 ==> #[trigger] final(fs).inodes.bitmap@[i]
                == old(fs).inodes.bitmap@[i],
            old(fs).inodes.bitmap@[bgid.0 as int] is Some ==> r is Ok && *final(fs) == *old(fs),
            r is Ok ==> final(fs).inodes.bitmap@[bgid.0 as int] is Some,
            r is Ok && old(fs).inodes.bitmap@[bgid.0 as int] is None ==> bits_of(final(fs), bgid.0 as int).len()
                == final(fs).sb.block_size,
            r is Ok && old(fs).inodes.bitmap@[bgid.0 as int] is None ==> final(fs).block_groups@[bgid.0 as int] is Some
                && crate::filesystem::block_read(
                &final(fs).blocks.conf,
                final(fs).block_groups@[bgid.0 as int]->0.inode_bitmap_lba.0,
                final(fs).sb.block_size as nat,
                Ok(bits_of(final(fs), bgid.0 as int)),
            ),
            r is Err ==> final(fs).inodes == old(fs).inodes,
    {
        let g = bgid.0 as usize;
        if fs.inodes.bitmap[g].is_some() {
            return Ok(());
        }
        let bg = match fs.get_block_group(bgid) {
            Ok(bg) => bg,
            Err(e) => {
                return Err(e);
            },
        };
        let bytes = match fs.blocks.get(bg.inode_bitmap_lba) {
            Ok(b) => b,
            Err(e) => {
                return Err(e);
            },
        };
        let ghost before = *fs;
        fs.inodes.bitmap.set(g, Some(bytes));
        proof {
            assert forall|i: int| 0 <= i < fs.block_groups@.len() implies #[trigger] fs.group_ok(i) by {
                assert(before.group_ok(i));
            }
            assert forall|j: int| 0 <= j < fs.inodes.bitmap@.len() implies (#[trigger] fs.inodes.bitmap@[j] matches Some(b) ==> b@.len()
                == fs.sb.block_size) by {
                if j != g {
                    assert(fs.inodes.bitmap@[j] == before.inodes.bitmap@[j]);
                }
            }
        }
        Ok(())
    }

    /// Takes inode `i` when it is free: sets its bit in the inode bitmap of
    /// its group and gives it; gives `None` when it was taken.
    pub fn try_allocate_at<C: Config>(fs: &mut FileSystem<C>, i: u32) -> (r: Result<Option<InodeNumber>, FsError>)
        requires
            old(fs).wf(),
            i >= 1,
            inode_place(i as nat, old(fs).sb.inodes_per_group as nat).0 < old(fs).sb.bg_count,
            old(fs).sb.inodes_per_group <= 8 * old(fs).sb.block_size,
        ensures
            groups_kept(final(fs), old(fs)),
            ({
                let g = inode_place(i as nat, old(fs).sb.inodes_per_group as nat).0 as int;
                let k = inode_place(i as nat, old(fs).sb.inodes_per_group as nat).1;
                &&& forall|j: int| 0 <= j < old(fs).sb.bg_count && j != g ==> #[trigger] final(fs).inodes.bitmap@[j]
                    == old(fs).inodes.bitmap@[j]
                &&& r is Ok ==> final(fs).inodes.bitmap@[g] is Some && bitmap_bit(bits_of(final(fs), g), k)
                &&& r matches Ok(Some(ino)) ==> ino.0 == i && (old(fs).inodes.bitmap@[g] is Some ==> !bitmap_bit(
                    bits_of(old(fs), g),
                    k,
                ) && forall|p: nat|
                    p < bits_of(old(fs), g).len() * 8 ==> #[trigger] bitmap_bit(bits_of(final(fs), g), p) == (p == k
                        || bitmap_bit(bits_of(old(fs), g), p)))
                &&& r matches Ok(None) ==> old(fs).inodes.bitmap@[g] is Some ==> bitmap_bit(bits_of(old(fs), g), k)
                    && forall|p: nat|
                    p < bits_of(old(fs), g).len() * 8 ==> #[trigger] bitmap_bit(bits_of(final(fs), g), p) == bitmap_bit(
                        bits_of(old(fs), g),
                        p,
                    )
                &&& old(fs).inodes.bitmap@[g] is Some ==> r is Ok
            }),
    {
        let ino = InodeNumber(i);
        let (bgid, idx) = ino.into_bgid_index(&fs.sb);
        match Self::bitmap(fs, bgid) {
            Ok(()) => {},
            Err(e) => {
                return Err(e);
            },
        }
        let g = bgid.0 as usize;
        let ghost before = *fs;
        let slot = &mut fs.inodes.bitmap[g];
        let r = match slot {
            Some(b) => {
                proof {
                    assert(before.inodes.bitmap@[g as int] is Some);
                }
                test_and_set(b, idx)
            },
            None => false,
        };
        proof {
            assert forall|j: int| 0 <= j < fs.block_groups@.len() implies #[trigger] fs.group_ok(j) by {
                assert(before.group_ok(j));
            }
            assert forall|j: int| 0 <= j < fs.inodes.bitmap@.len() implies (#[trigger] fs.inodes.bitmap@[j] matches Some(b) ==> b@.len()
                == fs.sb.block_size) by {
                if j != g {
                    assert(fs.inodes.bitmap@[j] == before.inodes.bitmap@[j]);
                }
            }
        }
        if r {
            Ok(Some(ino))
        } else {
            Ok(None)
        }
    }

    /// Takes the first free inode of group `bgid`: sets the lowest clear bit
    /// of its inode bitmap and gives its index.
    pub fn get_free_ino<C: Config>(fs: &mut FileSystem<C>, bgid: BlockGroupId) -> (r: Result<Option<usize>, FsError>)
        requires
            old(fs).wf(),
            bgid.0 < old(fs).sb.bg_count,
        ensures
            groups_kept(final(fs), old(fs)),
            final(fs).inodes.last_inode_bg_id == old(fs).inodes.last_inode_bg_id,
            forall|j: int| 0 <= j < old(fs).sb.bg_count && j != bgid.0 ==> #[trigger] final(fs).inodes.bitmap@[j]
                == old(fs).inodes.bitmap@[j],
            r is Ok ==> final(fs).inodes.bitmap@[bgid.0 as int] is Some,
            old(fs).inodes.bitmap@[bgid.0 as int] is Some ==> r is Ok,
            ({
                let g = bgid.0 as int;
                let b = final(fs).inodes.bitmap@[g];
                &&& r matches Ok(Some(k)) ==> {
                    &&& b is Some
                    &&& k < bits_of(final(fs), g).len() * 8
                    &&& bitmap_bit(bits_of(final(fs), g), k as nat)
                    &&& old(fs).inodes.bitmap@[g] is Some ==> {
                        &&& !bitmap_bit(bits_of(old(fs), g), k as nat)
                        &&& forall|p: nat| p < k ==> #[trigger] bitmap_bit(bits_of(old(fs), g), p)
                        &&& forall|p: nat|
                            p < bits_of(old(fs), g).len() * 8 ==> #[trigger] bitmap_bit(bits_of(final(fs), g), p)
                                == (p == k || bitmap_bit(bits_of(old(fs), g), p))
                    }
                }
                &&& (r == Ok::<Option<usize>, FsError>(None) && old(fs).inodes.bitmap@[g] is Some) ==> bits_of(final(fs), g) == bits_of(old(fs), g)
                &&& r matches Ok(None) ==> b is Some && forall|p: nat|
                    p < bits_of(final(fs), g).len() * 8 ==> #[trigger] bitmap_bit(bits_of(final(fs), g), p)
            }),
    {
        match Self::bitmap(fs, bgid) {
            Ok(()) => {},
            Err(e) => {
                return Err(e);
            },
        }
        let g = bgid.0 as usize;
        let ghost before = *fs;
        let slot = &mut fs.inodes.bitmap[g];
        let r = match slot {
            Some(b) => {
                proof {
                    assert(before.inodes.bitmap@[g as int] is Some);
                }
                take_first_clear(b)
            },
            None => None,
        };
        proof {
            assert forall|j: int| 0 <= j < fs.block_groups@.len() implies #[trigger] fs.group_ok(j) by {
                assert(before.group_ok(j));
            }
            assert forall|j: int| 0 <= j < fs.inodes.bitmap@.len() implies (#[trigger] fs.inodes.bitmap@[j] matches Some(b) ==> b@.len()
                == fs.sb.block_size) by {
                if j != g {
                    assert(fs.inodes.bitmap@[j] == before.inodes.bitmap@[j]);
                }
            }
            assert(fs.sb == before.sb);
            assert(fs.wf());
            assert(groups_kept(fs, &before));
        }
        Ok(r)
    }
}

/// Group `g` of `fs` has no inode to give: its count says none is free, or
/// every bit of its inode bitmap is set.
pub open spec fn inode_group_full<C: Config>(fs: &FileSystem<C>, g: int) -> bool {
    ||| (fs.block_groups@[g] matches Some(b) && b.free_inodes_count == 0)
    ||| (fs.inodes.bitmap@[g] matches Some(b) && forall|p: nat| p < b@.len() * 8 ==> #[trigger] bitmap_bit(b@, p))
}

/// The group asked `c`-th by a cycle over `n` groups from group `start`.
pub open spec fn step_of(start: int, c: int, n: int) -> int {
    (start + c) % n
}

/// Two of `n` steps of a cycle fall on different groups.
proof fn lemma_mod_distinct(a: int, j: int, k: int, n: int)
    requires
        a >= 0,
        0 <= j < k < n,
    ensures
        (a + j) % n != (a + k) % n,
{
    vstd::arithmetic::div_mod::lemma_fundamental_div_mod(a + j, n);
    vstd::arithmetic::div_mod::lemma_fundamental_div_mod(a + k, n);
    let q1 = (a + j) / n;
    let q2 = (a + k) / n;
    if (a + j) % n == (a + k) % n {
        assert(k - j == (q2 - q1) * n) by (nonlinear_arith)
            requires
                a + j == n * q1 + (a + j) % n,
                a + k == n * q2 + (a + k) % n,
                (a + j) % n == (a + k) % n,
        ;
        assert(false) by (nonlinear_arith)
            requires
                k - j == (q2 - q1) * n,
                0 < k - j < n,
        ;
    }
}

impl Allocator {
    /// Takes a free inode for an entry of type `de`: the groups are tried
    /// from the one the last inode came from, in a cycle, and in the first
    /// group whose count says it has free inodes, the first clear bit of its
    /// inode bitmap is taken. The allocation is recorded in the group's free
    /// count, in the superblock's, and in `trans`.
    pub fn allocate<C: Config>(fs: &mut FileSystem<C>, de: FileType, trans: &mut Transaction) -> (r: Result<
        InodeNumber,
        FsError,
    >)
        requires
            old(fs).wf(),
            old(trans).wf(),
        ensures
            final(fs).wf(),
            final(trans).wf(),
            final(trans).collector == old(trans).collector,
            final(fs).blocks.conf == old(fs).blocks.conf,
            old(fs).sb.free_inodes_count == 0 ==> r == Err::<InodeNumber, FsError>(FsError::FsFull) && *final(fs)
                == *old(fs) && *final(trans) == *old(trans),
            r is Err ==> final(trans).events == old(trans).events && final(fs).sb == old(fs).sb,
            r matches Ok(ino) ==> {
                let g = inode_place(ino.0 as nat, old(fs).sb.inodes_per_group as nat).0 as int;
                let k = inode_place(ino.0 as nat, old(fs).sb.inodes_per_group as nat).1;
                &&& ino.0 >= 1
                &&& g < old(fs).sb.bg_count
                &&& final(fs).inodes.bitmap@[g] is Some
                &&& bitmap_bit(bits_of(final(fs), g), k)
                &&& old(fs).inodes.bitmap@[g] is Some ==> {
                    &&& !bitmap_bit(bits_of(old(fs), g), k)
                    &&& forall|p: nat| p < k ==> #[trigger] bitmap_bit(bits_of(old(fs), g), p)
                    &&& forall|p: nat|
                        p < bits_of(old(fs), g).len() * 8 ==> #[trigger] bitmap_bit(bits_of(final(fs), g), p) == (p == k
                            || bitmap_bit(bits_of(old(fs), g), p))
                }
                &&& final(fs).inodes.last_inode_bg_id == g
                &&& exists|c: int|
                    0 <= c < old(fs).sb.bg_count && #[trigger] step_of(
                        old(fs).inodes.last_inode_bg_id as int,
                        c,
                        old(fs).sb.bg_count as int,
                    ) == g && forall|j: int|
                        0 <= j < c ==> #[trigger] inode_group_full(
                            final(fs),
                            step_of(old(fs).inodes.last_inode_bg_id as int, j, old(fs).sb.bg_count as int),
                        )
                &&& final(fs).sb.free_inodes_count == old(fs).sb.free_inodes_count - 1
                &&& final(fs).block_groups@[g] matches Some(b) && (old(fs).block_groups@[g] matches Some(ob)
                    ==> b == ob.with_counts((ob.free_inodes_count - 1) as u32, ob.free_blocks_count))
                &&& final(trans).events.seq() == old(trans).events.seq().push(
                    Event::InodeAllocationOnBg(
                        InodeAllocationOnBg {
                            bgid: BlockGroupId(g as u32),
                            bitmap_lba: final(fs).block_groups@[g]->0.inode_bitmap_lba,
                            ofs: k as usize,
                            de,
                        },
                    ),
                ).push(Event::FreeInodesCountDecOnSb)
            },
    {
        if fs.sb.get_free_inodes_count() == 0 {
            return Err(FsError::FsFull);
        }
        let ghost fs0 = *fs;
        let n = fs.sb.bg_count;
        let start = fs.inodes.last_inode_bg_id;
        let mut k: u32 = 0;
        while k < n
            invariant
                fs.wf(),
                groups_kept(fs, &fs0),
                fs0 == *old(fs),
                fs.inodes.last_inode_bg_id == fs0.inodes.last_inode_bg_id,
                forall|j: int| 0 <= j < fs0.sb.bg_count && fs0.inodes.bitmap@[j] is Some ==> #[trigger] fs.inodes.bitmap@[j] is Some
                    && bits_of(fs, j) == bits_of(&fs0, j),
                n == fs.sb.bg_count,
                trans.wf(),
                k <= n,
                fs.sb.free_inodes_count > 0,
                *trans == *old(trans),
                start == fs0.inodes.last_inode_bg_id,
                forall|j: int| 0 <= j < k ==> #[trigger] inode_group_full(fs, step_of(start as int, j, n as int)),
            decreases n - k,
        {
            let g: u32 = ((start as u64 + k as u64) % n as u64) as u32;
            let bgid = BlockGroupId(g);
            let ghost fs1 = *fs;
            let bg = match fs.get_block_group(bgid) {
                Ok(bg) => bg,
                Err(e) => {
                    return Err(e);
                },
            };
            proof {
                assert(groups_kept(fs, &fs0)) by {
                    assert forall|i: int| 0 <= i < fs0.sb.bg_count && fs0.loaded(i) implies #[trigger] fs.block_groups@[i]
                        == fs0.block_groups@[i] && fs.blocks.allocator.buddies@[i] == fs0.blocks.allocator.buddies@[i] by {
                        assert(fs1.block_groups@[i] == fs0.block_groups@[i]);
                        assert(fs1.loaded(i));
                    }
                }
                assert forall|j: int| 0 <= j < fs0.sb.bg_count && fs0.inodes.bitmap@[j] is Some implies #[trigger] fs.inodes.bitmap@[j] is Some
                    && bits_of(fs, j) == bits_of(&fs0, j) by {
                    assert(fs.inodes == fs1.inodes);
                    assert(fs1.inodes.bitmap@[j] is Some);
                }
            }
            if bg.get_free_inodes_count() > 0 {
                let ghost fs2 = *fs;
                let got = match Self::get_free_ino(fs, bgid) {
                    Ok(x) => x,
                    Err(e) => {
                        return Err(e);
                    },
                };
                proof {
                    assert(groups_kept(fs, &fs0)) by {
                        assert forall|i: int| 0 <= i < fs0.sb.bg_count && fs0.loaded(i) implies #[trigger] fs.block_groups@[i]
                            == fs0.block_groups@[i] && fs.blocks.allocator.buddies@[i] == fs0.blocks.allocator.buddies@[i] by {
                            assert(fs2.block_groups@[i] == fs0.block_groups@[i]);
                            assert(fs2.loaded(i));
                        }
                    }
                    if got is None {
                        assert forall|j: int| 0 <= j < fs0.sb.bg_count && fs0.inodes.bitmap@[j] is Some implies #[trigger] fs.inodes.bitmap@[j] is Some
                            && bits_of(fs, j) == bits_of(&fs0, j) by {
                            assert(fs2.inodes.bitmap@[j] is Some);
                            if j != g {
                                assert(fs.inodes.bitmap@[j] == fs2.inodes.bitmap@[j]);
                            }
                        }
                    }
                }
                match got {
                    Some(ofs) => {
                        let ipg = fs.sb.inodes_per_group;
                        proof {
                            assert(g as u64 * ipg as u64 <= 0xffff_ffff * 0xffff_ffff) by (nonlinear_arith)
                                requires
                                    g <= 0xffff_ffff,
                                    ipg <= 0xffff_ffff,
                            ;
                        }
                        if ofs >= ipg as usize || g as u64 * ipg as u64 + ofs as u64 + 1 > u32::MAX as u64 {
                            return Err(FsError::InvalidFs);
                        }
                        let ghost fs3 = *fs;
                        proof {
                            assert(fs2.loaded(g as int));
                            assert(fs.block_groups@[g as int] == fs2.block_groups@[g as int]);
                        }
                        fs.bg_allocate_inode(g as usize, ofs as u32, trans, de);
                        trans.free_inodes_count_dec_on_sb();
                        fs.sb.dec_free_inodes_count();
                        fs.inodes.last_inode_bg_id = g;
                        proof {
                            assert forall|j: int| 0 <= j < fs.block_groups@.len() implies #[trigger] fs.group_ok(j) by {
                                assert(fs3.group_ok(j));
                            }
                            assert forall|j: int| 0 <= j < fs.inodes.bitmap@.len() implies (#[trigger] fs.inodes.bitmap@[j] matches Some(b) ==> b@.len()
                                == fs.sb.block_size) by {
                                assert(fs.inodes.bitmap@[j] == fs3.inodes.bitmap@[j]);
                            }
                            vstd::arithmetic::div_mod::lemma_fundamental_div_mod_converse(
                                (g as int * ipg as int + ofs as int),
                                ipg as int,
                                g as int,
                                ofs as int,
                            );
                            if fs0.loaded(g as int) {
                                assert(fs2.block_groups@[g as int] == fs0.block_groups@[g as int]);
                            }
                            if fs0.inodes.bitmap@[g as int] is Some {
                                assert(bits_of(&fs2, g as int) == bits_of(&fs0, g as int));
                            }
                        }
                        proof {
                            assert(g as int == step_of(start as int, k as int, n as int));
                            assert forall|j: int| 0 <= j < k implies #[trigger] inode_group_full(fs, step_of(start as int, j, n as int)) by {
                                lemma_mod_distinct(start as int, j, k as int, n as int);
                                let gj = step_of(start as int, j, n as int);
                                assert(inode_group_full(&fs1, gj));
                                if fs1.loaded(gj) {
                                    assert(fs2.block_groups@[gj] == fs1.block_groups@[gj]);
                                    assert(fs3.block_groups@[gj] == fs2.block_groups@[gj]);
                                }
                                assert(fs.block_groups@[gj] == fs3.block_groups@[gj]);
                                assert(fs3.inodes.bitmap@[gj] == fs2.inodes.bitmap@[gj]);
                                assert(fs.inodes.bitmap@[gj] == fs3.inodes.bitmap@[gj]);
                            }
                        }
                        return Ok(InodeNumber::from_bgid_index(bgid, ofs, &fs.sb));
                    },
                    None => {},
                }
            }
            proof {
                assert(g as int == step_of(start as int, k as int, n as int));
                assert forall|j: int| 0 <= j < k + 1 implies #[trigger] inode_group_full(fs, step_of(start as int, j, n as int)) by {
                    if j < k {
                        lemma_mod_distinct(start as int, j, k as int, n as int);
                        let gj = step_of(start as int, j, n as int);
                        assert(inode_group_full(&fs1, gj));
                        if fs1.loaded(gj) {
                            assert(fs.block_groups@[gj] == fs1.block_groups@[gj]);
                        }
                        assert(fs.inodes.bitmap@[gj] == fs1.inodes.bitmap@[gj]);
                    }
                }
            }
            k = k + 1;
        }
        Err(FsError::FsFull)
    }

    /// Gives inode `ino`, of an entry of type `de`, back: the release is
    /// recorded in `trans`, for its group and the superblock; the bitmap bit
    /// is cleared once the transaction is on disk.
    pub fn deallocate<C: Config>(fs: &mut FileSystem<C>, ino: InodeNumber, de: FileType, trans: &mut Transaction) -> (r:
        Result<(), FsError>)
        requires
            old(fs).wf(),
            old(trans).wf(),
            ino.0 >= 1,
            inode_place(ino.0 as nat, old(fs).sb.inodes_per_group as nat).0 < old(fs).sb.bg_count,
        ensures
            final(fs).wf(),
            final(fs).sb == old(fs).sb,
            final(fs).inodes == old(fs).inodes,
            final(fs).blocks.conf == old(fs).blocks.conf,
            final(trans).wf(),
            final(trans).collector == old(trans).collector,
            r is Err ==> final(trans).events == old(trans).events,
            old(fs).loaded(inode_place(ino.0 as nat, old(fs).sb.inodes_per_group as nat).0 as int) ==> r is Ok,
            forall|i: int| 0 <= i < old(fs).sb.bg_count && old(fs).loaded(i) ==> #[trigger] final(fs).block_groups@[i]
                == old(fs).block_groups@[i],
            r is Ok ==> {
                let g = inode_place(ino.0 as nat, old(fs).sb.inodes_per_group as nat).0 as int;
                let k = inode_place(ino.0 as nat, old(fs).sb.inodes_per_group as nat).1;
                &&& final(fs).block_groups@[g] is Some
                &&& final(trans).events.seq() == old(trans).events.seq().push(
                    Event::InodeDeallocationOnBg(
                        InodeDeallocationOnBg {
                            ino,
                            bgid: BlockGroupId(g as u32),
                            bitmap_lba: final(fs).block_groups@[g]->0.inode_bitmap_lba,
                            ofs: k as usize,
                            de,
                        },
                    ),
                ).push(Event::FreeInodesCountIncOnSb)
            },
    {
        let (bgid, ofs) = ino.into_bgid_index(&fs.sb);
        let bg = match fs.get_block_group(bgid) {
            Ok(bg) => bg,
            Err(e) => {
                return Err(e);
            },
        };
        trans.inode_deallocation_on_bg(ino, bgid, bg.inode_bitmap_lba, ofs, de);
        trans.free_inodes_count_inc_on_sb();
        Ok(())
    }
}

} // verus!
