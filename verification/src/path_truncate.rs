//! Shortening the last extent of an extent tree through a loaded path, and
//! moving the path back to the previous extent, giving back the nodes that
//! become empty on the way.
use vstd::prelude::*;
use crate::block_alloc::Allocator;
use crate::extent::{Entry, Leaf, entry_storable};
use crate::filesystem::{Config, FileSystem};
use crate::path::{Path, lemma_synced_edit, pick};
use crate::transaction::{Event, Transaction};
use crate::superblock::SuperBlock;
use crate::block_group::BlockGroup;
use crate::types::{FsError, LogicalBlockNumber};

verus! {

impl<const MUT: bool> Path<MUT> {
    /// The path's invariant, but for the index of the last level, which may
    /// be one past the last entry.
    pub open spec fn loose(&self) -> bool {
        &&& self.leafs.wf()
        &&& self.distinct()
        &&& forall|l: int| 0 <= l < self.levels() - 1 ==> #[trigger] self.level_ok(l)
        &&& self.node_at(self.levels() - 1).storable()
        &&& (self.idx(self.levels() - 1) matches Some(i) ==> i <= self.ents(self.levels() - 1).len())
    }
}

/// A well-formed path is loose.
pub proof fn lemma_wf_loose<const MUT: bool>(p: &Path<MUT>)
    requires
        p.wf(),
    ensures
        p.loose(),
{
    assert forall|l: int| 0 <= l < p.levels() - 1 implies #[trigger] p.level_ok(l) by {
        assert(p.node_at(l).storable());
        assert(p.idx(l) is Some);
    }
    assert(p.node_at(p.levels() - 1).storable());
}

/// A loose path whose last index points at an entry, or at none, is well-formed.
pub proof fn lemma_loose_wf<const MUT: bool>(p: &Path<MUT>)
    requires
        p.loose(),
        p.idx(p.levels() - 1) matches Some(i) ==> i < p.ents(p.levels() - 1).len(),
    ensures
        p.wf(),
{
    assert forall|l: int|
        0 <= l < p.levels() implies (#[trigger] p.node_at(l)).storable() && (p.idx(l) is Some
            ==> p.idx(l)->0 < p.ents(l).len()) by {
        if l < p.levels() - 1 {
            assert(p.level_ok(l));
        }
    }
    assert forall|l: int| 0 <= l < p.levels() - 1 implies {
        &&& #[trigger] p.idx(l) is Some
        &&& p.ents(l)[p.idx(l)->0 as int] is Internal
        &&& p.ents(l)[p.idx(l)->0 as int]->Internal_0.next_node == p.lba_at(l + 1)
    } by {
        assert(p.level_ok(l));
    }
}

/// Being a prefix carries over.
pub proof fn lemma_prefix_trans<A>(a: Seq<A>, b: Seq<A>, c: Seq<A>)
    requires
        a.is_prefix_of(b),
        b.is_prefix_of(c),
    ensures
        a.is_prefix_of(c),
{
    assert forall|k: int| 0 <= k < a.len() implies a[k] == c[k] by {
        assert(a[k] == b[k]);
        assert(b[k] == c[k]);
    }
    assert(a =~= c.subrange(0, a.len() as int));
}

impl<const MUT: bool> Path<MUT> {
    /// The index followed at the last level.
    fn last_idx(&self) -> (r: Option<usize>)
        requires
            self.leafs.wf(),
        ensures
            r == self.idx(self.levels() - 1),
    {
        let n = self.leafs.len();
        if n == 0 {
            self.root.1
        } else {
            match self.leafs.get(n - 1) {
                Some(e) => e.1,
                None => None,
            }
        }
    }
}

impl Path<true> {
    /// Sets the index of the last level of a loose path.
    fn set_last_idx(&mut self, i: Option<usize>)
        requires
            old(self).loose(),
            i matches Some(k) ==> k < old(self).ents(old(self).levels() - 1).len(),
        ensures
            final(self).wf(),
            final(self).same_except(old(self), old(self).levels() - 1),
            final(self).node_at(old(self).levels() - 1) == old(self).node_at(old(self).levels() - 1),
            final(self).idx(old(self).levels() - 1) == i,
            final(self).root.0 == old(self).root.0,
    {
        let ghost p0 = *self;
        let last = self.len() - 1;
        if last == 0 {
            self.root.1 = i;
        } else {
            match self.leafs.get_mut(last - 1) {
                Some(x) => {
                    x.1 = i;
                },
                None => {},
            }
        }
        proof {
            assert forall|m: int|
                0 <= m < self.levels() && m != last implies #[trigger] self.node_at(m) == p0.node_at(m) && self.idx(m)
                    == p0.idx(m) by {}
            assert forall|m: int| 1 <= m < self.levels() implies #[trigger] self.lba_at(m) == p0.lba_at(m) by {}
            assert forall|l: int| 0 <= l < self.levels() - 1 implies #[trigger] self.level_ok(l) by {
                assert(p0.level_ok(l));
                assert(self.node_at(l) == p0.node_at(l));
                assert(self.lba_at(l + 1) == p0.lba_at(l + 1));
            }
            assert forall|l: int, m: int| 1 <= l < m < self.levels() implies #[trigger] self.lba_at(l) != #[trigger] self.lba_at(m) by {
                assert(self.lba_at(l) == p0.lba_at(l));
                assert(self.lba_at(m) == p0.lba_at(m));
            }
            lemma_loose_wf(self);
        }
    }

    /// Drops the last level of a loose path below the root, and gives it back.
    fn drop_last(&mut self, tx: &Transaction) -> (r: crate::path::Node)
        requires
            old(self).loose(),
            old(self).synced(tx),
            old(self).levels() >= 2,
        ensures
            final(self).wf(),
            final(self).synced(tx),
            final(self).ino == old(self).ino,
            final(self).root == old(self).root,
            final(self).levels() == old(self).levels() - 1,
            forall|l: int| 0 <= l < final(self).levels() ==> #[trigger] final(self).node_at(l) == old(self).node_at(l)
                && final(self).idx(l) == old(self).idx(l),
            forall|l: int| 1 <= l < final(self).levels() ==> #[trigger] final(self).lba_at(l) == old(self).lba_at(l),
            r.node == old(self).node_at(old(self).levels() - 1),
            r.lba == old(self).lba_at(old(self).levels() - 1),
    {
        let ghost p0 = *self;
        let r = match self.leafs.pop() {
            Some(x) => x.0,
            None => crate::path::Node {
                lba: LogicalBlockNumber(0),
                node: crate::extent::ExtentNode { depth: 0, max_entries: 0, entries: Vec::new() },
            },
        };
        proof {
            assert forall|l: int| 0 <= l < self.levels() implies #[trigger] self.node_at(l) == p0.node_at(l) && self.idx(l) == p0.idx(l) by {}
            assert forall|l: int| 1 <= l < self.levels() implies #[trigger] self.lba_at(l) == p0.lba_at(l) by {}
            assert forall|l: int, m: int| 1 <= l < m < self.levels() implies #[trigger] self.lba_at(l) != #[trigger] self.lba_at(m) by {
                assert(self.lba_at(l) == p0.lba_at(l));
                assert(self.lba_at(m) == p0.lba_at(m));
            }
            assert forall|l: int|
                0 <= l < self.levels() implies (#[trigger] self.node_at(l)).storable() && (self.idx(l) is Some
                    ==> self.idx(l)->0 < self.ents(l).len()) by {
                assert(p0.level_ok(l));
            }
            assert forall|l: int| 0 <= l < self.levels() - 1 implies {
                &&& #[trigger] self.idx(l) is Some
                &&& self.ents(l)[self.idx(l)->0 as int] is Internal
                &&& self.ents(l)[self.idx(l)->0 as int]->Internal_0.next_node == self.lba_at(l + 1)
            } by {
                assert(p0.level_ok(l));
                assert(self.lba_at(l + 1) == p0.lba_at(l + 1));
            }
            assert forall|l: int| 1 <= l < self.levels() implies {
                &&& tx.collector.blocks@.contains_key(#[trigger] self.lba_at(l).0)
                &&& crate::extent::node_bytes_ok(tx.collector.blocks@[self.lba_at(l).0])
                &&& crate::extent::node_of(tx.collector.blocks@[self.lba_at(l).0]) == crate::path::triple(self.node_at(l))
            } by {
                assert(self.lba_at(l) == p0.lba_at(l));
            }
        }
        r
    }
}

/// The last node of `p` follows its last entry, which leads to the node
/// `child`, in a block of the file system.
pub open spec fn child_followed<const MUT: bool>(p: &Path<MUT>, child: crate::path::Node, sb: crate::superblock::SuperBlock) -> bool {
    let last = p.levels() - 1;
    &&& p.idx(last) matches Some(j) && j + 1 == p.ents(last).len() && p.ents(last)[j as int] is Internal
        && p.ents(last)[j as int]->Internal_0.next_node == child.lba
    &&& sb.first_data_block <= child.lba.0 < sb.blocks_count
}

impl<const MUT: bool> Path<MUT> {
    /// The deepest level at or above `l` whose node holds more than one
    /// entry, or the root.
    pub open spec fn stop_full(&self, l: int) -> int
        decreases l,
    {
        if l <= 0 {
            0
        } else if self.ents(l).len() > 1 {
            l
        } else {
            self.stop_full(l - 1)
        }
    }

    /// The deepest level at or above `l` that does not follow its first
    /// entry, or the root.
    pub open spec fn stop_back(&self, l: int) -> int
        decreases l,
    {
        if l <= 0 {
            0
        } else if self.idx(l) != Some(0usize) {
            l
        } else {
            self.stop_back(l - 1)
        }
    }

    /// Every level from `m` to below `last` follows its last entry, and the
    /// blocks of the levels below `m` down to `last` lie on the device.
    pub open spec fn chain_ok(&self, m: int, last: int, sb: crate::superblock::SuperBlock) -> bool {
        forall|l: int|
            m <= l < last ==> (#[trigger] self.idx(l) matches Some(j) && j + 1 == self.ents(l).len())
                && sb.first_data_block <= self.lba_at(l + 1).0 < sb.blocks_count
    }

    /// The events that give back the blocks of levels `last` down to `m + 1`,
    /// in that order, with the bitmap blocks of the groups in `bgs`.
    pub open spec fn freed_events(
        &self,
        m: int,
        last: int,
        sb: crate::superblock::SuperBlock,
        bgs: Seq<Option<crate::block_group::BlockGroup>>,
    ) -> Seq<crate::transaction::Event>
        decreases last - m,
    {
        if last <= m {
            Seq::empty()
        } else {
            crate::filesystem::dealloc_events(
                self.ino,
                crate::filesystem::dealloc_pieces(
                    self.lba_at(last).0 as nat,
                    1,
                    sb.first_data_block as nat,
                    sb.blocks_per_group as nat,
                ),
                bgs,
            ) + self.freed_events(m, last - 1, sb, bgs)
        }
    }

    /// The groups of the blocks of levels `last` down to `m + 1` are loaded in `fs`.
    pub open spec fn freed_loaded<C: Config>(&self, m: int, last: int, fs: &FileSystem<C>) -> bool {
        forall|l: int|
            m < l <= last ==> #[trigger] crate::filesystem::pieces_loaded(
                fs,
                crate::filesystem::dealloc_pieces(
                    self.lba_at(l).0 as nat,
                    1,
                    fs.sb.first_data_block as nat,
                    fs.sb.blocks_per_group as nat,
                ),
            )
    }
}

/// The events that give back loaded blocks stay the same in a frame.
pub proof fn lemma_freed_framed<C: Config, const MUT: bool>(
    p: &Path<MUT>,
    m: int,
    last: int,
    a: &FileSystem<C>,
    b: &FileSystem<C>,
)
    requires
        p.freed_loaded(m, last, a),
        b.frame_of(a),
    ensures
        p.freed_loaded(m, last, b),
        p.freed_events(m, last, b.sb, b.block_groups@) == p.freed_events(m, last, a.sb, a.block_groups@),
    decreases last - m,
{
    assert forall|l: int| m < l <= last implies #[trigger] crate::filesystem::pieces_loaded(
        b,
        crate::filesystem::dealloc_pieces(p.lba_at(l).0 as nat, 1, b.sb.first_data_block as nat, b.sb.blocks_per_group as nat),
    ) by {
        crate::filesystem::lemma_dealloc_events_framed(
            a,
            b,
            p.ino,
            crate::filesystem::dealloc_pieces(p.lba_at(l).0 as nat, 1, a.sb.first_data_block as nat, a.sb.blocks_per_group as nat),
        );
    }
    if last > m {
        crate::filesystem::lemma_dealloc_events_framed(
            a,
            b,
            p.ino,
            crate::filesystem::dealloc_pieces(p.lba_at(last).0 as nat, 1, a.sb.first_data_block as nat, a.sb.blocks_per_group as nat),
        );
        assert(p.freed_loaded(m, last - 1, a));
        lemma_freed_framed(p, m, last - 1, a, b);
    }
}

/// `stop_full` from level `x` up gives a level between the root and `x`.
pub proof fn lemma_stop_full_range<const MUT: bool>(p: &Path<MUT>, x: int)
    requires
        x >= 0,
    ensures
        0 <= p.stop_full(x) <= x,
    decreases x,
{
    if x > 0 {
        lemma_stop_full_range(p, x - 1);
    }
}

/// `stop_full` from level `x` up reads only the levels up to `x`.
pub proof fn lemma_stop_full_same<const MUT: bool>(a: &Path<MUT>, b: &Path<MUT>, x: int)
    requires
        forall|l: int| 0 <= l <= x ==> #[trigger] a.ents(l) == b.ents(l),
    ensures
        a.stop_full(x) == b.stop_full(x),
    decreases x,
{
    if x > 0 {
        assert(a.ents(x) == b.ents(x));
        lemma_stop_full_same(a, b, x - 1);
    }
}

/// The events that give back levels depend on the inode and the levels'
/// blocks only.
pub proof fn lemma_freed_same<const MUT: bool>(
    a: &Path<MUT>,
    b: &Path<MUT>,
    m: int,
    last: int,
    sb: SuperBlock,
    bgs: Seq<Option<BlockGroup>>,
)
    requires
        a.ino == b.ino,
        forall|l: int| m < l <= last ==> #[trigger] a.lba_at(l) == b.lba_at(l),
    ensures
        a.freed_events(m, last, sb, bgs) == b.freed_events(m, last, sb, bgs),
    decreases last - m,
{
    if last > m {
        assert(a.lba_at(last) == b.lba_at(last));
        lemma_freed_same(a, b, m, last - 1, sb, bgs);
    }
}

/// A walk back from a last node left empty by the removal of its only
/// entry, read over the path before the removal.
proof fn lemma_truncate_walk(
    p0: &Path<true>,
    pt: &Path<true>,
    p: &Path<true>,
    e0: Seq<Event>,
    et: Seq<Event>,
    e: Seq<Event>,
    own: Seq<Event>,
    sb: SuperBlock,
    bgs: Seq<Option<BlockGroup>>,
)
    requires
        p0.levels() > 1,
        pt.same_except(p0, p0.levels() - 1),
        pt.ents(p0.levels() - 1).len() == 0,
        walked(pt, p, et, e, sb, bgs),
        et == e0 + own,
    ensures
        ({
            let last = p0.levels() - 1;
            let m = p0.stop_full(last - 1);
            &&& p0.chain_ok(m, last, sb)
            &&& e == e0 + own + p0.freed_events(m, last, sb, bgs)
            &&& m < p.levels()
            &&& forall|k: int| 0 <= k < m ==> #[trigger] p.node_at(k) == p0.node_at(k) && p.idx(k) == p0.idx(k)
            &&& p.ents(m) == p0.ents(m).drop_last()
            &&& if p0.ents(m).len() > 1 {
                p.idx(m) == Some((p0.ents(m).len() - 2) as usize)
            } else {
                m == 0 && p.levels() == 1 && p.idx(0) is None
            }
            &&& forall|k: int| m < k < p.levels() ==> #[trigger] p.idx(k) == pick(p.ents(k), None)
        }),
{
    let lt = p0.levels() - 1;
    assert forall|k: int| 0 <= k <= lt - 1 implies #[trigger] pt.ents(k) == p0.ents(k) by {
        assert(pt.node_at(k) == p0.node_at(k));
    }
    lemma_stop_full_same(pt, p0, lt - 1);
    lemma_stop_full_range(p0, lt - 1);
    let m = p0.stop_full(lt - 1);
    assert forall|k: int| m < k <= lt implies #[trigger] pt.lba_at(k) == p0.lba_at(k) by {}
    lemma_freed_same(pt, p0, m, lt, sb, bgs);
    assert forall|k: int| m <= k < lt implies (#[trigger] p0.idx(k) matches Some(j) && j + 1 == p0.ents(k).len())
        && sb.first_data_block <= p0.lba_at(k + 1).0 < sb.blocks_count by {
        assert(pt.node_at(k) == p0.node_at(k));
        assert(pt.idx(k) == p0.idx(k));
        assert(pt.lba_at(k + 1) == p0.lba_at(k + 1));
        assert(pt.chain_ok(m, lt, sb));
    }
    assert forall|k: int| 0 <= k < m implies #[trigger] p.node_at(k) == p0.node_at(k) && p.idx(k) == p0.idx(k) by {
        assert(pt.node_at(k) == p0.node_at(k));
        assert(pt.idx(k) == p0.idx(k));
    }
    assert(pt.ents(m) == p0.ents(m));
    assert(e == e0 + own + p0.freed_events(m, lt, sb, bgs)) by {
        assert(e0 + own + p0.freed_events(m, lt, sb, bgs) =~= e0 + (own + p0.freed_events(m, lt, sb, bgs)));
        assert(e =~= et + p0.freed_events(m, lt, sb, bgs));
    }
}

/// Giving back one more level at the top of a run of freed levels adds its
/// events at the end.
pub proof fn lemma_freed_snoc<const MUT: bool>(
    p: &Path<MUT>,
    m: int,
    last: int,
    sb: crate::superblock::SuperBlock,
    bgs: Seq<Option<crate::block_group::BlockGroup>>,
)
    requires
        0 < m <= last,
    ensures
        p.freed_events(m - 1, last, sb, bgs) == p.freed_events(m, last, sb, bgs) + crate::filesystem::dealloc_events(
            p.ino,
            crate::filesystem::dealloc_pieces(p.lba_at(m).0 as nat, 1, sb.first_data_block as nat, sb.blocks_per_group as nat),
            bgs,
        ),
    decreases last - m,
{
    if last > m {
        lemma_freed_snoc(p, m, last - 1, sb, bgs);
        assert(p.freed_events(m - 1, last, sb, bgs) =~= p.freed_events(m, last, sb, bgs) + crate::filesystem::dealloc_events(
            p.ino,
            crate::filesystem::dealloc_pieces(p.lba_at(m).0 as nat, 1, sb.first_data_block as nat, sb.blocks_per_group as nat),
            bgs,
        ));
    } else {
        assert(p.freed_events(m - 1, m - 1, sb, bgs) =~= Seq::empty());
        assert(p.freed_events(m, m, sb, bgs) =~= Seq::empty());
        assert(p.freed_events(m - 1, last, sb, bgs) =~= p.freed_events(m, last, sb, bgs) + crate::filesystem::dealloc_events(
            p.ino,
            crate::filesystem::dealloc_pieces(p.lba_at(m).0 as nat, 1, sb.first_data_block as nat, sb.blocks_per_group as nat),
            bgs,
        ));
    }
}

/// Where a walk back from the first entry of the last node of `p0` leaves
/// the path `p`, with the events `e` after `e0` and the groups `bgs`. When
/// that node is empty, it and each parent left empty in turn are given back,
/// up to the deepest level `m` that holds more than one entry, which loses
/// its last entry and follows its new last one (a root left empty follows
/// none); else the walk goes up to the deepest level `m` that does not
/// follow its first entry, which then follows the entry before (a root at
/// its first entry follows none). Below `m`, each level follows its last
/// entry.
pub open spec fn walked(
    p0: &Path<true>,
    p: &Path<true>,
    e0: Seq<Event>,
    e: Seq<Event>,
    sb: SuperBlock,
    bgs: Seq<Option<BlockGroup>>,
) -> bool {
    let last = p0.levels() - 1;
    if p0.ents(last).len() == 0 {
        let m = p0.stop_full(last - 1);
        &&& p0.chain_ok(m, last, sb)
        &&& e == e0 + p0.freed_events(m, last, sb, bgs)
        &&& m < p.levels()
        &&& forall|l: int| 0 <= l < m ==> #[trigger] p.node_at(l) == p0.node_at(l) && p.idx(l) == p0.idx(l)
        &&& p.ents(m) == p0.ents(m).drop_last()
        &&& if p0.ents(m).len() > 1 {
            p.idx(m) == Some((p0.ents(m).len() - 2) as usize)
        } else {
            m == 0 && p.levels() == 1 && p.idx(0) is None
        }
        &&& forall|l: int| m < l < p.levels() ==> #[trigger] p.idx(l) == pick(p.ents(l), None)
    } else {
        let m = p0.stop_back(last - 1);
        &&& e == e0
        &&& m < p.levels()
        &&& forall|l: int| 0 <= l < m ==> #[trigger] p.node_at(l) == p0.node_at(l) && p.idx(l) == p0.idx(l)
        &&& p.node_at(m) == p0.node_at(m)
        &&& if p0.idx(m) != Some(0usize) {
            p.idx(m) == Some((p0.idx(m)->0 - 1) as usize)
        } else {
            m == 0 && p.levels() == 1 && p.idx(0) is None
        }
        &&& forall|l: int| m < l < p.levels() ==> #[trigger] p.idx(l) == pick(p.ents(l), None)
    }
}

/// The levels of `p` above its last one are those of `p0`.
spec fn same_above(p0: &Path<true>, p: &Path<true>) -> bool {
    &&& forall|l: int| 0 <= l < p.levels() - 1 ==> #[trigger] p.node_at(l) == p0.node_at(l) && p.idx(l) == p0.idx(l)
    &&& forall|l: int| 1 <= l < p.levels() ==> #[trigger] p.lba_at(l) == p0.lba_at(l)
}

/// How far a walk back from the first entry of the last node of `p0` has
/// come, at the last level of `p`.
#[verifier::opaque]
spec fn walk_inv<C: Config>(p0: &Path<true>, p: &Path<true>, e0: Seq<Event>, e: Seq<Event>, fs: &FileSystem<C>) -> bool {
    let last = p0.levels() - 1;
    let c = p.levels() - 1;
    &&& 1 <= p.levels() <= p0.levels()
    &&& same_above(p0, p)
    &&& p0.ents(last).len() != 0 ==> {
        &&& p.node_at(c) == p0.node_at(c)
        &&& (p.idx(c) == p0.idx(c) || (c == 0 && p.idx(0) is None && p0.idx(0) == Some(0usize) && p0.stop_back(last - 1)
            == 0))
        &&& c < last ==> p0.stop_back(last - 1) == p0.stop_back(c)
        &&& e == e0
    }
    &&& p0.ents(last).len() == 0 ==> {
        &&& c == last ==> p.node_at(last) == p0.node_at(last) && p.idx(last) == Some(0usize)
        &&& c < last ==> {
            &&& p0.ents(c).len() == 1
            &&& p.ents(c).len() == 0
            &&& (p.idx(c) == Some(0usize) || (c == 0 && p.idx(0) is None))
            &&& p0.stop_full(last - 1) == p0.stop_full(c)
        }
        &&& p0.chain_ok(c, last, fs.sb)
        &&& e == e0 + p0.freed_events(c, last, fs.sb, fs.block_groups@)
        &&& p0.freed_loaded(c, last, fs)
    }
}

/// Where the walk stops at the last level of `p`, before going down again.
#[verifier::opaque]
spec fn walk_end<C: Config>(p0: &Path<true>, p: &Path<true>, e0: Seq<Event>, e: Seq<Event>, fs: &FileSystem<C>) -> bool {
    let last = p0.levels() - 1;
    let c = p.levels() - 1;
    &&& 1 <= p.levels() <= p0.levels()
    &&& same_above(p0, p)
    &&& p0.ents(last).len() != 0 ==> {
        &&& p0.stop_back(last - 1) == c
        &&& p.node_at(c) == p0.node_at(c)
        &&& p0.idx(c) matches Some(j) && j > 0 && p.idx(c) == Some((j - 1) as usize)
        &&& e == e0
    }
    &&& p0.ents(last).len() == 0 ==> {
        &&& p0.stop_full(last - 1) == c
        &&& p0.ents(c).len() > 1
        &&& p.ents(c) == p0.ents(c).drop_last()
        &&& p.idx(c) == Some((p0.ents(c).len() - 2) as usize)
        &&& p0.chain_ok(c, last, fs.sb)
        &&& e == e0 + p0.freed_events(c, last, fs.sb, fs.block_groups@)
    }
}

proof fn lemma_walk_start<C: Config>(p0: &Path<true>, e0: Seq<Event>, fs: &FileSystem<C>)
    requires
        p0.loose(),
        p0.levels() > 1,
        p0.idx(p0.levels() - 1) == Some(0usize),
    ensures
        walk_inv(p0, p0, e0, e0, fs),
{
    reveal(walk_inv);
    let last = p0.levels() - 1;
    assert(p0.freed_events(last, last, fs.sb, fs.block_groups@) =~= Seq::empty());
    assert(e0 =~= e0 + p0.freed_events(last, last, fs.sb, fs.block_groups@));
}

proof fn lemma_walk_none<C: Config>(p0: &Path<true>, p: &Path<true>, e0: Seq<Event>, e: Seq<Event>, fs: &FileSystem<C>)
    requires
        walk_inv(p0, p, e0, e, fs),
        p0.loose(),
        p0.levels() > 1,
        p0.idx(p0.levels() - 1) == Some(0usize),
        p.idx(p.levels() - 1) is None,
    ensures
        walked(p0, p, e0, e, fs.sb, fs.block_groups@),
{
    reveal(walk_inv);
    let last = p0.levels() - 1;
    let c = p.levels() - 1;
    if c < last {
        assert(p0.level_ok(c));
    }
    if p0.ents(last).len() == 0 {
        assert(p.ents(0) =~= p0.ents(0).drop_last());
    }
}

proof fn lemma_walk_back<C: Config>(
    p0: &Path<true>,
    p: &Path<true>,
    q: &Path<true>,
    e0: Seq<Event>,
    e: Seq<Event>,
    fs: &FileSystem<C>,
    n: usize,
)
    requires
        walk_inv(p0, p, e0, e, fs),
        p0.loose(),
        p0.levels() > 1,
        p0.idx(p0.levels() - 1) == Some(0usize),
        p.idx(p.levels() - 1) == Some(n),
        n > 0,
        q.same_except(p, p.levels() - 1),
        q.node_at(p.levels() - 1) == p.node_at(p.levels() - 1),
        q.idx(p.levels() - 1) == Some((n - 1) as usize),
    ensures
        walk_end(p0, q, e0, e, fs),
{
    reveal(walk_inv);
    reveal(walk_end);
    let last = p0.levels() - 1;
    let c = p.levels() - 1;
    assert forall|l: int| 0 <= l < q.levels() - 1 implies #[trigger] q.node_at(l) == p0.node_at(l) && q.idx(l) == p0.idx(l) by {
        assert(q.node_at(l) == p.node_at(l));
    }
    assert forall|l: int| 1 <= l < q.levels() implies #[trigger] q.lba_at(l) == p0.lba_at(l) by {
        assert(q.lba_at(l) == p.lba_at(l));
    }
    if c < last {
        assert(p0.level_ok(c));
    }
}

proof fn lemma_walk_root<C: Config>(p0: &Path<true>, p: &Path<true>, q: &Path<true>, e0: Seq<Event>, e: Seq<Event>, fs: &FileSystem<C>)
    requires
        walk_inv(p0, p, e0, e, fs),
        p0.loose(),
        p0.levels() > 1,
        p0.idx(p0.levels() - 1) == Some(0usize),
        p.levels() == 1,
        p.idx(0) == Some(0usize),
        q.same_except(p, 0),
        q.node_at(0) == p.node_at(0),
        q.idx(0) is None,
    ensures
        walk_inv(p0, q, e0, e, fs),
{
    reveal(walk_inv);
    let last = p0.levels() - 1;
    assert(p0.level_ok(0));
    if p0.ents(last).len() != 0 {
        assert(p0.stop_back(0) == 0);
    }
}

proof fn lemma_walk_up<C: Config>(p0: &Path<true>, p: &Path<true>, q: &Path<true>, e0: Seq<Event>, e: Seq<Event>, fs: &FileSystem<C>)
    requires
        walk_inv(p0, p, e0, e, fs),
        p0.loose(),
        p0.levels() > 1,
        p0.idx(p0.levels() - 1) == Some(0usize),
        p.levels() > 1,
        p.idx(p.levels() - 1) == Some(0usize),
        p.ents(p.levels() - 1).len() != 0,
        q.levels() == p.levels() - 1,
        forall|l: int| 0 <= l < q.levels() ==> #[trigger] q.node_at(l) == p.node_at(l) && q.idx(l) == p.idx(l),
        forall|l: int| 1 <= l < q.levels() ==> #[trigger] q.lba_at(l) == p.lba_at(l),
    ensures
        walk_inv(p0, q, e0, e, fs),
{
    reveal(walk_inv);
    let last = p0.levels() - 1;
    let c = p.levels() - 1;
    assert(p0.ents(last).len() != 0) by {
        if p0.ents(last).len() == 0 {
            if c == last {
                assert(p.node_at(last) == p0.node_at(last));
            }
        }
    }
    assert(p.node_at(c - 1) == p0.node_at(c - 1));
    assert forall|l: int| 0 <= l < q.levels() - 1 implies #[trigger] q.node_at(l) == p0.node_at(l) && q.idx(l) == p0.idx(l) by {
        assert(q.node_at(l) == p.node_at(l));
    }
    assert forall|l: int| 1 <= l < q.levels() implies #[trigger] q.lba_at(l) == p0.lba_at(l) by {
        assert(q.lba_at(l) == p.lba_at(l));
    }
    if c < last {
        assert(p0.idx(c) == Some(0usize));
        assert(p0.stop_back(c) == p0.stop_back(c - 1));
    }
    assert(q.node_at(c - 1) == p0.node_at(c - 1));
    assert(q.idx(c - 1) == p0.idx(c - 1));
}

proof fn lemma_walk_removed<C: Config>(
    p0: &Path<true>,
    p: &Path<true>,
    pb: &Path<true>,
    q: &Path<true>,
    child: crate::path::Node,
    e0: Seq<Event>,
    e1: Seq<Event>,
    e: Seq<Event>,
    fs1: &FileSystem<C>,
    fs: &FileSystem<C>,
    keep: bool,
)
    requires
        walk_inv(p0, p, e0, e1, fs1),
        p0.loose(),
        p0.levels() > 1,
        p0.idx(p0.levels() - 1) == Some(0usize),
        p.levels() > 1,
        p.idx(p.levels() - 1) == Some(0usize),
        child.node == p.node_at(p.levels() - 1),
        child.lba == p.lba_at(p.levels() - 1),
        child.node.entries@.len() == 0,
        pb.levels() == p.levels() - 1,
        forall|l: int| 0 <= l < pb.levels() ==> #[trigger] pb.node_at(l) == p.node_at(l) && pb.idx(l) == p.idx(l),
        forall|l: int| 1 <= l < pb.levels() ==> #[trigger] pb.lba_at(l) == p.lba_at(l),
        child_followed(pb, child, fs1.sb),
        q.same_except(pb, pb.levels() - 1),
        q.ents(pb.levels() - 1) == pb.ents(pb.levels() - 1).drop_last(),
        keep == (pb.ents(pb.levels() - 1).len() > 1),
        keep ==> q.idx(pb.levels() - 1) == Some((pb.ents(pb.levels() - 1).len() - 2) as usize),
        !keep ==> q.idx(pb.levels() - 1) == Some(0usize),
        fs.frame_of(fs1),
        e == e1 + crate::filesystem::dealloc_events(
            p0.ino,
            crate::filesystem::dealloc_pieces(child.lba.0 as nat, 1, fs1.sb.first_data_block as nat, fs1.sb.blocks_per_group as nat),
            fs.block_groups@,
        ),
        crate::filesystem::pieces_loaded(
            fs,
            crate::filesystem::dealloc_pieces(child.lba.0 as nat, 1, fs1.sb.first_data_block as nat, fs1.sb.blocks_per_group as nat),
        ),
    ensures
        keep ==> walk_end(p0, q, e0, e, fs),
        !keep ==> walk_inv(p0, q, e0, e, fs),
{
    reveal(walk_inv);
    reveal(walk_end);
    let last = p0.levels() - 1;
    let c = p.levels() - 1;
    assert(p0.ents(last).len() == 0) by {
        if p0.ents(last).len() != 0 {
            assert(p.node_at(c) == p0.node_at(c));
            if c < last {
                assert(p0.level_ok(c));
            }
        }
    }
    assert(pb.node_at(c - 1) == p0.node_at(c - 1));
    assert(pb.idx(c - 1) == p0.idx(c - 1));
    assert(child.lba == p0.lba_at(c));
    lemma_freed_framed(p0, c, last, fs1, fs);
    lemma_freed_snoc(p0, c, last, fs.sb, fs.block_groups@);
    assert forall|l: int| c - 1 < l <= last implies #[trigger] crate::filesystem::pieces_loaded(
        fs,
        crate::filesystem::dealloc_pieces(p0.lba_at(l).0 as nat, 1, fs.sb.first_data_block as nat, fs.sb.blocks_per_group as nat),
    ) by {}
    assert forall|l: int| c - 1 <= l < last implies (#[trigger] p0.idx(l) matches Some(j) && j + 1 == p0.ents(l).len())
        && fs.sb.first_data_block <= p0.lba_at(l + 1).0 < fs.sb.blocks_count by {}
    assert forall|l: int| 0 <= l < q.levels() - 1 implies #[trigger] q.node_at(l) == p0.node_at(l) && q.idx(l) == p0.idx(l) by {
        assert(q.node_at(l) == pb.node_at(l));
        assert(pb.node_at(l) == p.node_at(l));
    }
    assert forall|l: int| 1 <= l < q.levels() implies #[trigger] q.lba_at(l) == p0.lba_at(l) by {
        assert(q.lba_at(l) == pb.lba_at(l));
        assert(pb.lba_at(l) == p.lba_at(l));
    }
    assert(p0.level_ok(c - 1));
    if c < last {
        assert(p0.stop_full(c) == p0.stop_full(c - 1));
    }
    assert(p0.stop_full(last - 1) == p0.stop_full(c - 1));
    assert(e == e0 + p0.freed_events(c - 1, last, fs.sb, fs.block_groups@));
    assert(p0.chain_ok(c - 1, last, fs.sb));
    assert(p0.freed_loaded(c - 1, last, fs));
    assert(same_above(p0, q));
    if keep {
        assert(p0.stop_full(c - 1) == c - 1);
        assert(q.ents(c - 1) == p0.ents(c - 1).drop_last());
    } else {
        assert(p0.ents(c - 1).len() == 1);
        assert(q.ents(c - 1).len() == 0);
    }
}

proof fn lemma_walk_descend<C: Config>(
    p0: &Path<true>,
    pc: &Path<true>,
    p: &Path<true>,
    e0: Seq<Event>,
    e: Seq<Event>,
    fs: &FileSystem<C>,
)
    requires
        walk_end(p0, pc, e0, e, fs),
        p0.loose(),
        p0.levels() > 1,
        p0.idx(p0.levels() - 1) == Some(0usize),
        pc.levels() <= p.levels(),
        forall|l: int| 0 <= l < pc.levels() ==> #[trigger] p.node_at(l) == pc.node_at(l) && p.idx(l) == pc.idx(l),
        forall|l: int| pc.levels() <= l < p.levels() ==> #[trigger] p.idx(l) == pick(p.ents(l), None),
    ensures
        walked(p0, p, e0, e, fs.sb, fs.block_groups@),
{
    reveal(walk_end);
    let last = p0.levels() - 1;
    let c = pc.levels() - 1;
    assert(p.node_at(c) == pc.node_at(c));
    assert forall|l: int| 0 <= l < c implies #[trigger] p.node_at(l) == p0.node_at(l) && p.idx(l) == p0.idx(l) by {
        assert(p.node_at(l) == pc.node_at(l));
    }
}

impl Path<true> {
    /// Moves a loose path to the previous entry: back one entry in the last
    /// node, or, at its first entry, up to the level above, giving back a
    /// node below the root that was left without entries together with its
    /// entry in the parent; then down again along the last entries to as many
    /// levels as there were (see `walked`).
    #[verifier::rlimit(60)]
    pub fn move_prev_with_cleanup<C: Config>(&mut self, tx: &mut Transaction, fs: &mut FileSystem<C>) -> (r: Result<
        (),
        FsError,
    >)
        requires
            old(self).loose(),
            old(self).synced(old(tx)),
            old(tx).wf(),
            old(fs).wf(),
        ensures
            final(self).wf(),
            final(self).synced(final(tx)),
            final(self).ino == old(self).ino,
            final(self).root.0.depth == old(self).root.0.depth,
            final(self).levels() <= old(self).levels(),
            final(fs).frame_of(old(fs)),
            final(tx).wf(),
            final(tx).collector.postludes == old(tx).collector.postludes,
            final(tx).collector.sb_dirty == old(tx).collector.sb_dirty,
            old(tx).events.seq().is_prefix_of(final(tx).events.seq()),
            old(self).idx(old(self).levels() - 1) is None ==> r is Ok && *final(self) == *old(self) && *final(tx)
                == *old(tx),
            old(self).idx(old(self).levels() - 1) is Some && old(self).idx(old(self).levels() - 1)->0 > 0 ==> {
                let last = old(self).levels() - 1;
                &&& r is Ok
                &&& final(self).same_except(old(self), last)
                &&& final(self).node_at(last) == old(self).node_at(last)
                &&& final(self).idx(last) == Some((old(self).idx(last)->0 - 1) as usize)
                &&& *final(tx) == *old(tx)
            },
            old(self).levels() == 1 && old(self).idx(0) == Some(0usize) ==> {
                &&& r is Ok
                &&& final(self).root.0 == old(self).root.0
                &&& final(self).root.1 is None
                &&& final(self).levels() == 1
                &&& *final(tx) == *old(tx)
            },
            old(self).levels() > 1 && old(self).idx(old(self).levels() - 1) == Some(0usize) ==> {
                let last = old(self).levels() - 1;
                &&& r is Ok ==> walked(
                    old(self),
                    final(self),
                    old(tx).events.seq(),
                    final(tx).events.seq(),
                    old(fs).sb,
                    final(fs).block_groups@,
                )
                &&& old(self).ents(last).len() == 0 && !old(self).chain_ok(old(self).stop_full(last - 1), last, old(fs).sb)
                    ==> r is Err
            },
    {
        let ghost fs0 = *fs;
        let ghost tx0 = *tx;
        let ghost p0 = *self;
        let orig_len = self.len();
        let ino = self.ino;
        let first = self.last_idx();
        match first {
            None => {
                proof {
                    lemma_loose_wf(self);
                }
                return Ok(());
            },
            Some(n) => {
                if n > 0 {
                    self.set_last_idx(Some(n - 1));
                    return Ok(());
                }
                if orig_len == 1 {
                    self.set_last_idx(None);
                    return Ok(());
                }
            },
        }
        proof {
            lemma_walk_start(&p0, tx0.events.seq(), fs);
        }
        loop
            invariant_except_break
                walk_inv(&p0, self, tx0.events.seq(), tx.events.seq(), fs),
            invariant
                self.loose(),
                self.synced(tx),
                self.ino == ino,
                ino == old(self).ino,
                self.root.0.depth == old(self).root.0.depth,
                1 <= self.levels() <= orig_len,
                orig_len == old(self).levels(),
                tx.wf(),
                fs.wf(),
                fs.frame_of(&fs0),
                fs0 == *old(fs),
                tx0 == *old(tx),
                p0 == *old(self),
                p0.loose(),
                tx.collector.postludes == tx0.collector.postludes,
                tx.collector.sb_dirty == tx0.collector.sb_dirty,
                tx0.events.seq().is_prefix_of(tx.events.seq()),
                old(self).idx(old(self).levels() - 1) == Some(0usize),
                old(self).levels() > 1,
            ensures
                self.wf(),
                walk_end(&p0, self, tx0.events.seq(), tx.events.seq(), fs),
            decreases self.levels() * 2 + if self.idx(self.levels() - 1) is Some {
                1int
            } else {
                0int
            },
        {
            let c = self.len() - 1;
            let idx = self.last_idx();
            let ghost pa = *self;
            match idx {
                None => {
                    proof {
                        lemma_loose_wf(self);
                        lemma_walk_none(&p0, self, tx0.events.seq(), tx.events.seq(), fs);
                    }
                    return Ok(());
                },
                Some(n) => {
                    if n > 0 {
                        self.set_last_idx(Some(n - 1));
                        proof {
                            lemma_walk_back(&p0, &pa, self, tx0.events.seq(), tx.events.seq(), fs, n);
                        }
                        break;
                    }
                    if c == 0 {
                        self.set_last_idx(None);
                        proof {
                            lemma_walk_root(&p0, &pa, self, tx0.events.seq(), tx.events.seq(), fs);
                        }
                    } else {
                        let child = self.drop_last(tx);
                        if child.node.entries.len() == 0 {
                            let ghost fs1 = *fs;
                            let ghost tx1 = *tx;
                            let ghost pb = *self;
                            let stop = self.remove_child(child, tx, fs);
                            proof {
                                crate::path_insert::lemma_frame_trans(&fs0, &fs1, fs);
                                lemma_prefix_trans(tx0.events.seq(), tx1.events.seq(), tx.events.seq());
                                if let Ok(keep) = stop {
                                    lemma_walk_removed(
                                        &p0,
                                        &pa,
                                        &pb,
                                        self,
                                        child,
                                        tx0.events.seq(),
                                        tx1.events.seq(),
                                        tx.events.seq(),
                                        &fs1,
                                        fs,
                                        keep,
                                    );
                                }
                            }
                            match stop {
                                Ok(true) => {
                                    break;
                                },
                                Ok(false) => {},
                                Err(e) => {
                                    return Err(e);
                                },
                            }
                        } else {
                            proof {
                                lemma_wf_loose(self);
                                lemma_walk_up(&p0, &pa, self, tx0.events.seq(), tx.events.seq(), fs);
                            }
                        }
                    }
                },
            }
        }
        let ghost pc = *self;
        let r = self.descend_to(None, orig_len, tx, fs);
        proof {
            lemma_walk_descend(&p0, &pc, self, tx0.events.seq(), tx.events.seq(), fs);
        }
        r
    }

    /// Gives back the node `child`, just dropped from the path and left
    /// without entries, and the last entry of the node above, which must be
    /// the followed entry leading to it. Gives whether the node above keeps
    /// entries, in which case the path follows its new last entry.
    #[verifier::rlimit(60)]
    #[verifier::spinoff_prover]
    fn remove_child<C: Config>(&mut self, child: crate::path::Node, tx: &mut Transaction, fs: &mut FileSystem<C>) -> (r: Result<bool, FsError>)
        requires
            old(self).wf(),
            old(self).synced(old(tx)),
            old(tx).wf(),
            old(fs).wf(),
        ensures
            final(self).synced(final(tx)),
            final(self).ino == old(self).ino,
            final(self).root.0.depth == old(self).root.0.depth,
            final(self).levels() == old(self).levels(),
            final(fs).wf(),
            final(fs).frame_of(old(fs)),
            final(tx).wf(),
            final(tx).collector.postludes == old(tx).collector.postludes,
            final(tx).collector.sb_dirty == old(tx).collector.sb_dirty,
            old(tx).events.seq().is_prefix_of(final(tx).events.seq()),
            r matches Ok(false) ==> final(self).loose() && final(self).idx(final(self).levels() - 1) == Some(0usize)
                && final(self).ents(final(self).levels() - 1).len() == 0,
            !(r matches Ok(false)) ==> final(self).wf(),
            !child_followed(old(self), child, old(fs).sb) ==> r == Err::<bool, FsError>(FsError::InvalidFs),
            child_followed(old(self), child, old(fs).sb) && old(fs).all_loaded() ==> r is Ok,
            r matches Ok(keep) ==> {
                let last = old(self).levels() - 1;
                &&& final(self).same_except(old(self), last)
                &&& crate::filesystem::pieces_loaded(
                    &*final(fs),
                    crate::filesystem::dealloc_pieces(
                        child.lba.0 as nat,
                        1,
                        old(fs).sb.first_data_block as nat,
                        old(fs).sb.blocks_per_group as nat,
                    ),
                )
                &&& keep == (old(self).ents(last).len() > 1)
                &&& final(self).ents(last) == old(self).ents(last).drop_last()
                &&& keep ==> final(self).idx(last) == Some((old(self).ents(last).len() - 2) as usize)
                &&& final(tx).events.seq() == old(tx).events.seq() + crate::filesystem::dealloc_events(
                    old(self).ino,
                    crate::filesystem::dealloc_pieces(
                        child.lba.0 as nat,
                        1,
                        old(fs).sb.first_data_block as nat,
                        old(fs).sb.blocks_per_group as nat,
                    ),
                    final(fs).block_groups@,
                )
            },
    {
        let ghost fs0 = *fs;
        let ghost tx0 = *tx;
        let ino = self.ino;
                        let parent = self.len() - 1;
        let (j, cnt, next) = match self.last() {
            (p, Some(j)) => (j, p.entries.len(), match p.get(j) {
                Some(e) => e.next_node(),
                None => None,
            }),
            (p, None) => (0, 0, None),
        };
        let lba = child.lba;
        if j + 1 != cnt || next != Some(lba) || lba.0 < fs.sb.first_data_block as u64 || lba.0
            >= fs.sb.blocks_count {
            return Err(FsError::InvalidFs);
        }
        let ghost fs1 = *fs;
        let ghost tx1 = *tx;
        match Allocator::deallocate(fs, ino, lba, 1, tx) {
            Ok(()) => {},
            Err(e) => {
                proof {
                    crate::path_insert::lemma_frame_trans(&fs0, &fs1, fs);
                    lemma_prefix_trans(tx0.events.seq(), tx1.events.seq(), tx.events.seq());
                }
                return Err(e);
            },
        }
        proof {
            crate::path_insert::lemma_frame_trans(&fs0, &fs1, fs);
            lemma_prefix_trans(tx0.events.seq(), tx1.events.seq(), tx.events.seq());
        }
        let new_count = cnt - 1;
        let ghost pb = *self;
        let ghost txb = *tx;
        self.level_truncate(parent, new_count as u16);
        proof {
            assert(pb.level_ok(parent as int));
            assert forall|k: int| 0 <= k < self.ents(parent as int).len() implies entry_storable(
                #[trigger] self.ents(parent as int)[k],
            ) && ((self.node_at(parent as int).depth == 0) == (self.ents(parent as int)[k] is Leaf)) by {
                assert(self.ents(parent as int)[k] == pb.ents(parent as int)[k]);
            }
        }
        self.commit(parent, tx);
        proof {
            lemma_synced_edit(&pb, self, parent as int, &txb, tx);
            assert forall|l: int| 0 <= l < self.levels() - 1 implies #[trigger] self.level_ok(l) by {
                assert(pb.level_ok(l));
                assert(self.node_at(l) == pb.node_at(l));
                assert(self.lba_at(l + 1) == pb.lba_at(l + 1));
            }
            assert forall|l: int, m: int| 1 <= l < m < self.levels() implies #[trigger] self.lba_at(l) != #[trigger] self.lba_at(m) by {
                assert(self.lba_at(l) == pb.lba_at(l));
                assert(self.lba_at(m) == pb.lba_at(m));
            }
            if parent == 0 {
                assert(self.node_at(0).depth == pb.node_at(0).depth);
            } else {
                assert(self.node_at(0) == pb.node_at(0));
            }
        }
        if new_count != 0 {
            self.set_last_idx(Some(new_count - 1));
            return Ok(true);
        }
        Ok(false)
    }

    /// Shortens the extent the path ends at to `new_len` blocks, giving back
    /// the blocks past them when the extent is initialized; an extent
    /// shortened to nothing leaves its node, whose last entry goes, and the
    /// path moves to the previous extent.
    #[verifier::rlimit(60)]
    #[verifier::spinoff_prover]
    pub fn truncate_last<C: Config>(&mut self, new_len: u16, tx: &mut Transaction, fs: &mut FileSystem<C>) -> (r: Result<
        (),
        FsError,
    >)
        requires
            old(self).wf(),
            old(self).synced(old(tx)),
            old(tx).wf(),
            old(fs).wf(),
            old(self).leaf_spec() matches Some(l) && new_len <= l.len,
        ensures
            final(self).wf(),
            final(self).synced(final(tx)),
            final(self).ino == old(self).ino,
            final(fs).frame_of(old(fs)),
            final(tx).wf(),
            final(tx).collector.postludes == old(tx).collector.postludes,
            final(tx).collector.sb_dirty == old(tx).collector.sb_dirty,
            old(tx).events.seq().is_prefix_of(final(tx).events.seq()),
            ({
                let l = old(self).leaf_spec()->0;
                (l.is_init && (l.start.0 + new_len < old(fs).sb.first_data_block || l.start.0 + l.len
                    > old(fs).sb.blocks_count)) ==> r == Err::<(), FsError>(FsError::InvalidFs) && *final(self)
                    == *old(self) && *final(tx) == *old(tx)
            }),
            ({
                let l = old(self).leaf_spec()->0;
                let last = old(self).levels() - 1;
                let i = old(self).idx(last)->0;
                (r is Ok && new_len != 0) ==> {
                    &&& final(self).same_except(old(self), last)
                    &&& final(self).idx(last) == old(self).idx(last)
                    &&& final(self).ents(last) == old(self).ents(last).update(
                        i as int,
                        Entry::Leaf(Leaf { block: l.block, start: l.start, len: new_len, is_init: l.is_init }),
                    )
                    &&& final(tx).events.seq() == old(tx).events.seq() + if l.is_init {
                        crate::filesystem::dealloc_events(
                            old(self).ino,
                            crate::filesystem::dealloc_pieces(
                                (l.start.0 + new_len) as nat,
                                (l.len - new_len) as nat,
                                old(fs).sb.first_data_block as nat,
                                old(fs).sb.blocks_per_group as nat,
                            ),
                            final(fs).block_groups@,
                        )
                    } else {
                        Seq::empty()
                    }
                }
            }),
            ({
                let l = old(self).leaf_spec()->0;
                (new_len != 0 && (!l.is_init || (old(fs).all_loaded() && old(fs).sb.first_data_block <= l.start.0
                    + new_len && l.start.0 + l.len <= old(fs).sb.blocks_count))) ==> r is Ok
            }),
            ({
                let l = old(self).leaf_spec()->0;
                (r is Ok && new_len == 0) ==> (old(tx).events.seq() + if l.is_init {
                    crate::filesystem::dealloc_events(
                        old(self).ino,
                        crate::filesystem::dealloc_pieces(
                            (l.start.0 + new_len) as nat,
                            (l.len - new_len) as nat,
                            old(fs).sb.first_data_block as nat,
                            old(fs).sb.blocks_per_group as nat,
                        ),
                        final(fs).block_groups@,
                    )
                } else {
                    Seq::empty()
                }).is_prefix_of(final(tx).events.seq())
            }),
            ({
                let l = old(self).leaf_spec()->0;
                let last = old(self).levels() - 1;
                let m = old(self).stop_full(last - 1);
                let own = if l.is_init {
                    crate::filesystem::dealloc_events(
                        old(self).ino,
                        crate::filesystem::dealloc_pieces(
                            (l.start.0 + new_len) as nat,
                            (l.len - new_len) as nat,
                            old(fs).sb.first_data_block as nat,
                            old(fs).sb.blocks_per_group as nat,
                        ),
                        final(fs).block_groups@,
                    )
                } else {
                    Seq::empty()
                };
                (r is Ok && new_len == 0 && last > 0 && old(self).idx(last) == Some(0usize) && old(self).ents(last).len()
                    == 1) ==> {
                    &&& old(self).chain_ok(m, last, old(fs).sb)
                    &&& final(tx).events.seq() == old(tx).events.seq() + own + old(self).freed_events(
                        m,
                        last,
                        old(fs).sb,
                        final(fs).block_groups@,
                    )
                    &&& m < final(self).levels()
                    &&& forall|k: int| 0 <= k < m ==> #[trigger] final(self).node_at(k) == old(self).node_at(k)
                        && final(self).idx(k) == old(self).idx(k)
                    &&& final(self).ents(m) == old(self).ents(m).drop_last()
                    &&& if old(self).ents(m).len() > 1 {
                        final(self).idx(m) == Some((old(self).ents(m).len() - 2) as usize)
                    } else {
                        m == 0 && final(self).levels() == 1 && final(self).idx(0) is None
                    }
                    &&& forall|k: int| m < k < final(self).levels() ==> #[trigger] final(self).idx(k) == pick(
                        final(self).ents(k),
                        None,
                    )
                }
            }),
            ({
                let i = old(self).idx(0)->0;
                (r is Ok && new_len == 0 && old(self).levels() == 1 && i == 0) ==> {
                    &&& final(self).levels() == 1
                    &&& final(self).ents(0) == old(self).ents(0).drop_last()
                    &&& final(self).idx(0) is None
                }
            }),
            ({
                let last = old(self).levels() - 1;
                let i = old(self).idx(last)->0;
                (r is Ok && new_len == 0 && i > 0 && i + 1 == old(self).ents(last).len()) ==> {
                    &&& final(self).levels() == old(self).levels()
                    &&& final(self).ents(last) == old(self).ents(last).drop_last()
                    &&& final(self).idx(last) == Some((i - 1) as usize)
                }
            }),
    {
        let ghost p0 = *self;
        let ghost tx0 = *tx;
        let ghost fs0 = *fs;
        let leaf = match self.get_leaf() {
            Some(l) => l,
            None => {
                return Err(FsError::InvalidFs);
            },
        };
        let last = self.len() - 1;
        proof {
            assert(p0.level_ok(last as int));
            assert(entry_storable(p0.ents(last as int)[p0.idx(last as int)->0 as int]));
        }
        if leaf.is_init {
            let start = leaf.start.0 + new_len as u64;
            let size = leaf.len - new_len;
            if start < fs.sb.first_data_block as u64 || leaf.start.0 + leaf.len as u64 > fs.sb.blocks_count {
                return Err(FsError::InvalidFs);
            }
            match Allocator::deallocate(fs, self.ino, LogicalBlockNumber(start), size as usize, tx) {
                Ok(()) => {},
                Err(e) => {
                    return Err(e);
                },
            }
        } else {
            proof {
                assert(tx.events.seq() =~= tx0.events.seq() + Seq::<crate::transaction::Event>::empty());
            }
        }
        let ghost txd = *tx;
        let ghost fsd = *fs;
        let i = match self.last() {
            (_, Some(i)) => i,
            (_, None) => 0,
        };
        if new_len != 0 {
            self.level_replace(last, Entry::Leaf(Leaf { block: leaf.block, start: leaf.start, len: new_len, is_init: leaf.is_init }), i);
            proof {
                assert forall|k: int| 0 <= k < self.ents(last as int).len() implies entry_storable(
                    #[trigger] self.ents(last as int)[k],
                ) && ((self.node_at(last as int).depth == 0) == (self.ents(last as int)[k] is Leaf)) by {
                    if k != i {
                        assert(self.ents(last as int)[k] == p0.ents(last as int)[k]);
                    }
                }
                crate::path::lemma_wf_edit(&p0, self, last as int);
            }
            self.commit(last, tx);
            proof {
                lemma_synced_edit(&p0, self, last as int, &txd, tx);
            }
        } else {
            let cnt = match self.last() {
                (n, _) => n.entries.len(),
            };
            self.level_truncate(last, (cnt - 1) as u16);
            proof {
                assert forall|k: int| 0 <= k < self.ents(last as int).len() implies entry_storable(
                    #[trigger] self.ents(last as int)[k],
                ) && ((self.node_at(last as int).depth == 0) == (self.ents(last as int)[k] is Leaf)) by {
                    assert(self.ents(last as int)[k] == p0.ents(last as int)[k]);
                }
            }
            self.commit(last, tx);
            proof {
                lemma_synced_edit(&p0, self, last as int, &txd, tx);
                assert forall|l: int| 0 <= l < self.levels() - 1 implies #[trigger] self.level_ok(l) by {
                    assert(p0.level_ok(l));
                    assert(self.node_at(l) == p0.node_at(l));
                    assert(self.lba_at(l + 1) == p0.lba_at(l + 1));
                }
                assert forall|l: int, m: int| 1 <= l < m < self.levels() implies #[trigger] self.lba_at(l) != #[trigger] self.lba_at(m) by {
                    assert(self.lba_at(l) == p0.lba_at(l));
                    assert(self.lba_at(m) == p0.lba_at(m));
                }
                assert(self.ents(last as int) =~= p0.ents(last as int).drop_last());
            }
            let ghost fs1 = *fs;
            let ghost tx1 = *tx;
            let ghost pt = *self;
            let r = self.move_prev_with_cleanup(tx, fs);
            proof {
                crate::path_insert::lemma_frame_trans(&fs0, &fs1, fs);
                lemma_prefix_trans(tx0.events.seq(), tx1.events.seq(), tx.events.seq());
                assert(tx1.events == txd.events);
                if leaf.is_init {
                    let pieces = crate::filesystem::dealloc_pieces(
                        (leaf.start.0 + new_len) as nat,
                        (leaf.len - new_len) as nat,
                        fs0.sb.first_data_block as nat,
                        fs0.sb.blocks_per_group as nat,
                    );
                    crate::filesystem::lemma_dealloc_events_framed(&fsd, fs, p0.ino, pieces);
                }
                if r is Ok && last > 0 && p0.idx(last as int) == Some(0usize) && p0.ents(last as int).len() == 1 {
                    let own = if leaf.is_init {
                        crate::filesystem::dealloc_events(
                            p0.ino,
                            crate::filesystem::dealloc_pieces(
                                (leaf.start.0 + new_len) as nat,
                                (leaf.len - new_len) as nat,
                                fs0.sb.first_data_block as nat,
                                fs0.sb.blocks_per_group as nat,
                            ),
                            fs.block_groups@,
                        )
                    } else {
                        Seq::empty()
                    };
                    assert(tx1.events.seq() == tx0.events.seq() + own);
                    lemma_truncate_walk(&p0, &pt, self, tx0.events.seq(), tx1.events.seq(), tx.events.seq(), own, fs0.sb, fs.block_groups@);
                }
            }
            return r;
        }
        Ok(())
    }
}

} // verus!
