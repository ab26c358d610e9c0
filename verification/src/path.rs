//! A path from the root of an extent tree down to a leaf: the nodes on the
//! way and, in each, the index of the entry that was followed.
use vstd::prelude::*;
use crate::extent::{Entry, ExtentNode, Internal, Leaf, search_spec, node_of, node_bytes_ok, entry_storable, entry_at, RECORD};
use crate::filesystem::{Config, FileSystem};
use crate::transaction::Transaction;
use crate::types::{FileBlockNumber, FsError, InodeNumber, LogicalBlockNumber};

verus! {

/// The most levels below the root that a path holds.
pub const MAX_LEAFS: usize = 5;

/// The levels of a path below the root, at most five.
pub struct Leafs<T> {
    size: usize,
    arr: [Option<T>; 5],
}

impl<T> Leafs<T> {
    /// The levels, from the root's child down.
    pub closed spec fn view(&self) -> Seq<T> {
        Seq::new(self.size as nat, |i: int| self.arr@[i]->0)
    }

    /// The five slots, including those past the levels in use.
    pub closed spec fn slots(&self) -> Seq<Option<T>> {
        self.arr@
    }

    /// There are five slots.
    pub proof fn lemma_slots_len(&self)
        ensures
            self.slots().len() == MAX_LEAFS,
    {
    }

    /// The first `size` slots are filled.
    pub closed spec fn wf(&self) -> bool {
        &&& self.size <= MAX_LEAFS
        &&& forall|i: int| 0 <= i < self.size ==> #[trigger] self.arr@[i] is Some
    }

    /// No level.
    pub fn new() -> (r: Self)
        ensures
            r.wf(),
            r.view() == Seq::<T>::empty(),
    {
        let r = Leafs { size: 0, arr: [None, None, None, None, None] };
        proof {
            assert(r.view() =~= Seq::<T>::empty());
        }
        r
    }

    /// The number of levels.
    pub fn len(&self) -> (r: usize)
        requires
            self.wf(),
        ensures
            r == self.view().len(),
    {
        self.size
    }

    /// Whether there is no level.
    pub fn is_empty(&self) -> (r: bool)
        requires
            self.wf(),
        ensures
            r == (self.view().len() == 0),
    {
        self.size == 0
    }

    /// Adds a level at the bottom.
    pub fn push(&mut self, v: T)
        requires
            old(self).wf(),
            old(self).view().len() < MAX_LEAFS,
        ensures
            final(self).wf(),
            final(self).view() == old(self).view().push(v),
            final(self).slots() == old(self).slots().update(old(self).view().len() as int, Some(v)),
    {
        let ghost old_arr = self.arr@;
        let ghost size = self.size;
        self.arr[self.size] = Some(v);
        self.size = self.size + 1;
        proof {
            assert forall|i: int| 0 <= i < self.size implies #[trigger] self.arr@[i] is Some by {
                if i != size {
                    assert(self.arr@[i] == old_arr[i]);
                }
            }
            assert(self.view() =~= old(self).view().push(v));
        }
    }

    /// Removes the bottom level and gives it back.
    pub fn pop(&mut self) -> (r: Option<T>)
        requires
            old(self).wf(),
        ensures
            final(self).wf(),
            old(self).view().len() == 0 ==> r is None && final(self).view() == old(self).view(),
            old(self).view().len() > 0 ==> r == Some(old(self).view().last()) && final(self).view()
                == old(self).view().drop_last(),
            old(self).view().len() > 0 ==> final(self).slots() == old(self).slots().update(
                old(self).view().len() - 1,
                None,
            ),
    {
        if self.size == 0 {
            None
        } else {
            let ghost old_arr = self.arr@;
            self.size = self.size - 1;
            let r = self.arr[self.size].take();
            proof {
                assert forall|i: int| 0 <= i < self.size implies #[trigger] self.arr@[i] is Some by {
                    assert(self.arr@[i] == old_arr[i]);
                }
                assert(self.view() =~= old(self).view().drop_last());
            }
            r
        }
    }

    /// The bottom level.
    pub fn last(&mut self) -> (r: Option<&T>)
        requires
            old(self).wf(),
            old(self).view().len() > 0,
        ensures
            *final(self) == *old(self),
            r == Some(&old(self).view().last()),
    {
        self.get(self.size - 1)
    }

    /// Level `i`, to change in place.
    pub fn get_mut(&mut self, i: usize) -> (r: Option<&mut T>)
        requires
            old(self).wf(),
        ensures
            final(self).wf(),
            i < old(self).view().len() ==> (r matches Some(x) && *x == old(self).view()[i as int]
                && final(self).view() == old(self).view().update(i as int, *final(x))),
            final(self).view().len() == old(self).view().len(),
            match r {
                Some(x) => i < 5 && old(self).slots()[i as int] == Some(*x) && final(self).slots()
                    == old(self).slots().update(i as int, Some(*final(x))),
                None => (i >= 5 || old(self).slots()[i as int] is None) && final(self).slots()
                    == old(self).slots(),
            },
    {
        if i < 5 {
            match &mut self.arr[i] {
                Some(x) => Some(x),
                None => None,
            }
        } else {
            None
        }
    }

    /// Level `i`.
    pub fn get(&self, i: usize) -> (r: Option<&T>)
        requires
            self.wf(),
        ensures
            i < self.view().len() ==> r == Some(&self.view()[i as int]),
            match r {
                Some(x) => i < 5 && self.slots()[i as int] == Some(*x),
                None => i >= 5 || self.slots()[i as int] is None,
            },
    {
        if i < 5 {
            match &self.arr[i] {
                Some(x) => Some(x),
                None => None,
            }
        } else {
            None
        }
    }

    /// Forgets all levels.
    pub fn clear(&mut self)
        requires
            old(self).wf(),
        ensures
            final(self).wf(),
            final(self).view() == Seq::<T>::empty(),
            final(self).slots() == old(self).slots(),
    {
        self.size = 0;
        proof {
            assert(self.view() =~= Seq::<T>::empty());
        }
    }
}

/// An extent node and the block it lives in.
pub struct Node {
    pub lba: LogicalBlockNumber,
    pub node: ExtentNode,
}

/// A path in the extent tree of inode `ino`: the root, kept in the inode,
/// and the nodes below it, each with the index of the entry followed.
/// `MUT` paths belong to a transaction, which holds their nodes' images.
pub struct Path<const MUT: bool> {
    pub ino: InodeNumber,
    pub root: (ExtentNode, Option<usize>),
    pub leafs: Leafs<(Node, Option<usize>)>,
}

/// The header, records and depth of a node, as `node_of` reads them.
pub open spec fn triple(n: ExtentNode) -> (Seq<Entry>, nat, nat) {
    (n.entries@, n.max_entries as nat, n.depth as nat)
}

/// The nodes that `from_bytes` reads can be written back.
pub proof fn lemma_read_storable(b: Seq<u8>)
    requires
        node_bytes_ok(b),
    ensures
        forall|i: int|
            0 <= i < node_of(b).0.len() ==> entry_storable(#[trigger] node_of(b).0[i]) && ((node_of(
                b,
            ).2 == 0) == (node_of(b).0[i] is Leaf)),
{
    assert forall|i: int| 0 <= i < node_of(b).0.len() implies entry_storable(#[trigger] node_of(b).0[i]) && ((node_of(b).2 == 0) == (node_of(b).0[i] is Leaf)) by {
        let o = RECORD + RECORD * i;
        let e = entry_at(b, o, node_of(b).2);
        assert(node_of(b).0[i] == e);
        crate::bytes::lemma_le16_bound(b, o + 4);
        crate::bytes::lemma_le16_bound(b, o + 6);
        crate::bytes::lemma_le16_bound(b, o + 8);
        crate::bytes::lemma_le32_bound(b, o + 4);
        crate::bytes::lemma_le32_bound(b, o + 8);
    }
}

impl<const MUT: bool> Path<MUT> {
    /// The number of levels: the root and the nodes below.
    pub open spec fn levels(&self) -> nat {
        1 + self.leafs.view().len()
    }

    /// The node at level `l`.
    pub open spec fn node_at(&self, l: int) -> ExtentNode {
        if l == 0 {
            self.root.0
        } else {
            self.leafs.view()[l - 1].0.node
        }
    }

    /// The entries at level `l`.
    pub open spec fn ents(&self, l: int) -> Seq<Entry> {
        self.node_at(l).entries@
    }

    /// The index followed at level `l`.
    pub open spec fn idx(&self, l: int) -> Option<usize> {
        if l == 0 {
            self.root.1
        } else {
            self.leafs.view()[l - 1].1
        }
    }

    /// The block of level `l` (below the root).
    pub open spec fn lba_at(&self, l: int) -> LogicalBlockNumber {
        self.leafs.view()[l - 1].0.lba
    }

    /// Whether block `k` holds one of the levels below the root.
    pub open spec fn holds(&self, k: u64) -> bool {
        exists|l: int| 1 <= l < self.levels() && #[trigger] self.lba_at(l).0 == k
    }

    /// No block holds two levels.
    pub open spec fn distinct(&self) -> bool {
        forall|l: int, m: int| 1 <= l < m < self.levels() ==> #[trigger] self.lba_at(l) != #[trigger] self.lba_at(m)
    }

    /// The path's invariant: every node can be written, every index points at
    /// an entry, every level but the last follows an index entry to the
    /// block of the next level, and no block holds two levels.
    pub open spec fn wf(&self) -> bool {
        &&& self.leafs.wf()
        &&& self.distinct()
        &&& forall|l: int|
            0 <= l < self.levels() ==> (#[trigger] self.node_at(l)).storable() && (self.idx(l) is Some
                ==> self.idx(l)->0 < self.ents(l).len())
        &&& forall|l: int|
            0 <= l < self.levels() - 1 ==> {
                &&& #[trigger] self.idx(l) is Some
                &&& self.ents(l)[self.idx(l)->0 as int] is Internal
                &&& self.ents(l)[self.idx(l)->0 as int]->Internal_0.next_node == self.lba_at(l + 1)
            }
    }

    /// The transaction holds the image of every node below the root.
    pub open spec fn synced(&self, tx: &Transaction) -> bool {
        forall|l: int|
            1 <= l < self.levels() ==> {
                &&& tx.collector.blocks@.contains_key(#[trigger] self.lba_at(l).0)
                &&& node_bytes_ok(tx.collector.blocks@[self.lba_at(l).0])
                &&& node_of(tx.collector.blocks@[self.lba_at(l).0]) == triple(self.node_at(l))
            }
    }

    /// The leaf entry the path ends at, if it ends at one.
    pub open spec fn leaf_spec(&self) -> Option<Leaf> {
        let l = self.levels() - 1;
        match self.idx(l) {
            Some(j) => if j < self.ents(l).len() && self.ents(l)[j as int] is Leaf {
                Some(self.ents(l)[j as int]->Leaf_0)
            } else {
                None
            },
            None => None,
        }
    }

    /// A path that holds the root `t` of `ino` only, with no index chosen.
    pub fn empty(ino: InodeNumber, t: ExtentNode) -> (r: Self)
        requires
            t.storable(),
        ensures
            r.wf(),
            r.ino == ino,
            r.root.0 == t,
            r.root.1 is None,
            r.levels() == 1,
    {
        Path { ino, root: (t, None), leafs: Leafs::new() }
    }

    /// The number of levels.
    pub(crate) fn len(&self) -> (r: usize)
        requires
            self.leafs.wf(),
        ensures
            r == self.levels(),
    {
        1 + self.leafs.len()
    }

    /// The node and index at level `at`.
    pub(crate) fn get(&self, at: usize) -> (r: Option<(&ExtentNode, Option<usize>)>)
        requires
            self.wf(),
        ensures
            at < self.levels() ==> (r matches Some((n, i)) && *n == self.node_at(at as int) && i
                == self.idx(at as int)),
    {
        if at == 0 {
            Some((&self.root.0, self.root.1))
        } else {
            match self.leafs.get(at - 1) {
                Some(e) => Some((&e.0.node, e.1)),
                None => None,
            }
        }
    }

    /// The node and index at the last level.
    pub(crate) fn last(&self) -> (r: (&ExtentNode, Option<usize>))
        requires
            self.wf(),
        ensures
            *r.0 == self.node_at(self.levels() - 1),
            r.1 == self.idx(self.levels() - 1),
    {
        match self.get(self.len() - 1) {
            Some(x) => x,
            None => (&self.root.0, self.root.1),
        }
    }

    /// Whether block `lba` holds one of the levels below the root.
    pub(crate) fn holds_block(&self, lba: LogicalBlockNumber) -> (r: bool)
        requires
            self.wf(),
        ensures
            r == self.holds(lba.0),
    {
        let n = self.leafs.len();
        let mut i: usize = 0;
        while i < n
            invariant
                self.wf(),
                n == self.levels() - 1,
                i <= n,
                forall|l: int| 1 <= l <= i ==> #[trigger] self.lba_at(l).0 != lba.0,
            decreases n - i,
        {
            match self.leafs.get(i) {
                Some(e) => {
                    if e.0.lba.0 == lba.0 {
                        proof {
                            assert(self.lba_at(i + 1).0 == lba.0);
                        }
                        return true;
                    }
                },
                None => {},
            }
            i = i + 1;
        }
        false
    }

    /// The leaf entry the path ends at, if it ends at one.
    pub fn get_leaf(&mut self) -> (r: Option<Leaf>)
        requires
            old(self).wf(),
        ensures
            *final(self) == *old(self),
            r == old(self).leaf_spec(),
    {
        let (node, idx) = self.last();
        let en = match idx {
            Some(n) => node.get(n),
            None => None,
        };
        match en {
            Some(Entry::Leaf(l)) => Some(l),
            _ => None,
        }
    }
}

/// The index a path follows in a node with entries `s`: the search result for
/// `Some(fba)`, the last entry for `None`.
pub open spec fn pick(s: Seq<Entry>, fba: Option<FileBlockNumber>) -> Option<usize> {
    match fba {
        Some(f) => search_spec(s, f.0),
        None => if s.len() > 0 {
            Some((s.len() - 1) as usize)
        } else {
            None
        },
    }
}

/// What `pick` names is an index of `s`.
pub proof fn lemma_pick_bound(s: Seq<Entry>, fba: Option<FileBlockNumber>)
    ensures
        pick(s, fba) matches Some(i) ==> i < s.len(),
{
    if let Some(f) = fba {
        crate::extent::lemma_search_bound(s, f.0);
    }
}

/// Picks the index of the next level.
fn pick_index(n: &ExtentNode, fba: Option<FileBlockNumber>) -> (r: Option<usize>)
    ensures
        r == pick(n.entries@, fba),
        r matches Some(i) ==> i < n.entries@.len(),
{
    proof {
        lemma_pick_bound(n.entries@, fba);
    }
    match fba {
        Some(f) => n.binary_search(f),
        None => if n.entries.len() > 0 {
            Some(n.entries.len() - 1)
        } else {
            None
        },
    }
}

/// The transaction `t` is `old` with more block images, those `old` had kept.
pub open spec fn tx_grown(old: &Transaction, t: &Transaction) -> bool {
    &&& t.wf()
    &&& t.events == old.events
    &&& t.collector.postludes == old.collector.postludes
    &&& t.collector.sb_dirty == old.collector.sb_dirty
    &&& t.collector.roots == old.collector.roots
    &&& old.collector.blocks@.dom().subset_of(t.collector.blocks@.dom())
    &&& forall|k: u64| #[trigger] old.collector.blocks@.contains_key(k) ==> t.collector.blocks@[k] == old.collector.blocks@[k]
}

/// Every block image that `t` holds and `old` did not is an outcome of
/// reading that block, of `bs` bytes, from the device `conf`.
pub open spec fn reads_added<C: Config>(conf: &C, bs: nat, old: &Transaction, t: &Transaction) -> bool {
    forall|k: u64|
        #[trigger] t.collector.blocks@.contains_key(k) && !old.collector.blocks@.contains_key(k) ==> crate::filesystem::block_read(
            conf,
            k,
            bs,
            Ok::<Seq<u8>, FsError>(t.collector.blocks@[k]),
        )
}

impl<const MUT: bool> Path<MUT> {
    /// The levels below the root follow `pick` for `fba`.
    pub open spec fn picked(&self, fba: Option<FileBlockNumber>) -> bool {
        forall|l: int| 1 <= l < self.levels() ==> #[trigger] self.idx(l) == pick(self.ents(l), fba)
    }

    /// The path went as deep as the root's depth, or stopped at a level with
    /// no index.
    pub open spec fn complete(&self) -> bool {
        self.levels() == self.root.0.depth + 1 || self.idx(self.levels() - 1) is None
    }
}

/// `t` is `old` with the image of block `lba` set to the node `n`.
pub open spec fn block_logged(old: &Transaction, t: &Transaction, lba: LogicalBlockNumber, n: ExtentNode) -> bool {
    &&& t.wf()
    &&& t.events == old.events
    &&& t.collector.postludes == old.collector.postludes
    &&& t.collector.sb_dirty == old.collector.sb_dirty
    &&& t.collector.roots == old.collector.roots
    &&& t.collector.blocks@.dom() == old.collector.blocks@.dom().insert(lba.0)
    &&& forall|k: u64| k != lba.0 ==> #[trigger] t.collector.blocks@[k] == old.collector.blocks@[k]
    &&& node_bytes_ok(t.collector.blocks@[lba.0])
    &&& node_of(t.collector.blocks@[lba.0]) == triple(n)
}

/// `t` is `old` with the root `n` of `ino` recorded after the roots `old` had.
pub open spec fn root_logged(old: &Transaction, t: &Transaction, ino: InodeNumber, n: ExtentNode) -> bool {
    &&& t.wf()
    &&& t.events == old.events
    &&& t.collector.postludes == old.collector.postludes
    &&& t.collector.sb_dirty == old.collector.sb_dirty
    &&& t.collector.blocks == old.collector.blocks
    &&& t.collector.roots@.len() == old.collector.roots@.len() + 1
    &&& forall|i: int| 0 <= i < old.collector.roots@.len() ==> #[trigger] t.collector.roots@[i] == old.collector.roots@[i]
    &&& t.collector.roots@.last().0 == ino
    &&& node_of(t.collector.roots@.last().1.bytes@) == triple(n)
}

/// `t` is `old` with block images changed for blocks of the path `p` only,
/// and the events, postludes and superblock mark kept.
pub open spec fn images_kept<const MUT: bool>(old: &Transaction, t: &Transaction, p: &Path<MUT>) -> bool {
    &&& t.wf()
    &&& t.events == old.events
    &&& t.collector.postludes == old.collector.postludes
    &&& t.collector.sb_dirty == old.collector.sb_dirty
    &&& forall|k: u64| #[trigger] t.collector.blocks@.contains_key(k) ==> old.collector.blocks@.contains_key(k) || p.holds(k)
    &&& forall|k: u64| #[trigger] old.collector.blocks@.contains_key(k) ==> t.collector.blocks@.contains_key(k)
    &&& forall|k: u64| !p.holds(k) ==> #[trigger] t.collector.blocks@[k] == old.collector.blocks@[k]
}

/// `t` is `old` with the root `n` of `ino` recorded when `logged`, and with
/// the roots `old` had otherwise.
pub open spec fn roots_after(old: &Transaction, t: &Transaction, ino: InodeNumber, n: ExtentNode, logged: bool) -> bool {
    if logged {
        &&& t.collector.roots@.len() == old.collector.roots@.len() + 1
        &&& forall|i: int| 0 <= i < old.collector.roots@.len() ==> #[trigger] t.collector.roots@[i] == old.collector.roots@[i]
        &&& t.collector.roots@.last().0 == ino
        &&& node_of(t.collector.roots@.last().1.bytes@) == triple(n)
    } else {
        t.collector.roots == old.collector.roots
    }
}

impl<const MUT: bool> Path<MUT> {
    /// `self` and `o` belong to the same inode and have the same levels in
    /// the same blocks.
    pub open spec fn same_shape(&self, o: &Self) -> bool {
        &&& self.ino == o.ino
        &&& self.levels() == o.levels()
        &&& forall|l: int| 1 <= l < self.levels() ==> #[trigger] self.lba_at(l) == o.lba_at(l)
    }

    /// `self` is `o` but for the node and index of level `l`.
    pub open spec fn same_except(&self, o: &Self, l: int) -> bool {
        &&& self.same_shape(o)
        &&& forall|m: int|
            0 <= m < self.levels() && m != l ==> #[trigger] self.node_at(m) == o.node_at(m) && self.idx(m)
                == o.idx(m)
    }

    /// Level `l` meets the invariant of a path: its node can be written, its
    /// index points at an entry, and above the last level that entry leads to
    /// the block of the next level.
    pub open spec fn level_ok(&self, l: int) -> bool {
        &&& self.node_at(l).storable()
        &&& (self.idx(l) is Some ==> self.idx(l)->0 < self.ents(l).len())
        &&& (l < self.levels() - 1 ==> {
            &&& self.idx(l) is Some
            &&& self.ents(l)[self.idx(l)->0 as int] is Internal
            &&& self.ents(l)[self.idx(l)->0 as int]->Internal_0.next_node == self.lba_at(l + 1)
        })
    }
}

/// A path that differs from a well-formed one at one level only is
/// well-formed when that level is.
pub proof fn lemma_wf_edit<const MUT: bool>(a: &Path<MUT>, b: &Path<MUT>, l: int)
    requires
        a.wf(),
        b.leafs.wf(),
        b.same_except(a, l),
        0 <= l < a.levels(),
        b.level_ok(l),
    ensures
        b.wf(),
{
    assert forall|m: int, n: int| 1 <= m < n < b.levels() implies #[trigger] b.lba_at(m) != #[trigger] b.lba_at(n) by {
        assert(b.lba_at(m) == a.lba_at(m));
        assert(b.lba_at(n) == a.lba_at(n));
    }
    assert forall|m: int|
        0 <= m < b.levels() implies (#[trigger] b.node_at(m)).storable() && (b.idx(m) is Some
            ==> b.idx(m)->0 < b.ents(m).len()) by {
        if m != l {
            assert(b.node_at(m) == a.node_at(m));
            assert(a.node_at(m).storable());
        }
    }
    assert forall|m: int| 0 <= m < b.levels() - 1 implies {
        &&& #[trigger] b.idx(m) is Some
        &&& b.ents(m)[b.idx(m)->0 as int] is Internal
        &&& b.ents(m)[b.idx(m)->0 as int]->Internal_0.next_node == b.lba_at(m + 1)
    } by {
        if m != l {
            assert(b.node_at(m) == a.node_at(m));
            assert(a.idx(m) is Some);
            assert(b.lba_at(m + 1) == a.lba_at(m + 1));
        }
    }
}

/// Logging a level that alone changed keeps the transaction in step with the path.
pub proof fn lemma_synced_edit<const MUT: bool>(
    a: &Path<MUT>,
    b: &Path<MUT>,
    l: int,
    t0: &Transaction,
    t1: &Transaction,
)
    requires
        a.distinct(),
        a.synced(t0),
        b.same_except(a, l),
        0 <= l < a.levels(),
        l == 0 ==> t1.collector.blocks == t0.collector.blocks,
        l > 0 ==> block_logged(t0, t1, b.lba_at(l), b.node_at(l)),
    ensures
        b.synced(t1),
{
    assert forall|m: int| 1 <= m < b.levels() implies {
        &&& t1.collector.blocks@.contains_key(#[trigger] b.lba_at(m).0)
        &&& node_bytes_ok(t1.collector.blocks@[b.lba_at(m).0])
        &&& node_of(t1.collector.blocks@[b.lba_at(m).0]) == triple(b.node_at(m))
    } by {
        assert(b.lba_at(m) == a.lba_at(m));
        assert(t0.collector.blocks@.contains_key(a.lba_at(m).0));
        if m != l {
            assert(b.node_at(m) == a.node_at(m));
            if l > 0 {
                assert(b.lba_at(l) == a.lba_at(l));
                if m < l {
                    assert(a.lba_at(m) != a.lba_at(l));
                } else {
                    assert(a.lba_at(l) != a.lba_at(m));
                }
            }
        }
    }
}

impl Path<true> {
    /// Replaces the entry at `pos` of the node at level `l`.
    pub(crate) fn level_replace(&mut self, l: usize, e: Entry, pos: usize)
        requires
            old(self).wf(),
            l < old(self).levels(),
            pos < old(self).ents(l as int).len(),
        ensures
            final(self).leafs.wf(),
            final(self).same_except(old(self), l as int),
            final(self).idx(l as int) == old(self).idx(l as int),
            final(self).ents(l as int) == old(self).ents(l as int).update(pos as int, e),
            final(self).node_at(l as int).depth == old(self).node_at(l as int).depth,
            final(self).node_at(l as int).max_entries == old(self).node_at(l as int).max_entries,
            final(self).root.0.depth == old(self).root.0.depth,
    {
        if l == 0 {
            let _ = self.root.0.replace_at(e, pos);
        } else {
            match self.leafs.get_mut(l - 1) {
                Some(x) => {
                    let _ = x.0.node.replace_at(e, pos);
                },
                None => {},
            }
        }
        proof {
            assert forall|m: int|
                0 <= m < self.levels() && m != l implies #[trigger] self.node_at(m) == old(self).node_at(m)
                    && self.idx(m) == old(self).idx(m) by {}
            assert forall|m: int| 1 <= m < self.levels() implies #[trigger] self.lba_at(m) == old(self).lba_at(m) by {}
        }
    }

    /// Inserts `e` at `pos` in the node at level `l`, which has room.
    pub(crate) fn level_insert(&mut self, l: usize, e: Entry, pos: usize)
        requires
            old(self).wf(),
            l < old(self).levels(),
            pos <= old(self).ents(l as int).len(),
            old(self).ents(l as int).len() < old(self).node_at(l as int).max_entries,
        ensures
            final(self).leafs.wf(),
            final(self).same_except(old(self), l as int),
            final(self).idx(l as int) == old(self).idx(l as int),
            final(self).ents(l as int) == old(self).ents(l as int).insert(pos as int, e),
            final(self).node_at(l as int).depth == old(self).node_at(l as int).depth,
            final(self).node_at(l as int).max_entries == old(self).node_at(l as int).max_entries,
    {
        if l == 0 {
            let _ = self.root.0.insert_at(e, pos);
        } else {
            match self.leafs.get_mut(l - 1) {
                Some(x) => {
                    let _ = x.0.node.insert_at(e, pos);
                },
                None => {},
            }
        }
        proof {
            assert forall|m: int|
                0 <= m < self.levels() && m != l implies #[trigger] self.node_at(m) == old(self).node_at(m)
                    && self.idx(m) == old(self).idx(m) by {}
            assert forall|m: int| 1 <= m < self.levels() implies #[trigger] self.lba_at(m) == old(self).lba_at(m) by {}
        }
    }

    /// Keeps the first `cnt` entries of the node at level `l`.
    pub(crate) fn level_truncate(&mut self, l: usize, cnt: u16)
        requires
            old(self).leafs.wf(),
            l < old(self).levels(),
            cnt <= old(self).ents(l as int).len(),
        ensures
            final(self).leafs.wf(),
            final(self).same_except(old(self), l as int),
            final(self).idx(l as int) == old(self).idx(l as int),
            final(self).ents(l as int) == old(self).ents(l as int).subrange(0, cnt as int),
            final(self).node_at(l as int).depth == old(self).node_at(l as int).depth,
            final(self).node_at(l as int).max_entries == old(self).node_at(l as int).max_entries,
    {
        if l == 0 {
            self.root.0.set_entries_cnt(cnt);
        } else {
            match self.leafs.get_mut(l - 1) {
                Some(x) => {
                    x.0.node.set_entries_cnt(cnt);
                },
                None => {},
            }
        }
        proof {
            assert forall|m: int|
                0 <= m < self.levels() && m != l implies #[trigger] self.node_at(m) == old(self).node_at(m)
                    && self.idx(m) == old(self).idx(m) by {}
            assert forall|m: int| 1 <= m < self.levels() implies #[trigger] self.lba_at(m) == old(self).lba_at(m) by {}
        }
    }

    /// Sets the index followed at level `l`.
    pub(crate) fn level_set_idx(&mut self, l: usize, i: Option<usize>)
        requires
            old(self).wf(),
            l < old(self).levels(),
        ensures
            final(self).leafs.wf(),
            final(self).same_except(old(self), l as int),
            final(self).idx(l as int) == i,
            final(self).node_at(l as int) == old(self).node_at(l as int),
    {
        if l == 0 {
            self.root.1 = i;
        } else {
            match self.leafs.get_mut(l - 1) {
                Some(x) => {
                    x.1 = i;
                },
                None => {},
            }
        }
        proof {
            assert forall|m: int|
                0 <= m < self.levels() && m != l implies #[trigger] self.node_at(m) == old(self).node_at(m)
                    && self.idx(m) == old(self).idx(m) by {}
            assert forall|m: int| 1 <= m < self.levels() implies #[trigger] self.lba_at(m) == old(self).lba_at(m) by {}
        }
    }

    /// Records the node of level `l` in the transaction: the root in the
    /// inode, a node in its block.
    pub(crate) fn commit(&self, l: usize, tx: &mut Transaction)
        requires
            self.leafs.wf(),
            self.node_at(l as int).storable(),
            l < self.levels(),
            old(tx).wf(),
        ensures
            l == 0 ==> root_logged(old(tx), final(tx), self.ino, self.root.0),
            l > 0 ==> block_logged(old(tx), final(tx), self.lba_at(l as int), self.node_at(l as int)),
    {
        if l == 0 {
            proof {
                assert(self.node_at(0).storable());
            }
            tx.inode_update_root(self.ino, &self.root.0);
        } else {
            match self.leafs.get(l - 1) {
                Some(x) => {
                    proof {
                        assert(self.node_at(l as int).storable());
                    }
                    tx.extent_update_node(x.0.lba, &x.0.node);
                },
                None => {},
            }
        }
    }

    /// Loads levels below the last one until the path has `until` levels or
    /// follows no entry, following `pick(_, fba)` in each new level.
    pub(crate) fn descend_to<C: Config>(
        &mut self,
        fba: Option<FileBlockNumber>,
        until: usize,
        tx: &mut Transaction,
        fs: &FileSystem<C>,
    ) -> (r: Result<(), FsError>)
        requires
            old(self).wf(),
            old(self).synced(old(tx)),
            old(self).levels() <= until,
            old(tx).wf(),
            fs.blocks.block_size > 0,
        ensures
            final(self).wf(),
            final(self).synced(final(tx)),
            final(self).root == old(self).root,
            final(self).ino == old(self).ino,
            old(self).levels() <= final(self).levels() <= until,
            forall|l: int| 0 <= l < old(self).levels() ==> #[trigger] final(self).node_at(l) == old(self).node_at(l) && final(self).idx(l) == old(self).idx(l),
            forall|l: int| 1 <= l < old(self).levels() ==> #[trigger] final(self).lba_at(l) == old(self).lba_at(l),
            forall|l: int| old(self).levels() <= l < final(self).levels() ==> #[trigger] final(self).idx(l) == pick(final(self).ents(l), fba),
            r is Ok ==> final(self).levels() == until || final(self).idx(final(self).levels() - 1) is None,
            old(self).idx(old(self).levels() - 1) is None ==> r is Ok && final(self).levels() == old(self).levels(),
            tx_grown(old(tx), final(tx)),
            reads_added(&fs.blocks.conf, fs.blocks.block_size as nat, old(tx), final(tx)),
    {
        let mut last_node: Option<Entry> = match self.last() {
            (n, Some(i)) => n.get(i),
            (_, None) => None,
        };
        let ghost tx0 = *tx;
        let ghost p0 = *self;
        while self.len() < until
            invariant
                self.wf(),
                self.synced(tx),
                self.root == old(self).root,
                self.ino == old(self).ino,
                p0 == *old(self),
                p0.levels() <= self.levels() <= until,
                forall|l: int| 0 <= l < p0.levels() ==> #[trigger] self.node_at(l) == p0.node_at(l) && self.idx(l) == p0.idx(l),
                forall|l: int| 1 <= l < p0.levels() ==> #[trigger] self.lba_at(l) == p0.lba_at(l),
                forall|l: int| p0.levels() <= l < self.levels() ==> #[trigger] self.idx(l) == pick(self.ents(l), fba),
                fs.blocks.block_size > 0,
                tx0 == *old(tx),
                tx_grown(&tx0, tx),
                reads_added(&fs.blocks.conf, fs.blocks.block_size as nat, &tx0, tx),
                p0.idx(p0.levels() - 1) is None ==> self.levels() == p0.levels() && last_node is None,
                last_node == match self.idx(self.levels() - 1) {
                    Some(i) => Some(self.ents(self.levels() - 1)[i as int]),
                    None => None::<Entry>,
                },
            decreases until - self.levels(),
        {
            let ext = match last_node {
                Some(e) => e,
                None => {
                    return Ok(());
                },
            };
            let lba = match ext.next_node() {
                Some(l) => l,
                None => {
                    return Err(FsError::InvalidFs);
                },
            };
            let bytes = match fs.blocks.get_mut(lba, &tx.collector) {
                Ok(b) => b,
                Err(e) => {
                    return Err(e);
                },
            };
            let node = match ExtentNode::from_bytes(&bytes) {
                Ok(n) => n,
                Err(e) => {
                    return Err(e);
                },
            };
            if self.leafs.len() >= MAX_LEAFS || self.holds_block(lba) {
                return Err(FsError::InvalidFs);
            }
            let ghost txb = *tx;
            let ghost bv = bytes@;
            tx.write_block(lba, bytes);
            proof {
                assert forall|k: u64|
                    #[trigger] tx.collector.blocks@.contains_key(k) && !tx0.collector.blocks@.contains_key(k) implies crate::filesystem::block_read(
                    &fs.blocks.conf,
                    k,
                    fs.blocks.block_size as nat,
                    Ok::<Seq<u8>, FsError>(tx.collector.blocks@[k]),
                ) by {
                    if k != lba.0 {
                        assert(txb.collector.blocks@.contains_key(k));
                    } else if txb.collector.blocks@.contains_key(k) {
                        assert(txb.collector.blocks@.contains_key(k));
                    }
                }
            }
            let index = pick_index(&node, fba);
            last_node = match index {
                Some(i) => node.get(i),
                None => None,
            };
            let ghost before = *self;
            proof {
                lemma_read_storable(bv);
            }
            self.leafs.push((Node { lba, node }, index));
            proof {
                assert forall|l: int| 0 <= l < self.levels() implies (#[trigger] self.node_at(l)).storable() && (self.idx(l) is Some
                    ==> self.idx(l)->0 < self.ents(l).len()) by {
                    if l < before.levels() {
                        assert(self.node_at(l) == before.node_at(l));
                        assert(self.idx(l) == before.idx(l));
                    }
                }
                assert forall|l: int, m: int| 1 <= l < m < self.levels() implies #[trigger] self.lba_at(l) != #[trigger] self.lba_at(m) by {
                    if m < before.levels() {
                        assert(self.lba_at(l) == before.lba_at(l));
                        assert(self.lba_at(m) == before.lba_at(m));
                    } else {
                        assert(self.lba_at(l) == before.lba_at(l));
                        assert(!before.holds(lba.0));
                    }
                }
                assert forall|l: int| 0 <= l < self.levels() - 1 implies {
                    &&& #[trigger] self.idx(l) is Some
                    &&& self.ents(l)[self.idx(l)->0 as int] is Internal
                    &&& self.ents(l)[self.idx(l)->0 as int]->Internal_0.next_node == self.lba_at(l + 1)
                } by {
                    assert(self.node_at(l) == before.node_at(l));
                    assert(self.idx(l) == before.idx(l));
                    if l + 1 < before.levels() {
                        assert(self.lba_at(l + 1) == before.lba_at(l + 1));
                    }
                }
                assert forall|l: int| 1 <= l < self.levels() implies {
                    &&& tx.collector.blocks@.contains_key(#[trigger] self.lba_at(l).0)
                    &&& node_bytes_ok(tx.collector.blocks@[self.lba_at(l).0])
                    &&& node_of(tx.collector.blocks@[self.lba_at(l).0]) == triple(self.node_at(l))
                } by {
                    if l < before.levels() {
                        assert(self.lba_at(l) == before.lba_at(l));
                        assert(self.node_at(l) == before.node_at(l));
                        assert(txb.collector.blocks@.contains_key(before.lba_at(l).0));
                    }
                }
                assert forall|l: int| p0.levels() <= l < self.levels() implies #[trigger] self.idx(l) == pick(self.ents(l), fba) by {
                    if l < before.levels() {
                        assert(self.node_at(l) == before.node_at(l));
                        assert(self.idx(l) == before.idx(l));
                    }
                }
                assert forall|l: int| 0 <= l < p0.levels() implies #[trigger] self.node_at(l) == p0.node_at(l) && self.idx(l) == p0.idx(l) by {
                    assert(self.node_at(l) == before.node_at(l));
                    assert(self.idx(l) == before.idx(l));
                }
                assert forall|l: int| 1 <= l < p0.levels() implies #[trigger] self.lba_at(l) == p0.lba_at(l) by {
                    assert(self.lba_at(l) == before.lba_at(l));
                }
            }
        }
        Ok(())
    }

    /// Loads the levels below the root, following `pick(_, fba)` from the root's index on.
    pub(crate) fn descend<C: Config>(
        &mut self,
        fba: Option<FileBlockNumber>,
        tx: &mut Transaction,
        fs: &FileSystem<C>,
    ) -> (r: Result<(), FsError>)
        requires
            old(self).wf(),
            old(self).levels() == 1,
            old(tx).wf(),
            fs.blocks.block_size > 0,
        ensures
            final(self).wf(),
            final(self).synced(final(tx)),
            final(self).root == old(self).root,
            final(self).ino == old(self).ino,
            final(self).picked(fba),
            final(self).levels() <= old(self).root.0.depth + 1,
            r is Ok ==> final(self).complete(),
            old(self).root.1 is None ==> r is Ok,
            tx_grown(old(tx), final(tx)),
            reads_added(&fs.blocks.conf, fs.blocks.block_size as nat, old(tx), final(tx)),
    {
        let until = self.root.0.get_depth() as usize + 1;
        self.descend_to(fba, until, tx, fs)
    }

    /// Loads the path to the entry that covers `fba`, inside a transaction.
    pub fn load<C: Config>(
        &mut self,
        fba: FileBlockNumber,
        tx: &mut Transaction,
        fs: &FileSystem<C>,
    ) -> (r: Result<(), FsError>)
        requires
            old(self).wf(),
            old(tx).wf(),
            fs.blocks.block_size > 0,
        ensures
            final(self).wf(),
            final(self).synced(final(tx)),
            final(self).root.0 == old(self).root.0,
            final(self).ino == old(self).ino,
            final(self).root.1 == search_spec(old(self).root.0.entries@, fba.0),
            final(self).picked(Some(fba)),
            final(self).levels() <= old(self).root.0.depth + 1,
            r is Ok ==> final(self).complete(),
            tx_grown(old(tx), final(tx)),
            reads_added(&fs.blocks.conf, fs.blocks.block_size as nat, old(tx), final(tx)),
    {
        self.leafs.clear();
        let root_index = self.root.0.binary_search(fba);
        proof {
            crate::extent::lemma_search_bound(self.root.0.entries@, fba.0);
        }
        self.root.1 = root_index;
        proof {
            assert(self.levels() == 1);
            assert(self.node_at(0) == old(self).node_at(0));
            lemma_pick_bound(self.root.0.entries@, None);
        }
        self.descend(Some(fba), tx, fs)
    }

    /// Loads the path to the last entry of every level, inside a transaction.
    pub fn load_path_to_last<C: Config>(
        &mut self,
        tx: &mut Transaction,
        fs: &FileSystem<C>,
    ) -> (r: Result<(), FsError>)
        requires
            old(self).wf(),
            old(tx).wf(),
            fs.blocks.block_size > 0,
        ensures
            final(self).wf(),
            final(self).synced(final(tx)),
            final(self).root.0 == old(self).root.0,
            final(self).ino == old(self).ino,
            final(self).root.1 == pick(old(self).root.0.entries@, None),
            final(self).picked(None),
            final(self).levels() <= old(self).root.0.depth + 1,
            r is Ok ==> final(self).complete(),
            old(self).root.0.entries@.len() == 0 ==> r is Ok,
            tx_grown(old(tx), final(tx)),
            reads_added(&fs.blocks.conf, fs.blocks.block_size as nat, old(tx), final(tx)),
    {
        self.leafs.clear();
        let root_index = pick_index(&self.root.0, None);
        self.root.1 = root_index;
        proof {
            assert(self.levels() == 1);
            assert(self.node_at(0) == old(self).node_at(0));
            lemma_pick_bound(self.root.0.entries@, None);
        }
        self.descend(None, tx, fs)
    }

    /// Loads the path to the last extent and gives the last file block it
    /// maps, or `None` when the tree has no entry.
    pub fn load_last<C: Config>(&mut self, tx: &mut Transaction, fs: &FileSystem<C>) -> (r: Result<
        Option<FileBlockNumber>,
        FsError,
    >)
        requires
            old(self).wf(),
            old(tx).wf(),
            fs.blocks.block_size > 0,
        ensures
            final(self).wf(),
            final(self).synced(final(tx)),
            final(self).root.0 == old(self).root.0,
            final(self).ino == old(self).ino,
            final(self).root.1 == pick(old(self).root.0.entries@, None),
            final(self).picked(None),
            tx_grown(old(tx), final(tx)),
            reads_added(&fs.blocks.conf, fs.blocks.block_size as nat, old(tx), final(tx)),
            old(self).root.0.entries@.len() == 0 ==> r == Ok::<Option<FileBlockNumber>, FsError>(None),
            r matches Ok(Some(f)) ==> final(self).complete(),
            r matches Ok(Some(f)) ==> (final(self).leaf_spec() matches Some(l) && f.0 == l.block + l.len
                - 1),
    {
        match self.load_path_to_last(tx, fs) {
            Ok(()) => {},
            Err(e) => {
                return Err(e);
            },
        }
        if self.root.1.is_none() {
            return Ok(None);
        }
        match self.get_leaf() {
            Some(l) => {
                if l.len == 0 || l.block as u64 + l.len as u64 - 1 > u32::MAX as u64 {
                    Err(FsError::InvalidFs)
                } else {
                    Ok(Some(l.last_fba()))
                }
            },
            None => Err(FsError::InvalidFs),
        }
    }
}

/// `n` is the node parsed from an outcome of reading block `lba` of `bs`
/// bytes from the device `conf`.
pub open spec fn node_read<C: Config>(conf: &C, lba: u64, bs: nat, n: ExtentNode) -> bool {
    exists|b: Seq<u8>|
        #[trigger] crate::filesystem::block_read(conf, lba, bs, Ok::<Seq<u8>, FsError>(b)) && node_bytes_ok(b) && node_of(b)
            == triple(n)
}

impl Path<false> {
    /// Loads the path to the entry that covers `fba`, reading the nodes from
    /// the device.
    pub fn load<C: Config>(&mut self, fba: FileBlockNumber, fs: &FileSystem<C>) -> (r: Result<
        (),
        FsError,
    >)
        requires
            old(self).wf(),
            fs.blocks.block_size > 0,
        ensures
            final(self).wf(),
            final(self).root.0 == old(self).root.0,
            final(self).ino == old(self).ino,
            final(self).root.1 == search_spec(old(self).root.0.entries@, fba.0),
            final(self).picked(Some(fba)),
            final(self).levels() <= old(self).root.0.depth + 1,
            r is Ok ==> final(self).complete(),
            forall|l: int|
                1 <= l < final(self).levels() ==> #[trigger] node_read(
                    &fs.blocks.conf,
                    final(self).lba_at(l).0,
                    fs.blocks.block_size as nat,
                    final(self).node_at(l),
                ),
    {
        self.leafs.clear();
        let root_index = self.root.0.binary_search(fba);
        proof {
            crate::extent::lemma_search_bound(self.root.0.entries@, fba.0);
        }
        self.root.1 = root_index;
        proof {
            assert(self.node_at(0) == old(self).node_at(0));
        }
        let depth = self.root.0.get_depth();
        let mut last_node: Option<Entry> = match root_index {
            Some(i) => self.root.0.get(i),
            None => None,
        };
        let mut d: u16 = 0;
        while d < depth
            invariant
                self.wf(),
                self.root.0 == old(self).root.0,
                self.root.1 == search_spec(old(self).root.0.entries@, fba.0),
                self.ino == old(self).ino,
                self.picked(Some(fba)),
                depth == self.root.0.depth,
                d <= depth,
                self.levels() == d + 1,
                fs.blocks.block_size > 0,
                last_node == match self.idx(self.levels() - 1) {
                    Some(i) => Some(self.ents(self.levels() - 1)[i as int]),
                    None => None::<Entry>,
                },
                forall|l: int|
                    1 <= l < self.levels() ==> #[trigger] node_read(
                        &fs.blocks.conf,
                        self.lba_at(l).0,
                        fs.blocks.block_size as nat,
                        self.node_at(l),
                    ),
            decreases depth - d,
        {
            let ext = match last_node {
                Some(e) => e,
                None => {
                    return Ok(());
                },
            };
            let lba = match ext.next_node() {
                Some(l) => l,
                None => {
                    return Err(FsError::InvalidFs);
                },
            };
            let bytes = match fs.blocks.get(lba) {
                Ok(b) => b,
                Err(e) => {
                    return Err(e);
                },
            };
            let node = match ExtentNode::from_bytes(&bytes) {
                Ok(n) => n,
                Err(e) => {
                    return Err(e);
                },
            };
            if self.leafs.len() >= MAX_LEAFS || self.holds_block(lba) {
                return Err(FsError::InvalidFs);
            }
            let index = node.binary_search(fba);
            proof {
                crate::extent::lemma_search_bound(node.entries@, fba.0);
            }
            last_node = match index {
                Some(i) => node.get(i),
                None => None,
            };
            let ghost before = *self;
            proof {
                lemma_read_storable(bytes@);
            }
            self.leafs.push((Node { lba, node }, index));
            proof {
                assert(crate::filesystem::block_read(&fs.blocks.conf, lba.0, fs.blocks.block_size as nat, Ok::<Seq<u8>, FsError>(bytes@)));
                assert forall|l: int|
                    1 <= l < self.levels() implies #[trigger] node_read(
                        &fs.blocks.conf,
                        self.lba_at(l).0,
                        fs.blocks.block_size as nat,
                        self.node_at(l),
                    ) by {
                    if l < before.levels() {
                        assert(self.node_at(l) == before.node_at(l));
                        assert(self.lba_at(l) == before.lba_at(l));
                    } else {
                        assert(self.node_at(l) == node);
                        assert(self.lba_at(l) == lba);
                    }
                }
                assert forall|l: int| 0 <= l < self.levels() implies (#[trigger] self.node_at(l)).storable() && (self.idx(l) is Some
                    ==> self.idx(l)->0 < self.ents(l).len()) by {
                    if l < before.levels() {
                        assert(self.node_at(l) == before.node_at(l));
                        assert(self.idx(l) == before.idx(l));
                    }
                }
                assert forall|l: int, m: int| 1 <= l < m < self.levels() implies #[trigger] self.lba_at(l) != #[trigger] self.lba_at(m) by {
                    if m < before.levels() {
                        assert(self.lba_at(l) == before.lba_at(l));
                        assert(self.lba_at(m) == before.lba_at(m));
                    } else {
                        assert(self.lba_at(l) == before.lba_at(l));
                        assert(!before.holds(lba.0));
                    }
                }
                assert forall|l: int| 0 <= l < self.levels() - 1 implies {
                    &&& #[trigger] self.idx(l) is Some
                    &&& self.ents(l)[self.idx(l)->0 as int] is Internal
                    &&& self.ents(l)[self.idx(l)->0 as int]->Internal_0.next_node == self.lba_at(l + 1)
                } by {
                    assert(self.node_at(l) == before.node_at(l));
                    assert(self.idx(l) == before.idx(l));
                    if l + 1 < before.levels() {
                        assert(self.lba_at(l + 1) == before.lba_at(l + 1));
                    }
                }
                assert forall|l: int| 1 <= l < self.levels() implies #[trigger] self.idx(l) == pick(self.ents(l), Some(fba)) by {
                    if l < before.levels() {
                        assert(self.node_at(l) == before.node_at(l));
                        assert(self.idx(l) == before.idx(l));
                    }
                }
            }
            d = d + 1;
        }
        Ok(())
    }
}

} // verus!
