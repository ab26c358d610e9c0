//! Adding extents to an extent tree through a loaded path: into the last
//! node, by splitting the last node, or by growing the tree by one level.
use vstd::prelude::*;
use crate::block_alloc::Allocator;
use crate::extent::{Entry, ExtentNode, Internal, Leaf, entry_storable, node_bytes_ok, node_of, MAX_INIT_LEN};
use crate::filesystem::{Config, FileSystem};
use crate::path::{Node, Path, images_kept, roots_after, lemma_wf_edit, lemma_synced_edit, triple, MAX_LEAFS};
use crate::superblock::{SuperBlock, block_place};
use crate::transaction::Transaction;
use crate::types::{FileBlockNumber, FsError, InodeNumber, LogicalBlockNumber};

verus! {

/// The extent `l` maps the blocks of `new`: it covers them, ends where they
/// end, and puts them where `new` does.
pub open spec fn maps(l: Leaf, new: Leaf) -> bool {
    &&& l.block <= new.block
    &&& new.block + new.len == l.block + l.len
    &&& l.start.0 + (new.block - l.block) == new.start.0
}

impl<const MUT: bool> Path<MUT> {
    /// The leaf the path ends at starts where `new` starts.
    pub open spec fn dup(&self, new: Leaf) -> bool {
        self.leaf_spec() matches Some(l) && l.block == new.block
    }

    /// The entry at the index of the last level is an initialized extent that
    /// `new` continues, in file blocks and on disk, and the two fit in one.
    pub open spec fn merge_ok(&self, new: Leaf) -> bool {
        let last = self.levels() - 1;
        match self.idx(last) {
            Some(i) => i < self.ents(last).len() && match self.ents(last)[i as int] {
                Entry::Leaf(l) => {
                    &&& l.block + l.len == new.block
                    &&& l.start.0 + l.len == new.start.0
                    &&& l.len + new.len <= MAX_INIT_LEN
                    &&& l.is_init
                },
                Entry::Internal(_) => false,
            },
            None => false,
        }
    }

    /// The extent at the index of the last level, grown by `new`.
    pub open spec fn merged(&self, new: Leaf) -> Leaf {
        let last = self.levels() - 1;
        let l = self.ents(last)[self.idx(last)->0 as int]->Leaf_0;
        Leaf { block: l.block, start: l.start, len: (l.len + new.len) as u16, is_init: l.is_init }
    }

    /// The node of the last level has no room.
    pub open spec fn last_full(&self) -> bool {
        let last = self.levels() - 1;
        self.ents(last).len() >= self.node_at(last).max_entries
    }

    /// Where `new` goes in the last node: at the start when the path ends at
    /// no extent, else after or at that extent, as `new` starts after it or not.
    pub open spec fn insert_pos(&self, new: Leaf) -> usize {
        match self.leaf_spec() {
            None => 0,
            Some(l) => if new.block > l.block {
                (self.idx(self.levels() - 1)->0 + 1) as usize
            } else {
                self.idx(self.levels() - 1)->0
            },
        }
    }

    /// An insertion at `pos` in the last node changes the first block of the
    /// subtree that level `l` follows: it went in at the front of every level
    /// below `l`.
    pub open spec fn raised(&self, pos: usize, l: int) -> bool {
        &&& pos == 0
        &&& forall|m: int| l < m < self.levels() - 1 ==> #[trigger] self.idx(m) == Some(0usize)
    }

    /// The entries of level `l` once its followed entry starts at `block`.
    pub open spec fn raise(&self, l: int, block: u32) -> Seq<Entry> {
        self.ents(l).update(
            self.idx(l)->0 as int,
            Entry::Internal(Internal { block, next_node: self.lba_at(l + 1) }),
        )
    }

    /// The headers of all nodes of `self` are those of `o`.
    pub open spec fn same_headers(&self, o: &Self) -> bool {
        forall|l: int|
            0 <= l < self.levels() ==> #[trigger] self.node_at(l).depth == o.node_at(l).depth
                && self.node_at(l).max_entries == o.node_at(l).max_entries
    }
}

/// The entries of `s` start at strictly increasing file blocks.
pub open spec fn sorted_blocks(s: Seq<Entry>) -> bool {
    forall|i: int, j: int| 0 <= i < j < s.len() ==> #[trigger] s[i].first_block_spec() < #[trigger] s[j].first_block_spec()
}

/// In entries sorted by first block, the entry a search for `fba` gives is
/// followed only by entries that start after `fba`, and starts at or before
/// `fba` unless it is the first.
pub proof fn lemma_search_sorted(s: Seq<Entry>, fba: u32, n: int)
    requires
        sorted_blocks(s),
        1 <= n <= s.len(),
        s.len() <= usize::MAX,
    ensures
        forall|j: int| crate::extent::last_le(s, fba, n) < j < n ==> #[trigger] s[j].first_block_spec() > fba,
        crate::extent::last_le(s, fba, n) > 0 ==> s[crate::extent::last_le(s, fba, n) as int].first_block_spec() <= fba,
        crate::extent::last_le(s, fba, n) < n,
    decreases n,
{
    if n > 1 && s[n - 1].first_block_spec() > fba {
        lemma_search_sorted(s, fba, n - 1);
        let i = crate::extent::last_le(s, fba, n - 1);
        assert(crate::extent::last_le(s, fba, n) == i);
        assert forall|j: int| i < j < n implies #[trigger] s[j].first_block_spec() > fba by {
            if j < n - 1 {
                assert(s[j].first_block_spec() > fba);
            }
        }
    } else if n > 1 {
        assert(crate::extent::last_le(s, fba, n) == n - 1);
    } else {
        assert(crate::extent::last_le(s, fba, n) == 0);
    }
}

impl<const MUT: bool> Path<MUT> {
    /// The last node of the path is sorted by first block and the path
    /// follows, in it, the entry that a search for `new.block` gives: the
    /// path was loaded for `new`.
    pub open spec fn loaded_for(&self, new: Leaf) -> bool {
        let last = self.levels() - 1;
        &&& sorted_blocks(self.ents(last))
        &&& self.idx(last) == crate::extent::search_spec(self.ents(last), new.block)
    }
}

/// An extent that starts at no block an entry starts at, put where
/// `insert_leaf` puts it in the sorted last node of a path loaded for it,
/// keeps the node sorted: the entries before it start before `new.block`
/// and those after it start after.
pub proof fn lemma_insert_keeps_order<const MUT: bool>(p: &Path<MUT>, new: Leaf)
    requires
        p.wf(),
        p.loaded_for(new),
        !p.dup(new),
        p.node_at(p.levels() - 1).depth == 0,
    ensures
        sorted_blocks(p.ents(p.levels() - 1).insert(p.insert_pos(new) as int, Entry::Leaf(new))),
{
    let last = p.levels() - 1;
    let s = p.ents(last);
    let pos = p.insert_pos(new) as int;
    let t = s.insert(pos, Entry::Leaf(new));
    if s.len() == 0 {
        assert(pos == 0);
    } else {
        lemma_search_sorted(s, new.block, s.len() as int);
        let i = crate::extent::last_le(s, new.block, s.len() as int) as int;
        assert(p.level_ok(last));
        assert(s[i] is Leaf);
        assert(p.leaf_spec() == Some(s[i]->Leaf_0));
        assert(s[i].first_block_spec() != new.block);
        assert forall|a: int| 0 <= a < pos implies #[trigger] s[a].first_block_spec() < new.block by {
            if a < i {
                assert(s[a].first_block_spec() < s[i].first_block_spec());
            }
        }
        assert forall|a: int| pos <= a < s.len() implies #[trigger] s[a].first_block_spec() > new.block by {
            if a > i {
            } else if a == i {
            } else {
                assert(s[a].first_block_spec() < s[i].first_block_spec());
            }
        }
    }
    assert forall|a: int, b: int| 0 <= a < b < t.len() implies #[trigger] t[a].first_block_spec() < #[trigger] t[b].first_block_spec() by {
        if b < pos {
            assert(t[a] == s[a] && t[b] == s[b]);
        } else if b == pos {
            assert(t[a] == s[a]);
        } else if a < pos {
            assert(t[a] == s[a] && t[b] == s[b - 1]);
        } else if a == pos {
            assert(t[b] == s[b - 1]);
        } else {
            assert(t[a] == s[a - 1] && t[b] == s[b - 1]);
        }
    }
}

impl Path<true> {
    /// Puts the extent `new` in the last node of the path: merged into the
    /// extent the path ends at when `new` continues it, else inserted next to
    /// it. A change of the first block of the last node goes up the levels
    /// that follow their first entry. Gives `new` back when the last node is
    /// full.
    #[verifier::rlimit(60)]
    pub fn insert_leaf(&mut self, new: Leaf, tx: &mut Transaction) -> (r: Result<Option<Leaf>, FsError>)
        requires
            old(self).wf(),
            old(self).synced(old(tx)),
            old(tx).wf(),
            entry_storable(Entry::Leaf(new)),
        ensures
            final(self).wf(),
            final(self).synced(final(tx)),
            final(self).same_shape(old(self)),
            final(self).same_headers(old(self)),
            images_kept(old(tx), final(tx), final(self)),
            old(self).dup(new) ==> r == Err::<Option<Leaf>, FsError>(FsError::InvalidFs),
            !old(self).dup(new) && old(self).merge_ok(new) ==> {
                let last = old(self).levels() - 1;
                &&& r == Ok::<Option<Leaf>, FsError>(None)
                &&& final(self).same_except(old(self), last)
                &&& final(self).idx(last) == old(self).idx(last)
                &&& final(self).ents(last) == old(self).ents(last).update(
                    old(self).idx(last)->0 as int,
                    Entry::Leaf(old(self).merged(new)),
                )
                &&& roots_after(old(tx), final(tx), old(self).ino, final(self).root.0, last == 0)
            },
            !old(self).dup(new) && !old(self).merge_ok(new) && old(self).last_full() ==> r == Ok::<
                Option<Leaf>,
                FsError,
            >(Some(new)),
            !old(self).dup(new) && !old(self).merge_ok(new) && !old(self).last_full() && old(self).node_at(
                old(self).levels() - 1,
            ).depth != 0 ==> r == Err::<Option<Leaf>, FsError>(FsError::InvalidFs),
            !old(self).dup(new) && !old(self).merge_ok(new) && !old(self).last_full() && old(self).node_at(
                old(self).levels() - 1,
            ).depth == 0 ==> {
                let last = old(self).levels() - 1;
                let pos = old(self).insert_pos(new);
                &&& r == Ok::<Option<Leaf>, FsError>(None)
                &&& final(self).idx(last) == Some(pos)
                &&& final(self).ents(last) == old(self).ents(last).insert(pos as int, Entry::Leaf(new))
                &&& forall|l: int|
                    0 <= l < last ==> #[trigger] final(self).idx(l) == old(self).idx(l) && final(self).ents(l)
                        == if old(self).raised(pos, l) {
                        old(self).raise(l, new.block)
                    } else {
                        old(self).ents(l)
                    }
                &&& roots_after(
                    old(tx),
                    final(tx),
                    old(self).ino,
                    final(self).root.0,
                    last == 0 || old(self).raised(pos, 0),
                )
            },
            !(r matches Ok(None)) ==> *final(self) == *old(self) && *final(tx) == *old(tx),
            r matches Ok(None) ==> (final(self).leaf_spec() matches Some(l) && maps(l, new)),
            !old(self).dup(new) && !old(self).merge_ok(new) && !old(self).last_full() && old(self).node_at(
                old(self).levels() - 1,
            ).depth == 0 && old(self).loaded_for(new) ==> sorted_blocks(final(self).ents(old(self).levels() - 1)),
    {
        proof {
            if !self.dup(new) && self.node_at(self.levels() - 1).depth == 0 && self.loaded_for(new) {
                lemma_insert_keeps_order(self, new);
            }
        }
        let leaf = self.get_leaf();
        match leaf {
            Some(l) => {
                if l.block == new.block {
                    return Err(FsError::InvalidFs);
                }
            },
            None => {},
        }
        let last = self.len() - 1;
        let ghost p0 = *self;
        let ghost tx0 = *tx;
        let (node, index) = self.last();
        let full = node.is_full();
        let depth = node.get_depth();
        proof {
            assert(p0.level_ok(last as int));
        }
        match index {
            Some(i) => {
                match node.get(i) {
                    Some(Entry::Leaf(l)) => {
                        proof {
                            assert(entry_storable(p0.ents(last as int)[i as int]));
                        }
                        if l.block as u64 + l.len as u64 == new.block as u64 && l.start.0 + l.len as u64
                            == new.start.0 && l.len as u32 + new.len as u32 <= MAX_INIT_LEN as u32
                            && l.is_init {
                            let m = Leaf { block: l.block, start: l.start, len: l.len + new.len, is_init: true };
                            self.merge_last(i, m, tx);
                            return Ok(None);
                        }
                    },
                    _ => {},
                }
            },
            None => {},
        }
        if full {
            return Ok(Some(new));
        }
        if depth != 0 {
            return Err(FsError::InvalidFs);
        }
        let pos: usize = match leaf {
            None => 0,
            Some(l) => {
                let i = match index {
                    Some(i) => i,
                    None => 0,
                };
                if new.block > l.block {
                    i + 1
                } else {
                    i
                }
            },
        };
        self.place(new, pos, tx);
        Ok(None)
    }

    /// Inserts the extent `new` at `pos` of the last node and carries a new
    /// first block up the levels.
    fn place(&mut self, new: Leaf, pos: usize, tx: &mut Transaction)
        requires
            old(self).wf(),
            old(self).synced(old(tx)),
            old(tx).wf(),
            pos <= old(self).ents(old(self).levels() - 1).len(),
            !old(self).last_full(),
            old(self).node_at(old(self).levels() - 1).depth == 0,
            entry_storable(Entry::Leaf(new)),
        ensures
            final(self).wf(),
            final(self).synced(final(tx)),
            final(self).same_shape(old(self)),
            final(self).same_headers(old(self)),
            images_kept(old(tx), final(tx), final(self)),
            ({
                let last = old(self).levels() - 1;
                &&& final(self).idx(last) == Some(pos)
                &&& final(self).ents(last) == old(self).ents(last).insert(pos as int, Entry::Leaf(new))
                &&& forall|l: int|
                    0 <= l < last ==> #[trigger] final(self).idx(l) == old(self).idx(l) && final(self).ents(l)
                        == if old(self).raised(pos, l) {
                        old(self).raise(l, new.block)
                    } else {
                        old(self).ents(l)
                    }
                &&& roots_after(
                    old(tx),
                    final(tx),
                    old(self).ino,
                    final(self).root.0,
                    last == 0 || old(self).raised(pos, 0),
                )
            }),
            final(self).leaf_spec() == Some(new),
    {
        let ghost p0 = *self;
        let ghost tx0 = *tx;
        let last = self.len() - 1;
        self.insert_last(new, pos, tx);
        let ghost pm = *self;
        let ghost txm = *tx;
        self.raise_levels(pos, new.block, tx);
        proof {
            lemma_images_trans(&tx0, &txm, tx, &pm, self);
            lemma_raised_same(&pm, &p0, pos, new.block);
            assert(self.ents(last as int)[pos as int] == Entry::Leaf(new));
            assert forall|l: int| 0 <= l < self.levels() implies #[trigger] self.node_at(l).depth == p0.node_at(l).depth
                && self.node_at(l).max_entries == p0.node_at(l).max_entries by {
                assert(pm.node_at(l).depth == p0.node_at(l).depth);
            }
        }
    }

    /// Replaces the extent at `i` of the last node by `m`, which grows it.
    fn merge_last(&mut self, i: usize, m: Leaf, tx: &mut Transaction)
        requires
            old(self).wf(),
            old(self).synced(old(tx)),
            old(tx).wf(),
            old(self).idx(old(self).levels() - 1) == Some(i),
            i < old(self).ents(old(self).levels() - 1).len(),
            old(self).ents(old(self).levels() - 1)[i as int] is Leaf,
            entry_storable(Entry::Leaf(m)),
        ensures
            final(self).wf(),
            final(self).synced(final(tx)),
            final(self).same_except(old(self), old(self).levels() - 1),
            final(self).same_headers(old(self)),
            final(self).idx(old(self).levels() - 1) == Some(i),
            final(self).ents(old(self).levels() - 1) == old(self).ents(old(self).levels() - 1).update(
                i as int,
                Entry::Leaf(m),
            ),
            images_kept(old(tx), final(tx), final(self)),
            roots_after(old(tx), final(tx), old(self).ino, final(self).root.0, old(self).levels() == 1),
    {
        let ghost p0 = *self;
        let ghost tx0 = *tx;
        let last = self.len() - 1;
        proof {
            assert(p0.level_ok(last as int));
            assert(p0.node_at(last as int).depth == 0);
        }
        self.level_replace(last, Entry::Leaf(m), i);
        proof {
            assert forall|k: int| 0 <= k < self.ents(last as int).len() implies entry_storable(
                #[trigger] self.ents(last as int)[k],
            ) && ((self.node_at(last as int).depth == 0) == (self.ents(last as int)[k] is Leaf)) by {
                if k != i {
                    assert(self.ents(last as int)[k] == p0.ents(last as int)[k]);
                }
            }
            lemma_wf_edit(&p0, self, last as int);
        }
        self.commit(last, tx);
        proof {
            lemma_synced_edit(&p0, self, last as int, &tx0, tx);
            self.lemma_kept_one(&p0, &tx0, tx, last as int);
            assert forall|l: int| 0 <= l < self.levels() implies #[trigger] self.node_at(l).depth == p0.node_at(l).depth
                && self.node_at(l).max_entries == p0.node_at(l).max_entries by {}
        }
    }

    /// Inserts the extent `new` at `pos` of the last node, which has room and
    /// holds extents, and follows it.
    fn insert_last(&mut self, new: Leaf, pos: usize, tx: &mut Transaction)
        requires
            old(self).wf(),
            old(self).synced(old(tx)),
            old(tx).wf(),
            pos <= old(self).ents(old(self).levels() - 1).len(),
            !old(self).last_full(),
            old(self).node_at(old(self).levels() - 1).depth == 0,
            entry_storable(Entry::Leaf(new)),
        ensures
            final(self).wf(),
            final(self).synced(final(tx)),
            final(self).same_except(old(self), old(self).levels() - 1),
            final(self).same_headers(old(self)),
            final(self).idx(old(self).levels() - 1) == Some(pos),
            final(self).ents(old(self).levels() - 1) == old(self).ents(old(self).levels() - 1).insert(
                pos as int,
                Entry::Leaf(new),
            ),
            images_kept(old(tx), final(tx), final(self)),
            roots_after(old(tx), final(tx), old(self).ino, final(self).root.0, old(self).levels() == 1),
    {
        let ghost p0 = *self;
        let ghost tx0 = *tx;
        let last = self.len() - 1;
        self.level_insert(last, Entry::Leaf(new), pos);
        let ghost pb = *self;
        self.level_set_idx(last, Some(pos));
        proof {
            lemma_same_except_trans(&p0, &pb, self, last as int);
            assert(p0.level_ok(last as int));
            assert forall|k: int| 0 <= k < self.ents(last as int).len() implies entry_storable(
                #[trigger] self.ents(last as int)[k],
            ) && ((self.node_at(last as int).depth == 0) == (self.ents(last as int)[k] is Leaf)) by {
                if k < pos {
                    assert(self.ents(last as int)[k] == p0.ents(last as int)[k]);
                } else if k > pos {
                    assert(self.ents(last as int)[k] == p0.ents(last as int)[k - 1]);
                }
            }
            lemma_wf_edit(&p0, self, last as int);
        }
        self.commit(last, tx);
        proof {
            lemma_synced_edit(&p0, self, last as int, &tx0, tx);
            self.lemma_kept_one(&p0, &tx0, tx, last as int);
            assert forall|l: int| 0 <= l < self.levels() implies #[trigger] self.node_at(l).depth == p0.node_at(l).depth
                && self.node_at(l).max_entries == p0.node_at(l).max_entries by {}
        }
    }

    /// Sets the first block of the entries followed above the last level to
    /// `block`, from the level above the last upwards, as long as the change
    /// below was at the front of its node; `pos` is where the last level changed.
    #[verifier::rlimit(40)]
    fn raise_levels(&mut self, pos: usize, block: u32, tx: &mut Transaction)
        requires
            old(self).wf(),
            old(self).synced(old(tx)),
            old(tx).wf(),
            old(self).idx(old(self).levels() - 1) == Some(pos),
        ensures
            final(self).wf(),
            final(self).synced(final(tx)),
            final(self).same_shape(old(self)),
            final(self).same_headers(old(self)),
            images_kept(old(tx), final(tx), final(self)),
            roots_after(
                old(tx),
                final(tx),
                old(self).ino,
                final(self).root.0,
                old(self).levels() > 1 && old(self).raised(pos, 0),
            ),
            final(self).node_at(old(self).levels() - 1) == old(self).node_at(old(self).levels() - 1),
            final(self).idx(old(self).levels() - 1) == Some(pos),
            forall|l: int|
                0 <= l < old(self).levels() - 1 ==> #[trigger] final(self).idx(l) == old(self).idx(l)
                    && final(self).ents(l) == if old(self).raised(pos, l) {
                    old(self).raise(l, block)
                } else {
                    old(self).ents(l)
                },
    {
        let ghost pm = *self;
        let ghost txm = *tx;
        let last = self.len() - 1;
        proof {
            assert(images_kept(&txm, tx, self));
        }
        let mut p: usize = pos;
        let mut i: usize = last;
        while i > 0 && p == 0
            invariant
                self.wf(),
                self.synced(tx),
                self.same_shape(&pm),
                self.same_headers(&pm),
                pm.wf(),
                i <= last,
                last == pm.levels() - 1,
                self.idx(last as int) == Some(pos),
                self.node_at(last as int) == pm.node_at(last as int),
                i == last ==> p == pos,
                i < last ==> p == pm.idx(i as int)->0,
                forall|l: int|
                    i <= l < last ==> #[trigger] self.ents(l) == pm.raise(l, block) && pm.raised(pos, l)
                        && self.idx(l) == pm.idx(l),
                forall|l: int| 0 <= l < i ==> #[trigger] self.node_at(l) == pm.node_at(l) && self.idx(l) == pm.idx(l),
                images_kept(&txm, tx, self),
                roots_after(&txm, tx, pm.ino, self.root.0, last > 0 && i == 0),
            decreases i,
        {
            i = i - 1;
            let ghost before = *self;
            let ghost txb = *tx;
            proof {
                assert(before.node_at(i as int) == pm.node_at(i as int));
                assert(before.idx(i as int) == pm.idx(i as int));
                assert(pm.idx(i as int) is Some);
                assert(before.level_ok(i as int));
            }
            let (j, next) = match self.get(i) {
                Some((n, Some(j))) => match n.get(j) {
                    Some(Entry::Internal(x)) => (j, x.next_node),
                    _ => (j, crate::types::LogicalBlockNumber(0)),
                },
                _ => (0, crate::types::LogicalBlockNumber(0)),
            };
            proof {
                if i + 1 < last {
                    assert(pm.idx(i + 1) == Some(0usize));
                }
                assert(pm.raised(pos, i as int));
            }
            p = j;
            self.level_replace(i, Entry::Internal(Internal { block: block, next_node: next }), j);
            proof {
                assert(self.ents(i as int) == pm.raise(i as int, block));
                assert forall|k: int| 0 <= k < self.ents(i as int).len() implies entry_storable(
                    #[trigger] self.ents(i as int)[k],
                ) && ((self.node_at(i as int).depth == 0) == (self.ents(i as int)[k] is Leaf)) by {
                    assert(entry_storable(before.ents(i as int)[k]));
                    assert(entry_storable(before.ents(i as int)[j as int]));
                }
                lemma_wf_edit(&before, self, i as int);
            }
            self.commit(i, tx);
            proof {
                lemma_synced_edit(&before, self, i as int, &txb, tx);
                self.lemma_kept_one(&before, &txb, tx, i as int);
                lemma_images_trans(&txm, &txb, tx, &before, self);
                assert forall|l: int|
                    i <= l < last implies #[trigger] self.ents(l) == pm.raise(l, block) && pm.raised(pos, l)
                        && self.idx(l) == pm.idx(l) by {
                    if l > i {
                        assert(self.ents(l) == before.ents(l));
                        assert(before.ents(l) == pm.raise(l, block));
                    }
                }
                assert forall|l: int| 0 <= l < i implies #[trigger] self.node_at(l) == pm.node_at(l) && self.idx(l) == pm.idx(l) by {
                    assert(self.node_at(l) == before.node_at(l));
                    assert(before.node_at(l) == pm.node_at(l));
                }
                assert forall|l: int| 0 <= l < self.levels() implies #[trigger] self.node_at(l).depth == pm.node_at(l).depth
                    && self.node_at(l).max_entries == pm.node_at(l).max_entries by {
                    assert(before.node_at(l).depth == pm.node_at(l).depth);
                }
            }
        }
        proof {
            if i > 0 {
                assert forall|l: int| 0 <= l < i implies !#[trigger] pm.raised(pos, l) by {
                    if i < last {
                        assert(pm.idx(i as int) != Some(0usize));
                    }
                }
            }
            assert forall|l: int|
                0 <= l < last implies #[trigger] self.idx(l) == pm.idx(l) && self.ents(l) == if pm.raised(pos, l) {
                pm.raise(l, block)
            } else {
                pm.ents(l)
            } by {
                if l < i {
                    assert(self.node_at(l) == pm.node_at(l));
                }
            }
            if last > 0 && i == 0 {
                assert(self.ents(0) == pm.raise(0, block) && pm.raised(pos, 0));
            } else if last > 0 {
                assert(!pm.raised(pos, 0));
            }
        }
    }

    /// The transaction after logging one level that alone changed keeps
    /// images of the path's blocks only.
    pub proof fn lemma_kept_one(&self, a: &Path<true>, t0: &Transaction, t1: &Transaction, l: int)
        requires
            a.wf(),
            a.synced(t0),
            self.same_except(a, l),
            0 <= l < a.levels(),
            l == 0 ==> crate::path::root_logged(t0, t1, self.ino, self.root.0),
            l > 0 ==> crate::path::block_logged(t0, t1, self.lba_at(l), self.node_at(l)),
        ensures
            images_kept(t0, t1, self),
            roots_after(t0, t1, self.ino, self.root.0, l == 0),
    {
        if l > 0 {
            assert(self.holds(self.lba_at(l).0));
        }
    }
}

impl Path<true> {
    /// Where `insert_internal` puts `ext` at level `at`: first when the level
    /// follows no entry, right after the followed entry when `ext` starts
    /// after it, else in its place (the followed entry moves one up).
    pub open spec fn internal_loc(&self, ext: Internal, at: int) -> int {
        match self.idx(at) {
            None => 0,
            Some(i) => if ext.block > self.ents(at)[i as int].first_block_spec() {
                i + 1
            } else {
                i as int
            },
        }
    }

    /// Adds the index entry `ext` to the node at level `at`, next to the
    /// entry the path follows there (see `internal_loc`); the index followed
    /// stays as it was. Refuses, and changes nothing, when the node is full.
    /// The path keeps leading to the next level when `ext` went after the
    /// followed entry.
    pub fn insert_internal(&mut self, ext: Internal, at: usize, tx: &mut Transaction) -> (r: bool)
        requires
            old(self).wf(),
            old(self).synced(old(tx)),
            old(tx).wf(),
            at + 1 < old(self).levels(),
            ext.next_node.0 < 0x1_0000_0000_0000,
        ensures
            final(self).leafs.wf(),
            final(self).synced(final(tx)),
            final(self).same_shape(old(self)),
            final(self).same_headers(old(self)),
            images_kept(old(tx), final(tx), final(self)),
            r == (old(self).ents(at as int).len() < old(self).node_at(at as int).max_entries),
            r ==> {
                &&& final(self).same_except(old(self), at as int)
                &&& final(self).idx(at as int) == old(self).idx(at as int)
                &&& final(self).ents(at as int) == old(self).ents(at as int).insert(
                    old(self).internal_loc(ext, at as int),
                    Entry::Internal(ext),
                )
                &&& roots_after(old(tx), final(tx), old(self).ino, final(self).root.0, at == 0)
            },
            r && old(self).internal_loc(ext, at as int) == old(self).idx(at as int)->0 + 1 ==> final(self).wf(),
            !r ==> *final(self) == *old(self) && *final(tx) == *old(tx),
    {
        let ghost p0 = *self;
        let ghost tx0 = *tx;
        proof {
            assert(p0.level_ok(at as int));
        }
        let (full, loc) = match self.get(at) {
            Some((n, Some(i))) => {
                let first = match n.get(i) {
                    Some(e) => e.first_block(),
                    None => 0,
                };
                (n.is_full(), if ext.block > first {
                    i + 1
                } else {
                    i
                })
            },
            Some((n, None)) => (n.is_full(), 0),
            None => (true, 0),
        };
        if full {
            return false;
        }
        let ghost i: int = p0.idx(at as int)->0 as int;
        self.level_insert(at, Entry::Internal(ext), loc);
        proof {
            assert(loc == p0.internal_loc(ext, at as int));
            assert forall|k: int| 0 <= k < self.ents(at as int).len() implies entry_storable(
                #[trigger] self.ents(at as int)[k],
            ) && ((self.node_at(at as int).depth == 0) == (self.ents(at as int)[k] is Leaf)) by {
                if k < loc {
                    assert(self.ents(at as int)[k] == p0.ents(at as int)[k]);
                } else if k > loc {
                    assert(self.ents(at as int)[k] == p0.ents(at as int)[k - 1]);
                }
            }
            assert(self.node_at(at as int).storable());
            if loc == i + 1 {
                assert(self.ents(at as int)[i] == p0.ents(at as int)[i]);
                lemma_wf_edit(&p0, self, at as int);
            }
        }
        self.commit(at, tx);
        proof {
            lemma_synced_edit(&p0, self, at as int, &tx0, tx);
            self.lemma_kept_one(&p0, &tx0, tx, at as int);
            assert forall|l: int| 0 <= l < self.levels() implies #[trigger] self.node_at(l).depth == p0.node_at(l).depth
                && self.node_at(l).max_entries == p0.node_at(l).max_entries by {}
        }
        true
    }

    /// Grows the tree by one level: the entries of the root move to a node in
    /// a block allocated near the root's first child (or near the group of
    /// inode `ino` when the root holds extents), and the root keeps one index
    /// entry for that node. The path is left at the root alone.
    pub fn grow_extent<C: Config>(
        &mut self,
        ino: InodeNumber,
        tx: &mut Transaction,
        fs: &mut FileSystem<C>,
    ) -> (r: Result<(), FsError>)
        requires
            old(self).wf(),
            old(self).synced(old(tx)),
            old(tx).wf(),
            old(fs).wf(),
            old(fs).sb.blocks_per_group + 4 * old(fs).sb.block_size <= usize::MAX,
        ensures
            final(fs).frame_of(old(fs)),
            final(tx).wf(),
            final(self).wf(),
            final(self).synced(final(tx)),
            final(self).ino == old(self).ino,
            old(self).grow_refused(ino, old(fs).sb) ==> r == Err::<(), FsError>(FsError::InvalidFs),
            !old(self).grow_refused(ino, old(fs).sb) && old(fs).alloc_ready() ==> r is Ok,
            r is Err ==> *final(self) == *old(self) && final(tx).collector == old(tx).collector,
            r is Ok ==> {
                let lba = final(self).root.0.entries@[0]->Internal_0.next_node;
                &&& final(self).levels() == 1
                &&& final(self).root.1 is None
                &&& final(self).root.0.depth == old(self).root.0.depth + 1
                &&& final(self).root.0.max_entries == old(self).root.0.max_entries
                &&& final(self).root.0.entries@ == seq![
                    Entry::Internal(
                        Internal { block: old(self).root.0.entries@[0].first_block_spec(), next_node: lba },
                    ),
                ]
                &&& final(fs).allocated(
                    old(fs),
                    old(tx).events.seq(),
                    final(tx).events.seq(),
                    old(self).ino,
                    lba,
                    1,
                )
                &&& final(tx).collector.blocks@.dom() == old(tx).collector.blocks@.dom().insert(lba.0)
                &&& forall|k: u64| k != lba.0 ==> #[trigger] final(tx).collector.blocks@[k] == old(tx).collector.blocks@[k]
                &&& node_bytes_ok(final(tx).collector.blocks@[lba.0])
                &&& node_of(final(tx).collector.blocks@[lba.0]) == (
                    old(self).root.0.entries@,
                    node_room(old(fs).sb.block_size) as nat,
                    old(self).root.0.depth as nat,
                )
                &&& final(tx).collector.postludes == old(tx).collector.postludes
                &&& final(tx).collector.sb_dirty == old(tx).collector.sb_dirty
                &&& roots_after(old(tx), final(tx), old(self).ino, final(self).root.0, true)
            },
    {
        let ghost p0 = *self;
        proof {
            assert(p0.level_ok(0));
        }
        let room = (fs.sb.block_size - 16) / 12;
        let depth = self.root.0.depth;
        if self.root.0.entries.len() == 0 || depth as usize >= MAX_LEAFS || self.root.0.entries.len() > room {
            proof {
                assert(fs.frame_of(old(fs)));
            }
            return Err(FsError::InvalidFs);
        }
        let hope: u64 = match self.root.0.entries[0].next_node() {
            Some(l) => l.0,
            None => {
                if ino.0 == 0 {
                    return Err(FsError::InvalidFs);
                }
                ((ino.0 - 1) / fs.sb.inodes_per_group) as u64
            },
        };
        if hope < fs.sb.first_data_block as u64 || hope >= fs.sb.blocks_count {
            return Err(FsError::InvalidFs);
        }
        let ghost tx0 = *tx;
        let ghost fsa = *fs;
        let lba = match Allocator::allocate(fs, self.ino, 1, LogicalBlockNumber(hope), tx) {
            Ok((lba, got)) => {
                proof {
                    crate::filesystem::lemma_allocated_below(fs, &fsa, tx0.events.seq(), tx.events.seq(), self.ino, lba, got);
                }
                lba
            },
            Err(e) => {
                return Err(e);
            },
        };
        if lba.0 >= 0x1_0000_0000_0000 {
            return Err(FsError::InvalidFs);
        }
        let ghost txa = *tx;
        let mut ents: Vec<Entry> = Vec::new();
        std::mem::swap(&mut ents, &mut self.root.0.entries);
        let first = ents[0].first_block();
        let node = ExtentNode { depth, max_entries: room as u16, entries: ents };
        proof {
            assert(node.entries@ == p0.root.0.entries@);
            assert forall|k: int| 0 <= k < node.entries@.len() implies entry_storable(#[trigger] node.entries@[k])
                && ((node.depth == 0) == (node.entries@[k] is Leaf)) by {
                assert(p0.node_at(0).storable());
                assert(p0.root.0.entries@[k] == node.entries@[k]);
            }
        }
        tx.extent_update_node(lba, &node);
        self.root.0.entries.push(Entry::Internal(Internal { block: first, next_node: lba }));
        self.root.0.depth = depth + 1;
        self.leafs.clear();
        self.root.1 = None;
        proof {
            assert(self.root.0.entries@ =~= seq![Entry::Internal(Internal { block: first, next_node: lba })]);
            assert(self.levels() == 1);
            assert(self.node_at(0) == self.root.0);
            assert(self.node_at(0).storable());
            assert(self.wf());
        }
        let ghost txb = *tx;
        self.commit(0, tx);
        proof {
            assert(self.synced(tx));
        }
        Ok(())
    }
}

impl<const MUT: bool> Path<MUT> {
    /// The deepest level above level `k` whose node has room, or -1 when
    /// every node from the root down to level `k - 1` is full.
    pub open spec fn room_below(&self, k: int) -> int
        decreases k,
    {
        if k <= 0 {
            -1
        } else if self.ents(k - 1).len() < self.node_at(k - 1).max_entries {
            k - 1
        } else {
            self.room_below(k - 1)
        }
    }

    /// `grow_extent` refuses to grow the tree of inode `ino`: the root is
    /// empty or already at the deepest depth, its entries do not fit a node,
    /// or the block next to which the new node is asked for is off the device.
    pub open spec fn grow_refused(&self, ino: InodeNumber, sb: SuperBlock) -> bool {
        ||| self.root.0.entries@.len() == 0
        ||| self.root.0.depth >= MAX_LEAFS
        ||| self.root.0.entries@.len() > node_room(sb.block_size)
        ||| !grow_hope_ok(self.root.0, ino, sb)
    }

    /// `new` can neither start a new extent in the last node nor continue the
    /// one the path ends at: the last node is full.
    pub open spec fn stuck(&self, new: Leaf) -> bool {
        !self.dup(new) && !self.merge_ok(new) && self.last_full()
    }
}

/// The entries a node in a block of `block_size` bytes has room for.
pub open spec fn node_room(block_size: usize) -> int {
    (block_size - 16) / 12
}

/// The block next to which a grown tree's new node is asked for lies on the
/// device: the root's first child, or the number of the group of inode `ino`.
pub open spec fn grow_hope_ok(root: ExtentNode, ino: InodeNumber, sb: SuperBlock) -> bool {
    let hope: int = match root.entries@[0] {
        Entry::Internal(i) => i.next_node.0 as int,
        Entry::Leaf(_) => if ino.0 == 0 {
            -1
        } else {
            ((ino.0 - 1) / (sb.inodes_per_group as int)) as int
        },
    };
    sb.first_data_block <= hope < sb.blocks_count
}

impl<const MUT: bool> Path<MUT> {
    /// The first block of the entries that move out of the last node in a
    /// split: those after the followed one, or `new` when that is the last slot.
    pub open spec fn split_key(&self, new: Leaf) -> u32 {
        let last = self.levels() - 1;
        let i = self.idx(last)->0;
        if i == self.node_at(last).max_entries - 1 {
            new.block
        } else {
            self.ents(last)[i + 1].first_block_spec()
        }
    }

    /// A split of the last node at level `at`, with room for `room` entries in
    /// a new node, is refused: it is not the last level, or the last level
    /// follows no entry, or the parent is full, or the entries that would
    /// move do not start after the entry the parent follows (a tree out of
    /// order, where the parent's new entry would lead the path astray), or
    /// the moved entries do not fit.
    pub open spec fn split_refused(&self, new: Leaf, at: int, room: int) -> bool {
        let last = self.levels() - 1;
        let i = self.idx(last)->0;
        ||| at == 0
        ||| at != last
        ||| self.idx(last) is None
        ||| (i != self.node_at(last).max_entries - 1 && i + 1 >= self.ents(last).len())
        ||| self.ents(at - 1).len() >= self.node_at(at - 1).max_entries
        ||| self.split_key(new) <= self.ents(at - 1)[self.idx(at - 1)->0 as int].first_block_spec()
        ||| self.ents(last).len() - i - 1 >= room
    }
}

impl<const MUT: bool> Path<MUT> {
    /// No block below the root is free in the block allocator of `fs`.
    pub open spec fn blocks_in_use<C: Config>(&self, fs: &FileSystem<C>) -> bool {
        forall|l: int|
            1 <= l < self.levels() ==> #[trigger] self.lba_at(l).0 < fs.sb.first_data_block || !fs.blocks.allocator.free(
                block_place(self.lba_at(l).0 as nat, fs.sb.first_data_block as nat, fs.sb.blocks_per_group as nat).0 as int,
            ).contains(
                block_place(self.lba_at(l).0 as nat, fs.sb.first_data_block as nat, fs.sb.blocks_per_group as nat).1 as int,
            )
    }
}

/// The entries of `n` from `from` on.
fn entries_from(n: &ExtentNode, from: usize) -> (r: Vec<Entry>)
    requires
        from <= n.entries@.len(),
    ensures
        r@ == n.entries@.subrange(from as int, n.entries@.len() as int),
{
    let mut r: Vec<Entry> = Vec::new();
    let mut k: usize = from;
    while k < n.entries.len()
        invariant
            from <= k <= n.entries@.len(),
            r@ == n.entries@.subrange(from as int, k as int),
        decreases n.entries@.len() - k,
    {
        r.push(n.entries[k]);
        proof {
            assert(r@ =~= n.entries@.subrange(from as int, k + 1));
        }
        k = k + 1;
    }
    r
}

impl Path<true> {
    /// Puts the node `n` at level `l`, following index `i` in it.
    fn level_put(&mut self, l: usize, n: Node, i: Option<usize>)
        requires
            old(self).leafs.wf(),
            1 <= l < old(self).levels(),
        ensures
            final(self).leafs.wf(),
            final(self).ino == old(self).ino,
            final(self).levels() == old(self).levels(),
            final(self).node_at(l as int) == n.node,
            final(self).lba_at(l as int) == n.lba,
            final(self).idx(l as int) == i,
            forall|m: int| 1 <= m < final(self).levels() && m != l ==> #[trigger] final(self).lba_at(m) == old(self).lba_at(m),
            forall|m: int|
                0 <= m < final(self).levels() && m != l ==> #[trigger] final(self).node_at(m) == old(self).node_at(m)
                    && final(self).idx(m) == old(self).idx(m),
    {
        match self.leafs.get_mut(l - 1) {
            Some(x) => {
                *x = (n, i);
            },
            None => {},
        }
    }

    /// Decides a split of the last node at level `at`: the index followed in
    /// the last node and the first block of the entries that move, or `None`
    /// when the split is refused.
    fn split_plan(&self, new: &Leaf, at: usize, room: usize) -> (r: Option<(usize, u32)>)
        requires
            self.wf(),
        ensures
            r is None <==> self.split_refused(*new, at as int, room as int),
            r matches Some((i, key)) ==> self.idx(self.levels() - 1) == Some(i) && key == self.split_key(*new),
    {
        let last = self.len() - 1;
        if at == 0 || at != last {
            return None;
        }
        proof {
            assert(self.level_ok(last as int));
            assert(self.level_ok(last - 1));
        }
        let (i, key, cnt) = match self.last() {
            (n, Some(i)) => {
                let key = if i == n.max_entries as usize - 1 {
                    new.block
                } else {
                    match n.get(i + 1) {
                        Some(e) => e.first_block(),
                        None => {
                            return None;
                        },
                    }
                };
                (i, key, n.entries.len())
            },
            (_, None) => {
                return None;
            },
        };
        let (pfull, pfirst) = match self.get(at - 1) {
            Some((n, Some(j))) => (n.is_full(), match n.get(j) {
                Some(e) => e.first_block(),
                None => 0,
            }),
            _ => (true, 0),
        };
        if pfull || key <= pfirst || cnt - i - 1 >= room {
            return None;
        }
        Some((i, key))
    }

    /// Splits the last node, at level `at`: the entries after the followed
    /// one move to a node in a newly allocated block, and the parent gets an
    /// index entry for it, starting at `split_key`, right after the entry it
    /// follows. Gives whether `new` belongs in the new node, and that node.
    /// Only the last level can be split.
    pub fn split_at<C: Config>(
        &mut self,
        new: &Leaf,
        at: usize,
        tx: &mut Transaction,
        fs: &mut FileSystem<C>,
    ) -> (r: Result<(bool, Node), FsError>)
        requires
            old(self).wf(),
            old(self).synced(old(tx)),
            old(tx).wf(),
            old(fs).wf(),
            old(fs).sb.blocks_per_group + 4 * old(fs).sb.block_size <= usize::MAX,
        ensures
            final(fs).frame_of(old(fs)),
            final(tx).wf(),
            final(self).wf(),
            final(self).synced(final(tx)),
            old(self).split_refused(*new, at as int, node_room(old(fs).sb.block_size)) ==> r == Err::<
                (bool, Node),
                FsError,
            >(FsError::InvalidFs),
            !old(self).split_refused(*new, at as int, node_room(old(fs).sb.block_size)) && old(fs).alloc_ready()
                && old(self).blocks_in_use(old(fs)) ==> r is Ok,
            r is Err ==> *final(self) == *old(self) && final(tx).collector == old(tx).collector,
            r matches Ok((fix, n)) ==> {
                &&& !old(self).split_refused(*new, at as int, node_room(old(fs).sb.block_size))
                &&& fix == (new.block >= old(self).split_key(*new))
                &&& final(fs).allocated(old(fs), old(tx).events.seq(), final(tx).events.seq(), old(self).ino, n.lba, 1)
                &&& tail_moved(old(self), final(self), old(tx), final(tx), n, old(self).split_key(*new), node_room(old(fs).sb.block_size))
            },
    {
        let room = (fs.sb.block_size - 16) / 12;
        let (i, key) = match self.split_plan(new, at, room) {
            Some(p) => p,
            None => {
                return Err(FsError::InvalidFs);
            },
        };
        let ghost tx0 = *tx;
        let ghost fsa = *fs;
        let lba = match Allocator::allocate(fs, self.ino, 1, LogicalBlockNumber(fs.sb.first_data_block as u64), tx) {
            Ok((lba, got)) => {
                proof {
                    crate::filesystem::lemma_allocated_below(fs, &fsa, tx0.events.seq(), tx.events.seq(), self.ino, lba, got);
                    if fsa.alloc_ready() && self.blocks_in_use(&fsa) {
                        reveal(FileSystem::all_loaded);
                        let g = block_place(lba.0 as nat, fsa.sb.first_data_block as nat, fsa.sb.blocks_per_group as nat).0;
                        assert(fsa.loaded(g as int));
                        if self.holds(lba.0) {
                            let l = choose|l: int| 1 <= l < self.levels() && #[trigger] self.lba_at(l).0 == lba.0;
                            assert(false);
                        }
                    }
                }
                lba
            },
            Err(e) => {
                return Err(e);
            },
        };
        if lba.0 >= 0x1_0000_0000_0000 || self.holds_block(lba) {
            return Err(FsError::InvalidFs);
        }
        let ghost txa = *tx;
        let ghost p1 = *self;
        let n = self.move_tail(i, key, lba, room, tx);
        proof {
            assert(tx.events.seq() == txa.events.seq());
            lemma_tail_moved_collector(&p1, self, &txa, old(tx), tx, n, key, room as int);
        }
        Ok((new.block >= key, n))
    }

    /// Moves the entries after index `i` of the last node to a new node in
    /// block `lba`, and gives the parent an index entry for it that starts at
    /// `key`.
    fn move_tail(&mut self, i: usize, key: u32, lba: LogicalBlockNumber, room: usize, tx: &mut Transaction) -> (n: Node)
        requires
            old(self).wf(),
            old(self).synced(old(tx)),
            old(tx).wf(),
            old(self).levels() >= 2,
            old(self).idx(old(self).levels() - 1) == Some(i),
            old(self).ents(old(self).levels() - 2).len() < old(self).node_at(old(self).levels() - 2).max_entries,
            key > old(self).ents(old(self).levels() - 2)[old(self).idx(old(self).levels() - 2)->0 as int].first_block_spec(),
            old(self).ents(old(self).levels() - 1).len() - i - 1 < room,
            room <= u16::MAX,
            lba.0 < 0x1_0000_0000_0000,
            !old(self).holds(lba.0),
        ensures
            final(tx).events == old(tx).events,
            n.lba == lba,
            final(tx).wf(),
            final(self).wf(),
            final(self).synced(final(tx)),
            tail_moved(old(self), final(self), old(tx), final(tx), n, key, room as int),
    {
        let ghost p0 = *self;
        let ghost tx0 = *tx;
        let last = self.len() - 1;
        proof {
            assert(p0.level_ok(last as int));
            assert(p0.level_ok(last - 1));
        }
        let (moved, depth) = match self.last() {
            (n, _) => (entries_from(n, i + 1), n.depth),
        };
        let node = ExtentNode { depth, max_entries: room as u16, entries: moved };
        proof {
            assert forall|k: int| 0 <= k < node.entries@.len() implies entry_storable(#[trigger] node.entries@[k])
                && ((node.depth == 0) == (node.entries@[k] is Leaf)) by {
                assert(node.entries@[k] == p0.ents(last as int)[i + 1 + k]);
            }
        }
        tx.extent_update_node(lba, &node);
        let ghost txb = *tx;
        proof {
            assert forall|l: int| 1 <= l < p0.levels() implies {
                &&& txb.collector.blocks@.contains_key(#[trigger] p0.lba_at(l).0)
                &&& node_bytes_ok(txb.collector.blocks@[p0.lba_at(l).0])
                &&& node_of(txb.collector.blocks@[p0.lba_at(l).0]) == triple(p0.node_at(l))
            } by {
                assert(p0.lba_at(l).0 != lba.0);
            }
            assert(p0.synced(&txb));
        }
        self.cut_last((i + 1) as u16, tx);
        let ghost pc = *self;
        let ghost txc = *tx;
        let ok = self.insert_internal(Internal { block: key, next_node: lba }, last - 1, tx);
        proof {
            assert(ok);
            assert(pc.internal_loc(Internal { block: key, next_node: lba }, last - 1) == pc.idx(last - 1)->0 + 1);
            lemma_tail_facts(&p0, &pc, self, &tx0, &txb, &txc, tx, lba);
            assert(self.ents(last as int) == pc.ents(last as int));
            assert forall|l: int| 0 <= l < last - 1 implies #[trigger] self.node_at(l) == p0.node_at(l) && self.idx(l) == p0.idx(l) by {
                assert(pc.node_at(l) == p0.node_at(l));
            }
            reveal(tail_moved);
        }
        Node { lba, node }
    }
}

/// What the steps of a tail move leave of the path and of the block images.
proof fn lemma_tail_facts(
    p0: &Path<true>,
    pc: &Path<true>,
    p: &Path<true>,
    t0: &Transaction,
    tb: &Transaction,
    tc: &Transaction,
    t: &Transaction,
    lba: LogicalBlockNumber,
)
    requires
        p0.wf(),
        p0.synced(t0),
        !p0.holds(lba.0),
        p0.levels() >= 2,
        tb.collector.blocks@.dom() == t0.collector.blocks@.dom().insert(lba.0),
        forall|k: u64| k != lba.0 ==> #[trigger] tb.collector.blocks@[k] == t0.collector.blocks@[k],
        pc.same_except(p0, p0.levels() - 1),
        pc.same_headers(p0),
        crate::path::block_logged(tb, tc, pc.lba_at(p0.levels() - 1), pc.node_at(p0.levels() - 1)),
        p.same_shape(pc),
        p.same_headers(pc),
        images_kept(tc, t, p),
    ensures
        !p.holds(lba.0),
        forall|k: u64| k != lba.0 && !p.holds(k) ==> #[trigger] t.collector.blocks@[k] == t0.collector.blocks@[k],
        t.collector.blocks@.dom() == t0.collector.blocks@.dom().insert(lba.0),
        p.same_headers(p0),
        p.same_shape(p0),
{
    let last = p0.levels() - 1;
    assert forall|k: u64| p.holds(k) implies p0.holds(k) by {
        let l = choose|l: int| 1 <= l < p.levels() && #[trigger] p.lba_at(l).0 == k;
        assert(p.lba_at(l) == pc.lba_at(l));
        assert(pc.lba_at(l) == p0.lba_at(l));
    }
    assert forall|k: u64| k != lba.0 && !p.holds(k) implies #[trigger] t.collector.blocks@[k] == t0.collector.blocks@[k] by {
        assert(k != pc.lba_at(last).0) by {
            assert(p.lba_at(last) == pc.lba_at(last));
        }
    }
    assert forall|l: int| 0 <= l < p.levels() implies #[trigger] p.node_at(l).depth == p0.node_at(l).depth
        && p.node_at(l).max_entries == p0.node_at(l).max_entries by {
        assert(pc.node_at(l).depth == p0.node_at(l).depth);
    }
    assert forall|l: int| 1 <= l < p.levels() implies #[trigger] p.lba_at(l) == p0.lba_at(l) by {
        assert(p.lba_at(l) == pc.lba_at(l));
    }
    assert(t.collector.blocks@.dom() =~= t0.collector.blocks@.dom().insert(lba.0)) by {
        assert forall|k: u64| #[trigger] t.collector.blocks@.dom().contains(k) implies t0.collector.blocks@.dom().insert(lba.0).contains(k) by {
            if k != lba.0 && !t0.collector.blocks@.contains_key(k) {
                if p.holds(k) {
                    let l = choose|l: int| 1 <= l < p0.levels() && #[trigger] p0.lba_at(l).0 == k;
                }
            }
        }
        assert forall|k: u64| t0.collector.blocks@.dom().insert(lba.0).contains(k) implies #[trigger] t.collector.blocks@.dom().contains(k) by {
            assert(tb.collector.blocks@.contains_key(k));
            assert(tc.collector.blocks@.contains_key(k));
        }
    }
}

impl Path<true> {
    /// Keeps the first `cnt` entries of the last node and records it.
    fn cut_last(&mut self, cnt: u16, tx: &mut Transaction)
        requires
            old(self).wf(),
            old(self).synced(old(tx)),
            old(tx).wf(),
            old(self).levels() >= 2,
            cnt <= old(self).ents(old(self).levels() - 1).len(),
            old(self).idx(old(self).levels() - 1) matches Some(i) && i < cnt,
        ensures
            final(self).wf(),
            final(self).synced(final(tx)),
            final(self).same_except(old(self), old(self).levels() - 1),
            final(self).same_headers(old(self)),
            final(self).idx(old(self).levels() - 1) == old(self).idx(old(self).levels() - 1),
            final(self).ents(old(self).levels() - 1) == old(self).ents(old(self).levels() - 1).subrange(0, cnt as int),
            crate::path::block_logged(old(tx), final(tx), final(self).lba_at(old(self).levels() - 1), final(self).node_at(old(self).levels() - 1)),
    {
        let ghost p0 = *self;
        let ghost t0 = *tx;
        let last = self.len() - 1;
        self.level_truncate(last, cnt);
        proof {
            assert(p0.level_ok(last as int));
            assert forall|k: int| 0 <= k < self.ents(last as int).len() implies entry_storable(
                #[trigger] self.ents(last as int)[k],
            ) && ((self.node_at(last as int).depth == 0) == (self.ents(last as int)[k] is Leaf)) by {
                assert(self.ents(last as int)[k] == p0.ents(last as int)[k]);
            }
            lemma_wf_edit(&p0, self, last as int);
        }
        self.commit(last, tx);
        proof {
            lemma_synced_edit(&p0, self, last as int, &t0, tx);
            assert forall|l: int| 0 <= l < self.levels() implies #[trigger] self.node_at(l).depth == p0.node_at(l).depth
                && self.node_at(l).max_entries == p0.node_at(l).max_entries by {}
        }
    }
}

/// `tail_moved` reads only the collector of the transaction before.
pub proof fn lemma_tail_moved_collector(
    p0: &Path<true>,
    p: &Path<true>,
    t0: &Transaction,
    t1: &Transaction,
    t: &Transaction,
    n: Node,
    key: u32,
    room: int,
)
    requires
        tail_moved(p0, p, t0, t, n, key, room),
        t1.collector == t0.collector,
    ensures
        tail_moved(p0, p, t1, t, n, key, room),
{
    reveal(tail_moved);
}

/// `p` is `p0` with the entries after index `i` of its last node moved to
/// the node `n`, and the parent's index entry for `n`, starting at `key`,
/// right after the entry it follows; `t` is `t0` with the images of the
/// changed nodes and of `n`.
#[verifier::opaque]
pub open spec fn tail_moved(p0: &Path<true>, p: &Path<true>, t0: &Transaction, t: &Transaction, n: Node, key: u32, room: int) -> bool {
    let last = p0.levels() - 1;
    let i = p0.idx(last)->0;
    &&& t.wf()
    &&& p.wf()
    &&& p.synced(t)
    &&& n.lba.0 < 0x1_0000_0000_0000
    &&& !p.holds(n.lba.0)
    &&& n.node.storable()
    &&& n.node.depth == p0.node_at(last).depth
    &&& n.node.max_entries == room
    &&& n.node.entries@ == p0.ents(last).subrange(i + 1, p0.ents(last).len() as int)
    &&& p.same_shape(p0)
    &&& p.same_headers(p0)
    &&& p.idx(last) == p0.idx(last)
    &&& p.ents(last) == p0.ents(last).subrange(0, i + 1)
    &&& p.idx(last - 1) == p0.idx(last - 1)
    &&& p.ents(last - 1) == p0.ents(last - 1).insert(
        p0.idx(last - 1)->0 + 1,
        Entry::Internal(Internal { block: key, next_node: n.lba }),
    )
    &&& forall|l: int| 0 <= l < last - 1 ==> #[trigger] p.node_at(l) == p0.node_at(l) && p.idx(l) == p0.idx(l)
    &&& t.collector.blocks@.dom() == t0.collector.blocks@.dom().insert(n.lba.0)
    &&& forall|k: u64| k != n.lba.0 && !p.holds(k) ==> #[trigger] t.collector.blocks@[k] == t0.collector.blocks@[k]
    &&& node_bytes_ok(t.collector.blocks@[n.lba.0])
    &&& node_of(t.collector.blocks@[n.lba.0]) == triple(n.node)
    &&& t.collector.postludes == t0.collector.postludes
    &&& t.collector.sb_dirty == t0.collector.sb_dirty
    &&& roots_after(t0, t, p0.ino, p.root.0, last == 1)
}

/// Frames of the file system compose.
pub proof fn lemma_frame_trans<C: Config>(a: &FileSystem<C>, b: &FileSystem<C>, c: &FileSystem<C>)
    requires
        b.frame_of(a),
        c.frame_of(b),
    ensures
        c.frame_of(a),
{
    assert forall|i: int|
        0 <= i < a.sb.bg_count && a.loaded(i) implies #[trigger] c.loaded(i) && c.blocks.allocator.free(i).subset_of(
            a.blocks.allocator.free(i),
        ) && c.block_groups@[i]->0.block_bitmap_lba == a.block_groups@[i]->0.block_bitmap_lba by {
        assert(b.sb == a.sb);
        assert(b.loaded(i));
        assert(c.loaded(i));
        assert(b.block_groups@[i]->0.block_bitmap_lba == a.block_groups@[i]->0.block_bitmap_lba);
        assert(c.block_groups@[i]->0.block_bitmap_lba == b.block_groups@[i]->0.block_bitmap_lba);
        assert(c.blocks.allocator.free(i).subset_of(b.blocks.allocator.free(i)));
        assert(b.blocks.allocator.free(i).subset_of(a.blocks.allocator.free(i)));
        assert forall|x: int| c.blocks.allocator.free(i).contains(x) implies a.blocks.allocator.free(i).contains(x) by {
            assert(b.blocks.allocator.free(i).contains(x));
        }
    }
}

/// What a split leaves at the last two levels, read out of `tail_moved`.
proof fn lemma_tail_moved_open(
    p0: &Path<true>,
    p: &Path<true>,
    t0: &Transaction,
    t: &Transaction,
    n: Node,
    key: u32,
    room: int,
)
    requires
        p0.levels() >= 2,
        p0.idx(p0.levels() - 2) matches Some(j) && j < p0.ents(p0.levels() - 2).len(),
        p0.idx(p0.levels() - 1) matches Some(i) && i < p0.ents(p0.levels() - 1).len(),
        tail_moved(p0, p, t0, t, n, key, room),
    ensures
        p.levels() == p0.levels(),
        p.ino == p0.ino,
        p.root.0.depth == p0.root.0.depth,
        n.node.storable(),
        !p.holds(n.lba.0),
        n.lba.0 < 0x1_0000_0000_0000,
        n.node.entries@.len() == p0.ents(p0.levels() - 1).len() - p0.idx(p0.levels() - 1)->0 - 1,
        n.node.max_entries == room,
        p.idx(p0.levels() - 1) == p0.idx(p0.levels() - 1),
        p.ents(p0.levels() - 1).len() == p0.idx(p0.levels() - 1)->0 + 1,
        p.ents(p0.levels() - 1)[p0.idx(p0.levels() - 1)->0 as int] == p0.ents(p0.levels() - 1)[p0.idx(p0.levels() - 1)->0 as int],
        p.node_at(p0.levels() - 1).max_entries == p0.node_at(p0.levels() - 1).max_entries,
        p.node_at(p0.levels() - 1).depth == p0.node_at(p0.levels() - 1).depth,
        p.idx(p0.levels() - 2) == p0.idx(p0.levels() - 2),
        p.ents(p0.levels() - 2)[p0.idx(p0.levels() - 2)->0 + 1] == Entry::Internal(Internal { block: key, next_node: n.lba }),
        p.ents(p0.levels() - 2).len() == p0.ents(p0.levels() - 2).len() + 1,
        t.collector.blocks@.contains_key(n.lba.0),
        node_bytes_ok(t.collector.blocks@[n.lba.0]),
        node_of(t.collector.blocks@[n.lba.0]) == triple(n.node),
        t.collector.postludes == t0.collector.postludes,
        t.collector.sb_dirty == t0.collector.sb_dirty,
{
    reveal(tail_moved);
    let last = p0.levels() - 1;
    assert(p.same_headers(p0));
    assert(p.levels() == p0.levels());
    assert(p.node_at(last).depth == p0.node_at(last).depth);
    assert(p.node_at(0).depth == p0.node_at(0).depth);
}

impl Path<true> {
    /// Moves the path from the last node, just split, to the node `n` that
    /// took its tail: the parent follows the entry after the one it followed,
    /// and `n` follows its last entry.
    fn follow_split(&mut self, n: Node)
        requires
            old(self).wf(),
            old(self).levels() >= 2,
            old(self).idx(old(self).levels() - 2) matches Some(j) && j + 1 < old(self).ents(old(self).levels() - 2).len()
                && old(self).ents(old(self).levels() - 2)[j + 1] is Internal
                && old(self).ents(old(self).levels() - 2)[j + 1]->Internal_0.next_node == n.lba,
            n.node.storable(),
            !old(self).holds(n.lba.0),
        ensures
            final(self).wf(),
            final(self).ino == old(self).ino,
            final(self).levels() == old(self).levels(),
            final(self).root.0 == old(self).root.0,
            final(self).node_at(old(self).levels() - 1) == n.node,
            final(self).lba_at(old(self).levels() - 1) == n.lba,
            forall|m: int| 1 <= m < old(self).levels() - 1 ==> #[trigger] final(self).lba_at(m) == old(self).lba_at(m)
                && final(self).node_at(m) == old(self).node_at(m),
    {
        let ghost p0 = *self;
        let last = self.len() - 1;
        let j = match self.get(last - 1) {
            Some((_, Some(j))) => j,
            _ => 0,
        };
        self.level_set_idx(last - 1, Some(j + 1));
        let ghost p1 = *self;
        let cnt = n.node.entries.len();
        let i: Option<usize> = if cnt == 0 {
            None
        } else {
            Some(cnt - 1)
        };
        self.level_put(last, n, i);
        proof {
            assert(p0.level_ok(last - 1));
            assert forall|m: int, k: int| 1 <= m < k < self.levels() implies #[trigger] self.lba_at(m) != #[trigger] self.lba_at(k) by {
                if k == last {
                    assert(self.lba_at(m) == p0.lba_at(m));
                    assert(!p0.holds(n.lba.0));
                } else {
                    assert(self.lba_at(m) == p0.lba_at(m));
                    assert(self.lba_at(k) == p0.lba_at(k));
                }
            }
            assert forall|m: int|
                0 <= m < self.levels() implies (#[trigger] self.node_at(m)).storable() && (self.idx(m) is Some
                    ==> self.idx(m)->0 < self.ents(m).len()) by {
                if m < last - 1 {
                    assert(self.node_at(m) == p1.node_at(m));
                    assert(p0.level_ok(m));
                } else if m == last - 1 {
                    assert(self.node_at(m) == p1.node_at(m));
                }
            }
            assert forall|m: int| 0 <= m < self.levels() - 1 implies {
                &&& #[trigger] self.idx(m) is Some
                &&& self.ents(m)[self.idx(m)->0 as int] is Internal
                &&& self.ents(m)[self.idx(m)->0 as int]->Internal_0.next_node == self.lba_at(m + 1)
            } by {
                assert(self.node_at(m) == p1.node_at(m));
                if m < last - 1 {
                    assert(p0.level_ok(m));
                    assert(self.lba_at(m + 1) == p0.lba_at(m + 1));
                }
            }
            assert forall|m: int| 1 <= m < last implies #[trigger] self.lba_at(m) == p0.lba_at(m) && self.node_at(m) == p0.node_at(m) by {
                assert(p1.node_at(m) == p0.node_at(m) || m == last - 1);
            }
            assert(self.node_at(0) == p1.node_at(0));
        }
    }

    /// Inserts the extent `new`: into the last node of the path when it has
    /// room, else after splitting the last node (when the level above has
    /// room), else after growing the tree, in which case `new` is given back
    /// for the caller to load the path again.
    #[verifier::rlimit(80)]
    #[verifier::spinoff_prover]
    pub fn do_insert<C: Config>(
        &mut self,
        new: Leaf,
        ino: InodeNumber,
        tx: &mut Transaction,
        fs: &mut FileSystem<C>,
    ) -> (r: Result<Option<Leaf>, FsError>)
        requires
            old(self).wf(),
            old(self).synced(old(tx)),
            old(tx).wf(),
            old(fs).wf(),
            old(fs).sb.blocks_per_group + 4 * old(fs).sb.block_size <= usize::MAX,
            entry_storable(Entry::Leaf(new)),
        ensures
            final(self).wf(),
            final(self).synced(final(tx)),
            final(self).ino == old(self).ino,
            final(fs).frame_of(old(fs)),
            final(tx).wf(),
            final(tx).collector.postludes == old(tx).collector.postludes,
            final(tx).collector.sb_dirty == old(tx).collector.sb_dirty,
            r matches Ok(None) ==> (final(self).leaf_spec() matches Some(l) && maps(l, new)),
            r matches Ok(Some(x)) ==> x == new && final(self).levels() == 1 && final(self).root.0.depth
                == old(self).root.0.depth + 1,
            old(self).dup(new) ==> r == Err::<Option<Leaf>, FsError>(FsError::InvalidFs),
            !old(self).dup(new) && old(self).merge_ok(new) ==> {
                let last = old(self).levels() - 1;
                &&& r == Ok::<Option<Leaf>, FsError>(None)
                &&& final(self).same_except(old(self), last)
                &&& final(self).ents(last) == old(self).ents(last).update(
                    old(self).idx(last)->0 as int,
                    Entry::Leaf(old(self).merged(new)),
                )
            },
            !old(self).dup(new) && !old(self).merge_ok(new) && !old(self).last_full() ==> {
                let last = old(self).levels() - 1;
                let pos = old(self).insert_pos(new);
                if old(self).node_at(last).depth == 0 {
                    &&& r == Ok::<Option<Leaf>, FsError>(None)
                    &&& final(self).idx(last) == Some(pos)
                    &&& final(self).ents(last) == old(self).ents(last).insert(pos as int, Entry::Leaf(new))
                    &&& old(self).loaded_for(new) ==> sorted_blocks(final(self).ents(last))
                } else {
                    r == Err::<Option<Leaf>, FsError>(FsError::InvalidFs)
                }
            },
            old(self).stuck(new) && old(self).room_below(old(self).levels() as int) < 0 ==> {
                &&& old(self).grow_refused(ino, old(fs).sb) ==> r == Err::<Option<Leaf>, FsError>(FsError::InvalidFs)
                &&& !old(self).grow_refused(ino, old(fs).sb) && old(fs).alloc_ready() ==> r == Ok::<
                    Option<Leaf>,
                    FsError,
                >(Some(new))
            },
            old(self).stuck(new) && old(self).room_below(old(self).levels() as int) >= 0 ==> {
                let at = old(self).room_below(old(self).levels() as int) + 1;
                let last = old(self).levels() - 1;
                &&& old(self).split_refused(new, at, node_room(old(fs).sb.block_size)) ==> r == Err::<
                    Option<Leaf>,
                    FsError,
                >(FsError::IoError)
                &&& r is Err ==> r == Err::<Option<Leaf>, FsError>(FsError::IoError) || r == Err::<
                    Option<Leaf>,
                    FsError,
                >(FsError::InvalidFs)
                &&& !old(self).split_refused(new, at, node_room(old(fs).sb.block_size)) && old(fs).alloc_ready()
                    && old(self).blocks_in_use(old(fs)) ==> r != Err::<Option<Leaf>, FsError>(FsError::IoError)
                &&& !old(self).split_refused(new, at, node_room(old(fs).sb.block_size)) && old(fs).alloc_ready()
                    && old(self).blocks_in_use(old(fs)) && old(self).node_at(last).depth == 0 && new.block
                    < old(self).split_key(new) ==> r == Ok::<Option<Leaf>, FsError>(None)
            },
    {
        let ghost fs0 = *fs;
        let ghost p0 = *self;
        match self.insert_leaf(new, tx) {
            Ok(None) => {
                return Ok(None);
            },
            Ok(Some(_)) => {},
            Err(e) => {
                return Err(e);
            },
        }
        let n = self.len();
        let mut level: usize = n;
        let mut k: usize = n;
        while k > 0
            invariant_except_break
                level == n,
                self.room_below(n as int) == self.room_below(k as int),
            invariant
                self.wf(),
                n == self.levels(),
                k <= n,
                level <= n,
            ensures
                level == n ==> k == 0 && self.room_below(n as int) == -1,
                level < n ==> level as int == self.room_below(n as int),
            decreases k,
        {
            k = k - 1;
            let full = match self.get(k) {
                Some((node, _)) => node.is_full(),
                None => true,
            };
            if !full {
                level = k;
                break;
            }
        }
        if level == n {
            match self.grow_extent(ino, tx, fs) {
                Ok(()) => {
                    return Ok(Some(new));
                },
                Err(e) => {
                    return Err(e);
                },
            }
        }
        let ghost p1 = *self;
        let ghost tx1 = *tx;
        let ghost fs1 = *fs;
        let room = (fs.sb.block_size - 16) / 12;
        let (fix, blk) = match self.split_at(&new, level + 1, tx, fs) {
            Ok(x) => x,
            Err(_) => {
                proof {
                    lemma_frame_trans(&fs0, &fs1, fs);
                }
                return Err(FsError::IoError);
            },
        };
        proof {
            lemma_frame_trans(&fs0, &fs1, fs);
            assert(p1.level_ok(p1.levels() - 2));
            assert(p1.level_ok(p1.levels() - 1));
            lemma_tail_moved_open(&p1, self, &tx1, tx, blk, p1.split_key(new), room as int);
        }
        proof {
            if !fix {
                let last = p1.levels() - 1;
                assert(self.leaf_spec() == p1.leaf_spec());
                assert(self.merge_ok(new) == p1.merge_ok(new));
            }
        }
        if fix {
            let ghost p2 = *self;
            self.follow_split(blk);
            proof {
                assert forall|l: int| 1 <= l < self.levels() implies {
                    &&& tx.collector.blocks@.contains_key(#[trigger] self.lba_at(l).0)
                    &&& node_bytes_ok(tx.collector.blocks@[self.lba_at(l).0])
                    &&& node_of(tx.collector.blocks@[self.lba_at(l).0]) == triple(self.node_at(l))
                } by {
                    if l < self.levels() - 1 {
                        assert(self.lba_at(l) == p2.lba_at(l));
                    }
                }
            }
        }
        match self.insert_leaf(new, tx) {
            Ok(None) => Ok(None),
            Ok(Some(x)) => {
                proof {
                    assert(false);
                }
                Ok(Some(x))
            },
            Err(e) => Err(e),
        }
    }

    /// Inserts the extent `new` into the tree, loading the path again at its
    /// first block each time the tree had to grow. Gives the first block
    /// `new` maps to.
    pub fn insert<C: Config>(
        &mut self,
        new: Leaf,
        ino: InodeNumber,
        tx: &mut Transaction,
        fs: &mut FileSystem<C>,
    ) -> (r: Result<LogicalBlockNumber, FsError>)
        requires
            old(self).wf(),
            old(self).synced(old(tx)),
            old(tx).wf(),
            old(fs).wf(),
            old(fs).sb.blocks_per_group + 4 * old(fs).sb.block_size <= usize::MAX,
            entry_storable(Entry::Leaf(new)),
        ensures
            final(self).wf(),
            final(self).synced(final(tx)),
            final(self).ino == old(self).ino,
            final(fs).frame_of(old(fs)),
            final(tx).wf(),
            final(tx).collector.postludes == old(tx).collector.postludes,
            final(tx).collector.sb_dirty == old(tx).collector.sb_dirty,
            r matches Ok(lba) ==> lba == new.start && (final(self).leaf_spec() matches Some(l) && maps(l, new)),
            old(self).dup(new) ==> r == Err::<LogicalBlockNumber, FsError>(FsError::InvalidFs),
            !old(self).dup(new) && (old(self).merge_ok(new) || (!old(self).last_full() && old(self).node_at(
                old(self).levels() - 1,
            ).depth == 0)) ==> r == Ok::<LogicalBlockNumber, FsError>(new.start),
    {
        let ghost fs0 = *fs;
        let ghost tx0 = *tx;
        let ghost p0 = *self;
        let ghost easy = !p0.dup(new) && (p0.merge_ok(new) || (!p0.last_full() && p0.node_at(p0.levels() - 1).depth
            == 0));
        let ghost mut first = true;
        let lba = new.start;
        let fba = FileBlockNumber(new.block);
        loop
            invariant
                self.wf(),
                self.synced(tx),
                self.ino == old(self).ino,
                tx.wf(),
                fs.wf(),
                fs.frame_of(&fs0),
                fs0 == *old(fs),
                fs.sb.blocks_per_group + 4 * fs.sb.block_size <= usize::MAX,
                entry_storable(Entry::Leaf(new)),
                lba == new.start,
                fba.0 == new.block,
                tx.collector.postludes == tx0.collector.postludes,
                tx.collector.sb_dirty == tx0.collector.sb_dirty,
                tx0 == *old(tx),
                old(self).dup(new) ==> *self == *old(self),
                p0 == *old(self),
                easy == (!p0.dup(new) && (p0.merge_ok(new) || (!p0.last_full() && p0.node_at(p0.levels() - 1).depth
                    == 0))),
                easy ==> first,
                first ==> *self == p0,
            decreases MAX_LEAFS + 1 - self.root.0.depth,
        {
            let ghost fsb = *fs;
            let ghost d0 = self.root.0.depth;
            match self.do_insert(new, ino, tx, fs) {
                Ok(None) => {
                    proof {
                        lemma_frame_trans(&fs0, &fsb, fs);
                    }
                    return Ok(lba);
                },
                Ok(Some(_)) => {},
                Err(e) => {
                    proof {
                        lemma_frame_trans(&fs0, &fsb, fs);
                    }
                    return Err(e);
                },
            }
            proof {
                lemma_frame_trans(&fs0, &fsb, fs);
                first = false;
            }
            if self.root.0.depth as usize > MAX_LEAFS {
                return Err(FsError::InvalidFs);
            }
            match self.load(fba, tx, fs) {
                Ok(()) => {},
                Err(e) => {
                    return Err(e);
                },
            }
        }
    }
}

/// Being `o` but for level `l` carries over.
pub proof fn lemma_same_except_trans<const MUT: bool>(a: &Path<MUT>, b: &Path<MUT>, c: &Path<MUT>, l: int)
    requires
        b.same_except(a, l),
        c.same_except(b, l),
    ensures
        c.same_except(a, l),
{
    assert forall|m: int| 1 <= m < c.levels() implies #[trigger] c.lba_at(m) == a.lba_at(m) by {
        assert(c.lba_at(m) == b.lba_at(m));
    }
    assert forall|m: int|
        0 <= m < c.levels() && m != l implies #[trigger] c.node_at(m) == a.node_at(m) && c.idx(m) == a.idx(m) by {
        assert(c.node_at(m) == b.node_at(m));
    }
}

/// Keeping images of the path's blocks only carries over two steps.
pub proof fn lemma_images_trans<const MUT: bool>(
    t0: &Transaction,
    t1: &Transaction,
    t2: &Transaction,
    a: &Path<MUT>,
    b: &Path<MUT>,
)
    requires
        images_kept(t0, t1, a),
        images_kept(t1, t2, b),
        b.same_shape(a),
    ensures
        images_kept(t0, t2, b),
{
    assert forall|k: u64| a.holds(k) implies b.holds(k) by {
        let l = choose|l: int| 1 <= l < a.levels() && #[trigger] a.lba_at(l).0 == k;
        assert(b.lba_at(l) == a.lba_at(l));
    }
    assert forall|k: u64| b.holds(k) implies a.holds(k) by {
        let l = choose|l: int| 1 <= l < b.levels() && #[trigger] b.lba_at(l).0 == k;
        assert(b.lba_at(l) == a.lba_at(l));
    }
    assert forall|k: u64| #[trigger] t2.collector.blocks@.contains_key(k) implies t0.collector.blocks@.contains_key(k) || b.holds(k) by {
        if !b.holds(k) {
            assert(!a.holds(k));
        }
    }
    assert forall|k: u64| !b.holds(k) implies #[trigger] t2.collector.blocks@[k] == t0.collector.blocks@[k] by {
        assert(!a.holds(k));
    }
}

/// Whether a change goes up to level `l`, and what it writes there, depend
/// only on the levels above the last.
pub proof fn lemma_raised_same<const MUT: bool>(a: &Path<MUT>, b: &Path<MUT>, pos: usize, block: u32)
    requires
        a.same_except(b, b.levels() - 1),
    ensures
        forall|l: int|
            0 <= l < b.levels() - 1 ==> #[trigger] a.raised(pos, l) == b.raised(pos, l) && a.raise(l, block)
                == b.raise(l, block),
{
    assert forall|l: int| 0 <= l < b.levels() - 1 implies #[trigger] a.raised(pos, l) == b.raised(pos, l) && a.raise(l, block)
        == b.raise(l, block) by {
        assert(a.node_at(l) == b.node_at(l));
        assert(a.lba_at(l + 1) == b.lba_at(l + 1));
        assert forall|m: int| l < m < b.levels() - 1 implies #[trigger] a.idx(m) == b.idx(m) by {
            assert(a.node_at(m) == b.node_at(m));
        }
        if a.raised(pos, l) {
            assert forall|m: int| l < m < b.levels() - 1 implies #[trigger] b.idx(m) == Some(0usize) by {
                assert(a.idx(m) == b.idx(m));
            }
        }
        if b.raised(pos, l) {
            assert forall|m: int| l < m < a.levels() - 1 implies #[trigger] a.idx(m) == Some(0usize) by {
                assert(a.idx(m) == b.idx(m));
            }
        }
    }
}

} // verus!
