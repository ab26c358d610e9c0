//! Linear directories: the records of a directory lie in its data blocks,
//! one after another, and are searched in order.
use vstd::prelude::*;
use vstd::string::StringSliceAdditionalSpecFns;
use crate::block_alloc::Allocator;
use crate::dirblock::{
    block_entries, DirEntry, cleared_block, find_from, find_in_block, insert_in_block, rec_size, record_is, remove_in_block,
    slot_from, type_byte, d_inode, d_rec_len, d_name_len, inserted, entry_is, scan, tail, tail_broken, removed, file_type_of,
};
use crate::filesystem::{Config, FileSystem, read_view};
use crate::transaction::{Collector, Transaction};
use crate::types::{FileType, FsError, InodeNumber, LogicalBlockNumber};

verus! {

impl LinearScheme {
    /// What a lookup of `name` from block `i` on gives when the reads of the
    /// directory's blocks, in order, gave `reads`: `None` when the lookup
    /// would read more blocks than `reads` holds.
    pub open spec fn lookup(&self, reads: Seq<Result<Seq<u8>, FsError>>, name: Seq<u8>, i: int) -> Option<
        Result<(InodeNumber, Option<FileType>), FsError>,
    >
        decreases self.blocks@.len() - i,
    {
        if i < 0 || i >= self.blocks@.len() {
            Some(Err(FsError::NoEntry))
        } else if self.blocks@[i] is None {
            Some(Err(FsError::InvalidFs))
        } else if i >= reads.len() {
            None
        } else {
            match reads[i] {
                Err(e) => Some(Err(e)),
                Ok(b) => match find_from(b, 0, name) {
                    Err(()) => Some(Err(FsError::InvalidFs)),
                    Ok(Some(o)) => Some(Ok((InodeNumber(d_inode(b, o) as u32), file_type_of(b[o + 7])))),
                    Ok(None) => self.lookup(reads, name, i + 1),
                },
            }
        }
    }
}

/// Block `j` of `d` is mapped and its read gave a block of `bs` bytes
/// with no record in use named `name`.
pub open spec fn passed(d: &LinearScheme, reads: Seq<Result<Seq<u8>, FsError>>, name: Seq<u8>, bs: nat, j: int) -> bool {
    &&& d.blocks@[j] is Some
    &&& reads[j] matches Ok(b)
    &&& find_from(b, 0, name) == Ok::<Option<int>, ()>(None)
    &&& b.len() == bs
}

/// Every successful read of `reads` gave a block of `bs` bytes.
pub open spec fn sized(reads: Seq<Result<Seq<u8>, FsError>>, bs: nat) -> bool {
    forall|j: int| 0 <= j < reads.len() ==> (#[trigger] reads[j] matches Ok(b) ==> b.len() == bs)
}

/// `r` is what a lookup of `name` in `d` gives for reads `reads` of blocks
/// of `bs` bytes.
pub open spec fn looked_up(
    d: &LinearScheme,
    reads: Seq<Result<Seq<u8>, FsError>>,
    name: Seq<u8>,
    bs: nat,
    r: Result<(InodeNumber, Option<FileType>), FsError>,
) -> bool {
    d.lookup(reads, name, 0) == Some(r) && sized(reads, bs)
}

/// Passed blocks stay passed, and reads stay sized, when one more read is
/// added.
pub proof fn lemma_passed_push(
    d: &LinearScheme,
    reads: Seq<Result<Seq<u8>, FsError>>,
    x: Result<Seq<u8>, FsError>,
    name: Seq<u8>,
    bs: nat,
)
    requires
        forall|j: int| 0 <= j < reads.len() ==> #[trigger] passed(d, reads, name, bs, j),
        x matches Ok(b) ==> b.len() == bs,
    ensures
        forall|j: int| 0 <= j < reads.len() ==> #[trigger] passed(d, reads.push(x), name, bs, j),
        sized(reads.push(x), bs),
{
    assert forall|j: int| 0 <= j < reads.len() implies #[trigger] passed(d, reads.push(x), name, bs, j) by {
        assert(reads.push(x)[j] == reads[j]);
        assert(passed(d, reads, name, bs, j));
    }
    assert forall|j: int| 0 <= j < reads.push(x).len() implies (#[trigger] reads.push(x)[j] matches Ok(b) ==> b.len() == bs) by {
        if j < reads.len() {
            assert(reads.push(x)[j] == reads[j]);
            assert(passed(d, reads, name, bs, j));
        }
    }
}

/// Each of `reads` is an outcome of reading, from the device `conf`, the
/// directory block at its index.
pub open spec fn reads_made<C: Config>(conf: &C, d: &LinearScheme, reads: Seq<Result<Seq<u8>, FsError>>, bs: nat) -> bool {
    forall|j: int| 0 <= j < reads.len() ==> #[trigger] read_at(conf, d, reads[j], bs, j)
}

/// `x` is an outcome of reading, from the device `conf`, the mapped block
/// `j` of directory `d`.
pub open spec fn read_at<C: Config>(conf: &C, d: &LinearScheme, x: Result<Seq<u8>, FsError>, bs: nat, j: int) -> bool {
    &&& d.blocks@[j] is Some
    &&& crate::filesystem::block_read(conf, d.blocks@[j].unwrap().0, bs, x)
}

/// Reads made stay made when one more read of the next block is added.
pub proof fn lemma_reads_push<C: Config>(
    conf: &C,
    d: &LinearScheme,
    reads: Seq<Result<Seq<u8>, FsError>>,
    x: Result<Seq<u8>, FsError>,
    bs: nat,
)
    requires
        reads_made(conf, d, reads, bs),
        read_at(conf, d, x, bs, reads.len() as int),
    ensures
        reads_made(conf, d, reads.push(x), bs),
{
    assert forall|j: int| 0 <= j < reads.push(x).len() implies #[trigger] read_at(conf, d, reads.push(x)[j], bs, j) by {
        if j < reads.len() {
            assert(reads.push(x)[j] == reads[j]);
            assert(read_at(conf, d, reads[j], bs, j));
        }
    }
}

/// `x` is what `get_mut` gives for the mapped block `j` of `d` when the
/// transaction holds the images `c`: the image it holds, else an outcome of
/// reading the block from the device `conf`.
pub open spec fn got_at<C: Config>(conf: &C, d: &LinearScheme, c: Map<u64, Seq<u8>>, x: Result<Seq<u8>, FsError>, bs: nat, j: int) -> bool {
    &&& d.blocks@[j] is Some
    &&& if c.contains_key(d.blocks@[j].unwrap().0) {
        x == Ok::<Seq<u8>, FsError>(c[d.blocks@[j].unwrap().0])
    } else {
        crate::filesystem::block_read(conf, d.blocks@[j].unwrap().0, bs, x)
    }
}

impl LinearScheme {
    /// Where a removal of `name` from block `i` on ends when the blocks got
    /// were `reads`: at the block and offset of the first record in use with
    /// that name, or with an error; `None` when it would get more blocks than
    /// `reads` holds.
    pub open spec fn removal(&self, reads: Seq<Result<Seq<u8>, FsError>>, name: Seq<u8>, i: int) -> Option<
        Result<(int, int), FsError>,
    >
        decreases self.blocks@.len() - i,
    {
        if i < 0 || i >= self.blocks@.len() {
            Some(Err(FsError::NoEntry))
        } else if self.blocks@[i] is None {
            Some(Err(FsError::InvalidFs))
        } else if i >= reads.len() {
            None
        } else {
            match reads[i] {
                Err(e) => Some(Err(e)),
                Ok(b) => if b.len() > 0xffff {
                    Some(Err(FsError::InvalidFs))
                } else {
                    match find_from(b, 0, name) {
                        Err(()) => Some(Err(FsError::InvalidFs)),
                        Ok(Some(o)) => Some(Ok((i, o))),
                        Ok(None) => self.removal(reads, name, i + 1),
                    }
                },
            }
        }
    }
}

/// What `remove_entry` of `name` from `d` gives as `r`, with the images
/// `c0` before and `c` after, when `get_mut` gave the blocks `reads` in turn:
/// the inode of the first record in use with the name, whose block then
/// holds it removed, or the error that ended the search, with nothing changed.
pub open spec fn removed_by<C: Config>(
    conf: &C,
    d: &LinearScheme,
    c0: Map<u64, Seq<u8>>,
    c: Map<u64, Seq<u8>>,
    reads: Seq<Result<Seq<u8>, FsError>>,
    name: Seq<u8>,
    bs: nat,
    r: Result<InodeNumber, FsError>,
) -> bool {
    &&& forall|j: int| 0 <= j < reads.len() ==> #[trigger] got_at(conf, d, c0, reads[j], bs, j)
    &&& match d.removal(reads, name, 0) {
        Some(Ok((i, o))) => {
            let lba = d.blocks@[i].unwrap().0;
            &&& reads[i] matches Ok(b)
            &&& r == Ok::<InodeNumber, FsError>(InodeNumber(d_inode(b, o) as u32))
            &&& c == c0.insert(lba, c[lba])
            &&& removed(b, c[lba], o)
        },
        Some(Err(e)) => r == Err::<InodeNumber, FsError>(e) && c == c0,
        None => false,
    }
}

impl LinearScheme {
    /// Where a search for room for a record of `need` bytes from block `i` on
    /// ends when the blocks got were `reads`: at the block and offset of the
    /// first place with room, past the last block (`Ok(None)`), or with an
    /// error; `None` when it would get more blocks than `reads` holds.
    pub open spec fn placement(&self, reads: Seq<Result<Seq<u8>, FsError>>, need: nat, i: int) -> Option<
        Result<Option<(int, int)>, FsError>,
    >
        decreases self.blocks@.len() - i,
    {
        if i < 0 || i >= self.blocks@.len() {
            Some(Ok(None))
        } else if self.blocks@[i] is None {
            Some(Err(FsError::InvalidFs))
        } else if i >= reads.len() {
            None
        } else {
            match reads[i] {
                Err(e) => Some(Err(e)),
                Ok(b) => if b.len() > 0xffff {
                    Some(Err(FsError::InvalidFs))
                } else {
                    match slot_from(b, 0, need) {
                        Err(()) => Some(Err(FsError::InvalidFs)),
                        Ok(Some(o)) => Some(Ok(Some((i, o)))),
                        Ok(None) => self.placement(reads, need, i + 1),
                    }
                },
            }
        }
    }
}

/// Removal and lookup agree: over the same blocks got, none longer than
/// `remove_entry` takes, a removal of `name` ends where a lookup ends, and
/// the record it removes is the one whose inode and type the lookup gives.
pub proof fn lemma_remove_finds(d: &LinearScheme, reads: Seq<Result<Seq<u8>, FsError>>, name: Seq<u8>, i: int)
    requires
        forall|j: int| 0 <= j < reads.len() ==> (#[trigger] reads[j] matches Ok(b) ==> b.len() <= 0xffff),
    ensures
        match d.removal(reads, name, i) {
            Some(Ok((k, o))) => reads[k] matches Ok(b) && d.lookup(reads, name, i) == Some(
                Ok::<(InodeNumber, Option<FileType>), FsError>((InodeNumber(d_inode(b, o) as u32), file_type_of(b[o + 7]))),
            ),
            Some(Err(e)) => d.lookup(reads, name, i) == Some(Err::<(InodeNumber, Option<FileType>), FsError>(e)),
            None => d.lookup(reads, name, i) is None,
        },
    decreases d.blocks@.len() - i,
{
    if 0 <= i < d.blocks@.len() && d.blocks@[i] is Some && i < reads.len() {
        if let Ok(b) = reads[i] {
            assert(b.len() <= 0xffff);
            lemma_remove_finds(d, reads, name, i + 1);
        }
    }
}

/// Block `j` of `d` is mapped, and what was got for it has no room for a
/// record of `need` bytes.
pub open spec fn roomless(d: &LinearScheme, x: Result<Seq<u8>, FsError>, need: nat, j: int) -> bool {
    &&& d.blocks@[j] is Some
    &&& x matches Ok(b)
    &&& b.len() <= 0xffff
    &&& slot_from(b, 0, need) == Ok::<Option<int>, ()>(None)
}

/// Blocks with no room leave a search for room where it was.
pub proof fn lemma_placement_skip(d: &LinearScheme, reads: Seq<Result<Seq<u8>, FsError>>, need: nat, i: int)
    requires
        0 <= i <= d.blocks@.len(),
        i <= reads.len(),
        forall|j: int| 0 <= j < i ==> #[trigger] roomless(d, reads[j], need, j),
    ensures
        d.placement(reads, need, 0) == d.placement(reads, need, i),
    decreases i,
{
    if i > 0 {
        assert(roomless(d, reads[i - 1], need, i - 1));
        lemma_placement_skip(d, reads, need, i - 1);
    }
}

/// What `add_entry` of `name` (type `de`, inode `child`) to `d` gives as
/// `r`, with the images `c0` before and `c` after, when `get_mut` gave the
/// blocks `reads` in turn: the record put at the first place with room,
/// whose block then holds it; a new block when none had room; or the error
/// that ended the search, with nothing changed.
pub open spec fn placed_by<C: Config>(
    conf: &C,
    d: &LinearScheme,
    c0: Map<u64, Seq<u8>>,
    c: Map<u64, Seq<u8>>,
    reads: Seq<Result<Seq<u8>, FsError>>,
    name: Seq<u8>,
    de: FileType,
    child: InodeNumber,
    bs: nat,
    r: Result<bool, FsError>,
) -> bool {
    &&& forall|j: int| 0 <= j < reads.len() ==> #[trigger] got_at(conf, d, c0, reads[j], bs, j)
    &&& match d.placement(reads, rec_size(name.len()), 0) {
        Some(Ok(Some((i, o)))) => {
            let lba = d.blocks@[i].unwrap().0;
            &&& reads[i] matches Ok(b)
            &&& r == Ok::<bool, FsError>(false)
            &&& c == c0.insert(lba, c[lba])
            &&& inserted(b, c[lba], o, name, de, child)
        },
        Some(Ok(None)) => r != Ok::<bool, FsError>(false),
        Some(Err(e)) => r == Err::<bool, FsError>(e) && c == c0,
        None => false,
    }
}

/// Blocks that held no record with the name leave a removal where it was.
pub proof fn lemma_removal_skip(d: &LinearScheme, reads: Seq<Result<Seq<u8>, FsError>>, name: Seq<u8>, i: int)
    requires
        0 <= i <= d.blocks@.len(),
        i <= reads.len(),
        forall|j: int| 0 <= j < i ==> #[trigger] skipped(d, reads[j], name, j),
    ensures
        d.removal(reads, name, 0) == d.removal(reads, name, i),
    decreases i,
{
    if i > 0 {
        assert(skipped(d, reads[i - 1], name, i - 1));
        lemma_removal_skip(d, reads, name, i - 1);
    }
}

/// Block `j` of `d` is mapped, and what was got for it holds no record in
/// use named `name`.
pub open spec fn skipped(d: &LinearScheme, x: Result<Seq<u8>, FsError>, name: Seq<u8>, j: int) -> bool {
    &&& d.blocks@[j] is Some
    &&& x matches Ok(b)
    &&& b.len() <= 0xffff
    &&& find_from(b, 0, name) == Ok::<Option<int>, ()>(None)
}

/// Reads that found nothing in the mapped blocks before `i` leave a lookup
/// where it was at `i`.
pub proof fn lemma_lookup_skip(d: &LinearScheme, reads: Seq<Result<Seq<u8>, FsError>>, name: Seq<u8>, bs: nat, i: int)
    requires
        0 <= i <= d.blocks@.len(),
        i <= reads.len(),
        forall|j: int| 0 <= j < i ==> #[trigger] passed(d, reads, name, bs, j),
    ensures
        d.lookup(reads, name, 0) == d.lookup(reads, name, i),
    decreases i,
{
    if i > 0 {
        assert(passed(d, reads, name, bs, i - 1));
        lemma_lookup_skip(d, reads, name, bs, i - 1);
    }
}

impl LinearScheme {
    /// Every block of the directory is mapped, and the blocks from `i` on
    /// are held in `c`, each of at most 0xffff bytes.
    pub open spec fn cached_from(&self, c: Map<u64, Seq<u8>>, i: int) -> bool {
        forall|j: int|
            i <= j < self.blocks@.len() ==> #[trigger] self.blocks@[j] is Some && c.contains_key(self.blocks@[j].unwrap().0)
                && c[self.blocks@[j].unwrap().0].len() <= 0xffff
    }

    /// Where a search for room for a record of `need` bytes through the
    /// blocks held in `c`, from block `i` on, ends: at the block and offset
    /// of the first place with room, at none, or at a block whose records
    /// are broken.
    pub open spec fn room_from(&self, c: Map<u64, Seq<u8>>, i: int, need: nat) -> Result<Option<(int, int)>, ()>
        decreases self.blocks@.len() - i,
    {
        if i < 0 || i >= self.blocks@.len() {
            Ok(None)
        } else {
            match slot_from(c[self.blocks@[i].unwrap().0], 0, need) {
                Err(()) => Err(()),
                Ok(Some(o)) => Ok(Some((i, o))),
                Ok(None) => self.room_from(c, i + 1, need),
            }
        }
    }

    /// Where a search for `name` through the blocks held in `c`, from block
    /// `i` on, ends: at the block and offset of the first record in use with
    /// that name, at none, or at a block whose records are broken.
    pub open spec fn search_from(&self, c: Map<u64, Seq<u8>>, i: int, name: Seq<u8>) -> Result<Option<(int, int)>, ()>
        decreases self.blocks@.len() - i,
    {
        if i < 0 || i >= self.blocks@.len() {
            Ok(None)
        } else {
            match find_from(c[self.blocks@[i].unwrap().0], 0, name) {
                Err(()) => Err(()),
                Ok(Some(o)) => Ok(Some((i, o))),
                Ok(None) => self.search_from(c, i + 1, name),
            }
        }
    }
}

/// `v` is the listing that `block_entries` gives of block `b` when the last
/// record at or before the offset starts at `p` and the walk goes on at
/// `resume`.
pub open spec fn listed(v: Seq<DirEntry>, b: Seq<u8>, p: int, resume: int) -> bool {
    let t = tail(b, resume);
    &&& v.len() == 1 + t.len()
    &&& entry_is(v[0], b, p)
    &&& forall|i: int| 0 <= i < t.len() ==> #[trigger] entry_is(v[i + 1], b, t[i])
}

/// `f` was handed the records `v`, each with position `at`, in order: all of
/// them, each answered true, when `go_on`; else those up to the first one it
/// answered false.
pub open spec fn handed<F: Fn(DirEntry, usize) -> bool>(f: F, v: Seq<DirEntry>, at: usize, go_on: bool) -> bool {
    if go_on {
        forall|j: int| 0 <= j < v.len() ==> #[trigger] call_ensures(f, (v[j], at), true)
    } else {
        exists|k: int|
            0 <= k < v.len() && (forall|j: int| 0 <= j < k ==> #[trigger] call_ensures(f, (v[j], at), true))
                && #[trigger] call_ensures(f, (v[k], at), false)
    }
}

/// What handing the listing of block `b` from byte `offset` to `f`, with
/// positions counted from `base`, gives as `r`: `Ok(true)` to go on with the
/// next block, `Ok(false)` when `f` said to stop or the block lists nothing,
/// and `InvalidFs` for broken records or a position past a `usize`.
pub open spec fn block_filled<F: Fn(DirEntry, usize) -> bool>(f: F, b: Seq<u8>, offset: int, base: int, r: Result<bool, FsError>) -> bool {
    &&& r is Err ==> r == Err::<bool, FsError>(FsError::InvalidFs)
    &&& match scan(b, 0, offset, None) {
        Err(()) => r is Err,
        Ok((None, _)) => r == Ok::<bool, FsError>(false),
        Ok((Some(p), resume)) => {
            let end = p + d_rec_len(b, p);
            &&& base + end > usize::MAX ==> r is Err
            &&& r matches Ok(go_on) ==> {
                &&& exists|v: Seq<DirEntry>| #[trigger]
                    listed(v, b, p, resume) && handed(f, v, (base + end) as usize, go_on)
                &&& go_on ==> !tail_broken(b, resume)
            }
            &&& base + end <= usize::MAX && tail_broken(b, resume) && !(r matches Ok(false)) ==> r is Err
        },
    }
}

/// What listing directory `d` from byte `pos` with `f` gives as `r`, when
/// the blocks read, from block `pos / bs` on, were `imgs` and handing each
/// to `f` (through `fill_block`) gave `outs`: every block but the last read
/// went on; the listing ends with the last answer when it did not go on,
/// else at the next block: `Ok` past the last block, `InvalidFs` for an
/// unmapped block or a position past a `usize`, and an error of the read
/// otherwise.
pub open spec fn dir_filled<F: Fn(DirEntry, usize) -> bool>(
    d: &LinearScheme,
    f: F,
    imgs: Seq<Seq<u8>>,
    outs: Seq<Result<bool, FsError>>,
    pos: int,
    bs: int,
    r: Result<(), FsError>,
) -> bool {
    let i0 = pos / bs;
    let m = imgs.len() as int;
    let i = i0 + m;
    &&& outs.len() == m
    &&& i0 + m <= d.blocks@.len() || m == 0
    &&& forall|k: int|
        0 <= k < m ==> {
            &&& #[trigger] d.blocks@[i0 + k] is Some
            &&& imgs[k].len() == bs
            &&& (i0 + k) * bs <= usize::MAX
            &&& block_filled(f, imgs[k], if k == 0 { (pos % bs) as int } else { 0 }, (i0 + k) * bs, outs[k])
            &&& k < m - 1 ==> outs[k] == Ok::<bool, FsError>(true)
        }
    &&& if m > 0 && outs[m - 1] != Ok::<bool, FsError>(true) {
        match outs[m - 1] {
            Ok(_) => r == Ok::<(), FsError>(()),
            Err(e) => r == Err::<(), FsError>(e),
        }
    } else if i >= d.blocks@.len() {
        r == Ok::<(), FsError>(())
    } else if d.blocks@[i] is None || i * bs > usize::MAX {
        r == Err::<(), FsError>(FsError::InvalidFs)
    } else {
        r is Err
    }
}

/// The blocks `imgs` that a listing of `d` from byte `pos` handed on are
/// outcomes of reading the directory's blocks from the device `conf`, in
/// order from block `pos / bs`; a listing that ended on a mapped block it
/// could address gives the error of reading it.
pub open spec fn fill_reads<C: Config>(
    conf: &C,
    d: &LinearScheme,
    imgs: Seq<Seq<u8>>,
    outs: Seq<Result<bool, FsError>>,
    pos: int,
    bs: int,
    r: Result<(), FsError>,
) -> bool {
    let i0 = pos / bs;
    let m = imgs.len() as int;
    let i = i0 + m;
    &&& forall|k: int|
        0 <= k < m ==> #[trigger] crate::filesystem::block_read(
            conf,
            d.blocks@[i0 + k].unwrap().0,
            bs as nat,
            Ok::<Seq<u8>, FsError>(imgs[k]),
        )
    &&& (m == 0 || outs[m - 1] == Ok::<bool, FsError>(true)) && i < d.blocks@.len() && d.blocks@[i] is Some && i * bs
        <= usize::MAX ==> (r matches Err(e) && crate::filesystem::block_read(
        conf,
        d.blocks@[i].unwrap().0,
        bs as nat,
        Err::<Seq<u8>, FsError>(e),
    ))
}

/// Hands the listing of block `blk` from byte `offset` to `fillfn`, each
/// record with the position where the first of them ends, counted from
/// `base`, until `fillfn` answers false. Gives whether the listing goes on
/// with the next block: not when `fillfn` said to stop or the block lists
/// nothing. A record that is not whole, once the whole ones were handed,
/// is refused.
#[verifier::loop_isolation(false)]
pub fn fill_block<F: Fn(DirEntry, usize) -> bool>(blk: &Vec<u8>, offset: usize, base: usize, fillfn: &F) -> (r: Result<
    bool,
    FsError,
>)
    requires
        forall|e: DirEntry, p: usize| #[trigger] call_requires(*fillfn, (e, p)),
    ensures
        block_filled(*fillfn, blk@, offset as int, base as int, r),
{
    let (mut entries, end, broken) = match block_entries(blk, offset) {
        Ok(x) => x,
        Err(e) => {
            return Err(e);
        },
    };
    let count = entries.len();
    if count == 0 {
        return Ok(false);
    }
    let at = match end.checked_add(base) {
        Some(a) => a,
        None => {
            return Err(FsError::InvalidFs);
        },
    };
    let ghost v = entries@;
    let mut i: usize = 0;
    while i < count
        invariant
            count == entries@.len(),
            v.len() == count,
            i <= count,
            forall|j: int| i <= j < count ==> #[trigger] entries@[j] == v[j],
            forall|j: int| 0 <= j < i ==> #[trigger] call_ensures(*fillfn, (v[j], at), true),
            forall|e: DirEntry, p: usize| #[trigger] call_requires(*fillfn, (e, p)),
        decreases count - i,
    {
        let mut e = DirEntry { name: Vec::new(), ino: InodeNumber(0), ty: FileType::Unknown };
        std::mem::swap(&mut e, &mut entries[i]);
        let ghost ei = e;
        if !fillfn(e, at) {
            proof {
                assert(ei == v[i as int]);
                assert(call_ensures(*fillfn, (v[i as int], at), false));
                assert(handed(*fillfn, v, at, false));
                if let Ok((Some(p), resume)) = scan(blk@, 0, offset as int, None) {
                    assert(listed(v, blk@, p, resume));
                }
            }
            return Ok(false);
        }
        proof {
            assert(ei == v[i as int]);
        }
        i = i + 1;
    }
    if broken {
        return Err(FsError::InvalidFs);
    }
    proof {
        if let Ok((Some(p), resume)) = scan(blk@, 0, offset as int, None) {
            assert(listed(v, blk@, p, resume));
        }
    }
    Ok(true)
}

/// A linear directory: its inode and its data blocks in file order, `None`
/// for a block that is mapped but not initialized.
pub struct LinearScheme {
    pub ino: InodeNumber,
    pub blocks: Vec<Option<LogicalBlockNumber>>,
    pub size: u64,
}

impl LinearScheme {
    /// The directory `ino` of `size` bytes with the data blocks `blocks`.
    pub fn new(ino: InodeNumber, blocks: Vec<Option<LogicalBlockNumber>>, size: u64) -> (r: Self)
        ensures
            r.ino == ino,
            r.blocks@ == blocks@,
            r.size == size,
    {
        LinearScheme { ino, blocks, size }
    }

    /// Looks `target` up among the records in use: gives the inode and file
    /// type of the first record with that name, block by block.
    pub fn find_entry<C: Config>(&self, fs: &FileSystem<C>, target: &str) -> (r: Result<(InodeNumber, Option<FileType>), FsError>)
        requires
            fs.blocks.block_size > 0,
        ensures
            self.blocks@.len() == 0 ==> r == Err::<(InodeNumber, Option<FileType>), FsError>(FsError::NoEntry),
            self.blocks@.len() > 0 && self.blocks@[0] is None ==> r == Err::<(InodeNumber, Option<FileType>), FsError>(FsError::InvalidFs),
            r matches Ok((ino, _)) ==> ino.0 != 0,
            exists|reads: Seq<Result<Seq<u8>, FsError>>| #[trigger]
                looked_up(self, reads, target.spec_bytes(), fs.blocks.block_size as nat, r),
            exists|reads: Seq<Result<Seq<u8>, FsError>>| #[trigger]
                looked_up(self, reads, target.spec_bytes(), fs.blocks.block_size as nat, r) && reads_made(
                    &fs.blocks.conf,
                    self,
                    reads,
                    fs.blocks.block_size as nat,
                ),
    {
        let name = target.as_bytes();
        let n = self.blocks.len();
        let mut i: usize = 0;
        let ghost mut reads: Seq<Result<Seq<u8>, FsError>> = Seq::empty();
        let ghost bs: nat = fs.blocks.block_size as nat;
        while i < n
            invariant
                n == self.blocks@.len(),
                i <= n,
                fs.blocks.block_size > 0,
                bs == fs.blocks.block_size,
                name@ == target.spec_bytes(),
                reads.len() == i,
                forall|k: int| 0 <= k < i ==> #[trigger] self.blocks@[k] is Some,
                forall|j: int| 0 <= j < reads.len() ==> #[trigger] passed(self, reads, name@, bs, j),
                reads_made(&fs.blocks.conf, self, reads, bs),
            decreases n - i,
        {
            let lba = match self.blocks[i] {
                Some(l) => l,
                None => {
                    proof {
                        lemma_passed_push(self, reads, Err(FsError::InvalidFs), name@, bs);
                        lemma_lookup_skip(self, reads, name@, bs, i as int);
                        assert forall|j: int| 0 <= j < reads.len() implies (#[trigger] reads[j] matches Ok(b) ==> b.len() == bs) by {
                            assert(passed(self, reads, name@, bs, j));
                        }
                        assert(looked_up(self, reads, target.spec_bytes(), bs, Err(FsError::InvalidFs)));
                    }
                    return Err(FsError::InvalidFs);
                },
            };
            let blk = match fs.blocks.get(lba) {
                Ok(b) => b,
                Err(e) => {
                    proof {
                        let rs = reads.push(Err(e));
                        lemma_passed_push(self, reads, Err(e), name@, bs);
                        lemma_reads_push(&fs.blocks.conf, self, reads, Err(e), bs);
                        lemma_lookup_skip(self, rs, name@, bs, i as int);
                        assert(looked_up(self, rs, target.spec_bytes(), bs, Err(e)));
                    }
                    return Err(e);
                },
            };
            let ghost rs = reads.push(Ok(blk@));
            proof {
                lemma_passed_push(self, reads, Ok(blk@), name@, bs);
                lemma_reads_push(&fs.blocks.conf, self, reads, Ok(blk@), bs);
                lemma_lookup_skip(self, rs, name@, bs, i as int);
            }
            match find_in_block(&blk, name) {
                Ok(Some((ino, t))) => {
                    proof {
                        lemma_found_in_use(blk@, 0, name@);
                        assert(looked_up(self, rs, target.spec_bytes(), bs, Ok((ino, t))));
                    }
                    return Ok((ino, t));
                },
                Ok(None) => {},
                Err(e) => {
                    proof {
                        assert(looked_up(self, rs, target.spec_bytes(), bs, Err(e)));
                    }
                    return Err(e);
                },
            }
            proof {
                assert(passed(self, rs, name@, bs, i as int));
                reads = rs;
            }
            i = i + 1;
        }
        proof {
            lemma_lookup_skip(self, reads, name@, bs, n as int);
            assert forall|j: int| 0 <= j < reads.len() implies (#[trigger] reads[j] matches Ok(b) ==> b.len() == bs) by {
                assert(passed(self, reads, name@, bs, j));
            }
            assert(looked_up(self, reads, target.spec_bytes(), bs, Err(FsError::NoEntry)));
        }
        Err(FsError::NoEntry)
    }

    /// Removes the first record in use named `target` and gives its inode;
    /// the changed block goes into `collector`.
    pub fn remove_entry<C: Config>(&self, fs: &FileSystem<C>, target: &str, collector: &mut Collector) -> (r: Result<InodeNumber, FsError>)
        requires
            fs.blocks.block_size > 0,
            old(collector).blocks.wf(),
        ensures
            final(collector).blocks.wf(),
            final(collector).postludes == old(collector).postludes,
            final(collector).roots == old(collector).roots,
            final(collector).sb_dirty == old(collector).sb_dirty,
            self.blocks@.len() == 0 ==> r == Err::<InodeNumber, FsError>(FsError::NoEntry),
            r is Err ==> final(collector).blocks == old(collector).blocks,
            r matches Ok(ino) ==> ino.0 != 0,
            r is Ok ==> exists|i: int|
                0 <= i < self.blocks@.len() && #[trigger] self.blocks@[i] is Some && final(collector).blocks@.dom()
                    == old(collector).blocks@.dom().insert(self.blocks@[i].unwrap().0),
            exists|reads: Seq<Result<Seq<u8>, FsError>>| #[trigger]
                removed_by(
                    &fs.blocks.conf,
                    self,
                    old(collector).blocks@,
                    final(collector).blocks@,
                    reads,
                    target.spec_bytes(),
                    fs.blocks.block_size as nat,
                    r,
                ),
            self.cached_from(old(collector).blocks@, 0) ==> {
                let c = old(collector).blocks@;
                match self.search_from(c, 0, target.spec_bytes()) {
                    Err(()) => r == Err::<InodeNumber, FsError>(FsError::InvalidFs),
                    Ok(None) => r == Err::<InodeNumber, FsError>(FsError::NoEntry),
                    Ok(Some((i, o))) => {
                        let lba = self.blocks@[i].unwrap().0;
                        &&& r == Ok::<InodeNumber, FsError>(InodeNumber(d_inode(c[lba], o) as u32))
                        &&& final(collector).blocks@ == c.insert(lba, final(collector).blocks@[lba])
                        &&& removed(c[lba], final(collector).blocks@[lba], o)
                    },
                }
            },
    {
        let name = target.as_bytes();
        let n = self.blocks.len();
        let mut i: usize = 0;
        let ghost mut reads: Seq<Result<Seq<u8>, FsError>> = Seq::empty();
        let ghost bs: nat = fs.blocks.block_size as nat;
        while i < n
            invariant
                n == self.blocks@.len(),
                i <= n,
                fs.blocks.block_size > 0,
                collector.blocks == old(collector).blocks,
                collector.postludes == old(collector).postludes,
                collector.roots == old(collector).roots,
                collector.sb_dirty == old(collector).sb_dirty,
                collector.blocks.wf(),
                name@ == target.spec_bytes(),
                self.cached_from(old(collector).blocks@, 0) ==> self.search_from(old(collector).blocks@, 0, target.spec_bytes())
                    == self.search_from(old(collector).blocks@, i as int, target.spec_bytes()),
                reads.len() == i,
                bs == fs.blocks.block_size,
                forall|j: int| 0 <= j < reads.len() ==> #[trigger] skipped(self, reads[j], name@, j),
                forall|j: int| 0 <= j < reads.len() ==> #[trigger] got_at(&fs.blocks.conf, self, old(collector).blocks@, reads[j], bs, j),
            decreases n - i,
        {
            let lba = match self.blocks[i] {
                Some(l) => l,
                None => {
                    proof {
                        lemma_removal_skip(self, reads, name@, i as int);
                        assert(removed_by(
                            &fs.blocks.conf,
                            self,
                            old(collector).blocks@,
                            collector.blocks@,
                            reads,
                            target.spec_bytes(),
                            bs,
                            Err(FsError::InvalidFs),
                        ));
                    }
                    return Err(FsError::InvalidFs);
                },
            };
            let got = fs.blocks.get_mut(lba, collector);
            let ghost rs = reads.push(read_view(got));
            proof {
                assert(self.blocks@[i as int] == Some(lba));
                assert(got_at(&fs.blocks.conf, self, old(collector).blocks@, read_view(got), bs, i as int));
                assert forall|j: int| 0 <= j < rs.len() implies #[trigger] got_at(&fs.blocks.conf, self, old(collector).blocks@, rs[j], bs, j) by {
                    if j < i {
                        assert(rs[j] == reads[j]);
                    }
                }
                assert forall|j: int| 0 <= j < i implies #[trigger] skipped(self, rs[j], name@, j) by {
                    assert(rs[j] == reads[j]);
                }
                lemma_removal_skip(self, rs, name@, i as int);
            }
            let mut blk = match got {
                Ok(b) => b,
                Err(e) => {
                    proof {
                        assert(removed_by(
                            &fs.blocks.conf,
                            self,
                            old(collector).blocks@,
                            collector.blocks@,
                            rs,
                            target.spec_bytes(),
                            bs,
                            Err(e),
                        ));
                    }
                    return Err(e);
                },
            };
            if blk.len() > 0xffff {
                proof {
                    assert(removed_by(
                        &fs.blocks.conf,
                        self,
                        old(collector).blocks@,
                        collector.blocks@,
                        rs,
                        target.spec_bytes(),
                        bs,
                        Err(FsError::InvalidFs),
                    ));
                }
                return Err(FsError::InvalidFs);
            }
            let ghost b0 = blk@;
            match remove_in_block(&mut blk, name) {
                Ok(Some(ino)) => {
                    proof {
                        lemma_found_in_use(b0, 0, name@);
                    }
                    let ghost img = blk@;
                    collector.blocks.put(lba.0, blk);
                    proof {
                        assert(self.blocks@[i as int] == Some(lba));
                        assert(collector.blocks@ =~= old(collector).blocks@.insert(lba.0, collector.blocks@[lba.0]));
                        assert(removed_by(
                            &fs.blocks.conf,
                            self,
                            old(collector).blocks@,
                            collector.blocks@,
                            rs,
                            target.spec_bytes(),
                            bs,
                            Ok(ino),
                        ));
                    }
                    return Ok(ino);
                },
                Ok(None) => {},
                Err(e) => {
                    proof {
                        assert(removed_by(
                            &fs.blocks.conf,
                            self,
                            old(collector).blocks@,
                            collector.blocks@,
                            rs,
                            target.spec_bytes(),
                            bs,
                            Err(e),
                        ));
                    }
                    return Err(e);
                },
            }
            proof {
                assert(skipped(self, rs[i as int], name@, i as int));
                reads = rs;
            }
            i = i + 1;
        }
        proof {
            lemma_removal_skip(self, reads, name@, n as int);
            assert(removed_by(
                &fs.blocks.conf,
                self,
                old(collector).blocks@,
                collector.blocks@,
                reads,
                target.spec_bytes(),
                bs,
                Err(FsError::NoEntry),
            ));
        }
        Err(FsError::NoEntry)
    }

    /// Lists the records of the directory from byte `pos` on, block by
    /// block, giving each to `fillfn` with a position, until `fillfn`
    /// answers false or the directory ends. Each block read is handed to
    /// `fill_block`, with the offset of `pos` in it (0 in the blocks after)
    /// and the position of its start in the directory.
    pub fn fill_dir_from<C: Config, F: Fn(DirEntry, usize) -> bool>(
        &self,
        fs: &FileSystem<C>,
        pos: usize,
        fillfn: F,
    ) -> (r: Result<(), FsError>)
        requires
            fs.blocks.block_size > 0,
            forall|e: DirEntry, p: usize| #[trigger] call_requires(fillfn, (e, p)),
        ensures
            pos / fs.blocks.block_size >= self.blocks@.len() ==> r is Ok,
            pos / fs.blocks.block_size < self.blocks@.len() && self.blocks@[(pos / fs.blocks.block_size) as int]
                is None ==> r == Err::<(), FsError>(FsError::InvalidFs),
            exists|imgs: Seq<Seq<u8>>, outs: Seq<Result<bool, FsError>>| #[trigger]
                dir_filled(self, fillfn, imgs, outs, pos as int, fs.blocks.block_size as int, r),
            exists|imgs: Seq<Seq<u8>>, outs: Seq<Result<bool, FsError>>|
                #[trigger] dir_filled(self, fillfn, imgs, outs, pos as int, fs.blocks.block_size as int, r) && fill_reads(
                    &fs.blocks.conf,
                    self,
                    imgs,
                    outs,
                    pos as int,
                    fs.blocks.block_size as int,
                    r,
                ),
    {
        let bs = fs.blocks.block_size;
        let n = self.blocks.len();
        let mut index = pos / bs;
        let mut offset = pos % bs;
        let ghost mut imgs: Seq<Seq<u8>> = Seq::empty();
        let ghost mut outs: Seq<Result<bool, FsError>> = Seq::empty();
        let ghost i0: int = (pos / bs) as int;
        proof {
            if index >= n {
                assert(dir_filled(self, fillfn, imgs, outs, pos as int, bs as int, Ok(())));
                assert(fill_reads(&fs.blocks.conf, self, imgs, outs, pos as int, bs as int, Ok(())));
            }
        }
        while index < n
            invariant
                n == self.blocks@.len(),
                bs == fs.blocks.block_size,
                bs > 0,
                i0 == pos / bs,
                index == i0 + imgs.len(),
                imgs.len() > 0 ==> index <= n,
                imgs.len() == outs.len(),
                imgs.len() == 0 ==> offset == pos % bs,
                imgs.len() > 0 ==> offset == 0,
                forall|e: DirEntry, p: usize| #[trigger] call_requires(fillfn, (e, p)),
                forall|k: int|
                    0 <= k < imgs.len() ==> {
                        &&& #[trigger] self.blocks@[i0 + k] is Some
                        &&& imgs[k].len() == bs
                        &&& (i0 + k) * bs <= usize::MAX
                        &&& block_filled(fillfn, imgs[k], if k == 0 { (pos % bs) as int } else { 0 }, (i0 + k) * bs, outs[k])
                        &&& outs[k] == Ok::<bool, FsError>(true)
                    },
                forall|k: int|
                    0 <= k < imgs.len() ==> #[trigger] crate::filesystem::block_read(
                        &fs.blocks.conf,
                        self.blocks@[i0 + k].unwrap().0,
                        bs as nat,
                        Ok::<Seq<u8>, FsError>(imgs[k]),
                    ),
            decreases n - index,
        {
            let lba = match self.blocks[index] {
                Some(l) => l,
                None => {
                    proof {
                        if imgs.len() > 0 {
                            let k: int = imgs.len() - 1;
                            assert(self.blocks@[i0 + k] is Some);
                        }
                        assert(dir_filled(self, fillfn, imgs, outs, pos as int, bs as int, Err(FsError::InvalidFs)));
                        assert(fill_reads(&fs.blocks.conf, self, imgs, outs, pos as int, bs as int, Err(FsError::InvalidFs)));
                    }
                    return Err(FsError::InvalidFs);
                },
            };
            let base = match index.checked_mul(bs) {
                Some(b) => b,
                None => {
                    proof {
                        if imgs.len() > 0 {
                            let k: int = imgs.len() - 1;
                            assert(self.blocks@[i0 + k] is Some);
                        }
                        assert(dir_filled(self, fillfn, imgs, outs, pos as int, bs as int, Err(FsError::InvalidFs)));
                        assert(fill_reads(&fs.blocks.conf, self, imgs, outs, pos as int, bs as int, Err(FsError::InvalidFs)));
                    }
                    return Err(FsError::InvalidFs);
                },
            };
            let blk = match fs.blocks.get(lba) {
                Ok(b) => b,
                Err(e) => {
                    proof {
                        if imgs.len() > 0 {
                            let k: int = imgs.len() - 1;
                            assert(self.blocks@[i0 + k] is Some);
                        }
                        assert(dir_filled(self, fillfn, imgs, outs, pos as int, bs as int, Err(e)));
                        assert(fill_reads(&fs.blocks.conf, self, imgs, outs, pos as int, bs as int, Err(e)));
                    }
                    return Err(e);
                },
            };
            let got = fill_block(&blk, offset, base, &fillfn);
            let ghost imgs2 = imgs.push(blk@);
            let ghost outs2 = outs.push(got);
            proof {
                assert forall|k: int| 0 <= k < imgs2.len() - 1 implies #[trigger] self.blocks@[i0 + k] is Some && imgs2[k].len()
                    == bs && (i0 + k) * bs <= usize::MAX && block_filled(
                    fillfn,
                    imgs2[k],
                    if k == 0 { (pos % bs) as int } else { 0 },
                    (i0 + k) * bs,
                    outs2[k],
                ) && outs2[k] == Ok::<bool, FsError>(true) by {
                    assert(imgs2[k] == imgs[k]);
                    assert(outs2[k] == outs[k]);
                }
                let k = imgs.len() as int;
                assert(imgs2[k] == blk@);
                assert(outs2[k] == got);
                assert(self.blocks@[i0 + k] is Some);
            }
            match got {
                Ok(true) => {},
                Ok(false) => {
                    proof {
                        assert(dir_filled(self, fillfn, imgs2, outs2, pos as int, bs as int, Ok(())));
                        assert(fill_reads(&fs.blocks.conf, self, imgs2, outs2, pos as int, bs as int, Ok(())));
                    }
                    return Ok(());
                },
                Err(e) => {
                    proof {
                        assert(dir_filled(self, fillfn, imgs2, outs2, pos as int, bs as int, Err(e)));
                        assert(fill_reads(&fs.blocks.conf, self, imgs2, outs2, pos as int, bs as int, Err(e)));
                    }
                    return Err(e);
                },
            }
            proof {
                imgs = imgs2;
                outs = outs2;
            }
            index = index + 1;
            offset = 0;
        }
        proof {
            if imgs.len() > 0 {
                let k: int = imgs.len() - 1;
                            assert(self.blocks@[i0 + k] is Some);
            }
            assert(dir_filled(self, fillfn, imgs, outs, pos as int, bs as int, Ok(())));
            assert(fill_reads(&fs.blocks.conf, self, imgs, outs, pos as int, bs as int, Ok(())));
        }
        Ok(())
    }

    /// Adds a record for `entry`, of type `de` and inode `child`, in the
    /// first block with room; when none has room, a block is allocated for
    /// the directory, starts with the record, and is added to its blocks.
    /// Gives whether the directory grew by that block.
    pub fn add_entry<C: Config>(
        &mut self,
        fs: &mut FileSystem<C>,
        entry: &str,
        de: FileType,
        child: InodeNumber,
        tx: &mut Transaction,
    ) -> (r: Result<bool, FsError>)
        requires
            old(fs).wf(),
            old(tx).wf(),
            old(fs).sb.blocks_per_group + 4 * old(fs).sb.block_size <= usize::MAX,
            old(self).size + old(fs).sb.block_size <= u64::MAX,
        ensures
            final(fs).frame_of(old(fs)),
            final(tx).wf(),
            final(tx).collector.postludes == old(tx).collector.postludes,
            final(tx).collector.roots == old(tx).collector.roots,
            final(tx).collector.sb_dirty == old(tx).collector.sb_dirty,
            final(self).ino == old(self).ino,
            r == Ok::<bool, FsError>(true) ==> final(self).size == old(self).size + old(fs).sb.block_size,
            r != Ok::<bool, FsError>(true) ==> final(self).size == old(self).size,
            entry.spec_bytes().len() > 255 ==> r == Err::<bool, FsError>(FsError::NameTooLong),
            r == Ok::<bool, FsError>(false) ==> {
                &&& final(self).blocks@ == old(self).blocks@
                &&& final(tx).events == old(tx).events
                &&& exists|i: int, o: int, len: nat|
                    0 <= i < old(self).blocks@.len() && old(self).blocks@[i] is Some && final(tx).collector.blocks@.contains_key(
                        old(self).blocks@[i].unwrap().0,
                    ) && #[trigger] record_is(
                        final(tx).collector.blocks@[old(self).blocks@[i].unwrap().0],
                        o,
                        child,
                        len,
                        entry.spec_bytes(),
                        type_byte(de),
                    )
            },
            entry.spec_bytes().len() <= 255 ==> exists|reads: Seq<Result<Seq<u8>, FsError>>| #[trigger]
                placed_by(
                    &old(fs).blocks.conf,
                    old(self),
                    old(tx).collector.blocks@,
                    final(tx).collector.blocks@,
                    reads,
                    entry.spec_bytes(),
                    de,
                    child,
                    old(fs).sb.block_size as nat,
                    r,
                ),
            old(self).cached_from(old(tx).collector.blocks@, 0) && entry.spec_bytes().len() <= 255 ==> {
                let c = old(tx).collector.blocks@;
                match old(self).room_from(c, 0, rec_size(entry.spec_bytes().len())) {
                    Err(()) => r == Err::<bool, FsError>(FsError::InvalidFs),
                    Ok(None) => r != Ok::<bool, FsError>(false),
                    Ok(Some((i, o))) => {
                        let lba = old(self).blocks@[i].unwrap().0;
                        &&& r == Ok::<bool, FsError>(false)
                        &&& final(tx).collector.blocks@ == c.insert(lba, final(tx).collector.blocks@[lba])
                        &&& inserted(c[lba], final(tx).collector.blocks@[lba], o, entry.spec_bytes(), de, child)
                    },
                }
            },
            r == Ok::<bool, FsError>(true) ==> {
                let l = final(self).blocks@.last()->0;
                &&& final(self).blocks@ == old(self).blocks@.push(Some(l))
                &&& final(fs).allocated(old(fs), old(tx).events.seq(), final(tx).events.seq(), old(self).ino, l, 1)
                &&& final(tx).collector.blocks@.contains_key(l.0)
                &&& final(tx).collector.blocks@[l.0].len() == old(fs).sb.block_size
                &&& record_is(
                    final(tx).collector.blocks@[l.0],
                    0,
                    child,
                    old(fs).sb.block_size as nat,
                    entry.spec_bytes(),
                    type_byte(de),
                )
            },
    {
        let name = entry.as_bytes();
        if name.len() > 255 {
            return Err(FsError::NameTooLong);
        }
        let n = self.blocks.len();
        let mut i: usize = 0;
        let ghost mut reads: Seq<Result<Seq<u8>, FsError>> = Seq::empty();
        let ghost bs0: nat = fs.sb.block_size as nat;
        let ghost need: nat = rec_size(name@.len());
        while i < n
            invariant
                n == self.blocks@.len(),
                self.blocks@ == old(self).blocks@,
                self.ino == old(self).ino,
                i <= n,
                name@ == entry.spec_bytes(),
                name@.len() <= 255,
                fs == old(fs),
                fs.wf(),
                old(fs).sb.blocks_per_group + 4 * old(fs).sb.block_size <= usize::MAX,
                tx.wf(),
                tx.events == old(tx).events,
                tx.collector.postludes == old(tx).collector.postludes,
                tx.collector.roots == old(tx).collector.roots,
                tx.collector.sb_dirty == old(tx).collector.sb_dirty,
                tx.collector.blocks == old(tx).collector.blocks,
                old(self).cached_from(old(tx).collector.blocks@, 0) ==> old(self).room_from(
                    old(tx).collector.blocks@,
                    0,
                    rec_size(name@.len()),
                ) == old(self).room_from(old(tx).collector.blocks@, i as int, rec_size(name@.len())),
                reads.len() == i,
                bs0 == old(fs).sb.block_size,
                need == rec_size(name@.len()),
                forall|j: int| 0 <= j < reads.len() ==> #[trigger] roomless(old(self), reads[j], need, j),
                forall|j: int| 0 <= j < reads.len() ==> #[trigger] got_at(&old(fs).blocks.conf, old(self), old(tx).collector.blocks@, reads[j], bs0, j),
            decreases n - i,
        {
            let lba = match self.blocks[i] {
                Some(l) => l,
                None => {
                    proof {
                        lemma_placement_skip(old(self), reads, need, i as int);
                        assert(placed_by(
                            &old(fs).blocks.conf,
                            old(self),
                            old(tx).collector.blocks@,
                            tx.collector.blocks@,
                            reads,
                            entry.spec_bytes(),
                            de,
                            child,
                            bs0,
                            Err(FsError::InvalidFs),
                        ));
                    }
                    return Err(FsError::InvalidFs);
                },
            };
            let got = fs.blocks.get_mut(lba, &tx.collector);
            let ghost rs = reads.push(read_view(got));
            proof {
                assert(old(self).blocks@[i as int] == Some(lba));
                assert(got_at(&old(fs).blocks.conf, old(self), old(tx).collector.blocks@, read_view(got), bs0, i as int));
                assert forall|j: int| 0 <= j < rs.len() implies #[trigger] got_at(&old(fs).blocks.conf, old(self), old(tx).collector.blocks@, rs[j], bs0, j) by {
                    if j < i {
                        assert(rs[j] == reads[j]);
                    }
                }
                assert forall|j: int| 0 <= j < i implies #[trigger] roomless(old(self), rs[j], need, j) by {
                    assert(rs[j] == reads[j]);
                }
                lemma_placement_skip(old(self), rs, need, i as int);
            }
            let mut blk = match got {
                Ok(b) => b,
                Err(e) => {
                    proof {
                        assert(placed_by(
                            &old(fs).blocks.conf,
                            old(self),
                            old(tx).collector.blocks@,
                            tx.collector.blocks@,
                            rs,
                            entry.spec_bytes(),
                            de,
                            child,
                            bs0,
                            Err(e),
                        ));
                    }
                    return Err(e);
                },
            };
            if blk.len() > 0xffff {
                proof {
                    assert(placed_by(
                        &old(fs).blocks.conf,
                        old(self),
                        old(tx).collector.blocks@,
                        tx.collector.blocks@,
                        rs,
                        entry.spec_bytes(),
                        de,
                        child,
                        bs0,
                        Err(FsError::InvalidFs),
                    ));
                }
                return Err(FsError::InvalidFs);
            }
            let ghost b0 = blk@;
            match insert_in_block(&mut blk, name, de, child) {
                Ok(true) => {
                    let ghost img = blk@;
                    proof {
                        let (o, len) = lemma_inserted(b0, img, name@, de, child);
                    }
                    tx.write_block(lba, blk);
                    proof {
                        assert(tx.collector.blocks@[lba.0] == img);
                        assert(old(self).blocks@[i as int] == Some(lba));
                        assert(tx.collector.blocks@ =~= old(tx).collector.blocks@.insert(lba.0, tx.collector.blocks@[lba.0]));
                        assert(placed_by(
                            &old(fs).blocks.conf,
                            old(self),
                            old(tx).collector.blocks@,
                            tx.collector.blocks@,
                            rs,
                            entry.spec_bytes(),
                            de,
                            child,
                            bs0,
                            Ok(false),
                        ));
                    }
                    return Ok(false);
                },
                Ok(false) => {},
                Err(e) => {
                    proof {
                        assert(placed_by(
                            &old(fs).blocks.conf,
                            old(self),
                            old(tx).collector.blocks@,
                            tx.collector.blocks@,
                            rs,
                            entry.spec_bytes(),
                            de,
                            child,
                            bs0,
                            Err(e),
                        ));
                    }
                    return Err(e);
                },
            }
            proof {
                assert(roomless(old(self), rs[i as int], need, i as int));
                reads = rs;
            }
            i = i + 1;
        }
        proof {
            lemma_placement_skip(old(self), reads, need, n as int);
        }
        let ghost reads_all = reads;
        let hope: u64 = match n {
            0 => fs.sb.first_data_block as u64,
            _ => match self.blocks[n - 1] {
                Some(l) => l.0,
                None => fs.sb.first_data_block as u64,
            },
        };
        let hope = if hope < fs.sb.first_data_block as u64 || hope >= fs.sb.blocks_count {
            fs.sb.first_data_block as u64
        } else {
            hope
        };
        let lba = match Allocator::allocate(fs, self.ino, 1, LogicalBlockNumber(hope), tx) {
            Ok((lba, _)) => lba,
            Err(e) => {
                proof {
                    assert(placed_by(
                &old(fs).blocks.conf,
                old(self),
                old(tx).collector.blocks@,
                tx.collector.blocks@,
                reads_all,
                entry.spec_bytes(),
                de,
                child,
                bs0,
                Err(e),
            ));
                }
                return Err(e);
            },
        };
        let bs = fs.sb.block_size;
        let mut blk = cleared_block(bs);
        let ghost c = blk@;
        let ok = insert_in_block(&mut blk, name, de, child);
        proof {
            assert(slot_from(c, 0, rec_size(name@.len())) == Ok::<Option<int>, ()>(Some(0)));
            assert(ok == Ok::<bool, FsError>(true));
        }
        let ghost img = blk@;
        tx.write_block(lba, blk);
        self.blocks.push(Some(lba));
        self.size = self.size + bs as u64;
        proof {
            assert(tx.collector.blocks@[lba.0] == img);
            assert(placed_by(
                &old(fs).blocks.conf,
                old(self),
                old(tx).collector.blocks@,
                tx.collector.blocks@,
                reads_all,
                entry.spec_bytes(),
                de,
                child,
                bs0,
                Ok(true),
            ));
        }
        Ok(true)
    }
}

/// An insertion that took place left a record for `name` somewhere in the block.
proof fn lemma_inserted(b0: Seq<u8>, b1: Seq<u8>, name: Seq<u8>, t: FileType, child: InodeNumber) -> (r: (int, nat))
    requires
        slot_from(b0, 0, rec_size(name.len())) matches Ok(Some(o)) && inserted(b0, b1, o, name, t, child),
    ensures
        record_is(b1, r.0, child, r.1, name, type_byte(t)),
{
    let o = slot_from(b0, 0, rec_size(name.len()))->Ok_0->0;
    if d_inode(b0, o) == 0 {
        (o, d_rec_len(b0, o))
    } else {
        let used = rec_size(d_name_len(b0, o));
        (o + used, (d_rec_len(b0, o) - used) as nat)
    }
}

/// The record `find_from` finds is in use.
pub proof fn lemma_found_in_use(b: Seq<u8>, o: int, name: Seq<u8>)
    ensures
        find_from(b, o, name) matches Ok(Some(x)) ==> d_inode(b, x) != 0 && crate::dirblock::rec_ok(b, x),
    decreases b.len() - o,
{
    if o >= 0 && o < b.len() && crate::dirblock::rec_ok(b, o) && !(d_inode(b, o) != 0 && crate::dirblock::d_name(b, o) == name) {
        lemma_found_in_use(b, o + crate::dirblock::d_rec_len(b, o), name);
    }
}

} // verus!
