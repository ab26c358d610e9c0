//! Blocks of a linear directory: a run of records, each an inode number,
//! the record's length, the name's length, a file type and the name.
use vstd::prelude::*;
use crate::bytes::{le16, le32, read_u16, read_u32, write_u16, write_u32, same_outside};
use crate::types::{FileType, FsError, InodeNumber};

verus! {

/// The size of a record's header.
pub const DIRENT_HEADER: usize = 8;

/// The inode of the record at `o`.
pub open spec fn d_inode(b: Seq<u8>, o: int) -> nat {
    le32(b, o)
}

/// The length of the record at `o`.
pub open spec fn d_rec_len(b: Seq<u8>, o: int) -> nat {
    le16(b, o + 4)
}

/// The name length of the record at `o`.
pub open spec fn d_name_len(b: Seq<u8>, o: int) -> nat {
    b[o + 6] as nat
}

/// The name of the record at `o`.
pub open spec fn d_name(b: Seq<u8>, o: int) -> Seq<u8> {
    b.subrange(o + 8, o + 8 + d_name_len(b, o))
}

/// The record at `o` is whole: its header and name lie inside it, and it
/// lies inside the block.
pub open spec fn rec_ok(b: Seq<u8>, o: int) -> bool {
    &&& 0 <= o
    &&& o + 8 <= b.len()
    &&& 8 + d_name_len(b, o) <= d_rec_len(b, o)
    &&& o + d_rec_len(b, o) <= b.len()
}

/// The first record from `o` on that is in use and named `name`, or an
/// error at the first record that is not whole before it.
pub open spec fn find_from(b: Seq<u8>, o: int, name: Seq<u8>) -> Result<Option<int>, ()>
    decreases b.len() - o,
{
    if o < 0 || o >= b.len() {
        Ok(None)
    } else if !rec_ok(b, o) {
        Err(())
    } else if d_inode(b, o) != 0 && d_name(b, o) == name {
        Ok(Some(o))
    } else {
        find_from(b, o + d_rec_len(b, o), name)
    }
}

/// The record before the record at `t`, walking from `o` where the record
/// before was `prev`.
pub open spec fn prev_of(b: Seq<u8>, o: int, prev: Option<int>, t: int) -> Option<int>
    decreases b.len() - o,
{
    if o < 0 || o >= b.len() || !rec_ok(b, o) || o >= t {
        prev
    } else {
        prev_of(b, o + d_rec_len(b, o), Some(o), t)
    }
}

/// The file type a record's type byte names.
pub open spec fn file_type_of(t: u8) -> Option<FileType> {
    if t == 1 {
        Some(FileType::RegularFile)
    } else if t == 2 {
        Some(FileType::Directory)
    } else if t == 3 {
        Some(FileType::CharacterDevice)
    } else if t == 4 {
        Some(FileType::BlockDevice)
    } else if t == 5 {
        Some(FileType::Fifo)
    } else if t == 6 {
        Some(FileType::Socket)
    } else if t == 7 {
        Some(FileType::SymbolicLink)
    } else {
        None
    }
}

/// The file type a record's type byte names.
pub fn decode_file_type(t: u8) -> (r: Option<FileType>)
    ensures
        r == file_type_of(t),
{
    if t == 1 {
        Some(FileType::RegularFile)
    } else if t == 2 {
        Some(FileType::Directory)
    } else if t == 3 {
        Some(FileType::CharacterDevice)
    } else if t == 4 {
        Some(FileType::BlockDevice)
    } else if t == 5 {
        Some(FileType::Fifo)
    } else if t == 6 {
        Some(FileType::Socket)
    } else if t == 7 {
        Some(FileType::SymbolicLink)
    } else {
        None
    }
}

/// The type byte of a file type.
pub open spec fn type_byte(t: FileType) -> u8 {
    match t {
        FileType::RegularFile => 1,
        FileType::Directory => 2,
        FileType::CharacterDevice => 3,
        FileType::BlockDevice => 4,
        FileType::Fifo => 5,
        FileType::Socket => 6,
        FileType::SymbolicLink => 7,
        FileType::Unknown => 0,
    }
}

/// The type byte of a file type.
pub fn encode_file_type(t: FileType) -> (r: u8)
    ensures
        r == type_byte(t),
{
    match t {
        FileType::RegularFile => 1,
        FileType::Directory => 2,
        FileType::CharacterDevice => 3,
        FileType::BlockDevice => 4,
        FileType::Fifo => 5,
        FileType::Socket => 6,
        FileType::SymbolicLink => 7,
        FileType::Unknown => 0,
    }
}

/// Whether the name of the record at `o` is `name`.
fn name_is(b: &Vec<u8>, o: usize, name: &[u8]) -> (r: bool)
    requires
        rec_ok(b@, o as int),
    ensures
        r == (d_name(b@, o as int) == name@),
{
    let _l: usize = b.len();
    let n = b[o + 6] as usize;
    if n != name.len() {
        proof {
            assert(d_name(b@, o as int).len() == n);
        }
        return false;
    }
    let mut i: usize = 0;
    while i < n
        invariant
            rec_ok(b@, o as int),
            n == d_name_len(b@, o as int),
            n == name@.len(),
            i <= n,
            _l == b@.len(),
            forall|k: int| 0 <= k < i ==> #[trigger] b@[o + 8 + k] == name@[k],
        decreases n - i,
    {
        if b[o + 8 + i] != name[i] {
            proof {
                assert(d_name(b@, o as int)[i as int] != name@[i as int]);
            }
            return false;
        }
        i = i + 1;
    }
    proof {
        assert forall|k: int| 0 <= k < n implies #[trigger] d_name(b@, o as int)[k] == name@[k] by {
            assert(b@[o + 8 + k] == name@[k]);
        }
        assert(d_name(b@, o as int) =~= name@);
    }
    true
}

/// Looks for the record in use named `name` in the directory block `b`:
/// gives its inode and its file type, `None` when there is none, and an
/// error when a record that comes before is not whole.
pub fn find_in_block(b: &Vec<u8>, name: &[u8]) -> (r: Result<Option<(InodeNumber, Option<FileType>)>, FsError>)
    ensures
        match find_from(b@, 0, name@) {
            Err(()) => r == Err::<Option<(InodeNumber, Option<FileType>)>, FsError>(FsError::InvalidFs),
            Ok(None) => r == Ok::<Option<(InodeNumber, Option<FileType>)>, FsError>(None),
            Ok(Some(o)) => r == Ok::<Option<(InodeNumber, Option<FileType>)>, FsError>(
                Some((InodeNumber(d_inode(b@, o) as u32), file_type_of(b@[o + 7]))),
            ),
        },
{
    match find_offset(b, name) {
        Err(e) => Err(e),
        Ok(None) => Ok(None),
        Ok(Some(o)) => {
            let _n: usize = b.len();
            let ino = read_u32(b, o);
            Ok(Some((InodeNumber(ino), decode_file_type(b[o + 7]))))
        },
    }
}

/// The offset of the record in use named `name`, as `find_from` gives it.
fn find_offset(b: &Vec<u8>, name: &[u8]) -> (r: Result<Option<usize>, FsError>)
    ensures
        match find_from(b@, 0, name@) {
            Err(()) => r == Err::<Option<usize>, FsError>(FsError::InvalidFs),
            Ok(None) => r == Ok::<Option<usize>, FsError>(None),
            Ok(Some(o)) => r matches Ok(Some(x)) && x == o && rec_ok(b@, o),
        },
{
    let n = b.len();
    let mut o: usize = 0;
    while o < n
        invariant
            n == b@.len(),
            o <= n,
            find_from(b@, 0, name@) == find_from(b@, o as int, name@),
        decreases n - o,
    {
        if n - o < 8 {
            return Err(FsError::InvalidFs);
        }
        let rec_len = read_u16(b, o + 4) as usize;
        let name_len = b[o + 6] as usize;
        if 8 + name_len > rec_len || rec_len > n - o {
            return Err(FsError::InvalidFs);
        }
        let ino = read_u32(b, o);
        if ino != 0 && name_is(b, o, name) {
            return Ok(Some(o));
        }
        o = o + rec_len;
    }
    Ok(None)
}

/// `b1` is `b0` with the record at `o` taken out: the record before it, if
/// any, grows over it; a first record is marked unused instead.
pub open spec fn removed(b0: Seq<u8>, b1: Seq<u8>, o: int) -> bool {
    match prev_of(b0, 0, None, o) {
        Some(p) => {
            &&& d_rec_len(b1, p) == d_rec_len(b0, p) + d_rec_len(b0, o)
            &&& same_outside(b0, b1, p + 4, 2)
        },
        None => {
            &&& d_inode(b1, o) == 0
            &&& same_outside(b0, b1, o, 4)
        },
    }
}

/// Removes the record in use named `name` from the directory block `b` and
/// gives its inode: the record before it, if any, grows over it; a first
/// record is marked unused instead.
pub fn remove_in_block(b: &mut Vec<u8>, name: &[u8]) -> (r: Result<Option<InodeNumber>, FsError>)
    requires
        old(b)@.len() <= 0xffff,
    ensures
        final(b)@.len() == old(b)@.len(),
        match find_from(old(b)@, 0, name@) {
            Err(()) => r == Err::<Option<InodeNumber>, FsError>(FsError::InvalidFs) && final(b)@ == old(b)@,
            Ok(None) => r == Ok::<Option<InodeNumber>, FsError>(None) && final(b)@ == old(b)@,
            Ok(Some(o)) => {
                &&& r == Ok::<Option<InodeNumber>, FsError>(Some(InodeNumber(d_inode(old(b)@, o) as u32)))
                &&& removed(old(b)@, final(b)@, o)
            },
        },
{
    let n = b.len();
    let mut o: usize = 0;
    let mut prev: Option<usize> = None;
    while o < n
        invariant
            n == b@.len(),
            n <= 0xffff,
            b@ == old(b)@,
            o <= n,
            find_from(b@, 0, name@) == find_from(b@, o as int, name@),
            forall|t: int| o <= t ==> #[trigger] prev_of(b@, 0, None, t) == prev_of(b@, o as int, match prev { Some(p) => Some(p as int), None => None::<int> }, t),
            prev matches Some(p) ==> rec_ok(b@, p as int) && p + d_rec_len(b@, p as int) == o,
        decreases n - o,
    {
        if n - o < 8 {
            return Err(FsError::InvalidFs);
        }
        let rec_len = read_u16(b, o + 4) as usize;
        let name_len = b[o + 6] as usize;
        if 8 + name_len > rec_len || rec_len > n - o {
            return Err(FsError::InvalidFs);
        }
        let ino = read_u32(b, o);
        if ino != 0 && name_is(b, o, name) {
            proof {
                assert(prev_of(b@, o as int, match prev { Some(p) => Some(p as int), None => None::<int> }, o as int) == match prev { Some(p) => Some(p as int), None => None::<int> });
            }
            match prev {
                Some(p) => {
                    let pl = read_u16(b, p + 4);
                    proof {
                        assert(pl == d_rec_len(b@, p as int));
                        assert(pl + rec_len <= n);
                    }
                    write_u16(b, p + 4, pl + rec_len as u16);
                },
                None => {
                    write_u32(b, o, 0);
                },
            }
            return Ok(Some(InodeNumber(ino)));
        }
        proof {
            assert forall|t: int| o + rec_len <= t implies #[trigger] prev_of(b@, 0, None, t) == prev_of(b@, (o + rec_len) as int, Some(o as int), t) by {
                assert(prev_of(b@, o as int, match prev { Some(p) => Some(p as int), None => None::<int> }, t) == prev_of(b@, (o + rec_len) as int, Some(o as int), t));
            }
        }
        prev = Some(o);
        o = o + rec_len;
    }
    Ok(None)
}

/// The space a record with a name of `n` bytes takes: its header and name,
/// rounded up to four bytes.
pub open spec fn rec_size(n: nat) -> nat {
    ((8 + n + 3) / 4 * 4) as nat
}

/// The first record from `o` on that can take a record of `need` bytes: an
/// unused record at least that long, or a record with that much room after
/// its own name; an error at the first record that is not whole before it.
pub open spec fn slot_from(b: Seq<u8>, o: int, need: nat) -> Result<Option<int>, ()>
    decreases b.len() - o,
{
    if o < 0 || o >= b.len() {
        Ok(None)
    } else if !rec_ok(b, o) {
        Err(())
    } else if (d_inode(b, o) == 0 && d_rec_len(b, o) >= need) || (d_inode(b, o) != 0 && d_rec_len(b, o)
        >= rec_size(d_name_len(b, o)) + need) {
        Ok(Some(o))
    } else {
        slot_from(b, o + d_rec_len(b, o), need)
    }
}

/// The record at `q` of `b` is in use by `child`, `len` bytes long, with
/// the name `name` and the type byte `t`.
pub open spec fn record_is(b: Seq<u8>, q: int, child: InodeNumber, len: nat, name: Seq<u8>, t: u8) -> bool {
    &&& q + 8 + name.len() <= b.len()
    &&& d_inode(b, q) == child.0
    &&& d_rec_len(b, q) == len
    &&& d_name_len(b, q) == name.len()
    &&& b[q + 7] == t
    &&& d_name(b, q) == name
}

/// Writes a record at `q`: its inode, length, name length, type and name.
fn write_record(b: &mut Vec<u8>, q: usize, child: InodeNumber, len: u16, name: &[u8], t: u8)
    requires
        q + 8 + name@.len() <= old(b)@.len(),
        name@.len() <= 255,
    ensures
        final(b)@.len() == old(b)@.len(),
        record_is(final(b)@, q as int, child, len as nat, name@, t),
        same_outside(old(b)@, final(b)@, q as int, 8 + name@.len() as int),
{
    let ghost b0 = b@;
    let _l: usize = b.len();
    write_u32(b, q, child.0);
    write_u16(b, q + 4, len);
    b.set(q + 6, name.len() as u8);
    b.set(q + 7, t);
    let ghost h = b@;
    let mut i: usize = 0;
    while i < name.len()
        invariant
            q + 8 + name@.len() <= b@.len(),
            b@.len() == h.len(),
            _l == b@.len(),
            i <= name@.len(),
            forall|k: int| 0 <= k < q + 8 ==> #[trigger] b@[k] == h[k],
            forall|k: int| q + 8 + name@.len() <= k < b@.len() ==> #[trigger] b@[k] == h[k],
            forall|k: int| 0 <= k < i ==> #[trigger] b@[q + 8 + k] == name@[k],
        decreases name@.len() - i,
    {
        b.set(q + 8 + i, name[i]);
        i = i + 1;
    }
    proof {
        assert(le32(b@, q as int) == le32(h, q as int)) by {
            assert(b@[q as int] == h[q as int] && b@[q + 1] == h[q + 1] && b@[q + 2] == h[q + 2] && b@[q + 3] == h[q + 3]);
        }
        assert(le16(b@, q + 4) == le16(h, q + 4)) by {
            assert(b@[q + 4] == h[q + 4] && b@[q + 5] == h[q + 5]);
        }
        assert(b@[q + 6] == h[q + 6]);
        assert(b@[q + 7] == h[q + 7]);
        assert forall|k: int| 0 <= k < name@.len() implies #[trigger] d_name(b@, q as int)[k] == name@[k] by {
            assert(b@[q + 8 + k] == name@[k]);
        }
        assert(d_name(b@, q as int) =~= name@);
        assert forall|k: int| 0 <= k < b0.len() && !(q <= k < q + 8 + name@.len()) implies #[trigger] b@[k] == b0[k] by {
            assert(b@[k] == h[k]);
        }
    }
}

/// `b1` is `b0` with a record for `name` put in the record at `o`: an unused
/// record is taken whole, a record in use is cut after its own name and the
/// new record takes the rest.
pub open spec fn inserted(b0: Seq<u8>, b1: Seq<u8>, o: int, name: Seq<u8>, t: FileType, child: InodeNumber) -> bool {
    if d_inode(b0, o) == 0 {
        &&& record_is(b1, o, child, d_rec_len(b0, o), name, type_byte(t))
        &&& same_outside(b0, b1, o, 8 + name.len() as int)
    } else {
        let used = rec_size(d_name_len(b0, o));
        &&& d_rec_len(b1, o) == used
        &&& record_is(b1, o + used, child, (d_rec_len(b0, o) - used) as nat, name, type_byte(t))
        &&& b1.len() == b0.len()
        &&& forall|k: int|
            0 <= k < b0.len() && !(o + 4 <= k < o + 6) && !(o + used <= k < o + used + 8 + name.len())
                ==> #[trigger] b1[k] == b0[k]
    }
}

/// Puts a record for `name`, of type `t` and inode `child`, in the directory
/// block `b`, in the first record that has room: an unused record is taken
/// whole, a record in use is cut after its own name. Gives whether the
/// block had room.
pub fn insert_in_block(b: &mut Vec<u8>, name: &[u8], t: FileType, child: InodeNumber) -> (r: Result<bool, FsError>)
    requires
        old(b)@.len() <= 0xffff,
    ensures
        final(b)@.len() == old(b)@.len(),
        name@.len() > 255 ==> r == Err::<bool, FsError>(FsError::NameTooLong) && final(b)@ == old(b)@,
        name@.len() <= 255 ==> match slot_from(old(b)@, 0, rec_size(name@.len())) {
            Err(()) => r == Err::<bool, FsError>(FsError::InvalidFs) && final(b)@ == old(b)@,
            Ok(None) => r == Ok::<bool, FsError>(false) && final(b)@ == old(b)@,
            Ok(Some(o)) => r == Ok::<bool, FsError>(true) && inserted(old(b)@, final(b)@, o, name@, t, child),
        },
{
    if name.len() > 255 {
        return Err(FsError::NameTooLong);
    }
    let need: usize = (8 + name.len() + 3) / 4 * 4;
    let n = b.len();
    let tb = encode_file_type(t);
    let mut o: usize = 0;
    while o < n
        invariant
            n == b@.len(),
            n <= 0xffff,
            b@ == old(b)@,
            o <= n,
            need == rec_size(name@.len()),
            name@.len() <= 255,
            tb == type_byte(t),
            slot_from(b@, 0, need as nat) == slot_from(b@, o as int, need as nat),
        decreases n - o,
    {
        if n - o < 8 {
            return Err(FsError::InvalidFs);
        }
        let rec_len = read_u16(b, o + 4) as usize;
        let name_len = b[o + 6] as usize;
        if 8 + name_len > rec_len || rec_len > n - o {
            return Err(FsError::InvalidFs);
        }
        let ino = read_u32(b, o);
        let used: usize = (8 + name_len + 3) / 4 * 4;
        if ino == 0 && rec_len >= need {
            write_record(b, o, child, rec_len as u16, name, tb);
            return Ok(true);
        }
        if ino != 0 && rec_len >= used + need {
            let ghost b0 = b@;
            write_u16(b, o + 4, used as u16);
            let ghost b1 = b@;
            write_record(b, o + used, child, (rec_len - used) as u16, name, tb);
            proof {
                assert(le16(b@, o + 4) == le16(b1, o + 4)) by {
                    assert(b@[o + 4] == b1[o + 4] && b@[o + 5] == b1[o + 5]);
                }
            }
            return Ok(true);
        }
        o = o + rec_len;
    }
    Ok(false)
}

/// A directory block with no record in use: one unused record spans it.
pub fn cleared_block(len: usize) -> (r: Vec<u8>)
    requires
        8 <= len <= 0xffff,
    ensures
        r@.len() == len,
        d_inode(r@, 0) == 0,
        d_rec_len(r@, 0) == len,
        d_name_len(r@, 0) == 0,
        rec_ok(r@, 0),
{
    let mut r = crate::bytes::zeroed(len);
    write_u16(&mut r, 4, len as u16);
    proof {
        assert(r@[0] == 0 && r@[1] == 0 && r@[2] == 0 && r@[3] == 0 && r@[6] == 0);
    }
    r
}


/// Where `slot_from` finds room lies at or after where it starts.
proof fn lemma_slot_ge(b: Seq<u8>, p: int, need: nat)
    ensures
        slot_from(b, p, need) matches Ok(Some(o)) ==> p <= o && rec_ok(b, o),
    decreases b.len() - p,
{
    if 0 <= p < b.len() && rec_ok(b, p) && !((d_inode(b, p) == 0 && d_rec_len(b, p) >= need) || (d_inode(b, p) != 0
        && d_rec_len(b, p) >= rec_size(d_name_len(b, p)) + need)) {
        lemma_slot_ge(b, p + d_rec_len(b, p), need);
    }
}

/// The bytes at and past `q` decide what `find_from` finds from `q` on.
proof fn lemma_find_frame(b0: Seq<u8>, b1: Seq<u8>, q: int, name: Seq<u8>)
    requires
        b0.len() == b1.len(),
        forall|i: int| q <= i < b0.len() ==> #[trigger] b1[i] == b0[i],
    ensures
        find_from(b1, q, name) == find_from(b0, q, name),
    decreases b0.len() - q,
{
    if 0 <= q < b0.len() && q + 8 <= b0.len() {
        assert(b1[q] == b0[q] && b1[q + 1] == b0[q + 1] && b1[q + 2] == b0[q + 2] && b1[q + 3] == b0[q + 3]);
        assert(b1[q + 4] == b0[q + 4] && b1[q + 5] == b0[q + 5] && b1[q + 6] == b0[q + 6]);
        if rec_ok(b0, q) {
            assert(d_name(b1, q) =~= d_name(b0, q));
            lemma_find_frame(b0, b1, q + d_rec_len(b0, q), name);
        }
    }
}

/// A record whose bytes are the same in both blocks reads the same.
proof fn lemma_same_record(b0: Seq<u8>, b1: Seq<u8>, p: int)
    requires
        b0.len() == b1.len(),
        rec_ok(b0, p),
        forall|i: int| p <= i < p + d_rec_len(b0, p) ==> #[trigger] b1[i] == b0[i],
    ensures
        rec_ok(b1, p),
        d_inode(b1, p) == d_inode(b0, p),
        d_rec_len(b1, p) == d_rec_len(b0, p),
        d_name(b1, p) == d_name(b0, p),
{
    assert(b1[p] == b0[p] && b1[p + 1] == b0[p + 1] && b1[p + 2] == b0[p + 2] && b1[p + 3] == b0[p + 3]);
    assert(b1[p + 4] == b0[p + 4] && b1[p + 5] == b0[p + 5] && b1[p + 6] == b0[p + 6]);
    assert(d_name(b1, p) =~= d_name(b0, p));
}

/// Walking from `p` up to the record `o` where a record was put.
proof fn lemma_insert_walk(b0: Seq<u8>, b1: Seq<u8>, p: int, o: int, name: Seq<u8>, t: FileType, child: InodeNumber)
    requires
        0 <= p <= o,
        name.len() <= 255,
        child.0 != 0,
        slot_from(b0, p, rec_size(name.len())) == Ok::<Option<int>, ()>(Some(o)),
        find_from(b0, p, name) == Ok::<Option<int>, ()>(None),
        inserted(b0, b1, o, name, t, child),
    ensures
        find_from(b1, p, name) matches Ok(Some(q)) && record_is(b1, q, child, d_rec_len(b1, q), name, type_byte(t)),
    decreases o - p,
{
    let need = rec_size(name.len());
    assert(b1.len() == b0.len());
    assert(need >= 8 + name.len());
    if p == o {
        assert(rec_ok(b0, o));
        lemma_slot_ge(b0, o + d_rec_len(b0, o), need);
        if d_inode(b0, o) == 0 {
            assert(d_rec_len(b0, o) >= need);
            assert(rec_ok(b1, o));
            assert(find_from(b1, o, name) == Ok::<Option<int>, ()>(Some(o)));
        } else {
            let used = rec_size(d_name_len(b0, o));
            assert(forall|i: int| o <= i < o + 4 ==> #[trigger] b1[i] == b0[i]);
            assert(b1[o + 6] == b0[o + 6]);
            assert(d_name(b1, o) =~= d_name(b0, o)) by {
                assert forall|i: int| o + 8 <= i < o + 8 + d_name_len(b0, o) implies #[trigger] b1[i] == b0[i] by {}
            }
            assert(b1[o] == b0[o] && b1[o + 1] == b0[o + 1] && b1[o + 2] == b0[o + 2] && b1[o + 3] == b0[o + 3]);
            assert(d_inode(b1, o) == d_inode(b0, o));
            assert(d_rec_len(b0, o) >= used + need);
            assert(rec_ok(b1, o));
            assert(rec_ok(b1, o + used));
            assert(d_name(b0, o) != name);
            assert(find_from(b1, o + used, name) == Ok::<Option<int>, ()>(Some(o + used)));
            assert(find_from(b1, o, name) == find_from(b1, o + used, name));
        }
    } else {
        let len = d_rec_len(b0, p);
        lemma_slot_ge(b0, p + len, need);
        assert forall|i: int| p <= i < p + len implies #[trigger] b1[i] == b0[i] by {
            if d_inode(b0, o) != 0 {
                assert(rec_size(d_name_len(b0, o)) >= 8);
            }
        }
        lemma_same_record(b0, b1, p);
        assert(find_from(b0, p + len, name) == Ok::<Option<int>, ()>(None));
        assert(find_from(b1, p, name) == find_from(b1, p + len, name));
        lemma_insert_walk(b0, b1, p + len, o, name, t, child);
    }
}

/// A record put in a block that had no record in use named `name` is what
/// a lookup of `name` finds afterwards: its inode and its type.
pub proof fn lemma_insert_then_find(b0: Seq<u8>, b1: Seq<u8>, name: Seq<u8>, t: FileType, child: InodeNumber)
    requires
        name.len() <= 255,
        child.0 != 0,
        find_from(b0, 0, name) == Ok::<Option<int>, ()>(None),
        slot_from(b0, 0, rec_size(name.len())) matches Ok(Some(o)) && inserted(b0, b1, o, name, t, child),
    ensures
        find_from(b1, 0, name) matches Ok(Some(q)) && d_inode(b1, q) == child.0 && file_type_of(b1[q + 7])
            == file_type_of(type_byte(t)),
{
    let o = slot_from(b0, 0, rec_size(name.len()))->Ok_0->0;
    lemma_slot_ge(b0, 0, rec_size(name.len()));
    lemma_insert_walk(b0, b1, 0, o, name, t, child);
}

/// The record before the record `o` that `find_from` reaches from `q` lies
/// at or after `q`, and ends where `o` starts.
proof fn lemma_prev_walk(b: Seq<u8>, q: int, pv: Option<int>, o: int, name: Seq<u8>)
    requires
        0 <= q < o,
        find_from(b, q, name) == Ok::<Option<int>, ()>(Some(o)),
    ensures
        prev_of(b, q, pv, o) matches Some(x) && q <= x < o && rec_ok(b, x) && x + d_rec_len(b, x) == o
            && find_from(b, x, name) == Ok::<Option<int>, ()>(Some(o)),
    decreases o - q,
{
    let len = d_rec_len(b, q);
    assert(rec_ok(b, q));
    assert(find_from(b, q + len, name) == Ok::<Option<int>, ()>(Some(o)));
    assert(prev_of(b, q, pv, o) == prev_of(b, q + len, Some(q), o));
    lemma_found_ge(b, q + len, name);
    if q + len < o {
        lemma_prev_walk(b, q + len, Some(q), o, name);
    } else {
        assert(prev_of(b, q + len, Some(q), o) == Some(q));
    }
}

/// What `find_from` finds lies at or after where it starts.
proof fn lemma_found_ge(b: Seq<u8>, q: int, name: Seq<u8>)
    ensures
        find_from(b, q, name) matches Ok(Some(x)) ==> q <= x && rec_ok(b, x) && d_inode(b, x) != 0 && d_name(b, x)
            == name,
    decreases b.len() - q,
{
    if 0 <= q < b.len() && rec_ok(b, q) && !(d_inode(b, q) != 0 && d_name(b, q) == name) {
        lemma_found_ge(b, q + d_rec_len(b, q), name);
    }
}

/// Walking from `p` up to the record `x` that grew over the removed one.
proof fn lemma_remove_walk(b0: Seq<u8>, b1: Seq<u8>, p: int, x: int, o: int, name: Seq<u8>)
    requires
        0 <= p <= x < o,
        rec_ok(b0, x),
        x + d_rec_len(b0, x) == o,
        find_from(b0, p, name) == Ok::<Option<int>, ()>(Some(o)),
        find_from(b0, x, name) == Ok::<Option<int>, ()>(Some(o)),
        rec_ok(b0, o),
        find_from(b0, o + d_rec_len(b0, o), name) == Ok::<Option<int>, ()>(None),
        d_rec_len(b1, x) == d_rec_len(b0, x) + d_rec_len(b0, o),
        same_outside(b0, b1, x + 4, 2),
        prev_of(b0, p, None, o) == Some(x) || p == x,
    ensures
        find_from(b1, p, name) == Ok::<Option<int>, ()>(None),
    decreases x - p,
{
    if p == x {
        assert(b1[x] == b0[x] && b1[x + 1] == b0[x + 1] && b1[x + 2] == b0[x + 2] && b1[x + 3] == b0[x + 3]);
        assert(b1[x + 6] == b0[x + 6]);
        assert(d_name(b1, x) =~= d_name(b0, x));
        assert(rec_ok(b1, x));
        lemma_find_frame(b0, b1, o + d_rec_len(b0, o), name);
    } else {
        let len = d_rec_len(b0, p);
        lemma_found_ge(b0, p, name);
        assert(p != o);
        lemma_prev_walk(b0, p, None, o, name);
        if p + len < o {
            lemma_prev_walk(b0, p + len, Some(p), o, name);
        }
        assert(p + len <= x);
        lemma_same_record(b0, b1, p);
        lemma_remove_walk(b0, b1, p + len, x, o, name);
    }
}

/// Once the only record in use named `name` is removed from a block, a
/// lookup of `name` finds nothing.
pub proof fn lemma_remove_then_find(b0: Seq<u8>, b1: Seq<u8>, name: Seq<u8>)
    requires
        find_from(b0, 0, name) matches Ok(Some(o)) && find_from(b0, o + d_rec_len(b0, o), name) == Ok::<
            Option<int>,
            (),
        >(None) && removed(b0, b1, o),
    ensures
        find_from(b1, 0, name) == Ok::<Option<int>, ()>(None),
{
    let o = find_from(b0, 0, name)->Ok_0->0;
    lemma_found_ge(b0, 0, name);
    if o == 0 {
        assert(prev_of(b0, 0, None, 0) == None::<int>);
        assert(b1[4] == b0[4] && b1[5] == b0[5] && b1[6] == b0[6]);
        assert(d_name(b1, 0) =~= d_name(b0, 0));
        assert(rec_ok(b1, 0));
        lemma_find_frame(b0, b1, d_rec_len(b0, 0) as int, name);
    } else {
        lemma_prev_walk(b0, 0, None, o, name);
        let x = prev_of(b0, 0, None, o)->0;
        lemma_remove_walk(b0, b1, 0, x, o, name);
    }
}


/// A record of a directory as a listing gives it: its name, its inode and
/// its file type (`Unknown` when the type byte names none).
pub struct DirEntry {
    pub name: Vec<u8>,
    pub ino: InodeNumber,
    pub ty: FileType,
}

/// The file type a listing gives for the type byte `t`.
pub open spec fn listed_type(t: u8) -> FileType {
    match file_type_of(t) {
        Some(ft) => ft,
        None => FileType::Unknown,
    }
}

/// `e` is the record at `q` of `b`.
pub open spec fn entry_is(e: DirEntry, b: Seq<u8>, q: int) -> bool {
    &&& e.name@ == d_name(b, q)
    &&& e.ino.0 == d_inode(b, q)
    &&& e.ty == listed_type(b[q + 7])
}

/// Walks the records of `b` from `q` while they start at or before `off`,
/// the last of them being `pen`; the first record past `off` is passed
/// over. Gives the last record reached and where the walk goes on, or an
/// error at a record that is not whole before `off`. A record past `off`
/// that is not whole ends the walk.
pub open spec fn scan(b: Seq<u8>, q: int, off: int, pen: Option<int>) -> Result<(Option<int>, int), ()>
    decreases b.len() - q,
{
    if q < 0 || q >= b.len() {
        Ok((pen, b.len() as int))
    } else if q <= off {
        if !rec_ok(b, q) {
            Err(())
        } else {
            scan(b, q + d_rec_len(b, q), off, Some(q))
        }
    } else if !rec_ok(b, q) {
        Ok((pen, b.len() as int))
    } else {
        Ok((pen, q + d_rec_len(b, q)))
    }
}

/// The whole records of `b` from `q` on, up to the first that is not whole.
pub open spec fn tail(b: Seq<u8>, q: int) -> Seq<int>
    decreases b.len() - q,
{
    if q < 0 || q >= b.len() || !rec_ok(b, q) {
        Seq::empty()
    } else {
        seq![q] + tail(b, q + d_rec_len(b, q))
    }
}

/// Whether the records of `b` from `q` on end at one that is not whole.
pub open spec fn tail_broken(b: Seq<u8>, q: int) -> bool
    decreases b.len() - q,
{
    if q < 0 || q >= b.len() {
        false
    } else if !rec_ok(b, q) {
        true
    } else {
        tail_broken(b, q + d_rec_len(b, q))
    }
}

/// The record at `o` as a listing gives it.
fn entry_at(b: &Vec<u8>, o: usize) -> (r: DirEntry)
    requires
        rec_ok(b@, o as int),
    ensures
        entry_is(r, b@, o as int),
{
    let _n: usize = b.len();
    let n = b[o + 6] as usize;
    let name = crate::bytes::copy_range(b, o + 8, n);
    let ino = read_u32(b, o);
    let ty = match decode_file_type(b[o + 7]) {
        Some(t) => t,
        None => FileType::Unknown,
    };
    DirEntry { name, ino: InodeNumber(ino), ty }
}

/// The records a listing from byte `offset` of block `b` gives: the last
/// record that starts at or before `offset`, then the records after the one
/// that follows it. Also gives where that last record ends, and whether the
/// records given stop at one that is not whole.
pub fn block_entries(b: &Vec<u8>, offset: usize) -> (r: Result<(Vec<DirEntry>, usize, bool), FsError>)
    ensures
        match scan(b@, 0, offset as int, None) {
            Err(()) => r == Err::<(Vec<DirEntry>, usize, bool), FsError>(FsError::InvalidFs),
            Ok((None, _)) => r matches Ok((v, _, broken)) && v@.len() == 0 && !broken,
            Ok((Some(p), resume)) => r matches Ok((v, end, broken)) && {
                let t = tail(b@, resume);
                &&& end == p + d_rec_len(b@, p)
                &&& broken == tail_broken(b@, resume)
                &&& v@.len() == 1 + t.len()
                &&& entry_is(v@[0], b@, p)
                &&& forall|i: int| 0 <= i < t.len() ==> #[trigger] entry_is(v@[i + 1], b@, t[i])
            },
        },
{
    let n = b.len();
    let mut q: usize = 0;
    let mut pen: Option<usize> = None;
    while q < n && q <= offset
        invariant
            n == b@.len(),
            q <= n,
            scan(b@, 0, offset as int, None) == scan(b@, q as int, offset as int, match pen {
                Some(x) => Some(x as int),
                None => None::<int>,
            }),
            pen matches Some(x) ==> rec_ok(b@, x as int) && x + d_rec_len(b@, x as int) == q,
        decreases n - q,
    {
        if n - q < 8 {
            return Err(FsError::InvalidFs);
        }
        let rec_len = read_u16(b, q + 4) as usize;
        let name_len = b[q + 6] as usize;
        if 8 + name_len > rec_len || rec_len > n - q {
            return Err(FsError::InvalidFs);
        }
        pen = Some(q);
        q = q + rec_len;
    }
    let resume: usize = if q < n {
        if n - q < 8 {
            n
        } else {
            let rec_len = read_u16(b, q + 4) as usize;
            let name_len = b[q + 6] as usize;
            if 8 + name_len > rec_len || rec_len > n - q {
                n
            } else {
                q + rec_len
            }
        }
    } else {
        n
    };
    let p = match pen {
        Some(p) => p,
        None => {
            return Ok((Vec::new(), 0, false));
        },
    };
    let mut v: Vec<DirEntry> = Vec::new();
    v.push(entry_at(b, p));
    let ghost t = tail(b@, resume as int);
    proof {
        assert(t.subrange(0, t.len() as int) =~= t);
    }
    let mut r = resume;
    let mut broken = false;
    while r < n && !broken
        invariant
            n == b@.len(),
            resume <= r <= n,
            t == tail(b@, resume as int),
            rec_ok(b@, p as int),
            1 <= v@.len() <= t.len() + 1,
            entry_is(v@[0], b@, p as int),
            !broken ==> t.subrange(v@.len() - 1, t.len() as int) == tail(b@, r as int),
            !broken ==> tail_broken(b@, resume as int) == tail_broken(b@, r as int),
            broken ==> v@.len() == t.len() + 1 && tail_broken(b@, resume as int),
            forall|i: int| 0 <= i < v@.len() - 1 ==> #[trigger] entry_is(v@[i + 1], b@, t[i]),
        decreases n - r + if broken { 0int } else { 1int },
    {
        let ghost k = v@.len() - 1;
        if n - r < 8 {
            broken = true;
        } else {
            let rec_len = read_u16(b, r + 4) as usize;
            let name_len = b[r + 6] as usize;
            if 8 + name_len > rec_len || rec_len > n - r {
                broken = true;
            } else {
                proof {
                    let rest = tail(b@, r + rec_len);
                    assert(tail(b@, r as int) == seq![r as int] + rest);
                    let sub = t.subrange(k, t.len() as int);
                    assert(sub == seq![r as int] + rest);
                    assert(sub.len() == 1 + rest.len());
                    assert(k < t.len());
                    assert(sub[0] == r);
                    assert(t[k] == sub[0]);
                    assert forall|i: int| 0 <= i < rest.len() implies #[trigger] t.subrange(k + 1, t.len() as int)[i] == rest[i] by {
                        assert(sub[i + 1] == rest[i]);
                    }
                    assert(t.subrange(k + 1, t.len() as int) =~= rest);
                }
                v.push(entry_at(b, r));
                r = r + rec_len;
            }
        }
    }
    proof {
        if !broken {
            assert(tail(b@, r as int) =~= Seq::<int>::empty());
        }
    }
    Ok((v, p + read_u16(b, p + 4) as usize, broken))
}

} // verus!
