use vstd::prelude::*;

verus! {

/// The identifier of a block group.
#[derive(Clone, Copy, Debug, PartialEq, Eq, Structural)]
pub struct BlockGroupId(pub u32);

/// The number of an inode (1-based, as on disk).
#[derive(Clone, Copy, Debug, PartialEq, Eq, Structural)]
pub struct InodeNumber(pub u32);

/// The address of a block on the device.
#[derive(Clone, Copy, Debug, PartialEq, Eq, Structural)]
pub struct LogicalBlockNumber(pub u64);

/// The index of a block inside a file.
#[derive(Clone, Copy, Debug, PartialEq, Eq, Structural)]
pub struct FileBlockNumber(pub u32);

/// The type of a file system object.
#[derive(Clone, Copy, Debug, PartialEq, Eq, Structural)]
pub enum FileType {
    RegularFile,
    Directory,
    CharacterDevice,
    BlockDevice,
    Fifo,
    Socket,
    SymbolicLink,
    Unknown,
}

/// The errors of the file system.
#[derive(Clone, Copy, Debug, PartialEq, Eq, Structural)]
pub enum FsError {
    NoEntry,
    InvalidFs,
    FsFull,
    IoError,
    NotDirectory,
    NameTooLong,
}

/// The lock could not be acquired at this time because the operation would
/// otherwise block.
#[derive(Clone, Copy, Debug, PartialEq, Eq, Structural)]
pub struct WouldBlock;

/// `2^n` as a natural number.
pub open spec fn exp2(n: nat) -> nat
    decreases n,
{
    if n == 0 {
        1
    } else {
        2 * exp2((n - 1) as nat)
    }
}

pub proof fn lemma_exp2_pos(n: nat)
    ensures
        exp2(n) >= 1,
    decreases n,
{
    if n > 0 {
        lemma_exp2_pos((n - 1) as nat);
    }
}

pub proof fn lemma_exp2_monotone(a: nat, b: nat)
    requires
        a <= b,
    ensures
        exp2(a) <= exp2(b),
    decreases b,
{
    if a < b {
        lemma_exp2_monotone(a, (b - 1) as nat);
        lemma_exp2_pos((b - 1) as nat);
    }
}

/// Computes `2^n`.
pub fn exp2_usize(n: usize) -> (r: usize)
    requires
        exp2(n as nat) <= usize::MAX,
    ensures
        r == exp2(n as nat),
{
    let mut r: usize = 1;
    let mut i: usize = 0;
    while i < n
        invariant
            i <= n,
            r == exp2(i as nat),
            exp2(n as nat) <= usize::MAX,
        decreases n - i,
    {
        proof {
            lemma_exp2_monotone((i + 1) as nat, n as nat);
        }
        r = r * 2;
        i = i + 1;
    }
    r
}

} // verus!
