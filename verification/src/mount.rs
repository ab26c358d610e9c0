//! Opening a file system from its device.
use vstd::prelude::*;
use crate::filesystem::{Config, FileSystem};
use crate::superblock::{SuperBlock, SB_SIZE, raw_sb_valid};
use crate::types::FsError;

verus! {

/// A mounted file system, by its block size.
pub enum FsBlkSizeDispatch<C: Config> {
    Blk1024(FileSystem<C>),
    Blk2048(FileSystem<C>),
    Blk4096(FileSystem<C>),
}

impl<C: Config> FsBlkSizeDispatch<C> {
    /// The file system.
    pub open spec fn fs(&self) -> FileSystem<C> {
        match self {
            FsBlkSizeDispatch::Blk1024(f) => *f,
            FsBlkSizeDispatch::Blk2048(f) => *f,
            FsBlkSizeDispatch::Blk4096(f) => *f,
        }
    }
}

/// The byte offset of the superblock on the device.
pub const SB_OFFSET: usize = 1024;

/// Opens the file system on `conf`: reads the superblock at byte 1024,
/// checks it, and reads the block group descriptors.
pub fn open_fs<C: Config>(conf: C) -> (r: Result<FsBlkSizeDispatch<C>, FsError>)
    ensures
        r matches Ok(d) ==> {
            &&& d.fs().wf()
            &&& d.fs().blocks.conf == conf
            &&& (d is Blk1024 <==> d.fs().sb.block_size == 1024)
            &&& (d is Blk2048 <==> d.fs().sb.block_size == 2048)
            &&& (d is Blk4096 <==> d.fs().sb.block_size == 4096)
            &&& exists|raw: Seq<u8>| raw_sb_valid(raw) && #[trigger] d.fs().sb.matches_raw(raw)
        },
{
    let raw = match conf.read_bytes(SB_OFFSET, SB_SIZE) {
        Ok(raw) => raw,
        Err(e) => {
            return Err(e);
        },
    };
    let ghost raw_bytes = raw@;
    let sb = match SuperBlock::from_raw(raw) {
        Ok(sb) => sb,
        Err(e) => {
            return Err(e);
        },
    };
    let bs = sb.block_size;
    let fs = FileSystem::new(conf, sb);
    proof {
        assert(fs.sb.matches_raw(raw_bytes));
    }
    if bs == 1024 {
        Ok(FsBlkSizeDispatch::Blk1024(fs))
    } else if bs == 2048 {
        Ok(FsBlkSizeDispatch::Blk2048(fs))
    } else {
        Ok(FsBlkSizeDispatch::Blk4096(fs))
    }
}

} // verus!
