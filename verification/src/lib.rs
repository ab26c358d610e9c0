//! A verified core of an ext4 file system: block and inode allocation,
//! extent trees, directory blocks and the on-disk metadata formats.

pub mod types;
pub mod buddy;
pub mod bitmap;
pub mod bytes;
pub mod superblock;
pub mod crc;
pub mod blockmap;
pub mod transaction;
pub mod block_group;
pub mod block_alloc;
pub mod inode_alloc;
pub mod filesystem;
pub mod extent;
pub mod path;
pub mod path_insert;
pub mod path_truncate;
pub mod writeback;
pub mod symlink;
pub mod mount;
pub mod dirblock;
pub mod directory;
