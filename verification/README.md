# ext4_core

A verified core of an ext4 file system, written with Verus: the functions in
`src/` carry contracts that the verifier proves, except for a few small
wrappers marked `external_body` (around `hashbrown::HashMap` in `writeback`
and `BTreeSet::first` in `buddy`), whose contracts are trusted as written in
their doc comments.

- `types`, `bytes`, `crc`: identifiers, little-endian fields, crc16/crc32c.
- `superblock`, `block_group`: the on-disk superblock and group descriptors.
- `buddy`, `block_alloc`, `bitmap`, `inode_alloc`, `filesystem`: free space,
  block and inode allocation, the mounted file system.
- `extent`, `path`, `path_insert`, `path_truncate`: extent nodes and the paths
  through an inode's extent tree, with insertion and truncation.
- `transaction`, `blockmap`, `writeback`: the events a change records and how
  they are folded into the blocks it writes.
- `dirblock`, `directory`, `symlink`, `mount`: directory blocks and linear
  directories, inline symbolic links, opening a device.

`tests/` runs the library on byte images held in memory. `app/` is a small
command-line program around it: it opens an image file and offers a shell,
and it holds the locks and caches that share a file system between threads.
