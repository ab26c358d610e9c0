//! Symbolic links whose target is kept inline, in the inode's block map.
use vstd::prelude::*;
use crate::bytes::{le32, le_byte, write_u32, zeroed};
use crate::types::FsError;

verus! {

/// The 60 bytes of the block map `a`: each address little-endian.
pub open spec fn inline_bytes(a: Seq<u32>) -> Seq<u8> {
    Seq::new(60, |k: int| le_byte(a[k / 4], k % 4))
}

/// The block map of an inode that does not use an extent tree: fifteen
/// 32-bit block numbers, or 60 bytes of inline data.
pub struct Legacy {
    pub addresses: [u32; 15],
}

impl Legacy {
    /// The 60 bytes of the block map, each address little-endian.
    pub fn to_inline_data(&self) -> (r: Vec<u8>)
        ensures
            r@ == inline_bytes(self.addresses@),
            forall|i: int| 0 <= i < 15 ==> #[trigger] le32(r@, 4 * i) == self.addresses@[i],
    {
        let mut r = zeroed(60);
        let mut i: usize = 0;
        while i < 15
            invariant
                i <= 15,
                r@.len() == 60,
                forall|j: int| 0 <= j < i ==> #[trigger] le32(r@, 4 * j) == self.addresses@[j],
                forall|k: int| 0 <= k < 4 * i ==> #[trigger] r@[k] == inline_bytes(self.addresses@)[k],
            decreases 15 - i,
        {
            let ghost before = r@;
            write_u32(&mut r, 4 * i, self.addresses[i]);
            proof {
                assert forall|j: int| 0 <= j < i implies #[trigger] le32(r@, 4 * j) == self.addresses@[j] by {
                    assert(le32(before, 4 * j) == self.addresses@[j]);
                    assert(r@[4 * j] == before[4 * j]);
                    assert(r@[4 * j + 1] == before[4 * j + 1]);
                    assert(r@[4 * j + 2] == before[4 * j + 2]);
                    assert(r@[4 * j + 3] == before[4 * j + 3]);
                }
                assert forall|k: int| 0 <= k < 4 * (i + 1) implies #[trigger] r@[k] == inline_bytes(self.addresses@)[k] by {
                    if k >= 4 * i {
                        assert(r@[4 * i + (k - 4 * i)] == le_byte(self.addresses@[i as int], k - 4 * i));
                        assert(k / 4 == i);
                        assert(k % 4 == k - 4 * i);
                    } else {
                        assert(r@[k] == before[k]);
                    }
                }
            }
            i = i + 1;
        }
        proof {
            assert(r@ =~= inline_bytes(self.addresses@));
        }
        r
    }
}

/// A symbolic link: its size and the block map of its inode.
pub struct Symlink {
    pub size: u64,
    pub addresses: Legacy,
}

impl Symlink {
    /// The bytes of the link's target: the first `size` bytes of the inline
    /// data. A target that does not fit inline is not read here.
    pub fn readlink(&self) -> (r: Result<Vec<u8>, FsError>)
        ensures
            self.size <= 60 ==> (r matches Ok(v) && v@ == inline_bytes(self.addresses.addresses@).subrange(
                0,
                self.size as int,
            )),
            self.size > 60 ==> r == Err::<Vec<u8>, FsError>(FsError::InvalidFs),
    {
        if self.size > 60 {
            return Err(FsError::InvalidFs);
        }
        let data = self.addresses.to_inline_data();
        let n = self.size as usize;
        let v = crate::bytes::copy_range(&data, 0, n);
        Ok(v)
    }
}

} // verus!
