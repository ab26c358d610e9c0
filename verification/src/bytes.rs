//! Little-endian integers inside byte buffers.
use vstd::prelude::*;

verus! {

/// The little-endian `u16` at `o`.
pub open spec fn le16(b: Seq<u8>, o: int) -> nat {
    (b[o] + b[o + 1] * 256) as nat
}

/// The little-endian `u32` at `o`.
pub open spec fn le32(b: Seq<u8>, o: int) -> nat {
    le16(b, o) + le16(b, o + 2) * 65536
}

/// The little-endian `u64` at `o`.
pub open spec fn le64(b: Seq<u8>, o: int) -> nat {
    le32(b, o) + le32(b, o + 4) * 0x1_0000_0000
}

/// Byte `j` (0 to 3) of the little-endian bytes of `x`.
pub open spec fn le_byte(x: u32, j: int) -> u8 {
    if j == 0 {
        ((x % 65536) % 256) as u8
    } else if j == 1 {
        ((x % 65536) / 256) as u8
    } else if j == 2 {
        ((x / 65536) % 256) as u8
    } else {
        ((x / 65536) / 256) as u8
    }
}

/// `b` and `c` agree everywhere but on `[o, o + n)`.
pub open spec fn same_outside(b: Seq<u8>, c: Seq<u8>, o: int, n: int) -> bool {
    &&& b.len() == c.len()
    &&& forall|i: int| 0 <= i < b.len() && !(o <= i < o + n) ==> #[trigger] c[i] == b[i]
}

/// A little-endian `u16` field holds at most 16 bits.
pub proof fn lemma_le16_bound(b: Seq<u8>, o: int)
    requires
        0 <= o,
        o + 2 <= b.len(),
    ensures
        le16(b, o) <= 0xffff,
{
}

/// A little-endian `u32` field holds at most 32 bits.
pub proof fn lemma_le32_bound(b: Seq<u8>, o: int)
    requires
        0 <= o,
        o + 4 <= b.len(),
    ensures
        le32(b, o) <= 0xffff_ffff,
{
    lemma_le16_bound(b, o);
    lemma_le16_bound(b, o + 2);
}

/// Reads the little-endian `u16` at `o`.
pub fn read_u16(b: &Vec<u8>, o: usize) -> (r: u16)
    requires
        o + 2 <= b@.len(),
    ensures
        r == le16(b@, o as int),
{
    let _n: usize = b.len();
    b[o] as u16 + (b[o + 1] as u16) * 256
}

/// Reads the little-endian `u32` at `o`.
pub fn read_u32(b: &Vec<u8>, o: usize) -> (r: u32)
    requires
        o + 4 <= b@.len(),
    ensures
        r == le32(b@, o as int),
{
    let _n: usize = b.len();
    let lo = read_u16(b, o);
    let hi = read_u16(b, o + 2);
    lo as u32 + (hi as u32) * 65536
}

/// Reads the little-endian `u64` at `o`.
pub fn read_u64(b: &Vec<u8>, o: usize) -> (r: u64)
    requires
        o + 8 <= b@.len(),
    ensures
        r == le64(b@, o as int),
{
    let _n: usize = b.len();
    let lo = read_u32(b, o);
    let hi = read_u32(b, o + 4);
    lo as u64 + (hi as u64) * 0x1_0000_0000
}

/// Writes `v` as a little-endian `u16` at `o`.
pub fn write_u16(b: &mut Vec<u8>, o: usize, v: u16)
    requires
        o + 2 <= old(b)@.len(),
    ensures
        le16(final(b)@, o as int) == v,
        same_outside(old(b)@, final(b)@, o as int, 2),
{
    let _n: usize = b.len();
    b.set(o, (v % 256) as u8);
    b.set(o + 1, (v / 256) as u8);
}

/// Writes `v` as a little-endian `u32` at `o`.
pub fn write_u32(b: &mut Vec<u8>, o: usize, v: u32)
    requires
        o + 4 <= old(b)@.len(),
    ensures
        le32(final(b)@, o as int) == v,
        forall|j: int| 0 <= j < 4 ==> #[trigger] final(b)@[o + j] == le_byte(v, j),
        same_outside(old(b)@, final(b)@, o as int, 4),
{
    let _n: usize = b.len();
    write_u16(b, o, (v % 65536) as u16);
    write_u16(b, o + 2, (v / 65536) as u16);
}

/// Writes `v` as a little-endian `u64` at `o`.
pub fn write_u64(b: &mut Vec<u8>, o: usize, v: u64)
    requires
        o + 8 <= old(b)@.len(),
    ensures
        le64(final(b)@, o as int) == v,
        same_outside(old(b)@, final(b)@, o as int, 8),
{
    let _n: usize = b.len();
    write_u32(b, o, (v % 0x1_0000_0000) as u32);
    write_u32(b, o + 4, (v / 0x1_0000_0000) as u32);
}

/// Copies `[o, o + n)` of `b` into a new buffer.
pub fn copy_range(b: &Vec<u8>, o: usize, n: usize) -> (r: Vec<u8>)
    requires
        o + n <= b@.len(),
    ensures
        r@ == b@.subrange(o as int, o + n),
{
    let _n: usize = b.len();
    let mut r: Vec<u8> = Vec::new();
    let mut i: usize = 0;
    while i < n
        invariant
            i <= n,
            o + n <= b@.len(),
            b@.len() <= usize::MAX,
            r@ == b@.subrange(o as int, o + i),
        decreases n - i,
    {
        r.push(b[o + i]);
        i = i + 1;
    }
    r
}

/// A buffer of `n` zero bytes.
pub fn zeroed(n: usize) -> (r: Vec<u8>)
    ensures
        r@ == Seq::new(n as nat, |i: int| 0u8),
{
    let mut r: Vec<u8> = Vec::new();
    let mut i: usize = 0;
    while i < n
        invariant
            i <= n,
            r@ == Seq::new(i as nat, |k: int| 0u8),
        decreases n - i,
    {
        r.push(0);
        i = i + 1;
    }
    r
}


/// Writes `src` over `b` from `o` on.
pub fn paste(b: &mut Vec<u8>, o: usize, src: &Vec<u8>)
    requires
        o + src@.len() <= old(b)@.len(),
    ensures
        final(b)@ == old(b)@.subrange(0, o as int) + src@ + old(b)@.subrange(o + src@.len(), old(b)@.len() as int),
{
    let ghost b0 = b@;
    let _n: usize = b.len();
    let mut i: usize = 0;
    while i < src.len()
        invariant
            b0.len() <= usize::MAX,
            o + src@.len() <= b0.len(),
            i <= src@.len(),
            b@.len() == b0.len(),
            forall|k: int| 0 <= k < b0.len() ==> #[trigger] b@[k] == if o <= k < o + i {
                src@[k - o]
            } else {
                b0[k]
            },
        decreases src@.len() - i,
    {
        b.set(o + i, src[i]);
        i = i + 1;
    }
    proof {
        assert(b@ =~= b0.subrange(0, o as int) + src@ + b0.subrange(o + src@.len(), b0.len() as int));
    }
}

} // verus!
