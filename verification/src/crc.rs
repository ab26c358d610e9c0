//! The checksums of ext4 metadata: crc16 (poly 0x8005, reflected) for group
//! descriptors of older file systems and crc32c (Castagnoli, reflected) for
//! `metadata_csum` file systems. Both start from all ones and are finished
//! without a final inversion, as ext4 uses them.
use vstd::prelude::*;

verus! {

/// One bit step of reflected crc16.
pub open spec fn crc16_bit(c: u16) -> u16 {
    if c & 1u16 == 1u16 {
        (c >> 1u16) ^ 0xA001u16
    } else {
        c >> 1u16
    }
}

/// `n` bit steps of reflected crc16.
pub open spec fn crc16_bits(c: u16, n: nat) -> u16
    decreases n,
{
    if n == 0 {
        c
    } else {
        crc16_bits(crc16_bit(c), (n - 1) as nat)
    }
}

/// crc16 of `c` extended by the byte `b`.
pub open spec fn crc16_byte(c: u16, b: u8) -> u16 {
    crc16_bits(c ^ (b as u16), 8)
}

/// crc16 of `c` extended by the bytes `s`.
pub open spec fn crc16_seq(c: u16, s: Seq<u8>) -> u16
    decreases s.len(),
{
    if s.len() == 0 {
        c
    } else {
        crc16_byte(crc16_seq(c, s.drop_last()), s.last())
    }
}

/// One bit step of reflected crc32c.
pub open spec fn crc32c_bit(c: u32) -> u32 {
    if c & 1u32 == 1u32 {
        (c >> 1u32) ^ 0x82F6_3B78u32
    } else {
        c >> 1u32
    }
}

/// `n` bit steps of reflected crc32c.
pub open spec fn crc32c_bits(c: u32, n: nat) -> u32
    decreases n,
{
    if n == 0 {
        c
    } else {
        crc32c_bits(crc32c_bit(c), (n - 1) as nat)
    }
}

/// crc32c of `c` extended by the byte `b`.
pub open spec fn crc32c_byte(c: u32, b: u8) -> u32 {
    crc32c_bits(c ^ (b as u32), 8)
}

/// crc32c of `c` extended by the bytes `s`.
pub open spec fn crc32c_seq(c: u32, s: Seq<u8>) -> u32
    decreases s.len(),
{
    if s.len() == 0 {
        c
    } else {
        crc32c_byte(crc32c_seq(c, s.drop_last()), s.last())
    }
}

/// A crc16 can be computed in pieces: extending by `a` and then by `b` is
/// extending by `a` followed by `b`.
pub proof fn lemma_crc16_concat(c: u16, a: Seq<u8>, b: Seq<u8>)
    ensures
        crc16_seq(crc16_seq(c, a), b) == crc16_seq(c, a + b),
    decreases b.len(),
{
    if b.len() == 0 {
        assert(a + b =~= a);
    } else {
        assert((a + b).drop_last() =~= a + b.drop_last());
        assert((a + b).last() == b.last());
        lemma_crc16_concat(c, a, b.drop_last());
    }
}

/// A crc32c can be computed in pieces, as a crc16 can.
pub proof fn lemma_crc32c_concat(c: u32, a: Seq<u8>, b: Seq<u8>)
    ensures
        crc32c_seq(crc32c_seq(c, a), b) == crc32c_seq(c, a + b),
    decreases b.len(),
{
    if b.len() == 0 {
        assert(a + b =~= a);
    } else {
        assert((a + b).drop_last() =~= a + b.drop_last());
        assert((a + b).last() == b.last());
        lemma_crc32c_concat(c, a, b.drop_last());
    }
}

/// A running crc16.
pub struct Crc16 {
    pub state: u16,
}

impl Crc16 {
    /// A crc16 over no bytes.
    pub fn new() -> (r: Crc16)
        ensures
            r.state == 0xffffu16,
    {
        Crc16 { state: 0xffff }
    }

    /// Extends the checksum by the bytes `data[from..to]`.
    pub fn write(&mut self, data: &Vec<u8>, from: usize, to: usize)
        requires
            from <= to <= data@.len(),
        ensures
            final(self).state == crc16_seq(old(self).state, data@.subrange(from as int, to as int)),
    {
        let ghost s0 = self.state;
        let mut i = from;
        while i < to
            invariant
                from <= i <= to,
                to <= data@.len(),
                self.state == crc16_seq(s0, data@.subrange(from as int, i as int)),
            decreases to - i,
        {
            let mut c: u16 = self.state ^ (data[i] as u16);
            let ghost c0 = c;
            let mut k: u32 = 0;
            while k < 8
                invariant
                    k <= 8,
                    crc16_bits(c, (8 - k) as nat) == crc16_bits(c0, 8),
                decreases 8 - k,
            {
                c = if c & 1 == 1 {
                    (c >> 1) ^ 0xA001
                } else {
                    c >> 1
                };
                k = k + 1;
            }
            proof {
                let s = data@.subrange(from as int, i + 1);
                assert(s.drop_last() =~= data@.subrange(from as int, i as int));
            }
            self.state = c;
            i = i + 1;
        }
    }

    /// The checksum.
    pub fn finish(&self) -> (r: u16)
        ensures
            r == self.state,
    {
        self.state
    }
}

/// A running crc32c.
pub struct Crc32c {
    pub state: u32,
}

impl Crc32c {
    /// A crc32c over no bytes.
    pub fn new() -> (r: Crc32c)
        ensures
            r.state == 0xffff_ffffu32,
    {
        Crc32c { state: 0xffff_ffff }
    }

    /// Extends the checksum by the bytes `data[from..to]`.
    pub fn write(&mut self, data: &Vec<u8>, from: usize, to: usize)
        requires
            from <= to <= data@.len(),
        ensures
            final(self).state == crc32c_seq(old(self).state, data@.subrange(from as int, to as int)),
    {
        let ghost s0 = self.state;
        let mut i = from;
        while i < to
            invariant
                from <= i <= to,
                to <= data@.len(),
                self.state == crc32c_seq(s0, data@.subrange(from as int, i as int)),
            decreases to - i,
        {
            let mut c: u32 = self.state ^ (data[i] as u32);
            let ghost c0 = c;
            let mut k: u32 = 0;
            while k < 8
                invariant
                    k <= 8,
                    crc32c_bits(c, (8 - k) as nat) == crc32c_bits(c0, 8),
                decreases 8 - k,
            {
                c = if c & 1 == 1 {
                    (c >> 1) ^ 0x82F6_3B78
                } else {
                    c >> 1
                };
                k = k + 1;
            }
            proof {
                let s = data@.subrange(from as int, i + 1);
                assert(s.drop_last() =~= data@.subrange(from as int, i as int));
            }
            self.state = c;
            i = i + 1;
        }
    }

    /// The checksum.
    pub fn finish(&self) -> (r: u32)
        ensures
            r == self.state,
    {
        self.state
    }
}

} // verus!
