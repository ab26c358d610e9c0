//! Bitmaps of blocks and inodes, one bit per object, least significant bit first.
use vstd::prelude::*;

verus! {

/// Bit `j` (0..8) of the byte `x`.
pub open spec fn byte_bit(x: u8, j: nat) -> bool {
    ((x >> (j as u8)) & 1u8) == 1u8
}

/// Bit `pos` of the bitmap `b`.
pub open spec fn bitmap_bit(b: Seq<u8>, pos: nat) -> bool {
    byte_bit(b[(pos / 8) as int], pos % 8)
}

proof fn lemma_byte_set(x: u8, k: u8, j: u8)
    requires
        k < 8,
        j < 8,
    ensures
        byte_bit(x | (1u8 << k), j as nat) == (j == k || byte_bit(x, j as nat)),
{
    assert((((x | (1u8 << k)) >> j) & 1u8 == 1u8) == (j == k || ((x >> j) & 1u8) == 1u8))
        by (bit_vector)
        requires
            k < 8,
            j < 8,
    ;
}

proof fn lemma_byte_clear(x: u8, k: u8, j: u8)
    requires
        k < 8,
        j < 8,
    ensures
        byte_bit(x & !(1u8 << k), j as nat) == (j != k && byte_bit(x, j as nat)),
{
    assert((((x & !(1u8 << k)) >> j) & 1u8 == 1u8) == (j != k && ((x >> j) & 1u8) == 1u8))
        by (bit_vector)
        requires
            k < 8,
            j < 8,
    ;
}

proof fn lemma_byte_full_empty(j: u8)
    requires
        j < 8,
    ensures
        byte_bit(0xffu8, j as nat),
        !byte_bit(0u8, j as nat),
{
    assert(((0xffu8 >> j) & 1u8) == 1u8) by (bit_vector)
        requires
            j < 8,
    ;
    assert(((0u8 >> j) & 1u8) == 0u8) by (bit_vector);
}

proof fn lemma_byte_full(x: u8)
    ensures
        x == 0xffu8 <==> forall|j: nat| j < 8 ==> #[trigger] byte_bit(x, j),
{
    if forall|j: nat| j < 8 ==> #[trigger] byte_bit(x, j) {
        assert(byte_bit(x, 0));
        assert(byte_bit(x, 1));
        assert(byte_bit(x, 2));
        assert(byte_bit(x, 3));
        assert(byte_bit(x, 4));
        assert(byte_bit(x, 5));
        assert(byte_bit(x, 6));
        assert(byte_bit(x, 7));
        assert(((x >> 0u8) & 1u8) == 1u8 && ((x >> 1u8) & 1u8) == 1u8 && ((x >> 2u8) & 1u8) == 1u8
            && ((x >> 3u8) & 1u8) == 1u8 && ((x >> 4u8) & 1u8) == 1u8 && ((x >> 5u8) & 1u8) == 1u8
            && ((x >> 6u8) & 1u8) == 1u8 && ((x >> 7u8) & 1u8) == 1u8 ==> x == 0xffu8)
            by (bit_vector);
    }
    if x == 0xffu8 {
        assert forall|j: nat| j < 8 implies #[trigger] byte_bit(x, j) by {
            lemma_byte_full_empty(j as u8);
        }
    }
}

/// Two bytes with the same eight bits are equal.
pub proof fn lemma_byte_eq(x: u8, y: u8)
    requires
        forall|j: nat| j < 8 ==> #[trigger] byte_bit(x, j) == byte_bit(y, j),
    ensures
        x == y,
{
    assert(byte_bit(x, 0) == byte_bit(y, 0));
    assert(byte_bit(x, 1) == byte_bit(y, 1));
    assert(byte_bit(x, 2) == byte_bit(y, 2));
    assert(byte_bit(x, 3) == byte_bit(y, 3));
    assert(byte_bit(x, 4) == byte_bit(y, 4));
    assert(byte_bit(x, 5) == byte_bit(y, 5));
    assert(byte_bit(x, 6) == byte_bit(y, 6));
    assert(byte_bit(x, 7) == byte_bit(y, 7));
    assert((((x >> 0u8) & 1u8) == 1u8) == (((y >> 0u8) & 1u8) == 1u8) && (((x >> 1u8) & 1u8) == 1u8) == (((y >> 1u8)
        & 1u8) == 1u8) && (((x >> 2u8) & 1u8) == 1u8) == (((y >> 2u8) & 1u8) == 1u8) && (((x >> 3u8) & 1u8) == 1u8) == ((
    (y >> 3u8) & 1u8) == 1u8) && (((x >> 4u8) & 1u8) == 1u8) == (((y >> 4u8) & 1u8) == 1u8) && (((x >> 5u8) & 1u8)
        == 1u8) == (((y >> 5u8) & 1u8) == 1u8) && (((x >> 6u8) & 1u8) == 1u8) == (((y >> 6u8) & 1u8) == 1u8) && (((x
        >> 7u8) & 1u8) == 1u8) == (((y >> 7u8) & 1u8) == 1u8) ==> x == y) by (bit_vector);
}

/// Two bitmaps of one length with the same bits are equal.
pub proof fn lemma_bitmap_ext(a: Seq<u8>, b: Seq<u8>)
    requires
        a.len() == b.len(),
        forall|p: nat| p < a.len() * 8 ==> #[trigger] bitmap_bit(a, p) == bitmap_bit(b, p),
    ensures
        a == b,
{
    assert forall|i: int| 0 <= i < a.len() implies a[i] == b[i] by {
        assert forall|j: nat| j < 8 implies #[trigger] byte_bit(a[i], j) == byte_bit(b[i], j) by {
            let p: nat = (8 * i + j) as nat;
            vstd::arithmetic::div_mod::lemma_fundamental_div_mod_converse(p as int, 8, i, j as int);
            assert(bitmap_bit(a, p) == bitmap_bit(b, p));
        }
        lemma_byte_eq(a[i], b[i]);
    }
    assert(a =~= b);
}

/// Sets bit `pos` of the bitmap.
fn set_bit(blk: &mut Vec<u8>, pos: usize)
    requires
        pos / 8 < old(blk)@.len(),
    ensures
        final(blk)@.len() == old(blk)@.len(),
        forall|p: nat|
            p < old(blk)@.len() * 8 ==> #[trigger] bitmap_bit(final(blk)@, p) == (p == pos
                || bitmap_bit(old(blk)@, p)),
{
    let grp = pos / 8;
    let ofs = pos % 8;
    let v = blk[grp] | (1u8 << (ofs as u8));
    blk.set(grp, v);
    proof {
        assert forall|p: nat| p < old(blk)@.len() * 8 implies #[trigger] bitmap_bit(blk@, p) == (p
            == pos || bitmap_bit(old(blk)@, p)) by {
            if p / 8 == grp {
                lemma_byte_set(old(blk)@[grp as int], ofs as u8, (p % 8) as u8);
            }
        }
    }
}

/// Clears bit `pos` of the bitmap.
fn clear_bit(blk: &mut Vec<u8>, pos: usize)
    requires
        pos / 8 < old(blk)@.len(),
    ensures
        final(blk)@.len() == old(blk)@.len(),
        forall|p: nat|
            p < old(blk)@.len() * 8 ==> #[trigger] bitmap_bit(final(blk)@, p) == (p != pos
                && bitmap_bit(old(blk)@, p)),
{
    let grp = pos / 8;
    let ofs = pos % 8;
    let v = blk[grp] & !(1u8 << (ofs as u8));
    blk.set(grp, v);
    proof {
        assert forall|p: nat| p < old(blk)@.len() * 8 implies #[trigger] bitmap_bit(blk@, p) == (p
            != pos && bitmap_bit(old(blk)@, p)) by {
            if p / 8 == grp {
                lemma_byte_clear(old(blk)@[grp as int], ofs as u8, (p % 8) as u8);
            }
        }
    }
}

/// Sets or clears the whole byte `grp` of the bitmap.
fn fill_byte(blk: &mut Vec<u8>, grp: usize, on: bool)
    requires
        grp < old(blk)@.len(),
    ensures
        final(blk)@.len() == old(blk)@.len(),
        forall|p: nat|
            p < old(blk)@.len() * 8 ==> #[trigger] bitmap_bit(final(blk)@, p) == (if p / 8 == grp {
                on
            } else {
                bitmap_bit(old(blk)@, p)
            }),
{
    blk.set(
        grp,
        if on {
            0xff
        } else {
            0
        },
    );
    proof {
        assert forall|p: nat| p < old(blk)@.len() * 8 implies #[trigger] bitmap_bit(blk@, p) == (
        if p / 8 == grp {
            on
        } else {
            bitmap_bit(old(blk)@, p)
        }) by {
            if p / 8 == grp {
                lemma_byte_full_empty((p % 8) as u8);
            }
        }
    }
}

/// Sets or clears the bits `[ofs, ofs + count)` of the bitmap: the bits up to
/// the next byte boundary one by one, then whole bytes, then the bits past
/// the last whole byte one by one.
pub fn fill_range(blk: &mut Vec<u8>, ofs: usize, count: usize, on: bool)
    requires
        ofs + count <= old(blk)@.len() * 8,
        old(blk)@.len() * 8 + 8 <= usize::MAX,
    ensures
        final(blk)@.len() == old(blk)@.len(),
        forall|p: nat|
            p < old(blk)@.len() * 8 ==> #[trigger] bitmap_bit(final(blk)@, p) == (if ofs <= p < ofs
                + count {
                on
            } else {
                bitmap_bit(old(blk)@, p)
            }),
{
    let ghost b0 = blk@;
    let end = ofs + count;
    let up = (ofs + 7) / 8 * 8;
    let oe = if up < end {
        up
    } else {
        end
    };
    let me = end / 8 * 8;
    let cs = if oe < me {
        me
    } else {
        oe
    };
    let mut pos = ofs;
    while pos < oe
        invariant
            ofs <= pos <= oe,
            oe <= end,
            end == ofs + count,
            end <= b0.len() * 8,
            blk@.len() == b0.len(),
            forall|p: nat|
                p < b0.len() * 8 ==> #[trigger] bitmap_bit(blk@, p) == (if ofs <= p < pos {
                    on
                } else {
                    bitmap_bit(b0, p)
                }),
        decreases oe - pos,
    {
        if on {
            set_bit(blk, pos);
        } else {
            clear_bit(blk, pos);
        }
        pos = pos + 1;
    }
    let mut grp = oe / 8;
    let ghost done = oe;
    while grp < me / 8
        invariant
            oe <= end,
            end == ofs + count,
            end <= b0.len() * 8,
            oe % 8 == 0 || oe == end,
            ofs <= oe,
            oe / 8 <= grp,
            grp <= me / 8 || grp == oe / 8,
            me / 8 * 8 == me,
            me <= end,
            blk@.len() == b0.len(),
            forall|p: nat|
                p < b0.len() * 8 ==> #[trigger] bitmap_bit(blk@, p) == (if ofs <= p < oe || (oe
                    <= p && p < grp * 8) {
                    on
                } else {
                    bitmap_bit(b0, p)
                }),
        decreases me / 8 - grp,
    {
        fill_byte(blk, grp, on);
        grp = grp + 1;
    }
    proof {
        assert forall|p: nat| p < b0.len() * 8 implies #[trigger] bitmap_bit(blk@, p) == (if ofs
            <= p < cs {
            on
        } else {
            bitmap_bit(b0, p)
        }) by {
            if grp == me / 8 {
                assert(grp * 8 == me);
            } else {
                assert(grp * 8 <= oe);
            }
        }
    }
    let mut pos = cs;
    while pos < end
        invariant
            oe <= cs,
            cs <= pos <= end,
            end == ofs + count,
            end <= b0.len() * 8,
            ofs <= oe,
            blk@.len() == b0.len(),
            forall|p: nat|
                p < b0.len() * 8 ==> #[trigger] bitmap_bit(blk@, p) == (if ofs <= p < pos {
                    on
                } else {
                    bitmap_bit(b0, p)
                }),
        decreases end - pos,
    {
        if on {
            set_bit(blk, pos);
        } else {
            clear_bit(blk, pos);
        }
        pos = pos + 1;
    }
}

/// Sets bit `pos` and reports whether it was clear before.
pub fn test_and_set(blk: &mut Vec<u8>, pos: usize) -> (was_clear: bool)
    requires
        pos / 8 < old(blk)@.len(),
    ensures
        was_clear == !bitmap_bit(old(blk)@, pos as nat),
        final(blk)@.len() == old(blk)@.len(),
        forall|p: nat|
            p < old(blk)@.len() * 8 ==> #[trigger] bitmap_bit(final(blk)@, p) == (p == pos
                || bitmap_bit(old(blk)@, p)),
{
    let grp = pos / 8;
    let ofs = pos % 8;
    let mask = 1u8 << (ofs as u8);
    let prev = blk[grp];
    proof {
        assert((prev & (1u8 << (ofs as u8)) == 0u8) == !(((prev >> (ofs as u8)) & 1u8) == 1u8))
            by (bit_vector)
            requires
                ofs < 8,
        ;
    }
    set_bit(blk, pos);
    prev & mask == 0
}

/// Finds the lowest clear bit, sets it and returns its position.
pub fn take_first_clear(blk: &mut Vec<u8>) -> (r: Option<usize>)
    requires
        old(blk)@.len() * 8 + 8 <= usize::MAX,
    ensures
        final(blk)@.len() == old(blk)@.len(),
        match r {
            Some(i) => {
                &&& i < old(blk)@.len() * 8
                &&& !bitmap_bit(old(blk)@, i as nat)
                &&& forall|p: nat| p < i ==> #[trigger] bitmap_bit(old(blk)@, p)
                &&& forall|p: nat|
                    p < old(blk)@.len() * 8 ==> #[trigger] bitmap_bit(final(blk)@, p) == (p == i
                        || bitmap_bit(old(blk)@, p))
            },
            None => {
                &&& final(blk)@ == old(blk)@
                &&& forall|p: nat| p < old(blk)@.len() * 8 ==> #[trigger] bitmap_bit(old(blk)@, p)
            },
        },
{
    let ghost b0 = blk@;
    let mut group: usize = 0;
    while group < blk.len()
        invariant
            blk@ == b0,
            b0 == old(blk)@,
            group <= b0.len(),
            b0.len() * 8 + 8 <= usize::MAX,
            forall|p: nat| p < group * 8 ==> #[trigger] bitmap_bit(b0, p),
        decreases b0.len() - group,
    {
        let val = blk[group];
        let x = val ^ 0xffu8;
        proof {
            assert((val ^ 0xffu8 != 0u8) == (val != 0xffu8)) by (bit_vector);
            lemma_byte_full(val);
        }
        if x != 0 {
            let mut pos: u8 = 0;
            while pos < 8 && (val >> pos) & 1u8 == 1u8
                invariant
                    pos <= 8,
                    val != 0xffu8,
                    group < b0.len(),
                    val == b0[group as int],
                    forall|j: nat| j < pos ==> #[trigger] byte_bit(val, j),
                decreases 8 - pos,
            {
                pos = pos + 1;
            }
            proof {
                if pos == 8 {
                    assert forall|j: nat| j < 8 implies #[trigger] byte_bit(val, j) by {
                        assert(j < pos);
                    }
                    lemma_byte_full(val);
                }
            }
            let i = group * 8 + (pos as usize);
            proof {
                assert(i / 8 == group);
                assert(i % 8 == pos);
                assert forall|p: nat| p < i implies #[trigger] bitmap_bit(b0, p) by {
                    if p >= group * 8 {
                        assert(p / 8 == group);
                        assert(byte_bit(val, p % 8));
                    }
                }
            }
            set_bit(blk, i);
            return Some(i);
        }
        proof {
            assert forall|p: nat| p < (group + 1) * 8 implies #[trigger] bitmap_bit(b0, p) by {
                if p >= group * 8 {
                    assert(p / 8 == group);
                    assert(byte_bit(val, p % 8));
                }
            }
        }
        group = group + 1;
    }
    None
}

} // verus!
