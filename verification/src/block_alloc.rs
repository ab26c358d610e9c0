//! The block allocator: one buddy allocator per block group.
use vstd::prelude::*;
use crate::buddy::{BlockGroupBuddy, MAX_ORDER_LIMIT, free_of, range};
use crate::types::BlockGroupId;

verus! {

/// The number of trailing one bits of `x`.
pub open spec fn trailing_ones(x: nat) -> nat
    decreases x,
{
    if x % 2 == 1 {
        1 + trailing_ones(x / 2)
    } else {
        0
    }
}

/// The largest chunk order of the groups of a file system with blocks of `blk_size` bytes.
pub open spec fn max_order_for(blk_size: nat) -> nat {
    trailing_ones((blk_size - 1) as nat) + 2
}

/// A block allocator.
pub struct Allocator {
    pub buddies: Vec<BlockGroupBuddy>,
}

impl Allocator {
    /// The allocator's invariant: every group's buddy allocator is sound and
    /// built for `max_order`.
    pub open spec fn wf(&self) -> bool {
        forall|i: int| 0 <= i < self.buddies@.len() ==> #[trigger] self.buddies@[i].wf()
    }

    /// The number of groups.
    pub open spec fn groups(&self) -> nat {
        self.buddies@.len()
    }

    /// The free blocks of group `g`, by index in the group.
    pub open spec fn free(&self, g: int) -> Set<int> {
        self.buddies@[g].free()
    }

    /// The chunk order limit of the allocator.
    pub open spec fn max_order(&self) -> nat {
        self.buddies@[0].max_order_spec()
    }

    /// Counts the trailing ones of `x`.
    fn count_trailing_ones(x: usize) -> (r: usize)
        ensures
            r == trailing_ones(x as nat),
    {
        let mut y = x;
        let mut n: usize = 0;
        proof {
            lemma_trailing_ones_le(x as nat);
        }
        while y % 2 == 1
            invariant
                trailing_ones(y as nat) + n == trailing_ones(x as nat),
                trailing_ones(x as nat) <= usize::MAX,
            decreases y,
        {
            y = y / 2;
            n = n + 1;
        }
        n
    }

    /// An allocator for `bg` groups of blocks of `blk_size` bytes, with no free block yet.
    pub fn new(blk_size: usize, bg: usize) -> (r: Self)
        requires
            blk_size >= 1,
            trailing_ones((blk_size - 1) as nat) + 2 <= MAX_ORDER_LIMIT,
        ensures
            r.wf(),
            r.groups() == bg,
            forall|i: int|
                0 <= i < bg ==> (#[trigger] r.buddies@[i]).chunks() == Map::<usize, usize>::empty(),
            forall|i: int|
                0 <= i < bg ==> (#[trigger] r.buddies@[i]).max_order_spec() == max_order_for(
                    blk_size as nat,
                ),
    {
        let max_order = Self::count_trailing_ones(blk_size - 1) + 2;
        let mut buddies: Vec<BlockGroupBuddy> = Vec::new();
        let mut i: usize = 0;
        while i < bg
            invariant
                i <= bg,
                buddies@.len() == i,
                max_order == max_order_for(blk_size as nat),
                max_order <= MAX_ORDER_LIMIT,
                forall|j: int|
                    0 <= j < i ==> #[trigger] buddies@[j].wf() && buddies@[j].chunks() == Map::<
                        usize,
                        usize,
                    >::empty() && buddies@[j].max_order_spec() == max_order,
            decreases bg - i,
        {
            buddies.push(BlockGroupBuddy::new(max_order));
            i = i + 1;
        }
        let r = Allocator { buddies };
        proof {
            assert forall|i: int| 0 <= i < bg implies (#[trigger] r.buddies@[i]).chunks() == Map::<
                usize,
                usize,
            >::empty() by {
                assert(r.buddies@[i].wf());
            }
            assert forall|i: int| 0 <= i < bg implies (#[trigger] r.buddies@[i]).max_order_spec()
                == max_order_for(blk_size as nat) by {
                assert(r.buddies@[i].wf());
            }
        }
        r
    }

    /// Gives the blocks `[start, start + size)` of group `bgid` to its buddy allocator.
    pub fn push_chunk(&mut self, start: usize, size: usize, bgid: BlockGroupId)
        requires
            old(self).wf(),
            bgid.0 < old(self).groups(),
            start + size <= usize::MAX,
            forall|x: int|
                start <= x < start + size ==> !old(self).free(bgid.0 as int).contains(x),
        ensures
            final(self).wf(),
            final(self).groups() == old(self).groups(),
            final(self).free(bgid.0 as int) == old(self).free(bgid.0 as int).union(
                range(start as int, start + size),
            ),
            final(self).buddies@[bgid.0 as int].max_order_spec() == old(
                self,
            ).buddies@[bgid.0 as int].max_order_spec(),
            forall|i: int|
                0 <= i < old(self).groups() && i != bgid.0 ==> #[trigger] final(self).buddies@[i]
                    == old(self).buddies@[i],
    {
        let ghost b = self.buddies@;
        proof {
            assert forall|x: int| start <= x < start + size implies !b[bgid.0 as int].free().contains(
                x,
            ) by {
                assert(!old(self).free(bgid.0 as int).contains(x));
            }
        }
        self.buddies[bgid.0 as usize].push_chunk(start, size);
        proof {
            assert forall|i: int| 0 <= i < self.buddies@.len() implies #[trigger] self.buddies@[i].wf() by {
                if i != bgid.0 {
                    assert(self.buddies@[i] == b[i]);
                }
            }
        }
    }
}

proof fn lemma_trailing_ones_le(x: nat)
    ensures
        trailing_ones(x) <= x,
    decreases x,
{
    if x % 2 == 1 {
        lemma_trailing_ones_le(x / 2);
    }
}

/// `s` is one of the sizes `n0`, `n0 / 2`, `n0 / 4`, ... above 0.
pub open spec fn on_chain(n0: nat, s: nat) -> bool
    decreases n0,
{
    if n0 == 0 {
        false
    } else {
        s == n0 || on_chain(n0 / 2, s)
    }
}

/// The sizes of a halving chain are at most its first.
pub proof fn lemma_chain_le(n0: nat, s: nat)
    requires
        on_chain(n0, s),
    ensures
        1 <= s <= n0,
    decreases n0,
{
    if s != n0 {
        lemma_chain_le(n0 / 2, s);
    }
}

/// Two sizes of a halving chain are one when the smaller is more than half
/// the larger.
pub proof fn lemma_chain_gap(n0: nat, a: nat, b: nat)
    requires
        on_chain(n0, a),
        on_chain(n0, b),
        b / 2 < a <= b,
    ensures
        a == b,
    decreases n0,
{
    lemma_chain_le(n0, a);
    lemma_chain_le(n0, b);
    if a != n0 && b != n0 {
        lemma_chain_gap(n0 / 2, a, b);
    } else if b == n0 && a != n0 {
        lemma_chain_le(n0 / 2, a);
    }
}

/// Halving a size of the chain that is above 1 gives the next one.
pub proof fn lemma_chain_next(n0: nat, s: nat)
    requires
        on_chain(n0, s),
        s >= 2,
    ensures
        on_chain(n0, s / 2),
    decreases n0,
{
    if s == n0 {
        assert(on_chain(n0 / 2, n0 / 2));
    } else {
        lemma_chain_next(n0 / 2, s);
    }
}

} // verus!
