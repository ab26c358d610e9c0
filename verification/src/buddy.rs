//! The buddy allocator of the free blocks of one block group.
//!
//! Free space is kept as a set of chunks. A chunk starts at an index of the
//! group and spans `2^order` blocks. `backref` maps the start of each chunk to
//! its order, and `buddies[order]` holds the starts of the chunks of that
//! order.
use vstd::prelude::*;
use std::collections::{BTreeMap, BTreeSet};
use crate::types::{exp2, exp2_usize, lemma_exp2_monotone, lemma_exp2_pos};

verus! {

/// The largest order that a buddy allocator may be built with.
pub const MAX_ORDER_LIMIT: usize = 30;

/// Whether index `x` lies in the chunk that starts at `s` in `m`.
pub open spec fn in_chunk(m: Map<usize, usize>, s: usize, x: int) -> bool {
    &&& m.contains_key(s)
    &&& s <= x
    &&& x < s + exp2(m[s] as nat)
}

/// The free indices described by the chunk map `m`.
pub open spec fn free_of(m: Map<usize, usize>) -> Set<int> {
    Set::new(|x: int| exists|s: usize| #[trigger] in_chunk(m, s, x))
}

/// The half-open range `[a, b)` of integers.
pub open spec fn range(a: int, b: int) -> Set<int> {
    Set::new(|x: int| a <= x < b)
}

/// No two chunks of `m` overlap.
pub open spec fn chunks_disjoint(m: Map<usize, usize>) -> bool {
    forall|s1: usize, s2: usize|
        #![trigger m[s1], m[s2]]
        m.contains_key(s1) && m.contains_key(s2) && s1 != s2 ==> s1 + exp2(m[s1] as nat) <= s2 || s2
            + exp2(m[s2] as nat) <= s1
}

/// Every chunk of `m` starts at a multiple of its size.
pub open spec fn chunks_aligned(m: Map<usize, usize>) -> bool {
    forall|s: usize| #![trigger m[s]] m.contains_key(s) ==> (s as nat) % exp2(m[s] as nat) == 0
}

/// Every chunk of `m` has an order of at most `max` and ends inside `usize`.
pub open spec fn chunks_bounded(m: Map<usize, usize>, max: nat) -> bool {
    forall|s: usize|
        #![trigger m[s]]
        m.contains_key(s) ==> m[s] <= max && s + exp2(m[s] as nat) <= usize::MAX
}

/// The order of the next chunk that `push_chunk` cuts from `[start, start + size)`,
/// searching upward from `o`: the largest order not above `max` whose chunk is
/// aligned at `start` and fits in `size`.
pub open spec fn order_from(start: nat, size: nat, max: nat, o: nat) -> nat
    decreases max - o,
{
    if o < max && start % exp2(o + 1) == 0 && exp2(o + 1) <= size {
        order_from(start, size, max, o + 1)
    } else {
        o
    }
}

/// The order of the first chunk cut from `[start, start + size)`.
pub open spec fn chunk_order(start: nat, size: nat, max: nat) -> nat {
    order_from(start, size, max, 0)
}

pub proof fn lemma_order_from(start: nat, size: nat, max: nat, o: nat)
    requires
        o <= max,
        size >= 1,
        exp2(o) <= size,
        start % exp2(o) == 0,
    ensures
        o <= order_from(start, size, max, o) <= max,
        exp2(order_from(start, size, max, o)) <= size,
        start % exp2(order_from(start, size, max, o)) == 0,
        1 <= exp2(order_from(start, size, max, o)),
    decreases max - o,
{
    lemma_exp2_pos(o);
    if o < max && start % exp2(o + 1) == 0 && exp2(o + 1) <= size {
        lemma_order_from(start, size, max, o + 1);
    }
}

pub proof fn lemma_chunk_order(start: nat, size: nat, max: nat)
    requires
        size >= 1,
    ensures
        chunk_order(start, size, max) <= max,
        1 <= exp2(chunk_order(start, size, max)) <= size,
        start % exp2(chunk_order(start, size, max)) == 0,
{
    lemma_order_from(start, size, max, 0);
}

/// The chunks into which `push_chunk` cuts `[start, start + size)`.
pub open spec fn decompose(start: nat, size: nat, max: nat) -> Map<usize, usize>
    decreases size,
{
    if size == 0 {
        Map::empty()
    } else {
        let o = chunk_order(start, size, max);
        proof {
            lemma_chunk_order(start, size, max);
        }
        decompose(start + exp2(o), (size - exp2(o)) as nat, max).insert(start as usize, o as usize)
    }
}

pub proof fn lemma_decompose(start: nat, size: nat, max: nat)
    requires
        start + size <= usize::MAX,
        max <= MAX_ORDER_LIMIT,
    ensures
        forall|s: usize| #[trigger]
            decompose(start, size, max).contains_key(s) ==> start <= s < start + size,
        chunks_disjoint(decompose(start, size, max)),
        chunks_bounded(decompose(start, size, max), max),
        forall|s: usize| #[trigger]
            decompose(start, size, max).contains_key(s) ==> s + exp2(
                decompose(start, size, max)[s] as nat,
            ) <= start + size,
        free_of(decompose(start, size, max)) == range(start as int, (start + size) as int),
    decreases size,
{
    let d = decompose(start, size, max);
    if size == 0 {
        assert(free_of(d) =~= range(start as int, (start + size) as int));
    } else {
        let o = chunk_order(start, size, max);
        lemma_chunk_order(start, size, max);
        let e = exp2(o);
        let rest = (size - e) as nat;
        lemma_decompose(start + e, rest, max);
        let d2 = decompose(start + e, rest, max);
        assert(d == d2.insert(start as usize, o as usize));
        assert(!d2.contains_key(start as usize));
        assert forall|x: int| free_of(d).contains(x) <==> range(start as int, (start + size) as int).contains(
            x,
        ) by {
            if free_of(d).contains(x) {
                let s = choose|s: usize| #[trigger] in_chunk(d, s, x);
                if s != start as usize {
                    assert(in_chunk(d2, s, x));
                    assert(free_of(d2).contains(x));
                }
            }
            if range(start as int, (start + size) as int).contains(x) {
                if x < start + e {
                    assert(in_chunk(d, start as usize, x));
                } else {
                    assert(range((start + e) as int, (start + e + rest) as int).contains(x));
                    assert(free_of(d2).contains(x));
                    let s = choose|s: usize| #[trigger] in_chunk(d2, s, x);
                    assert(in_chunk(d, s, x));
                }
            }
        }
        assert(free_of(d) =~= range(start as int, (start + size) as int));
    }
}

/// The length of the run of chunks that starts at `h + c` and goes on while
/// less than `size` blocks have been gathered.
pub open spec fn chain_from(m: Map<usize, usize>, h: nat, c: nat, size: nat) -> nat
    decreases (if c < size {
        size - c
    } else {
        0
    }),
{
    if c < size && h + c <= usize::MAX && m.contains_key((h + c) as usize) {
        proof {
            lemma_exp2_pos(m[(h + c) as usize] as nat);
        }
        chain_from(m, h, c + exp2(m[(h + c) as usize] as nat), size)
    } else {
        c
    }
}

/// The chunk map once the run of chunks measured by `chain_from` is removed.
pub open spec fn remove_chain(m: Map<usize, usize>, h: nat, c: nat, size: nat) -> Map<
    usize,
    usize,
>
    decreases (if c < size {
        size - c
    } else {
        0
    }),
{
    if c < size && h + c <= usize::MAX && m.contains_key((h + c) as usize) {
        proof {
            lemma_exp2_pos(m[(h + c) as usize] as nat);
        }
        remove_chain(m, h, c + exp2(m[(h + c) as usize] as nat), size).remove((h + c) as usize)
    } else {
        m
    }
}

/// The smallest order whose chunks hold at least `size` blocks, searching upward from `o`.
pub open spec fn fit_from(size: nat, o: nat) -> nat
    decreases (if exp2(o) < size {
        size - exp2(o)
    } else {
        0
    }),
{
    if exp2(o) < size {
        proof {
            lemma_exp2_pos(o);
        }
        fit_from(size, o + 1)
    } else {
        o
    }
}

/// The smallest order whose chunks hold at least `size` blocks.
pub open spec fn fit_order(size: nat) -> nat {
    fit_from(size, 0)
}

/// Whether `m` holds a chunk of order `o`.
pub open spec fn has_order(m: Map<usize, usize>, o: nat) -> bool {
    exists|s: usize| m.contains_key(s) && #[trigger] m[s] == o
}

/// The free blocks of one block group, as chunks of power-of-two sizes.
pub struct BlockGroupBuddy {
    max_order: usize,
    buddies: Vec<BTreeSet<usize>>,
    backref: BTreeMap<usize, usize>,
}

/// Returns the smallest element of `s` (std's `BTreeSet::first`).
///
/// Trusted: std documents that `first` returns the minimum of the set, or
/// `None` when the set is empty.
#[verifier::external_body]
fn btree_set_first(s: &BTreeSet<usize>) -> (r: Option<usize>)
    ensures
        match r {
            Some(x) => s@.contains(x) && forall|y: usize| s@.contains(y) ==> x <= y,
            None => forall|y: usize| !s@.contains(y),
        },
{
    s.first().cloned()
}

impl BlockGroupBuddy {
    /// The chunks: the start of each chunk mapped to its order.
    pub closed spec fn chunks(&self) -> Map<usize, usize> {
        self.backref@
    }

    /// The largest order of a chunk.
    pub closed spec fn max_order_spec(&self) -> nat {
        self.max_order as nat
    }

    /// The free indices of the block group.
    pub open spec fn free(&self) -> Set<int> {
        free_of(self.chunks())
    }

    /// The allocator's invariant.
    pub closed spec fn wf(&self) -> bool {
        &&& self.max_order <= MAX_ORDER_LIMIT
        &&& self.buddies@.len() == self.max_order + 1
        &&& forall|o: int, s: usize|
            #![trigger self.buddies@[o]@.contains(s)]
            0 <= o <= self.max_order ==> (self.buddies@[o]@.contains(s) <==> (
            self.backref@.contains_key(s) && self.backref@[s] == o))
        &&& chunks_disjoint(self.backref@)
        &&& chunks_bounded(self.backref@, self.max_order as nat)
        &&& chunks_aligned(self.backref@)
    }

    /// Every chunk starts at a multiple of its size.
    pub proof fn lemma_aligned(&self)
        requires
            self.wf(),
        ensures
            chunks_aligned(self.chunks()),
    {
    }

    /// Creates an allocator with no free chunk.
    pub fn new(max_order: usize) -> (r: Self)
        requires
            max_order <= MAX_ORDER_LIMIT,
        ensures
            r.wf(),
            r.chunks() == Map::<usize, usize>::empty(),
            r.max_order_spec() == max_order,
    {
        let mut buddies: Vec<BTreeSet<usize>> = Vec::new();
        let mut i: usize = 0;
        while i <= max_order
            invariant
                i <= max_order + 1,
                max_order <= MAX_ORDER_LIMIT,
                buddies@.len() == i,
                forall|o: int, s: usize| 0 <= o < i ==> !(#[trigger] buddies@[o]@.contains(s)),
            decreases max_order + 1 - i,
        {
            buddies.push(BTreeSet::new());
            i = i + 1;
        }
        Self { max_order, buddies, backref: BTreeMap::new() }
    }

    /// Adds the chunk of `2^order` blocks at `start`.
    fn insert(&mut self, start: usize, order: usize)
        requires
            old(self).wf(),
            order <= old(self).max_order,
            start + exp2(order as nat) <= usize::MAX,
            (start as nat) % exp2(order as nat) == 0,
            forall|x: int| start <= x < start + exp2(order as nat) ==> !old(self).free().contains(x),
        ensures
            final(self).wf(),
            final(self).chunks() == old(self).chunks().insert(start, order),
            final(self).max_order == old(self).max_order,
            !old(self).chunks().contains_key(start),
    {
        proof {
            lemma_exp2_pos(order as nat);
            let m = self.backref@;
            if m.contains_key(start) {
                lemma_exp2_pos(m[start] as nat);
                assert(in_chunk(m, start, start as int));
                assert(self.free().contains(start as int));
            }
            assert forall|s: usize| m.contains_key(s) implies s + exp2(m[s] as nat) <= start || start
                + exp2(order as nat) <= s by {
                lemma_exp2_pos(m[s] as nat);
                if !(s + exp2(m[s] as nat) <= start || start + exp2(order as nat) <= s) {
                    let x: int = if s <= start {
                        start as int
                    } else {
                        s as int
                    };
                    assert(in_chunk(m, s, x));
                    assert(self.free().contains(x));
                }
            }
        }
        let ghost old_buddies = self.buddies@;
        self.backref.insert(start, order);
        self.buddies[order].insert(start);
        proof {
            assert forall|o: int, s: usize|
                0 <= o <= self.max_order implies (self.buddies@[o]@.contains(s) <==> (
            self.backref@.contains_key(s) && self.backref@[s] == o)) by {
                if o != order {
                    assert(self.buddies@[o] == old_buddies[o]);
                }
            }
        }
    }

    /// Splits `[start, start + size)` into aligned chunks and adds them.
    pub fn push_chunk(&mut self, start: usize, size: usize)
        requires
            old(self).wf(),
            start + size <= usize::MAX,
            forall|x: int| start <= x < start + size ==> !old(self).free().contains(x),
        ensures
            final(self).wf(),
            final(self).max_order_spec() == old(self).max_order_spec(),
            final(self).chunks() == old(self).chunks().union_prefer_right(
                decompose(start as nat, size as nat, old(self).max_order_spec()),
            ),
            final(self).free() == old(self).free().union(range(start as int, start + size)),
    {
        let ghost start0 = start;
        let ghost size0 = size;
        let ghost m0 = self.backref@;
        let ghost max = self.max_order as nat;
        let ghost goal = m0.union_prefer_right(decompose(start0 as nat, size0 as nat, max));
        let mut start = start;
        let mut size = size;
        proof {
            lemma_decompose(start as nat, size as nat, max);
            assert(range(start0 as int, start0 as int) =~= Set::<int>::empty());
            assert(free_of(m0).union(Set::<int>::empty()) =~= free_of(m0));
            assert(m0.union_prefer_right(decompose(start as nat, size as nat, max)) == goal);
            assert forall|x: int| start0 <= x < start0 + size0 implies !free_of(m0).contains(x) by {
                assert(!old(self).free().contains(x));
            }
        }
        while size > 0
            invariant
                self.wf(),
                self.max_order == max,
                start0 <= start,
                start + size == start0 + size0,
                start0 + size0 <= usize::MAX,
                self.backref@.union_prefer_right(decompose(start as nat, size as nat, max)) == goal,
                free_of(self.backref@) == free_of(m0).union(range(start0 as int, start as int)),
                forall|x: int| start0 <= x < start0 + size0 ==> !free_of(m0).contains(x),
            decreases size,
        {
            proof {
                lemma_chunk_order(start as nat, size as nat, max);
                lemma_decompose(start as nat, size as nat, max);
            }
            let order = self.order_for(start, size);
            let step = exp2_usize(order);
            let ghost old_m = self.backref@;
            self.insert(start, order);
            proof {
                let d = decompose(start as nat, size as nat, max);
                let d2 = decompose((start + step) as nat, (size - step) as nat, max);
                lemma_decompose((start + step) as nat, (size - step) as nat, max);
                assert(d == d2.insert(start, order));
                assert(!d2.contains_key(start));
                assert(self.backref@.union_prefer_right(d2) =~= old_m.union_prefer_right(d));
                lemma_free_insert(old_m, start, order);
                assert(range(start0 as int, start as int).union(
                    range(start as int, start + exp2(order as nat)),
                ) =~= range(start0 as int, start + step));
                assert(free_of(old_m).union(range(start0 as int, start as int)).union(
                    range(start as int, start + exp2(order as nat)),
                ) =~= free_of(m0).union(range(start0 as int, start + step)));
            }
            start = start + step;
            size = size - step;
        }
        proof {
            assert(decompose(start as nat, 0, max) == Map::<usize, usize>::empty());
            assert(self.backref@.union_prefer_right(Map::<usize, usize>::empty()) =~= self.backref@);
        }
    }

    /// Computes `chunk_order(start, size, max_order)`.
    fn order_for(&self, start: usize, size: usize) -> (o: usize)
        requires
            self.wf(),
            size >= 1,
        ensures
            o == chunk_order(start as nat, size as nat, self.max_order as nat),
    {
        let ghost max = self.max_order as nat;
        let mut o: usize = 0;
        let mut p: usize = 1;
        proof {
            lemma_exp2_pos(max);
            lemma_exp2_pos(0);
            lemma_exp2_monotone(max, 30);
            assert(exp2(30) == 0x4000_0000) by {
                reveal_with_fuel(exp2, 31);
            }
        }
        while o < self.max_order && start % (2 * p) == 0 && 2 * p <= size
            invariant
                o <= self.max_order,
                self.max_order <= MAX_ORDER_LIMIT,
                self.max_order == max,
                p == exp2(o as nat),
                1 <= p <= 0x4000_0000,
                exp2(max) <= 0x4000_0000,
                order_from(start as nat, size as nat, max, o as nat) == chunk_order(
                    start as nat,
                    size as nat,
                    max,
                ),
            decreases self.max_order - o,
        {
            proof {
                lemma_exp2_monotone((o + 1) as nat, max);
                lemma_exp2_pos(o as nat);
            }
            o = o + 1;
            p = 2 * p;
        }
        proof {
            lemma_exp2_monotone(o as nat, max);
        }
        o
    }
}

impl BlockGroupBuddy {
    /// Removes the chunk at `s` and returns its order.
    fn remove_chunk(&mut self, s: usize) -> (order: usize)
        requires
            old(self).wf(),
            old(self).chunks().contains_key(s),
        ensures
            final(self).wf(),
            final(self).max_order == old(self).max_order,
            order == old(self).chunks()[s],
            final(self).chunks() == old(self).chunks().remove(s),
            final(self).free() == old(self).free().difference(
                range(s as int, s + exp2(order as nat)),
            ),
    {
        let ghost old_buddies = self.buddies@;
        let ghost m = self.backref@;
        let order = self.backref.remove(&s).unwrap();
        let removed = self.buddies[order].remove(&s);
        proof {
            assert(old_buddies[order as int]@.contains(s));
            assert forall|o: int, t: usize|
                0 <= o <= self.max_order implies (self.buddies@[o]@.contains(t) <==> (
            self.backref@.contains_key(t) && self.backref@[t] == o)) by {
                if o != order {
                    assert(self.buddies@[o] == old_buddies[o]);
                }
            }
            assert forall|s1: usize, s2: usize|
                #![trigger self.backref@[s1], self.backref@[s2]]
                self.backref@.contains_key(s1) && self.backref@.contains_key(s2) && s1
                    != s2 implies s1 + exp2(self.backref@[s1] as nat) <= s2 || s2 + exp2(
                self.backref@[s2] as nat,
            ) <= s1 by {
                assert(m[s1] == self.backref@[s1]);
                assert(m[s2] == self.backref@[s2]);
            }
            assert forall|t: usize|
                #![trigger self.backref@[t]]
                self.backref@.contains_key(t) implies self.backref@[t] <= self.max_order && t
                + exp2(self.backref@[t] as nat) <= usize::MAX by {
                assert(m[t] == self.backref@[t]);
            }
            lemma_free_remove(m, s);
        }
        order
    }

    /// Computes `fit_order(size)`, or `max_order + 1` where that is larger.
    fn fit_order_for(&self, size: usize) -> (o: usize)
        requires
            self.wf(),
            size >= 1,
        ensures
            o <= self.max_order ==> o == fit_order(size as nat),
            o > self.max_order ==> o == self.max_order + 1 && fit_order(size as nat)
                > self.max_order,
    {
        let mut o: usize = 0;
        let mut pw: usize = 1;
        proof {
            lemma_exp2_pos(0);
        }
        while o <= self.max_order && pw < size
            invariant
                o <= self.max_order + 1,
                self.max_order <= MAX_ORDER_LIMIT,
                pw == exp2(o as nat),
                1 <= pw <= 0x8000_0000,
                fit_from(size as nat, o as nat) == fit_order(size as nat),
            decreases self.max_order + 1 - o,
        {
            proof {
                lemma_exp2_monotone((o + 1) as nat, 31);
                assert(exp2(31) == 0x8000_0000) by {
                    reveal_with_fuel(exp2, 32);
                }
            }
            pw = pw * 2;
            o = o + 1;
        }
        proof {
            if o > self.max_order {
                lemma_fit_from_ge(size as nat, o as nat);
            }
        }
        o
    }

    /// Measures the run of chunks that starts at `hope`.
    fn chain_at(&self, size: usize, hope: usize) -> (chain: usize)
        requires
            self.wf(),
            hope + size <= usize::MAX + 1,
        ensures
            chain == chain_from(self.chunks(), hope as nat, 0, size as nat),
    {
        let ghost m = self.backref@;
        let ghost c0 = chain_from(m, hope as nat, 0, size as nat);
        let mut chain: usize = 0;
        let mut go = true;
        while go && chain < size
            invariant
                self.wf(),
                m == self.backref@,
                hope + size <= usize::MAX + 1,
                chain <= usize::MAX - hope,
                go ==> chain_from(m, hope as nat, chain as nat, size as nat) == c0,
                !go ==> chain == c0,
            decreases (if go {
                1usize
            } else {
                0usize
            }), (if chain < size {
                size - chain
            } else {
                0
            }),
        {
            match self.backref.get(&(hope + chain)) {
                Some(l) => {
                    proof {
                        assert(m.contains_key((hope + chain) as usize));
                        lemma_exp2_pos(*l as nat);
                    }
                    let step = exp2_usize(*l);
                    chain = chain + step;
                },
                None => {
                    go = false;
                },
            }
        }
        chain
    }

    /// Allocates about `size` contiguous blocks.
    ///
    /// With a `hope`, the run of chunks that starts there is taken whole when
    /// it holds more than `size / 2` blocks, and `min(run, size)` is reported.
    /// Otherwise the smallest chunk order that can hold `size` blocks and has
    /// a chunk is chosen, its lowest chunk is taken, and what is left past
    /// `size` blocks is given back.
    pub fn try_allocate(&mut self, size: usize, hope: Option<usize>) -> (r: Option<(usize, usize)>)
        requires
            old(self).wf(),
            size >= 1,
            hope matches Some(h) ==> h + size <= usize::MAX + 1,
        ensures
            final(self).wf(),
            final(self).max_order_spec() == old(self).max_order_spec(),
            r is None ==> *final(self) == *old(self),
            final(self).free().subset_of(old(self).free()),
            r matches Some((p, n)) ==> n >= 1 && forall|x: int|
                p <= x < p + n ==> old(self).free().contains(x) && !final(self).free().contains(x),
            ({
                let m = old(self).chunks();
                let max = old(self).max_order_spec();
                if hope_taken(m, hope, size as nat) {
                    let h = hope->0;
                    let c = chain_from(m, h as nat, 0, size as nat);
                    &&& r == Some((h, if c < size { c as usize } else { size }))
                    &&& final(self).chunks() == remove_chain(m, h as nat, 0, size as nat)
                    &&& final(self).free() == old(self).free().difference(range(h as int, h + c))
                } else {
                    match first_order(m, fit_order(size as nat), max) {
                        Some(o) => {
                            &&& r matches Some((p, n)) && n == size && m.contains_key(p) && m[p]
                                == o && (forall|t: usize|
                                m.contains_key(t) && #[trigger] m[t] == o ==> p <= t)
                                && final(self).chunks() == m.remove(p).union_prefer_right(
                                decompose((p + size) as nat, (exp2(o) - size) as nat, max),
                            ) && final(self).free() == old(self).free().difference(
                                range(p as int, p + size),
                            )
                        },
                        None => r == None::<(usize, usize)> && final(self).chunks() == m,
                    }
                }
            }),
    {
        let ghost m = self.backref@;
        let ghost max = self.max_order as nat;
        if let Some(hope) = hope {
            let chain = self.chain_at(size, hope);
            if chain > size / 2 {
                let allocated = if chain < size {
                    chain
                } else {
                    size
                };
                let mut p: usize = 0;
                proof {
                    lemma_chain_ge(m, hope as nat, 0, size as nat);
                    assert(range(hope as int, hope as int) =~= Set::<int>::empty());
                    assert(free_of(m).difference(Set::<int>::empty()) =~= free_of(m));
                }
                while p < allocated
                    invariant
                        self.wf(),
                        self.max_order == max,
                        p <= chain,
                        allocated <= size,
                        allocated <= chain,
                        chain_from(m, hope as nat, 0, size as nat) == chain,
                        chain_from(self.backref@, hope as nat, p as nat, size as nat) == chain,
                        remove_chain(self.backref@, hope as nat, p as nat, size as nat)
                            == remove_chain(m, hope as nat, 0, size as nat),
                        free_of(self.backref@) == free_of(m).difference(
                            range(hope as int, hope + p),
                        ),
                        forall|x: int| hope <= x < hope + p ==> free_of(m).contains(x),
                        hope + size <= usize::MAX + 1,
                    decreases chain - p,
                {
                    let ghost cur = self.backref@;
                    proof {
                        if !(hope + p <= usize::MAX && cur.contains_key((hope + p) as usize)) {
                            assert(chain_from(cur, hope as nat, p as nat, size as nat) == p);
                        }
                    }
                    let order = self.remove_chunk(hope + p);
                    let step = exp2_usize(order);
                    proof {
                        lemma_exp2_pos(order as nat);
                        let k = (hope + p) as usize;
                        let p2 = (p + step) as nat;
                        lemma_chain_remove_other(cur, hope as nat, p2, size as nat, k);
                        lemma_chain_ge(cur, hope as nat, p2, size as nat);
                        assert(range(hope as int, hope + p).union(range(k as int, k + step))
                            =~= range(hope as int, hope + p2));
                        assert(free_of(m).difference(range(hope as int, hope + p)).difference(
                            range(k as int, k + step),
                        ) =~= free_of(m).difference(range(hope as int, hope + p2)));
                        assert forall|x: int| hope <= x < hope + p2 implies free_of(m).contains(x) by {
                            if x >= hope + p {
                                assert(in_chunk(cur, k, x));
                                assert(free_of(cur).contains(x));
                            }
                        }
                    }
                    if p + step <= chain {
                        p = p + step;
                    } else {
                        proof {
                            assert(false);
                        }
                        let rest = chain - p;
                        p = p + rest;
                    }
                }
                proof {
                    let cur = self.backref@;
                    if p < chain {
                        assert(chain_from(cur, hope as nat, p as nat, size as nat) == p as nat);
                    }
                    lemma_chain_base(cur, hope as nat, p as nat, size as nat);
                    assert(allocated >= 1);
                }
                return Some((hope, allocated));
            }
        }
        proof {
            assert(!hope_taken(m, hope, size as nat));
        }
        let fit = self.fit_order_for(size);
        let mut order = fit;
        proof {
            if fit > max {
                lemma_first_order_past(m, fit_order(size as nat), max);
            }
        }
        while order <= self.max_order
            invariant
                self.wf(),
                self.backref@ == m,
                *self == *old(self),
                self.max_order == max,
                m == old(self).chunks(),
                max == old(self).max_order_spec(),
                !hope_taken(m, hope, size as nat),
                size >= 1,
                fit <= order,
                fit <= max ==> fit == fit_order(size as nat),
                order <= max + 1,
                fit <= max ==> first_order(m, order as nat, max) == first_order(
                    m,
                    fit_order(size as nat),
                    max,
                ),
            decreases max + 1 - order,
        {
            match btree_set_first(&self.buddies[order]) {
                Some(p) => {
                    proof {
                        assert(self.buddies@[order as int]@.contains(p));
                        assert(has_order(m, order as nat));
                        assert(first_order(m, order as nat, max) == Some(order as nat));
                        assert forall|t: usize| m.contains_key(t) && #[trigger] m[t]
                            == order implies p <= t by {
                            assert(self.buddies@[order as int]@.contains(t));
                        }
                        lemma_exp2_monotone(fit as nat, order as nat);
                        lemma_fit_from_exp2(size as nat, 0);
                    }
                    let o = self.remove_chunk(p);
                    let e = exp2_usize(o);
                    let ghost mid = self.free();
                    proof {
                        assert forall|x: int| p + size <= x < p + size + (e - size) implies !mid.contains(x) by {}
                    }
                    self.push_chunk(p + size, e - size);
                    proof {
                        assert forall|x: int| range(p as int, p + e).contains(x) implies free_of(m).contains(x) by {
                            assert(in_chunk(m, p, x));
                        }
                        assert(free_of(m).difference(range(p as int, p + e)).union(
                            range(p + size, p + size + (e - size)),
                        ) =~= free_of(m).difference(range(p as int, p + size)));
                        assert(o == order);
                        assert(self.max_order == max);
                        assert(self.chunks() == m.remove(p).union_prefer_right(
                            decompose((p + size) as nat, (exp2(o as nat) - size) as nat, max)));
                        assert(self.free() == free_of(m).difference(range(p as int, p + size)));
                        assert(first_order(m, fit_order(size as nat), max) == Some(order as nat));
                    }
                    return Some((p, size));
                },
                None => {
                    proof {
                        if has_order(m, order as nat) {
                            let s = choose|s: usize| m.contains_key(s) && #[trigger] m[s] == order;
                            assert(self.buddies@[order as int]@.contains(s));
                        }
                    }
                    order = order + 1;
                },
            }
        }
        proof {
            if fit <= max {
                assert(first_order(m, order as nat, max) == None::<nat>);
            }
        }
        None
    }
}

/// Whether `try_allocate` takes the run of chunks that starts at the hoped-for index.
pub open spec fn hope_taken(m: Map<usize, usize>, hope: Option<usize>, size: nat) -> bool {
    &&& hope is Some
    &&& chain_from(m, hope->0 as nat, 0, size) > size / 2
}

/// The first order from `o` up to `max` that has a chunk in `m`.
pub open spec fn first_order(m: Map<usize, usize>, o: nat, max: nat) -> Option<nat>
    decreases max + 1 - o,
{
    if o > max {
        None
    } else if has_order(m, o) {
        Some(o)
    } else {
        first_order(m, o + 1, max)
    }
}

pub proof fn lemma_first_order_past(m: Map<usize, usize>, o: nat, max: nat)
    requires
        o > max,
    ensures
        first_order(m, o, max) == None::<nat>,
{
}

pub proof fn lemma_fit_from_ge(size: nat, o: nat)
    ensures
        fit_from(size, o) >= o,
    decreases (if exp2(o) < size {
        size - exp2(o)
    } else {
        0
    }),
{
    if exp2(o) < size {
        lemma_exp2_pos(o);
        lemma_fit_from_ge(size, o + 1);
    }
}

pub proof fn lemma_fit_from_exp2(size: nat, o: nat)
    ensures
        exp2(fit_from(size, o)) >= size,
    decreases (if exp2(o) < size {
        size - exp2(o)
    } else {
        0
    }),
{
    if exp2(o) < size {
        lemma_exp2_pos(o);
        lemma_fit_from_exp2(size, o + 1);
    }
}

pub proof fn lemma_chain_ge(m: Map<usize, usize>, h: nat, c: nat, size: nat)
    ensures
        chain_from(m, h, c, size) >= c,
        chain_from(m, h, c, size) > c ==> c < size && h + c <= usize::MAX && m.contains_key(
            (h + c) as usize,
        ),
    decreases (if c < size {
        size - c
    } else {
        0
    }),
{
    if c < size && h + c <= usize::MAX && m.contains_key((h + c) as usize) {
        lemma_exp2_pos(m[(h + c) as usize] as nat);
        lemma_chain_ge(m, h, c + exp2(m[(h + c) as usize] as nat), size);
    }
}

pub proof fn lemma_chain_base(m: Map<usize, usize>, h: nat, c: nat, size: nat)
    requires
        chain_from(m, h, c, size) == c,
    ensures
        remove_chain(m, h, c, size) == m,
{
    if c < size && h + c <= usize::MAX && m.contains_key((h + c) as usize) {
        lemma_exp2_pos(m[(h + c) as usize] as nat);
        lemma_chain_ge(m, h, c + exp2(m[(h + c) as usize] as nat), size);
    }
}

/// Removing a chunk that starts before `h + c` changes neither the run from
/// `h + c` nor what is left once that run is removed, but for that chunk.
pub proof fn lemma_chain_remove_other(m: Map<usize, usize>, h: nat, c: nat, size: nat, k: usize)
    requires
        k < h + c,
    ensures
        chain_from(m.remove(k), h, c, size) == chain_from(m, h, c, size),
        remove_chain(m.remove(k), h, c, size) == remove_chain(m, h, c, size).remove(k),
    decreases (if c < size {
        size - c
    } else {
        0
    }),
{
    let m2 = m.remove(k);
    if c < size && h + c <= usize::MAX && m.contains_key((h + c) as usize) {
        let key = (h + c) as usize;
        assert(m2.contains_key(key));
        assert(m2[key] == m[key]);
        lemma_exp2_pos(m[key] as nat);
        lemma_chain_remove_other(m, h, c + exp2(m[key] as nat), size, k);
        assert(remove_chain(m2, h, c, size) =~= remove_chain(m, h, c, size).remove(k));
    } else {
        assert(!(c < size && h + c <= usize::MAX && m2.contains_key((h + c) as usize)));
    }
}

/// Adding a chunk that is not yet in `m` adds its range to the free set.
pub proof fn lemma_free_insert(m: Map<usize, usize>, s: usize, o: usize)
    requires
        !m.contains_key(s),
    ensures
        free_of(m.insert(s, o)) == free_of(m).union(range(s as int, s + exp2(o as nat))),
{
    let m2 = m.insert(s, o);
    assert forall|x: int| free_of(m2).contains(x) <==> free_of(m).union(
        range(s as int, s + exp2(o as nat)),
    ).contains(x) by {
        if free_of(m2).contains(x) {
            let t = choose|t: usize| #[trigger] in_chunk(m2, t, x);
            if t != s {
                assert(in_chunk(m, t, x));
            }
        }
        if free_of(m).contains(x) {
            let t = choose|t: usize| #[trigger] in_chunk(m, t, x);
            assert(in_chunk(m2, t, x));
        }
        if range(s as int, s + exp2(o as nat)).contains(x) {
            assert(in_chunk(m2, s, x));
        }
    }
    assert(free_of(m2) =~= free_of(m).union(range(s as int, s + exp2(o as nat))));
}

/// Removing a chunk of a map whose chunks do not overlap removes exactly its range.
pub proof fn lemma_free_remove(m: Map<usize, usize>, s: usize)
    requires
        m.contains_key(s),
        chunks_disjoint(m),
    ensures
        free_of(m.remove(s)) == free_of(m).difference(range(s as int, s + exp2(m[s] as nat))),
{
    let m2 = m.remove(s);
    assert forall|x: int| free_of(m2).contains(x) <==> free_of(m).difference(
        range(s as int, s + exp2(m[s] as nat)),
    ).contains(x) by {
        if free_of(m2).contains(x) {
            let t = choose|t: usize| #[trigger] in_chunk(m2, t, x);
            assert(in_chunk(m, t, x));
            assert(m[t] == m2[t]);
        }
        if free_of(m).contains(x) && !range(s as int, s + exp2(m[s] as nat)).contains(x) {
            let t = choose|t: usize| #[trigger] in_chunk(m, t, x);
            assert(t != s);
            assert(in_chunk(m2, t, x));
        }
    }
    assert(free_of(m2) =~= free_of(m).difference(range(s as int, s + exp2(m[s] as nat))));
}


/// No block is handed out twice: runs that two allocations in a row gave,
/// each taking free blocks and leaving no block free that was not free
/// before, do not overlap.
pub proof fn lemma_runs_disjoint(
    a: BlockGroupBuddy,
    b: BlockGroupBuddy,
    c: BlockGroupBuddy,
    p1: usize,
    n1: usize,
    p2: usize,
    n2: usize,
)
    requires
        b.free().subset_of(a.free()),
        forall|x: int| p1 <= x < p1 + n1 ==> a.free().contains(x) && !b.free().contains(x),
        c.free().subset_of(b.free()),
        forall|x: int| p2 <= x < p2 + n2 ==> b.free().contains(x) && !c.free().contains(x),
    ensures
        range(p1 as int, p1 + n1).disjoint(range(p2 as int, p2 + n2)),
{
    assert forall|x: int| #[trigger] range(p1 as int, p1 + n1).contains(x) implies !range(p2 as int, p2 + n2).contains(x) by {
        if p2 <= x < p2 + n2 {
            assert(b.free().contains(x));
        }
    }
}


/// When no order from `o` on has a chunk, every chunk is below order `o`.
proof fn lemma_orders_below(m: Map<usize, usize>, o: nat, max: nat)
    requires
        first_order(m, o, max) is None,
        chunks_bounded(m, max),
    ensures
        forall|s: usize| m.contains_key(s) ==> #[trigger] m[s] < o,
    decreases max + 1 - o,
{
    if o <= max {
        lemma_orders_below(m, o + 1, max);
        assert forall|s: usize| m.contains_key(s) implies #[trigger] m[s] < o by {
            if m[s] == o {
                assert(has_order(m, o));
            }
        }
    }
}

impl BlockGroupBuddy {
    /// An allocator that finds no chunk for a single block has no free block.
    pub proof fn lemma_no_chunk_no_free(&self)
        requires
            self.wf(),
            first_order(self.chunks(), fit_order(1), self.max_order_spec()) is None,
        ensures
            self.free() == Set::<int>::empty(),
    {
        assert(fit_order(1) == 0);
        lemma_orders_below(self.chunks(), 0, self.max_order_spec());
        assert forall|x: int| !self.free().contains(x) by {
            if self.free().contains(x) {
                let s = choose|s: usize| #[trigger] in_chunk(self.chunks(), s, x);
                assert(self.chunks().contains_key(s));
            }
        }
        assert(self.free() =~= Set::<int>::empty());
    }
}

} // verus!
