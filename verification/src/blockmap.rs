//! Block images keyed by block address.
use vstd::prelude::*;

verus! {

/// Block images keyed by their address, each address at most once.
pub struct BlockMap {
    entries: Vec<(u64, Vec<u8>)>,
}

impl View for BlockMap {
    type V = Map<u64, Seq<u8>>;

    closed spec fn view(&self) -> Map<u64, Seq<u8>> {
        Map::new(
            |k: u64| exists|i: int| 0 <= i < self.entries@.len() && #[trigger] self.entries@[i].0 == k,
            |k: u64| self.entries@[self.index_of(k)].1@,
        )
    }
}

impl BlockMap {
    /// The position of the entry of `k`.
    closed spec fn index_of(&self, k: u64) -> int {
        choose|i: int| 0 <= i < self.entries@.len() && #[trigger] self.entries@[i].0 == k
    }

    /// Each address occurs once.
    pub closed spec fn wf(&self) -> bool {
        forall|i: int, j: int|
            0 <= i < self.entries@.len() && 0 <= j < self.entries@.len() && i != j ==> #[trigger] self.entries@[i].0
                != #[trigger] self.entries@[j].0
    }

    /// The addresses in the order they were first written.
    pub closed spec fn keys(&self) -> Seq<u64> {
        self.entries@.map_values(|e: (u64, Vec<u8>)| e.0)
    }

    /// An empty map.
    pub fn new() -> (r: BlockMap)
        ensures
            r.wf(),
            r@ == Map::<u64, Seq<u8>>::empty(),
    {
        let r = BlockMap { entries: Vec::new() };
        proof {
            assert(r@ =~= Map::<u64, Seq<u8>>::empty());
        }
        r
    }

    fn find(&self, k: u64) -> (r: Option<usize>)
        requires
            self.wf(),
        ensures
            match r {
                Some(i) => i < self.entries@.len() && self.entries@[i as int].0 == k,
                None => !self@.contains_key(k),
            },
    {
        let mut i: usize = 0;
        while i < self.entries.len()
            invariant
                i <= self.entries@.len(),
                forall|j: int| 0 <= j < i ==> #[trigger] self.entries@[j].0 != k,
            decreases self.entries@.len() - i,
        {
            if self.entries[i].0 == k {
                return Some(i);
            }
            i = i + 1;
        }
        None
    }

    proof fn lemma_index(&self, i: int)
        requires
            self.wf(),
            0 <= i < self.entries@.len(),
        ensures
            self@.contains_key(self.entries@[i].0),
            self@[self.entries@[i].0] == self.entries@[i].1@,
    {
        let k = self.entries@[i].0;
        assert(self@.contains_key(k));
        let j = self.index_of(k);
        assert(self.entries@[j].0 == k);
    }

    /// The image of block `k`, when there is one.
    pub fn get(&self, k: u64) -> (r: Option<Vec<u8>>)
        requires
            self.wf(),
        ensures
            match r {
                Some(v) => self@.contains_key(k) && v@ == self@[k],
                None => !self@.contains_key(k),
            },
    {
        match self.find(k) {
            Some(i) => {
                proof {
                    self.lemma_index(i as int);
                }
                Some(self.entries[i].1.clone())
            },
            None => None,
        }
    }

    /// Sets the image of block `k`.
    pub fn put(&mut self, k: u64, v: Vec<u8>)
        requires
            old(self).wf(),
        ensures
            final(self).wf(),
            final(self)@ == old(self)@.insert(k, v@),
    {
        let ghost vv = v@;
        match self.find(k) {
            Some(i) => {
                self.entries.set(i, (k, v));
                proof {
                    assert forall|key: u64| #![auto] self@.contains_key(key) == old(self)@.insert(k, vv).contains_key(key) by {
                        if old(self)@.contains_key(key) {
                            let j = old(self).index_of(key);
                            assert(self.entries@[j].0 == key);
                        }
                        if self@.contains_key(key) {
                            let j = self.index_of(key);
                            if j != i {
                                assert(old(self).entries@[j].0 == key);
                            }
                        }
                    }
                    assert forall|key: u64| #![auto] self@.contains_key(key) implies self@[key] == old(self)@.insert(k, vv)[key] by {
                        let j = self.index_of(key);
                        if key == k {
                            assert(j == i);
                        } else {
                            assert(j != i);
                            old(self).lemma_index(j);
                        }
                    }
                    assert(self@ =~= old(self)@.insert(k, vv));
                }
            },
            None => {
                self.entries.push((k, v));
                proof {
                    let n = old(self).entries@.len() as int;
                    assert forall|key: u64| #![auto] self@.contains_key(key) == old(self)@.insert(k, vv).contains_key(key) by {
                        if old(self)@.contains_key(key) {
                            let j = old(self).index_of(key);
                            assert(self.entries@[j].0 == key);
                        }
                        if self@.contains_key(key) && key != k {
                            let j = self.index_of(key);
                            assert(j != n);
                            assert(old(self).entries@[j].0 == key);
                        }
                        if key == k {
                            assert(self.entries@[n].0 == k);
                        }
                    }
                    assert forall|key: u64| #![auto] self@.contains_key(key) implies self@[key] == old(self)@.insert(k, vv)[key] by {
                        let j = self.index_of(key);
                        if key == k {
                            assert(j == n);
                        } else {
                            assert(j != n);
                            old(self).lemma_index(j);
                        }
                    }
                    assert(self@ =~= old(self)@.insert(k, vv));
                }
            },
        }
    }

    /// The number of blocks held.
    pub fn len(&self) -> (r: usize)
        requires
            self.wf(),
        ensures
            r == self.keys().len(),
    {
        self.entries.len()
    }

    /// The address and image of the `i`-th block held.
    pub fn entry(&self, i: usize) -> (r: (u64, Vec<u8>))
        requires
            self.wf(),
            i < self.keys().len(),
        ensures
            r.0 == self.keys()[i as int],
            self@.contains_key(r.0),
            r.1@ == self@[r.0],
    {
        proof {
            self.lemma_index(i as int);
        }
        (self.entries[i].0, self.entries[i].1.clone())
    }

    /// Every held address is among `keys`, once.
    pub proof fn lemma_keys(&self)
        requires
            self.wf(),
        ensures
            self.keys().no_duplicates(),
            forall|k: u64| self@.contains_key(k) <==> self.keys().contains(k),
    {
        assert forall|k: u64| self@.contains_key(k) <==> self.keys().contains(k) by {
            if self@.contains_key(k) {
                let j = self.index_of(k);
                assert(self.keys()[j] == k);
            }
            if self.keys().contains(k) {
                let j = choose|j: int| 0 <= j < self.keys().len() && self.keys()[j] == k;
                assert(self.entries@[j].0 == k);
            }
        }
    }
}

} // verus!
