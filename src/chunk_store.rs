use vstd::prelude::*;
use crate::digest::{sha256_of, bytes_eq};

verus! {

/// `get` on a hash that the store does not hold.
#[derive(Debug, Clone, Copy, PartialEq, Eq, Structural)]
pub struct ChunkMissing;

/// Content-addressed storage of immutable chunks: each hash maps to the bytes it digests.
pub struct ChunkStore {
    entries: Vec<(Vec<u8>, Vec<u8>)>,
    contents: Ghost<Map<Seq<u8>, Seq<u8>>>,
}

impl ChunkStore {
    /// The chunks held, by hash.
    pub closed spec fn view(&self) -> Map<Seq<u8>, Seq<u8>> {
        self.contents@
    }

    pub closed spec fn wf(&self) -> bool {
        &&& forall|i: int| 0 <= i < self.entries@.len() ==> {
            &&& #[trigger] self.contents@.contains_key(self.entries@[i].0@)
            &&& self.contents@[self.entries@[i].0@] == self.entries@[i].1@
        }
        &&& forall|h: Seq<u8>| #[trigger] self.contents@.contains_key(h)
            ==> exists|i: int| 0 <= i < self.entries@.len() && self.entries@[i].0@ == h
        &&& forall|i: int, j: int| 0 <= i < j < self.entries@.len()
            ==> self.entries@[i].0@ != self.entries@[j].0@
        &&& forall|h: Seq<u8>| #[trigger] self.contents@.contains_key(h)
            ==> sha256_of(self.contents@[h]) == h
        &&& self.contents@.dom().finite()
    }

    /// Every chunk is stored under its own digest.
    pub proof fn lemma_content_addressed(&self)
        requires
            self.wf(),
        ensures
            forall|h: Seq<u8>| #[trigger] self@.contains_key(h) ==> sha256_of(self@[h]) == h,
            self@.dom().finite(),
    {
    }

    pub fn new() -> (r: ChunkStore)
        ensures
            r.wf(),
            r@ == Map::<Seq<u8>, Seq<u8>>::empty(),
    {
        ChunkStore { entries: Vec::new(), contents: Ghost(Map::empty()) }
    }

    fn find(&self, hash: &[u8]) -> (r: Option<usize>)
        requires
            self.wf(),
        ensures
            match r {
                Some(i) => i < self.entries@.len() && self.entries@[i as int].0@ == hash@,
                None => !self@.contains_key(hash@),
            },
    {
        let mut i: usize = 0;
        while i < self.entries.len()
            invariant
                self.wf(),
                i <= self.entries@.len(),
                forall|k: int| 0 <= k < i ==> self.entries@[k].0@ != hash@,
            decreases self.entries@.len() - i,
        {
            if bytes_eq(self.entries[i].0.as_slice(), hash) {
                return Some(i);
            }
            i += 1;
        }
        None
    }

    /// Number of chunks held.
    pub fn len(&self) -> (r: usize)
        requires
            self.wf(),
        ensures
            r == self@.len(),
    {
        proof { self.lemma_len(); }
        self.entries.len()
    }

    proof fn lemma_len(&self)
        requires
            self.wf(),
        ensures
            self@.len() == self.entries@.len(),
    {
        let keys = Seq::new(self.entries@.len(), |i: int| self.entries@[i].0@);
        assert(keys.no_duplicates());
        keys.unique_seq_to_set();
        assert forall|h: Seq<u8>| #[trigger] self@.dom().contains(h) <==> keys.to_set().contains(h) by {
            if self@.dom().contains(h) {
                let i = choose|i: int| 0 <= i < self.entries@.len() && self.entries@[i].0@ == h;
                assert(keys[i] == h);
            }
            if keys.to_set().contains(h) {
                let i = choose|i: int| 0 <= i < keys.len() && keys[i] == h;
                assert(self@.contains_key(self.entries@[i].0@));
            }
        }
        assert(self@.dom() =~= keys.to_set());
    }

    /// The hashes of all chunks held, each once.
    pub fn hashes(&self) -> (r: Vec<Vec<u8>>)
        requires
            self.wf(),
        ensures
            forall|h: Seq<u8>| self@.contains_key(h)
                <==> exists|k: int| 0 <= k < r@.len() && (#[trigger] r@[k])@ == h,
    {
        let mut r: Vec<Vec<u8>> = Vec::new();
        let mut i: usize = 0;
        while i < self.entries.len()
            invariant
                self.wf(),
                i <= self.entries@.len(),
                r@.len() == i,
                forall|k: int| 0 <= k < i ==> (#[trigger] r@[k])@ == self.entries@[k].0@,
            decreases self.entries@.len() - i,
        {
            let h = self.entries[i].0.clone();
            assert(h@ =~= self.entries@[i as int].0@);
            r.push(h);
            i += 1;
        }
        assert forall|h: Seq<u8>| self@.contains_key(h)
            <==> exists|k: int| 0 <= k < r@.len() && (#[trigger] r@[k])@ == h by {
            if self@.contains_key(h) {
                let k = choose|k: int| 0 <= k < self.entries@.len() && self.entries@[k].0@ == h;
                assert(r@[k]@ == h);
            }
            if exists|k: int| 0 <= k < r@.len() && (#[trigger] r@[k])@ == h {
                let k = choose|k: int| 0 <= k < r@.len() && (#[trigger] r@[k])@ == h;
                assert(self.contents@.contains_key(self.entries@[k].0@));
            }
        }
        r
    }

    pub fn contains(&self, hash: &[u8]) -> (r: bool)
        requires
            self.wf(),
        ensures
            r == self@.contains_key(hash@),
    {
        self.find(hash).is_some()
    }

    pub fn get(&self, hash: &[u8]) -> (r: Result<Vec<u8>, ChunkMissing>)
        requires
            self.wf(),
        ensures
            match r {
                Ok(b) => self@.contains_key(hash@) && b@ == self@[hash@],
                Err(_) => !self@.contains_key(hash@),
            },
    {
        match self.find(hash) {
            Some(i) => {
                let b = self.entries[i].1.clone();
                assert(b@ =~= self.entries@[i as int].1@);
                assert(self.contents@.contains_key(self.entries@[i as int].0@));
                Ok(b)
            },
            None => Err(ChunkMissing),
        }
    }

    /// Stores `bytes` under `hash`; a hash already present is left as it is.
    pub fn put(&mut self, hash: Vec<u8>, bytes: Vec<u8>)
        requires
            old(self).wf(),
            hash@ == sha256_of(bytes@),
        ensures
            final(self).wf(),
            old(self)@.contains_key(hash@) ==> final(self)@ == old(self)@,
            !old(self)@.contains_key(hash@) ==> final(self)@ == old(self)@.insert(hash@, bytes@),
    {
        if self.find(hash.as_slice()).is_some() {
            return;
        }
        let ghost old_entries = self.entries@;
        let ghost (hv, bv) = (hash@, bytes@);
        self.entries.push((hash, bytes));
        self.contents = Ghost(self.contents@.insert(hv, bv));
        assert forall|h: Seq<u8>| #[trigger] self.contents@.contains_key(h)
            implies exists|i: int| 0 <= i < self.entries@.len() && self.entries@[i].0@ == h by {
            if h != hv {
                let i = choose|i: int| 0 <= i < old_entries.len() && old_entries[i].0@ == h;
                assert(self.entries@[i] == old_entries[i]);
            } else {
                assert(self.entries@[old_entries.len() as int].0@ == h);
            }
        }
    }

    /// Removes the chunk under `hash`, if any.
    pub fn delete(&mut self, hash: &[u8])
        requires
            old(self).wf(),
        ensures
            final(self).wf(),
            final(self)@ == old(self)@.remove(hash@),
    {
        match self.find(hash) {
            None => {
                assert(self.contents@.remove(hash@) =~= self.contents@);
            },
            Some(i) => {
                let ghost old_entries = self.entries@;
                self.entries.remove(i);
                self.contents = Ghost(self.contents@.remove(hash@));
                assert forall|h: Seq<u8>| #[trigger] self.contents@.contains_key(h)
                    implies exists|k: int| 0 <= k < self.entries@.len() && self.entries@[k].0@ == h by {
                    let k = choose|k: int| 0 <= k < old_entries.len() && old_entries[k].0@ == h;
                    if k < i {
                        assert(self.entries@[k] == old_entries[k]);
                    } else {
                        assert(k != i);
                        assert(self.entries@[k - 1] == old_entries[k]);
                    }
                }
                assert forall|k: int| 0 <= k < self.entries@.len() implies {
                    &&& #[trigger] self.contents@.contains_key(self.entries@[k].0@)
                    &&& self.contents@[self.entries@[k].0@] == self.entries@[k].1@
                } by {
                    if k < i {
                        assert(self.entries@[k] == old_entries[k]);
                    } else {
                        assert(self.entries@[k] == old_entries[k + 1]);
                    }
                }
            },
        }
    }
}

} // verus!
