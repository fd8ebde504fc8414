use vstd::prelude::*;

verus! {

/// One restored or source file: a relative path and its bytes.
pub struct SourceFile {
    pub name: Vec<u8>,
    pub data: Vec<u8>,
}

/// One file of a backup: its chunk hashes in order, size and whole-file checksum.
pub struct FileEntry {
    pub name: Vec<u8>,
    pub size: usize,
    pub chunks: Vec<Vec<u8>>,
    pub checksum: Vec<u8>,
}

/// A committed backup.
pub struct Manifest {
    pub id: u64,
    pub parent: Option<u64>,
    pub timestamp: u64,
    pub files: Vec<FileEntry>,
}

/// No backup has the requested id, or none exists at all.
#[derive(Debug, Clone, Copy, PartialEq, Eq, Structural)]
pub struct NotFound;

/// Every backup id has been handed out.
#[derive(Debug, Clone, Copy, PartialEq, Eq, Structural)]
pub struct CatalogFull;

/// Whether `m` lists hash `h` among the chunks of one of its files.
pub open spec fn references(m: Manifest, h: Seq<u8>) -> bool {
    exists|i: int, j: int|
        0 <= i < m.files@.len() && 0 <= j < m.files@[i].chunks@.len()
            && #[trigger] m.files@[i].chunks@[j]@ == h
}

/// Whether some manifest of `ms` references `h`.
pub open spec fn any_references(ms: Seq<Manifest>, h: Seq<u8>) -> bool {
    exists|k: int| 0 <= k < ms.len() && references(#[trigger] ms[k], h)
}

/// Ordered record of committed backups, by increasing id.
pub struct Catalog {
    manifests: Vec<Manifest>,
    next_id: u64,
}

impl Catalog {
    pub closed spec fn view(&self) -> Seq<Manifest> {
        self.manifests@
    }

    /// The id that the next `append` hands out.
    pub closed spec fn next_id(&self) -> u64 {
        self.next_id
    }

    pub closed spec fn wf(&self) -> bool {
        &&& self.next_id >= 1
        &&& forall|i: int, j: int| 0 <= i < j < self.manifests@.len()
            ==> self.manifests@[i].id < self.manifests@[j].id
        &&& forall|i: int| 0 <= i < self.manifests@.len() ==> #[trigger] self.manifests@[i].id < self.next_id
    }

    /// Ids ascend along the catalog and stay under the next id.
    pub proof fn lemma_ids_ascend(&self)
        requires
            self.wf(),
        ensures
            forall|i: int, j: int| 0 <= i < j < self@.len() ==> self@[i].id < self@[j].id,
            forall|i: int| 0 <= i < self@.len() ==> #[trigger] self@[i].id < self.next_id(),
            self.next_id() >= 1,
    {
    }

    pub fn new() -> (r: Catalog)
        ensures
            r.wf(),
            r@ == Seq::<Manifest>::empty(),
            r.next_id() == 1,
    {
        Catalog { manifests: Vec::new(), next_id: 1 }
    }

    /// Whether another backup can be appended.
    pub fn has_room(&self) -> (r: bool)
        ensures
            r == (self.next_id() < u64::MAX),
    {
        self.next_id < u64::MAX
    }

    /// Commits a backup under the next id, with the latest backup as its parent.
    pub fn append(&mut self, files: Vec<FileEntry>, timestamp: u64) -> (r: Result<u64, CatalogFull>)
        requires
            old(self).wf(),
        ensures
            final(self).wf(),
            match r {
                Ok(id) => {
                    &&& old(self).next_id() < u64::MAX
                    &&& id == old(self).next_id()
                    &&& final(self).next_id() == id + 1
                    &&& final(self)@ == old(self)@.push(Manifest {
                        id,
                        parent: if old(self)@.len() == 0 { None } else { Some(old(self)@.last().id) },
                        timestamp,
                        files,
                    })
                },
                Err(_) => old(self).next_id() == u64::MAX && *final(self) == *old(self),
            },
    {
        if self.next_id == u64::MAX {
            return Err(CatalogFull);
        }
        let id = self.next_id;
        let parent = self.latest();
        self.manifests.push(Manifest { id, parent, timestamp, files });
        self.next_id = id + 1;
        Ok(id)
    }

    /// All backup ids, ascending.
    pub fn list(&self) -> (r: Vec<u64>)
        ensures
            r@ == self@.map_values(|m: Manifest| m.id),
    {
        let mut r: Vec<u64> = Vec::new();
        let mut i: usize = 0;
        while i < self.manifests.len()
            invariant
                i <= self.manifests@.len(),
                r@ == self.manifests@.take(i as int).map_values(|m: Manifest| m.id),
            decreases self.manifests@.len() - i,
        {
            r.push(self.manifests[i].id);
            i += 1;
            assert(r@ =~= self.manifests@.take(i as int).map_values(|m: Manifest| m.id));
        }
        assert(self.manifests@.take(i as int) =~= self.manifests@);
        r
    }

    /// The id of the newest backup.
    pub fn latest(&self) -> (r: Option<u64>)
        ensures
            r == (if self@.len() == 0 { None } else { Some(self@.last().id) }),
    {
        if self.manifests.len() == 0 {
            None
        } else {
            Some(self.manifests[self.manifests.len() - 1].id)
        }
    }

    /// Position of the backup with this id.
    pub fn position(&self, id: u64) -> (r: Option<usize>)
        ensures
            match r {
                Some(i) => i < self@.len() && self@[i as int].id == id,
                None => forall|k: int| 0 <= k < self@.len() ==> #[trigger] self@[k].id != id,
            },
    {
        let mut i: usize = 0;
        while i < self.manifests.len()
            invariant
                i <= self.manifests@.len(),
                forall|k: int| 0 <= k < i ==> #[trigger] self.manifests@[k].id != id,
            decreases self.manifests@.len() - i,
        {
            if self.manifests[i].id == id {
                return Some(i);
            }
            i += 1;
        }
        None
    }

    pub fn get(&self, id: u64) -> (r: Result<&Manifest, NotFound>)
        ensures
            match r {
                Ok(m) => exists|k: int| 0 <= k < self@.len() && self@[k] == *m && m.id == id,
                Err(_) => forall|k: int| 0 <= k < self@.len() ==> #[trigger] self@[k].id != id,
            },
    {
        match self.position(id) {
            Some(i) => Ok(&self.manifests[i]),
            None => Err(NotFound),
        }
    }

    /// The backup at position `i`.
    pub fn get_at(&self, i: usize) -> (r: &Manifest)
        requires
            i < self@.len(),
        ensures
            *r == self@[i as int],
    {
        &self.manifests[i]
    }

    /// Removes the catalog entry only; chunks stay until collected.
    pub fn delete(&mut self, id: u64) -> (r: Result<(), NotFound>)
        requires
            old(self).wf(),
        ensures
            final(self).wf(),
            final(self).next_id() == old(self).next_id(),
            match r {
                Ok(_) => exists|k: int| 0 <= k < old(self)@.len() && old(self)@[k].id == id
                    && final(self)@ == old(self)@.remove(k),
                Err(_) => forall|k: int| 0 <= k < old(self)@.len() ==> #[trigger] old(self)@[k].id != id,
            },
    {
        match self.position(id) {
            Some(i) => {
                let ghost before = self.manifests@;
                self.manifests.remove(i);
                assert(self.manifests@ == before.remove(i as int));
                Ok(())
            },
            None => Err(NotFound),
        }
    }

    /// Whether any committed backup references chunk `h`.
    pub fn is_referenced(&self, h: &[u8]) -> (r: bool)
        ensures
            r == any_references(self@, h@),
    {
        let mut k: usize = 0;
        while k < self.manifests.len()
            invariant
                k <= self.manifests@.len(),
                forall|q: int| 0 <= q < k ==> !references(#[trigger] self.manifests@[q], h@),
            decreases self.manifests@.len() - k,
        {
            if manifest_references(&self.manifests[k], h) {
                return true;
            }
            k += 1;
        }
        false
    }
}

/// Whether manifest `m` references chunk `h`.
pub fn manifest_references(m: &Manifest, h: &[u8]) -> (r: bool)
    ensures
        r == references(*m, h@),
{
    let mut i: usize = 0;
    while i < m.files.len()
        invariant
            i <= m.files@.len(),
            forall|a: int, b: int| 0 <= a < i && 0 <= b < m.files@[a].chunks@.len()
                ==> #[trigger] m.files@[a].chunks@[b]@ != h@,
        decreases m.files@.len() - i,
    {
        let mut j: usize = 0;
        while j < m.files[i].chunks.len()
            invariant
                i < m.files@.len(),
                j <= m.files@[i as int].chunks@.len(),
                forall|a: int, b: int| 0 <= a < i && 0 <= b < m.files@[a].chunks@.len()
                    ==> #[trigger] m.files@[a].chunks@[b]@ != h@,
                forall|b: int| 0 <= b < j ==> #[trigger] m.files@[i as int].chunks@[b]@ != h@,
            decreases m.files@[i as int].chunks@.len() - j,
        {
            if crate::digest::bytes_eq(m.files[i].chunks[j].as_slice(), h) {
                return true;
            }
            j += 1;
        }
        i += 1;
    }
    false
}

} // verus!
