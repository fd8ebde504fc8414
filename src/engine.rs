use vstd::prelude::*;
use crate::digest::{sha256_of, chunk_digest, bytes_eq};
use crate::chunk_store::ChunkStore;
use crate::catalog::{
    Catalog, FileEntry, Manifest, SourceFile, NotFound, references, any_references,
};

verus! {

/// Fixed-size pieces of `d`, each `cs` bytes but the last; none for empty data.
pub open spec fn split(d: Seq<u8>, cs: nat) -> Seq<Seq<u8>>
    decreases d.len(),
{
    if cs == 0 || d.len() == 0 {
        Seq::empty()
    } else if d.len() <= cs {
        seq![d]
    } else {
        seq![d.take(cs as int)] + split(d.skip(cs as int), cs)
    }
}

/// Hashes of the pieces of `d`, in order.
pub open spec fn chunk_hashes(d: Seq<u8>, cs: nat) -> Seq<Seq<u8>> {
    split(d, cs).map_values(|p: Seq<u8>| sha256_of(p))
}

/// Whether `h` is the hash of some piece of some file of `files`.
pub open spec fn is_piece_hash(files: Seq<SourceFile>, cs: nat, h: Seq<u8>) -> bool {
    exists|i: int, j: int|
        0 <= i < files.len() && 0 <= j < split(files[i].data@, cs).len()
            && #[trigger] sha256_of(split(files[i].data@, cs)[j]) == h
}

/// The entry that a backup records for `f`.
pub open spec fn entry_of(e: FileEntry, f: SourceFile, cs: nat) -> bool {
    &&& e.name@ == f.name@
    &&& e.size == f.data@.len()
    &&& e.checksum@ == sha256_of(f.data@)
    &&& e.chunks@.map_values(|c: Vec<u8>| c@) == chunk_hashes(f.data@, cs)
}

/// How a backup of `files` changes the chunks held: the old ones stay as they were, and
/// each new hash holds a piece that digests to it.
pub open spec fn stored_after(
    before: Map<Seq<u8>, Seq<u8>>,
    after: Map<Seq<u8>, Seq<u8>>,
    files: Seq<SourceFile>,
    cs: nat,
) -> bool {
    &&& forall|h: Seq<u8>| #[trigger] after.contains_key(h)
        <==> (before.contains_key(h) || is_piece_hash(files, cs, h))
    &&& forall|h: Seq<u8>| before.contains_key(h) ==> #[trigger] after[h] == before[h]
    &&& forall|h: Seq<u8>| #[trigger] after.contains_key(h) && !before.contains_key(h)
        ==> exists|i: int, j: int|
            0 <= i < files.len() && 0 <= j < split(files[i].data@, cs).len()
                && split(files[i].data@, cs)[j] == after[h]
}

/// Failure of `create_backup`.
#[derive(Debug, Clone, Copy, PartialEq, Eq, Structural)]
pub enum BackupError {
    /// Every backup id has been handed out.
    CatalogFull,
}

/// Creates, restores, verifies and collects backups over one chunk store and catalog.
pub struct BackupEngine {
    pub store: ChunkStore,
    pub catalog: Catalog,
    pub chunk_size: usize,
}

/// Copy of `d[lo..hi]`.
fn copy_range(d: &[u8], lo: usize, hi: usize) -> (r: Vec<u8>)
    requires
        lo <= hi <= d@.len(),
    ensures
        r@ == d@.subrange(lo as int, hi as int),
{
    let mut r: Vec<u8> = Vec::new();
    let mut i: usize = lo;
    while i < hi
        invariant
            lo <= i <= hi <= d@.len(),
            r@ == d@.subrange(lo as int, i as int),
        decreases hi - i,
    {
        r.push(d[i]);
        i += 1;
        assert(r@ =~= d@.subrange(lo as int, i as int));
    }
    r
}

/// Splits `f` into pieces, stores those not yet held, and returns the file's entry.
fn store_file(store: &mut ChunkStore, f: &SourceFile, cs: usize) -> (e: FileEntry)
    requires
        old(store).wf(),
        cs > 0,
    ensures
        final(store).wf(),
        entry_of(e, *f, cs as nat),
        stored_after(old(store)@, final(store)@, seq![*f], cs as nat),
{
    let ghost d = f.data@;
    let ghost csn = cs as nat;
    let ghost all = split(d, csn);
    let len = f.data.len();
    let mut chunks: Vec<Vec<u8>> = Vec::new();
    let mut pos: usize = 0;
    let ghost mut done: Seq<Seq<u8>> = Seq::empty();
    proof {
        assert(d.skip(0) =~= d);
        assert(done + split(d, csn) =~= split(d, csn));
    }
    while pos < len
        invariant
            store.wf(),
            len == d.len(),
            d == f.data@,
            csn == cs as nat,
            cs > 0,
            all == split(d, csn),
            pos <= len,
            done + split(d.skip(pos as int), csn) == all,
            chunks@.map_values(|c: Vec<u8>| c@) == done.map_values(|p: Seq<u8>| sha256_of(p)),
            forall|h: Seq<u8>| #[trigger] store@.contains_key(h)
                <==> (old(store)@.contains_key(h)
                    || exists|j: int| 0 <= j < done.len() && #[trigger] sha256_of(done[j]) == h),
            forall|h: Seq<u8>| old(store)@.contains_key(h) ==> #[trigger] store@[h] == old(store)@[h],
            forall|h: Seq<u8>| #[trigger] store@.contains_key(h) && !old(store)@.contains_key(h)
                ==> exists|j: int| 0 <= j < done.len() && done[j] == store@[h],
        decreases len - pos,
    {
        let end: usize = if len - pos <= cs { len } else { pos + cs };
        let piece = copy_range(f.data.as_slice(), pos, end);
        let ghost rest = d.skip(pos as int);
        proof {
            if len - pos <= cs {
                assert(piece@ =~= rest);
                assert(split(rest, csn) == seq![rest]);
                assert(split(d.skip(end as int), csn) == Seq::<Seq<u8>>::empty());
            } else {
                assert(piece@ =~= rest.take(cs as int));
                assert(rest.skip(cs as int) =~= d.skip(end as int));
            }
            assert(done + split(rest, csn) == done.push(piece@) + split(d.skip(end as int), csn)) by {
                assert(split(rest, csn) =~= seq![piece@] + split(d.skip(end as int), csn));
                assert(done + (seq![piece@] + split(d.skip(end as int), csn))
                    =~= done.push(piece@) + split(d.skip(end as int), csn));
            }
        }
        let h = chunk_digest(piece.as_slice());
        let ghost hv = h@;
        let ghost pv = piece@;
        let ghost old_chunks = chunks@;
        let ghost before = store@;
        if !store.contains(h.as_slice()) {
            let h2 = copy_range(h.as_slice(), 0, h.len());
            assert(h2@ =~= h@);
            store.put(h2, piece);
        }
        chunks.push(h);
        proof {
            let nd = done.push(piece@);
            assert(nd[done.len() as int] == piece@);
            assert forall|h0: Seq<u8>| #[trigger] store@.contains_key(h0)
                <==> (old(store)@.contains_key(h0)
                    || exists|j: int| 0 <= j < nd.len() && #[trigger] sha256_of(nd[j]) == h0) by {
                if exists|j: int| 0 <= j < nd.len() && #[trigger] sha256_of(nd[j]) == h0 {
                    let j = choose|j: int| 0 <= j < nd.len() && #[trigger] sha256_of(nd[j]) == h0;
                    if j < done.len() {
                        assert(sha256_of(done[j]) == h0);
                    }
                }
                if exists|j: int| 0 <= j < done.len() && #[trigger] sha256_of(done[j]) == h0 {
                    let j = choose|j: int| 0 <= j < done.len() && #[trigger] sha256_of(done[j]) == h0;
                    assert(sha256_of(nd[j]) == h0);
                }
            }
            assert forall|h0: Seq<u8>| #[trigger] store@.contains_key(h0) && !old(store)@.contains_key(h0)
                implies exists|j: int| 0 <= j < nd.len() && nd[j] == store@[h0] by {
                if before.contains_key(h0) {
                    let j = choose|j: int| 0 <= j < done.len() && done[j] == before[h0];
                    assert(nd[j] == store@[h0]);
                } else {
                    assert(nd[done.len() as int] == store@[h0]);
                }
            }
            assert(nd[done.len() as int] == pv);
            assert(chunks@ == old_chunks.push(h));
            assert(old_chunks.map_values(|c: Vec<u8>| c@).len() == done.map_values(|p: Seq<u8>| sha256_of(p)).len());
            assert(old_chunks.len() == done.len());
            assert(h@ == sha256_of(pv));
            assert forall|k: int| 0 <= k < nd.len() implies
                (#[trigger] chunks@[k])@ == sha256_of(nd[k]) by {
                if k < done.len() {
                    assert(old_chunks.map_values(|c: Vec<u8>| c@)[k] == done.map_values(|p: Seq<u8>| sha256_of(p))[k]);
                }
            }
            assert(chunks@.map_values(|c: Vec<u8>| c@) =~= nd.map_values(|p: Seq<u8>| sha256_of(p)));
            done = nd;
        }
        pos = end;
    }
    proof {
        assert(d.skip(pos as int) =~= Seq::<u8>::empty());
        assert(done =~= all);
    }
    let checksum = chunk_digest(f.data.as_slice());
    let name = copy_range(f.name.as_slice(), 0, f.name.len());
    proof {
        assert(name@ =~= f.name@);
        let fs = seq![*f];
        assert(fs[0] == *f);
        assert forall|h0: Seq<u8>| #[trigger] store@.contains_key(h0)
            <==> (old(store)@.contains_key(h0) || is_piece_hash(fs, csn, h0)) by {
            if is_piece_hash(fs, csn, h0) {
                let (i, j) = choose|i: int, j: int|
                    0 <= i < fs.len() && 0 <= j < split(fs[i].data@, csn).len()
                        && #[trigger] sha256_of(split(fs[i].data@, csn)[j]) == h0;
                assert(sha256_of(done[j]) == h0);
            }
            if exists|j: int| 0 <= j < done.len() && #[trigger] sha256_of(done[j]) == h0 {
                let j = choose|j: int| 0 <= j < done.len() && #[trigger] sha256_of(done[j]) == h0;
                assert(sha256_of(split(fs[0].data@, csn)[j]) == h0);
            }
        }
        assert forall|h0: Seq<u8>| #[trigger] store@.contains_key(h0) && !old(store)@.contains_key(h0)
            implies exists|i: int, j: int|
                0 <= i < fs.len() && 0 <= j < split(fs[i].data@, csn).len()
                    && split(fs[i].data@, csn)[j] == store@[h0] by {
            let j = choose|j: int| 0 <= j < done.len() && done[j] == store@[h0];
            assert(split(fs[0].data@, csn)[j] == store@[h0]);
        }
    }
    FileEntry { name, size: len, chunks, checksum }
}

/// Failure of `restore_backup`.
#[derive(Debug, Clone, Copy, PartialEq, Eq, Structural)]
pub enum RestoreError {
    /// No backup with that id, or no backup at all.
    NotFound,
    /// The target holds files and overwriting was not asked for.
    TargetNotEmpty,
    /// A chunk that the backup references is not held.
    CorruptBackup,
    /// A reassembled file does not match its recorded checksum.
    ChecksumFailed,
}

/// The bytes of a file reassembled from `chunks`.
pub open spec fn assemble(store: Map<Seq<u8>, Seq<u8>>, chunks: Seq<Vec<u8>>) -> Seq<u8> {
    chunks.map_values(|c: Vec<u8>| store[c@]).flatten()
}

/// Every chunk that `m` references is held.
pub open spec fn all_present(store: Map<Seq<u8>, Seq<u8>>, m: Manifest) -> bool {
    forall|h: Seq<u8>| references(m, h) ==> #[trigger] store.contains_key(h)
}

/// Every file of `m` reassembles to bytes with its recorded checksum.
pub open spec fn checksums_match(store: Map<Seq<u8>, Seq<u8>>, m: Manifest) -> bool {
    forall|i: int| 0 <= i < m.files@.len()
        ==> sha256_of(assemble(store, #[trigger] m.files@[i].chunks@)) == m.files@[i].checksum@
}

/// A referenced chunk that is absent, or whose bytes do not digest to its hash.
pub open spec fn is_bad(store: Map<Seq<u8>, Seq<u8>>, h: Seq<u8>) -> bool {
    !store.contains_key(h) || sha256_of(store[h]) != h
}

/// The backup that `id` selects: the latest for `None`.
pub open spec fn selected(cat: Seq<Manifest>, id: Option<u64>) -> Option<Manifest> {
    match id {
        None => if cat.len() == 0 { None } else { Some(cat.last()) },
        Some(x) => if exists|k: int| 0 <= k < cat.len() && #[trigger] cat[k].id == x {
            Some(cat[choose|k: int| 0 <= k < cat.len() && #[trigger] cat[k].id == x])
        } else {
            None
        },
    }
}

/// The chunks left after collection: those that some backup of `cat` references.
pub open spec fn collected(store: Map<Seq<u8>, Seq<u8>>, cat: Seq<Manifest>) -> Map<Seq<u8>, Seq<u8>> {
    store.restrict(Set::new(|h: Seq<u8>| any_references(cat, h)))
}

impl BackupEngine {
    pub open spec fn chunk_size(&self) -> nat {
        self.chunk_size as nat
    }

    pub open spec fn wf(&self) -> bool {
        &&& self.store.wf()
        &&& self.catalog.wf()
        &&& self.chunk_size() > 0
    }

    /// An engine with no chunks and no backups, splitting files into `chunk_size` bytes.
    pub fn new(chunk_size: usize) -> (r: BackupEngine)
        requires
            chunk_size > 0,
        ensures
            r.wf(),
            r.chunk_size() == chunk_size,
            r.store@ == Map::<Seq<u8>, Seq<u8>>::empty(),
            r.catalog@ == Seq::<Manifest>::empty(),
            r.catalog.next_id() == 1,
    {
        BackupEngine { store: ChunkStore::new(), catalog: Catalog::new(), chunk_size }
    }

    /// Backs up `files`: stores the pieces not yet held, then commits a manifest listing them.
    /// A failed call commits nothing and writes no chunk.
    pub fn create_backup(&mut self, files: &Vec<SourceFile>, timestamp: u64) -> (r: Result<u64, BackupError>)
        requires
            old(self).wf(),
        ensures
            final(self).wf(),
            final(self).chunk_size() == old(self).chunk_size(),
            match r {
                Ok(id) => {
                    &&& old(self).catalog.next_id() < u64::MAX
                    &&& id == old(self).catalog.next_id()
                    &&& final(self).catalog.next_id() == id + 1
                    &&& final(self).catalog@.len() == old(self).catalog@.len() + 1
                    &&& final(self).catalog@.drop_last() == old(self).catalog@
                    &&& final(self).catalog@.last().id == id
                    &&& final(self).catalog@.last().timestamp == timestamp
                    &&& final(self).catalog@.last().parent == (if old(self).catalog@.len() == 0 { None } else { Some(old(self).catalog@.last().id) })
                    &&& final(self).catalog@.last().files@.len() == files@.len()
                    &&& forall|i: int| 0 <= i < files@.len() ==> entry_of(
                        #[trigger] final(self).catalog@.last().files@[i], files@[i], old(self).chunk_size())
                    &&& stored_after(old(self).store@, final(self).store@, files@, old(self).chunk_size())
                },
                Err(BackupError::CatalogFull) => {
                    &&& old(self).catalog.next_id() == u64::MAX
                    &&& final(self).catalog == old(self).catalog
                    &&& final(self).store@ == old(self).store@
                },
            },
    {
        if !self.catalog.has_room() {
            return Err(BackupError::CatalogFull);
        }
        let cs = self.chunk_size;
        let ghost csn = cs as nat;
        let ghost s0 = self.store@;
        let mut entries: Vec<FileEntry> = Vec::new();
        let mut i: usize = 0;
        while i < files.len()
            invariant
                self.wf(),
                cs == self.chunk_size,
                csn == cs as nat,
                i <= files@.len(),
                entries@.len() == i,
                self.catalog == old(self).catalog,
                forall|k: int| 0 <= k < i ==> entry_of(#[trigger] entries@[k], files@[k], csn),
                stored_after(s0, self.store@, files@.take(i as int), csn),
            decreases files@.len() - i,
        {
            let ghost s1 = self.store@;
            let e = store_file(&mut self.store, &files[i], cs);
            entries.push(e);
            proof {
                let fi = files@.take(i as int);
                let fn_ = files@.take(i + 1);
                let one = seq![files@[i as int]];
                assert(one[0] == files@[i as int]);
                assert forall|h: Seq<u8>| is_piece_hash(fn_, csn, h)
                    <==> (is_piece_hash(fi, csn, h) || is_piece_hash(one, csn, h)) by {
                    if is_piece_hash(fn_, csn, h) {
                        let (a, b) = choose|a: int, b: int|
                            0 <= a < fn_.len() && 0 <= b < split(fn_[a].data@, csn).len()
                                && #[trigger] sha256_of(split(fn_[a].data@, csn)[b]) == h;
                        if a < i {
                            assert(fi[a] == fn_[a]);
                            assert(sha256_of(split(fi[a].data@, csn)[b]) == h);
                        } else {
                            assert(sha256_of(split(one[0].data@, csn)[b]) == h);
                        }
                    }
                    if is_piece_hash(fi, csn, h) {
                        let (a, b) = choose|a: int, b: int|
                            0 <= a < fi.len() && 0 <= b < split(fi[a].data@, csn).len()
                                && #[trigger] sha256_of(split(fi[a].data@, csn)[b]) == h;
                        assert(fi[a] == fn_[a]);
                        assert(sha256_of(split(fn_[a].data@, csn)[b]) == h);
                    }
                    if is_piece_hash(one, csn, h) {
                        let (a, b) = choose|a: int, b: int|
                            0 <= a < one.len() && 0 <= b < split(one[a].data@, csn).len()
                                && #[trigger] sha256_of(split(one[a].data@, csn)[b]) == h;
                        assert(sha256_of(split(fn_[i as int].data@, csn)[b]) == h);
                    }
                }
                assert forall|h: Seq<u8>| #[trigger] self.store@.contains_key(h) && !s0.contains_key(h)
                    implies exists|a: int, b: int|
                        0 <= a < fn_.len() && 0 <= b < split(fn_[a].data@, csn).len()
                            && split(fn_[a].data@, csn)[b] == self.store@[h] by {
                    if s1.contains_key(h) {
                        let (a, b) = choose|a: int, b: int|
                            0 <= a < fi.len() && 0 <= b < split(fi[a].data@, csn).len()
                                && split(fi[a].data@, csn)[b] == s1[h];
                        assert(fi[a] == fn_[a]);
                    } else {
                        let (a, b) = choose|a: int, b: int|
                            0 <= a < one.len() && 0 <= b < split(one[a].data@, csn).len()
                                && split(one[a].data@, csn)[b] == self.store@[h];
                        assert(fn_[i as int] == one[a]);
                    }
                }
            }
            i += 1;
        }
        assert(files@.take(i as int) =~= files@);
        let r = self.catalog.append(entries, timestamp);
        match r {
            Ok(id) => Ok(id),
            Err(_) => Err(BackupError::CatalogFull),
        }
    }

    /// Position in the catalog of the backup that `id` selects.
    fn select(&self, id: Option<u64>) -> (r: Option<usize>)
        requires
            self.wf(),
        ensures
            match r {
                Some(i) => i < self.catalog@.len() && selected(self.catalog@, id) == Some(self.catalog@[i as int]),
                None => selected(self.catalog@, id) is None,
            },
    {
        proof { self.catalog.lemma_ids_ascend(); }
        match id {
            None => {
                let n = self.catalog.list().len();
                proof {
                    assert(self.catalog@.map_values(|m: Manifest| m.id).len() == self.catalog@.len());
                }
                if n == 0 { None } else { Some(n - 1) }
            },
            Some(x) => {
                let p = self.catalog.position(x);
                proof {
                    if let Some(i) = p {
                        let k = choose|k: int| 0 <= k < self.catalog@.len() && #[trigger] self.catalog@[k].id == x;
                        if k < i {
                            assert(self.catalog@[k].id < self.catalog@[i as int].id);
                        } else if k > i {
                            assert(self.catalog@[i as int].id < self.catalog@[k].id);
                        }
                    }
                }
                p
            },
        }
    }

    /// The bytes of the file that `e` records, from the chunks held.
    fn reassemble(&self, e: &FileEntry) -> (r: Result<Vec<u8>, RestoreError>)
        requires
            self.wf(),
        ensures
            match r {
                Ok(d) => (forall|j: int| 0 <= j < e.chunks@.len()
                    ==> #[trigger] self.store@.contains_key(e.chunks@[j]@))
                    && d@ == assemble(self.store@, e.chunks@),
                Err(err) => err == RestoreError::CorruptBackup && exists|j: int| 0 <= j < e.chunks@.len()
                    && !(#[trigger] self.store@.contains_key(e.chunks@[j]@)),
            },
    {
        let mut d: Vec<u8> = Vec::new();
        let mut j: usize = 0;
        while j < e.chunks.len()
            invariant
                self.wf(),
                j <= e.chunks@.len(),
                forall|q: int| 0 <= q < j ==> #[trigger] self.store@.contains_key(e.chunks@[q]@),
                d@ == assemble(self.store@, e.chunks@.take(j as int)),
            decreases e.chunks@.len() - j,
        {
            match self.store.get(e.chunks[j].as_slice()) {
                Err(_) => {
                    return Err(RestoreError::CorruptBackup);
                },
                Ok(b) => {
                    let mut b = b;
                    let ghost bv = b@;
                    d.append(&mut b);
                    proof {
                        let f = |c: Vec<u8>| self.store@[c@];
                        let t = e.chunks@.take(j as int);
                        assert(e.chunks@.take(j + 1) =~= t.push(e.chunks@[j as int]));
                        assert(t.push(e.chunks@[j as int]).map_values(f) =~= t.map_values(f).push(bv));
                        t.map_values(f).lemma_flatten_push(bv);
                    }
                    j += 1;
                },
            }
        }
        assert(e.chunks@.take(j as int) =~= e.chunks@);
        Ok(d)
    }

    /// Reassembles every file of the backup that `id` selects (the latest for `None`),
    /// checking each against its checksum. A target that holds files is refused unless
    /// `overwrite` is set.
    pub fn restore_backup(&self, id: Option<u64>, target_empty: bool, overwrite: bool)
        -> (r: Result<Vec<SourceFile>, RestoreError>)
        requires
            self.wf(),
        ensures
            (r == Err::<Vec<SourceFile>, RestoreError>(RestoreError::TargetNotEmpty)) <==> (!target_empty && !overwrite),
            (r == Err::<Vec<SourceFile>, RestoreError>(RestoreError::NotFound))
                <==> ((target_empty || overwrite) && selected(self.catalog@, id) is None),
            r is Ok <==> ((target_empty || overwrite) && selected(self.catalog@, id) is Some
                && all_present(self.store@, selected(self.catalog@, id)->0)
                && checksums_match(self.store@, selected(self.catalog@, id)->0)),
            r == Err::<Vec<SourceFile>, RestoreError>(RestoreError::CorruptBackup) ==> !all_present(self.store@, selected(self.catalog@, id)->0),
            r == Err::<Vec<SourceFile>, RestoreError>(RestoreError::ChecksumFailed) ==> !checksums_match(self.store@, selected(self.catalog@, id)->0),
            r matches Ok(out) ==> {
                let m = selected(self.catalog@, id)->0;
                &&& out@.len() == m.files@.len()
                &&& forall|i: int| 0 <= i < out@.len() ==> {
                    &&& (#[trigger] out@[i]).name@ == m.files@[i].name@
                    &&& out@[i].data@ == assemble(self.store@, m.files@[i].chunks@)
                }
            },
    {
        if !target_empty && !overwrite {
            return Err(RestoreError::TargetNotEmpty);
        }
        let pos = match self.select(id) {
            None => { return Err(RestoreError::NotFound); },
            Some(p) => p,
        };
        let m = self.catalog.get_at(pos);
        let ghost mv = *m;
        let mut out: Vec<SourceFile> = Vec::new();
        let mut i: usize = 0;
        while i < m.files.len()
            invariant
                self.wf(),
                *m == mv,
                selected(self.catalog@, id) == Some(mv),
                target_empty || overwrite,
                i <= mv.files@.len(),
                out@.len() == i,
                forall|a: int, b: int| 0 <= a < i && 0 <= b < mv.files@[a].chunks@.len()
                    ==> #[trigger] self.store@.contains_key(mv.files@[a].chunks@[b]@),
                forall|a: int| 0 <= a < i ==> sha256_of(assemble(self.store@, #[trigger] mv.files@[a].chunks@)) == mv.files@[a].checksum@,
                forall|a: int| 0 <= a < i ==> {
                    &&& (#[trigger] out@[a]).name@ == mv.files@[a].name@
                    &&& out@[a].data@ == assemble(self.store@, mv.files@[a].chunks@)
                },
            decreases mv.files@.len() - i,
        {
            let e = &m.files[i];
            match self.reassemble(e) {
                Err(err) => {
                    proof {
                        let j = choose|j: int| 0 <= j < e.chunks@.len() && !(#[trigger] self.store@.contains_key(e.chunks@[j]@));
                        assert(references(mv, e.chunks@[j]@));
                    }
                    return Err(err);
                },
                Ok(d) => {
                    let sum = chunk_digest(d.as_slice());
                    if !bytes_eq(sum.as_slice(), e.checksum.as_slice()) {
                        return Err(RestoreError::ChecksumFailed);
                    }
                    let name = copy_range(e.name.as_slice(), 0, e.name.len());
                    assert(name@ =~= e.name@);
                    out.push(SourceFile { name, data: d });
                    i += 1;
                },
            }
        }
        proof {
            assert forall|h: Seq<u8>| references(mv, h) implies #[trigger] self.store@.contains_key(h) by {
                let (a, b) = choose|a: int, b: int| 0 <= a < mv.files@.len() && 0 <= b < mv.files@[a].chunks@.len()
                    && #[trigger] mv.files@[a].chunks@[b]@ == h;
            }
        }
        Ok(out)
    }

    /// Re-reads every chunk that backup `id` references and lists those that are absent
    /// or whose bytes no longer digest to their hash; an empty list means intact.
    pub fn verify(&self, id: u64) -> (r: Result<Vec<Vec<u8>>, NotFound>)
        requires
            self.wf(),
        ensures
            r is Err <==> selected(self.catalog@, Some(id)) is None,
            r matches Ok(bad) ==> {
                let m = selected(self.catalog@, Some(id))->0;
                &&& forall|q: int| 0 <= q < bad@.len() ==> references(m, (#[trigger] bad@[q])@) && is_bad(self.store@, bad@[q]@)
                &&& forall|h: Seq<u8>| references(m, h) && is_bad(self.store@, h)
                    ==> exists|q: int| 0 <= q < bad@.len() && (#[trigger] bad@[q])@ == h
            },
    {
        let pos = match self.select(Some(id)) {
            None => { return Err(NotFound); },
            Some(p) => p,
        };
        let m = self.catalog.get_at(pos);
        let ghost mv = *m;
        let mut bad: Vec<Vec<u8>> = Vec::new();
        let mut i: usize = 0;
        while i < m.files.len()
            invariant
                self.wf(),
                *m == mv,
                selected(self.catalog@, Some(id)) == Some(mv),
                i <= mv.files@.len(),
                forall|q: int| 0 <= q < bad@.len() ==> references(mv, (#[trigger] bad@[q])@) && is_bad(self.store@, bad@[q]@),
                forall|a: int, b: int| 0 <= a < i && 0 <= b < mv.files@[a].chunks@.len() && is_bad(self.store@, #[trigger] mv.files@[a].chunks@[b]@)
                    ==> exists|q: int| 0 <= q < bad@.len() && (#[trigger] bad@[q])@ == mv.files@[a].chunks@[b]@,
            decreases mv.files@.len() - i,
        {
            let e = &m.files[i];
            let mut j: usize = 0;
            while j < e.chunks.len()
                invariant
                    self.wf(),
                    *m == mv,
                    i < mv.files@.len(),
                    *e == mv.files@[i as int],
                    j <= e.chunks@.len(),
                    forall|q: int| 0 <= q < bad@.len() ==> references(mv, (#[trigger] bad@[q])@) && is_bad(self.store@, bad@[q]@),
                    forall|a: int, b: int| 0 <= a < i && 0 <= b < mv.files@[a].chunks@.len() && is_bad(self.store@, #[trigger] mv.files@[a].chunks@[b]@)
                        ==> exists|q: int| 0 <= q < bad@.len() && (#[trigger] bad@[q])@ == mv.files@[a].chunks@[b]@,
                    forall|b: int| 0 <= b < j && is_bad(self.store@, #[trigger] mv.files@[i as int].chunks@[b]@)
                        ==> exists|q: int| 0 <= q < bad@.len() && (#[trigger] bad@[q])@ == mv.files@[i as int].chunks@[b]@,
                decreases e.chunks@.len() - j,
            {
                let h = &e.chunks[j];
                let is_bad_now = match self.store.get(h.as_slice()) {
                    Err(_) => true,
                    Ok(b) => !bytes_eq(chunk_digest(b.as_slice()).as_slice(), h.as_slice()),
                };
                let ghost old_bad = bad@;
                if is_bad_now {
                    let c = copy_range(h.as_slice(), 0, h.len());
                    assert(c@ =~= h@);
                    bad.push(c);
                    proof {
                        assert(references(mv, h@)) by {
                            assert(mv.files@[i as int].chunks@[j as int]@ == h@);
                        }
                        assert(bad@[old_bad.len() as int]@ == h@);
                    }
                }
                proof {
                    assert forall|q: int| #![trigger old_bad[q]] #![trigger bad@[q]] 0 <= q < old_bad.len() implies bad@[q] == old_bad[q] by {}
                }
                j += 1;
            }
            i += 1;
        }
        proof {
            assert forall|h: Seq<u8>| references(mv, h) && is_bad(self.store@, h)
                implies exists|q: int| 0 <= q < bad@.len() && (#[trigger] bad@[q])@ == h by {
                let (a, b) = choose|a: int, b: int| 0 <= a < mv.files@.len() && 0 <= b < mv.files@[a].chunks@.len()
                    && #[trigger] mv.files@[a].chunks@[b]@ == h;
            }
        }
        Ok(bad)
    }

    /// Removes backup `id` from the catalog; its chunks stay until `gc`.
    pub fn delete_backup(&mut self, id: u64) -> (r: Result<(), NotFound>)
        requires
            old(self).wf(),
        ensures
            final(self).wf(),
            final(self).chunk_size == old(self).chunk_size,
            final(self).store@ == old(self).store@,
            final(self).catalog.next_id() == old(self).catalog.next_id(),
            match r {
                Ok(_) => exists|k: int| 0 <= k < old(self).catalog@.len() && old(self).catalog@[k].id == id
                    && final(self).catalog@ == old(self).catalog@.remove(k),
                Err(_) => forall|k: int| 0 <= k < old(self).catalog@.len() ==> #[trigger] old(self).catalog@[k].id != id,
            },
    {
        self.catalog.delete(id)
    }

    /// Deletes every chunk that no backup in the catalog references.
    pub fn gc(&mut self)
        requires
            old(self).wf(),
        ensures
            final(self).wf(),
            final(self).chunk_size == old(self).chunk_size,
            final(self).catalog == old(self).catalog,
            final(self).store@ == collected(old(self).store@, old(self).catalog@),
    {
        let hs = self.store.hashes();
        let ghost s0 = self.store@;
        let mut k: usize = 0;
        while k < hs.len()
            invariant
                self.wf(),
                self.catalog == old(self).catalog,
                self.chunk_size == old(self).chunk_size,
                s0 == old(self).store@,
                k <= hs@.len(),
                forall|h: Seq<u8>| s0.contains_key(h)
                    <==> exists|q: int| 0 <= q < hs@.len() && (#[trigger] hs@[q])@ == h,
                forall|h: Seq<u8>| #[trigger] self.store@.contains_key(h) <==> (s0.contains_key(h)
                    && (any_references(self.catalog@, h)
                        || !exists|q: int| 0 <= q < k && (#[trigger] hs@[q])@ == h)),
                forall|h: Seq<u8>| #[trigger] self.store@.contains_key(h) ==> self.store@[h] == s0[h],
            decreases hs@.len() - k,
        {
            if !self.catalog.is_referenced(hs[k].as_slice()) {
                self.store.delete(hs[k].as_slice());
            }
            proof {
                assert forall|h: Seq<u8>| #[trigger] self.store@.contains_key(h) <==> (s0.contains_key(h)
                    && (any_references(self.catalog@, h)
                        || !exists|q: int| 0 <= q < k + 1 && (#[trigger] hs@[q])@ == h)) by {
                    if exists|q: int| 0 <= q < k + 1 && (#[trigger] hs@[q])@ == h {
                        let q = choose|q: int| 0 <= q < k + 1 && (#[trigger] hs@[q])@ == h;
                    }
                }
            }
            k += 1;
        }
        proof {
            assert forall|h: Seq<u8>| #[trigger] self.store@.contains_key(h)
                <==> collected(s0, self.catalog@).contains_key(h) by {
                if s0.contains_key(h) {
                    let q = choose|q: int| 0 <= q < hs@.len() && (#[trigger] hs@[q])@ == h;
                }
            }
            assert(self.store@ =~= collected(s0, self.catalog@));
        }
    }
}

} // verus!
