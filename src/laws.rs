use vstd::prelude::*;
use crate::digest::sha256_of;
use crate::catalog::{FileEntry, Manifest, SourceFile, references, any_references};
use crate::engine::{split, chunk_hashes, entry_of, stored_after, assemble, is_bad, collected};

verus! {

/// Joining the pieces of `d` in order gives `d` back.
pub proof fn lemma_flatten_split(d: Seq<u8>, cs: nat)
    requires
        cs > 0,
    ensures
        split(d, cs).flatten() == d,
    decreases d.len(),
{
    if d.len() == 0 {
        assert(split(d, cs).flatten() =~= d);
    } else if d.len() <= cs {
        seq![d].lemma_flatten_one_element();
        assert(split(d, cs).flatten() =~= d);
    } else {
        let t = d.take(cs as int);
        let rest = d.skip(cs as int);
        lemma_flatten_split(rest, cs);
        vstd::seq_lib::lemma_flatten_concat(seq![t], split(rest, cs));
        seq![t].lemma_flatten_one_element();
        assert(t + rest =~= d);
    }
}

/// No two distinct pieces of `files`, nor a piece and a chunk already held, share a digest.
pub open spec fn digests_distinct(held: Map<Seq<u8>, Seq<u8>>, files: Seq<SourceFile>, cs: nat) -> bool {
    &&& forall|i1: int, j1: int, i2: int, j2: int|
        0 <= i1 < files.len() && 0 <= j1 < split(files[i1].data@, cs).len()
        && 0 <= i2 < files.len() && 0 <= j2 < split(files[i2].data@, cs).len()
        && #[trigger] sha256_of(split(files[i1].data@, cs)[j1]) == #[trigger] sha256_of(split(files[i2].data@, cs)[j2])
        ==> split(files[i1].data@, cs)[j1] == split(files[i2].data@, cs)[j2]
    &&& forall|h: Seq<u8>, i: int, j: int|
        held.contains_key(h) && 0 <= i < files.len() && 0 <= j < split(files[i].data@, cs).len()
        && #[trigger] sha256_of(split(files[i].data@, cs)[j]) == h
        ==> #[trigger] held[h] == split(files[i].data@, cs)[j]
}

/// Round trip: after a backup of `files`, every chunk that a recorded entry lists is held,
/// and the entry reassembles to exactly the file's bytes, which carry the recorded checksum.
/// This needs the file's pieces not to collide in digest with one another or with what
/// was already held.
pub proof fn lemma_round_trip(
    before: Map<Seq<u8>, Seq<u8>>,
    after: Map<Seq<u8>, Seq<u8>>,
    files: Seq<SourceFile>,
    cs: nat,
    i: int,
    e: FileEntry,
)
    requires
        cs > 0,
        stored_after(before, after, files, cs),
        forall|h: Seq<u8>| #[trigger] after.contains_key(h) ==> sha256_of(after[h]) == h,
        digests_distinct(before, files, cs),
        0 <= i < files.len(),
        entry_of(e, files[i], cs),
    ensures
        forall|j: int| 0 <= j < e.chunks@.len() ==> after.contains_key(#[trigger] e.chunks@[j]@),
        assemble(after, e.chunks@) == files[i].data@,
        sha256_of(assemble(after, e.chunks@)) == e.checksum@,
{
    let d = files[i].data@;
    let ps = split(d, cs);
    let hv = e.chunks@.map_values(|c: Vec<u8>| c@);
    assert(hv.len() == ps.len());
    assert forall|j: int| 0 <= j < e.chunks@.len() implies
        after.contains_key(#[trigger] e.chunks@[j]@) && after[e.chunks@[j]@] == ps[j] by {
        assert(hv[j] == e.chunks@[j]@);
        assert(chunk_hashes(d, cs)[j] == sha256_of(ps[j]));
        let h = e.chunks@[j]@;
        assert(sha256_of(split(files[i].data@, cs)[j]) == h);
        assert(after.contains_key(h));
        if before.contains_key(h) {
            assert(before[h] == split(files[i].data@, cs)[j]);
        } else {
            let (a, b) = choose|a: int, b: int|
                0 <= a < files.len() && 0 <= b < split(files[a].data@, cs).len()
                    && split(files[a].data@, cs)[b] == after[h];
            assert(sha256_of(after[h]) == h);
            assert(sha256_of(split(files[a].data@, cs)[b]) == sha256_of(split(files[i].data@, cs)[j]));
        }
    }
    assert(e.chunks@.map_values(|c: Vec<u8>| after[c@]) =~= ps);
    lemma_flatten_split(d, cs);
}

/// Backing up the same files twice with nothing written between: the second backup
/// stores no chunk, and both record the same chunk list for each file.
pub proof fn lemma_backup_idempotent(
    s0: Map<Seq<u8>, Seq<u8>>,
    s1: Map<Seq<u8>, Seq<u8>>,
    s2: Map<Seq<u8>, Seq<u8>>,
    files: Seq<SourceFile>,
    cs: nat,
    i: int,
    e1: FileEntry,
    e2: FileEntry,
)
    requires
        stored_after(s0, s1, files, cs),
        stored_after(s1, s2, files, cs),
        0 <= i < files.len(),
        entry_of(e1, files[i], cs),
        entry_of(e2, files[i], cs),
    ensures
        s2 == s1,
        e1.chunks@.map_values(|c: Vec<u8>| c@) == e2.chunks@.map_values(|c: Vec<u8>| c@),
{
    assert(s2.dom() =~= s1.dom());
    assert(s2 =~= s1);
}

/// Collection never removes a chunk that a backup of the catalog references, so what
/// `verify` reports for each backup is the same before and after.
pub proof fn lemma_gc_safe(store: Map<Seq<u8>, Seq<u8>>, cat: Seq<Manifest>, k: int, h: Seq<u8>)
    requires
        0 <= k < cat.len(),
        references(cat[k], h),
    ensures
        store.contains_key(h) ==> collected(store, cat).contains_key(h) && collected(store, cat)[h] == store[h],
        is_bad(collected(store, cat), h) == is_bad(store, h),
{
    assert(any_references(cat, h));
}

} // verus!
