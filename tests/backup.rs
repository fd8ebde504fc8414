use rocksdb_backup::catalog::{Catalog, NotFound, SourceFile};
use rocksdb_backup::chunk_store::{ChunkMissing, ChunkStore};
use rocksdb_backup::engine::{BackupEngine, RestoreError};
use rocksdb_backup::DBPath;

fn file(name: &str, data: &[u8]) -> SourceFile {
    SourceFile { name: name.as_bytes().to_vec(), data: data.to_vec() }
}

const ABC_SHA256: [u8; 32] = [
    0xba, 0x78, 0x16, 0xbf, 0x8f, 0x01, 0xcf, 0xea, 0x41, 0x41, 0x40, 0xde, 0x5d, 0xae, 0x22, 0x23,
    0xb0, 0x03, 0x61, 0xa3, 0x96, 0x17, 0x7a, 0x9c, 0xb4, 0x10, 0xff, 0x61, 0xf2, 0x00, 0x15, 0xad,
];

#[test]
fn db_path_under_target() {
    let p = DBPath::new("main");
    assert_eq!(p.path, "target/rocksdb_backup/main/db");
}

#[test]
fn chunk_is_stored_under_its_sha256() {
    let mut e = BackupEngine::new(16);
    let id = e.create_backup(&vec![file("a", b"abc")], 7).unwrap();
    assert_eq!(id, 1);
    assert!(e.store.contains(&ABC_SHA256));
    assert_eq!(e.store.get(&ABC_SHA256).unwrap(), b"abc".to_vec());
    let m = e.catalog.get(1).unwrap();
    assert_eq!(m.files[0].checksum, ABC_SHA256.to_vec());
    assert_eq!(m.files[0].chunks, vec![ABC_SHA256.to_vec()]);
    assert_eq!(m.timestamp, 7);
    assert_eq!(m.parent, None);
}

#[test]
fn chunk_store_put_get_delete() {
    let mut s = ChunkStore::new();
    assert_eq!(s.get(&ABC_SHA256), Err(ChunkMissing));
    s.put(ABC_SHA256.to_vec(), b"abc".to_vec());
    s.put(ABC_SHA256.to_vec(), b"abc".to_vec());
    assert_eq!(s.len(), 1);
    assert_eq!(s.hashes(), vec![ABC_SHA256.to_vec()]);
    s.delete(&ABC_SHA256);
    assert_eq!(s.len(), 0);
    assert!(!s.contains(&ABC_SHA256));
}

#[test]
fn concrete_backup_restore_verify() {
    let mut e = BackupEngine::new(4096);
    let id = e.create_backup(&vec![file("k1", b"v1111")], 0).unwrap();
    assert_eq!(id, 1);
    let out = e.restore_backup(Some(1), true, false).unwrap();
    assert_eq!(out.len(), 1);
    assert_eq!(out[0].name, b"k1".to_vec());
    assert_eq!(out[0].data, b"v1111".to_vec());
    assert_eq!(e.verify(1).unwrap(), Vec::<Vec<u8>>::new());
}

#[test]
fn corruption_is_reported() {
    let mut e = BackupEngine::new(4);
    e.create_backup(&vec![file("f", b"0123456789")], 0).unwrap();
    let lost = e.catalog.get(1).unwrap().files[0].chunks[1].clone();
    e.store.delete(&lost);
    assert_eq!(e.verify(1).unwrap(), vec![lost]);
    assert!(matches!(e.restore_backup(Some(1), true, false), Err(RestoreError::CorruptBackup)));
}

#[test]
fn round_trip_many_chunks() {
    let mut e = BackupEngine::new(3);
    let files = vec![file("a", b"hello, world"), file("b", b""), file("c", b"xy")];
    e.create_backup(&files, 1).unwrap();
    assert_eq!(e.catalog.get(1).unwrap().files[0].chunks.len(), 4);
    let out = e.restore_backup(None, true, false).unwrap();
    assert_eq!(out.len(), 3);
    for (o, f) in out.iter().zip(files.iter()) {
        assert_eq!(o.name, f.name);
        assert_eq!(o.data, f.data);
    }
}

#[test]
fn second_backup_stores_nothing_new() {
    let mut e = BackupEngine::new(4);
    let files = vec![file("a", b"abcdabcdxyz"), file("b", b"abcd")];
    assert_eq!(e.create_backup(&files, 1), Ok(1));
    let n = e.store.len();
    assert_eq!(n, 2);
    assert_eq!(e.create_backup(&files, 2), Ok(2));
    assert_eq!(e.store.len(), n);
    let c1 = e.catalog.get(1).unwrap().files[0].chunks.clone();
    let c2 = e.catalog.get(2).unwrap().files[0].chunks.clone();
    assert_eq!(c1, c2);
    assert_eq!(e.catalog.get(2).unwrap().parent, Some(1));
    assert_eq!(e.catalog.list(), vec![1, 2]);
    assert_eq!(e.catalog.latest(), Some(2));
}

#[test]
fn gc_keeps_referenced_chunks() {
    let mut e = BackupEngine::new(4);
    e.create_backup(&vec![file("a", b"aaaabbbb")], 1).unwrap();
    e.create_backup(&vec![file("a", b"aaaacccc")], 2).unwrap();
    assert_eq!(e.store.len(), 3);
    assert_eq!(e.delete_backup(1), Ok(()));
    e.gc();
    assert_eq!(e.store.len(), 2);
    assert_eq!(e.verify(2).unwrap(), Vec::<Vec<u8>>::new());
    assert_eq!(e.restore_backup(Some(2), true, false).unwrap()[0].data, b"aaaacccc".to_vec());
    assert_eq!(e.delete_backup(1), Err(NotFound));
}

#[test]
fn restore_errors() {
    let mut e = BackupEngine::new(4);
    assert!(matches!(e.restore_backup(None, true, false), Err(RestoreError::NotFound)));
    e.create_backup(&vec![file("a", b"abc")], 1).unwrap();
    assert!(matches!(e.restore_backup(Some(9), true, false), Err(RestoreError::NotFound)));
    assert!(matches!(e.restore_backup(Some(1), false, false), Err(RestoreError::TargetNotEmpty)));
    assert!(e.restore_backup(Some(1), false, true).is_ok());
    assert_eq!(e.verify(9), Err(NotFound));
}

#[test]
fn catalog_ids_ascend_after_delete() {
    let mut c = Catalog::new();
    assert_eq!(c.latest(), None);
    assert_eq!(c.append(vec![], 1), Ok(1));
    assert_eq!(c.append(vec![], 2), Ok(2));
    assert_eq!(c.delete(2), Ok(()));
    assert_eq!(c.append(vec![], 3), Ok(3));
    assert_eq!(c.list(), vec![1, 3]);
    assert!(c.has_room());
}
