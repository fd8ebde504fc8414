use vstd::prelude::*;

pub mod digest;
pub mod chunk_store;
pub mod catalog;
pub mod engine;
pub mod laws;

verus! {

/// Location of a store's data directory under `target/rocksdb_backup/<prefix>/db`.
pub struct DBPath {
    pub path: String,
}

pub open spec fn db_path_of(prefix: Seq<char>) -> Seq<char> {
    "target/rocksdb_backup/"@ + prefix + "/db"@
}

impl DBPath {
    /// The path for `prefix`; the directory above it is `dir()`.
    pub fn new(prefix: &str) -> (r: DBPath)
        ensures
            r.path@ == db_path_of(prefix@),
    {
        let mut path = String::from_str("target/rocksdb_backup/");
        path.append(prefix);
        path.append("/db");
        DBPath { path }
    }
}

} // verus!
