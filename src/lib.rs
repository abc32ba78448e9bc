//! Classify files by name and metadata into MIME types, following the
//! freedesktop shared MIME info database model.
use vstd::prelude::*;

pub mod answer;
pub mod dirs;
pub mod error;
pub mod fnmatch;
pub mod mimedb;
pub mod names;
pub mod query;
pub mod record;
pub mod runtime;
pub mod search_queue;
pub mod strcache;

pub use answer::Answer;
pub use error::{LoadError, QueryError, XDGError};
pub use mimedb::MimeDB;
pub use query::{FileQuery, FileQueryBuilder};

use mimedb::ingest::{ingest_batches, lemma_dir_batches_split, lemma_package_batches_len};
use mimedb::MimeDBModel;
use runtime::{dir_batches, SharedMimeInfo};

verus! {

/// The empty registry.
pub open spec fn empty_db() -> MimeDBModel {
    MimeDBModel { types: Map::empty(), sequence: 0, globs: seq![] }
}

/// The number of packages in `info`, or `None` once it passes `limit`.
fn package_count(info: &SharedMimeInfo, limit: u64) -> (r: Option<u64>)
    ensures
        r is Some <==> dir_batches(info.directories@).len() <= limit,
        r is Some ==> r->0 == dir_batches(info.directories@).len(),
{
    let ghost all = info.directories@;
    let n = info.directories.len();
    let mut total: u64 = 0;
    let mut k: usize = 0;
    assert(all.take(0) =~= Seq::<runtime::SMIDir>::empty());
    while k < n
        invariant
            n == all.len(),
            all == info.directories@,
            k <= n,
            total <= limit,
            total == dir_batches(all.take(k as int)).len(),
        decreases n - k,
    {
        proof {
            lemma_dir_batches_split(all, k as int);
            lemma_package_batches_len(all[k as int].packages@);
        }
        let count = info.directories[k].packages.len() as u64;
        if count > limit - total {
            proof {
                if k + 1 < all.len() {
                    lemma_dir_batches_split(all, k + 1);
                } else {
                    assert(all.take(k + 1) =~= all);
                }
            }
            return None;
        }
        total = total + count;
        k += 1;
    }
    assert(all.take(n as int) =~= all);
    Some(total)
}

/// Build the MIME database from the shared MIME info that was read, one
/// batch per package; without any, the database is unavailable.
pub fn load_mime_db(info: Option<SharedMimeInfo>) -> (r: Result<MimeDB, LoadError>)
    ensures
        info is None ==> r matches Err(LoadError::Unavailable),
        info is Some && dir_batches(info->0.directories@).len() < i32::MAX ==> r is Ok && r->Ok_0.wf()
            && r->Ok_0@ == ingest_batches(empty_db(), dir_batches(info->0.directories@)),
        info is Some && dir_batches(info->0.directories@).len() >= i32::MAX ==> r matches Err(
            LoadError::Generic(_),
        ),
{
    match info {
        None => Err(LoadError::Unavailable),
        Some(info) => {
            match package_count(&info, (i32::MAX - 1) as u64) {
                None => Err(error::load_error("too many MIME packages")),
                Some(_) => {
                    let mut db = MimeDB::new();
                    assert(db@ =~= empty_db());
                    db.add_shared_mime_info(info);
                    Ok(db)
                },
            }
        },
    }
}

} // verus!
