//! The decisions of a sync: what becomes of one package's group file, and
//! which packages of a bulk run reach the files at all.

use vstd::prelude::*;
use crate::expr::{prepare_pkg_expr, PkgParams};
use crate::group::{group_file_path, group_path, segments, PathDecompositionError};
use crate::upsert::{text_of, upsert, upsert_spec, UpsertError};

verus! {

/// What a sync of one package came to. `Updated` and `Inserted` carry the
/// group file's path and the text to write there.
#[derive(Debug)]
pub enum SyncReport {
    /// The package's entry was replaced.
    Updated { path: Vec<u8>, content: Vec<u8> },
    /// The package's entry was added.
    Inserted { path: Vec<u8>, content: Vec<u8> },
    /// The source URL names no group; no file is touched.
    Skipped(PathDecompositionError),
    /// The group file's text could not be merged; no file is touched.
    Failed(UpsertError),
}

/// Syncs one package: renders its entry, resolves its group file, and merges
/// the entry into `existing`, the text of that file, or into a new file where
/// `existing` is `None`. `present` says whether the package set already knows
/// the package.
pub fn from_bower(pkg_params: &PkgParams, existing: Option<&[u8]>, present: bool) -> (r:
    SyncReport)
    ensures
        match r {
            SyncReport::Updated { path, content } => {
                &&& present
                &&& segments(pkg_params.url@).len() == 5
                &&& path@ == group_path(segments(pkg_params.url@)[3])
                &&& upsert_spec(
                    text_of(existing),
                    pkg_params.name@,
                    pkg_params.expression(),
                    true,
                ) == Ok::<Seq<u8>, UpsertError>(content@)
            },
            SyncReport::Inserted { path, content } => {
                &&& !present
                &&& segments(pkg_params.url@).len() == 5
                &&& path@ == group_path(segments(pkg_params.url@)[3])
                &&& upsert_spec(
                    text_of(existing),
                    pkg_params.name@,
                    pkg_params.expression(),
                    false,
                ) == Ok::<Seq<u8>, UpsertError>(content@)
            },
            SyncReport::Skipped(e) => {
                &&& segments(pkg_params.url@).len() != 5
                &&& e.segments == segments(pkg_params.url@).len()
            },
            SyncReport::Failed(e) => {
                &&& segments(pkg_params.url@).len() == 5
                &&& upsert_spec(
                    text_of(existing),
                    pkg_params.name@,
                    pkg_params.expression(),
                    present,
                ) == Err::<Seq<u8>, UpsertError>(e)
            },
        },
{
    let expr = prepare_pkg_expr(pkg_params);
    let path = match group_file_path(pkg_params.url.as_slice()) {
        Ok(path) => path,
        Err(e) => {
            return SyncReport::Skipped(e);
        },
    };
    match upsert(existing, pkg_params.name.as_slice(), expr.0.as_slice(), present) {
        Ok(content) => if present {
            SyncReport::Updated { path, content }
        } else {
            SyncReport::Inserted { path, content }
        },
        Err(e) => SyncReport::Failed(e),
    }
}

/// The packages of a bulk run whose files are touched: those whose metadata
/// was primed, `primed[i]` for the package at index `i`, in the order of the
/// list, each once.
pub fn apply_queue(primed: &[bool]) -> (r: Vec<usize>)
    ensures
        forall|k: int| 0 <= k < r.len() ==> r[k] < primed.len() && primed[r[k] as int],
        forall|j: int, k: int| 0 <= j < k < r.len() ==> r[j] < r[k],
        forall|i: int|
            0 <= i < primed.len() && primed[i] ==> exists|k: int|
                0 <= k < r.len() && r[k] == i,
{
    let mut queue: Vec<usize> = Vec::new();
    let mut i: usize = 0;
    while i < primed.len()
        invariant
            i <= primed.len(),
            forall|k: int| 0 <= k < queue.len() ==> queue[k] < i && primed[queue[k] as int],
            forall|j: int, k: int| 0 <= j < k < queue.len() ==> queue[j] < queue[k],
            forall|m: int|
                0 <= m < i && primed[m] ==> exists|k: int| 0 <= k < queue.len() && queue[k] == m,
        decreases primed.len() - i,
    {
        if primed[i] {
            let ghost before = queue@;
            queue.push(i);
            proof {
                assert forall|m: int| 0 <= m <= i && primed[m] implies exists|k: int|
                    0 <= k < queue.len() && queue[k] == m by {
                    if m < i {
                        let k = choose|k: int| 0 <= k < before.len() && before[k] == m;
                        assert(queue[k] == m);
                    } else {
                        assert(queue[before.len() as int] == m);
                    }
                }
            }
        }
        i += 1;
    }
    queue
}

} // verus!
