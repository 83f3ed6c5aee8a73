//! A verified engine for cataloguing a filesystem subtree into a columnar
//! record set: one row per entry, optional metadata and content-hash
//! columns fixed by the run's options, and a binary cache format whose
//! decoder provably inverts its encoder.

use vstd::prelude::*;

pub mod record;
pub mod table;
pub mod hashing;
pub mod codec;

verus! {

/// Which optional columns are active for a run. Fixed at run start:
/// the presence of the metadata and hash columns is a property of the
/// whole table, never of a single row.
#[derive(Clone, Copy, Debug, PartialEq, Eq, Structural)]
pub struct IndexOptions {
    pub with_metadata: bool,
    pub with_hash: bool,
}

/// Why a path offered for the root, the cache directory or the report
/// directory is rejected.
#[derive(Clone, Copy, Debug, PartialEq, Eq, Structural)]
pub enum PathError {
    NotFound,
    NotADirectory,
}

/// The decision behind path validation: a path is usable exactly when it
/// exists and is a directory. The caller supplies what the filesystem
/// reported; this function fixes which error wins when both checks fail.
pub fn classify_path(exists: bool, is_directory: bool) -> (r: Result<(), PathError>)
    ensures
        r is Ok <==> (exists && is_directory),
        !exists ==> r == Result::<(), PathError>::Err(PathError::NotFound),
        exists && !is_directory ==> r == Result::<(), PathError>::Err(PathError::NotADirectory),
{
    if !exists {
        Err(PathError::NotFound)
    } else if !is_directory {
        Err(PathError::NotADirectory)
    } else {
        Ok(())
    }
}

} // verus!
