use vstd::prelude::*;

use crate::IndexOptions;

verus! {

/// The kind of a filesystem entry yielded by traversal.
#[derive(Clone, Copy, Debug, PartialEq, Eq, Structural)]
pub enum EntryKind {
    File,
    Directory,
}

/// A field-level failure recorded on a row in place of a value.
/// A failure on one field never drops the row itself.
#[derive(Clone, Copy, Debug, PartialEq, Eq, Structural)]
pub enum FieldError {
    MetadataUnavailable,
    HashUnavailable,
}

/// What a successful stat of an entry yields: its size in bytes and its
/// modification time (seconds since the epoch).
#[derive(Clone, Copy, Debug, PartialEq, Eq, Structural)]
pub struct EntryMeta {
    pub size: u64,
    pub modified: u64,
}

/// One filesystem entry as the traversal hands it to the indexing engine:
/// the path (as raw bytes), the entry kind, and the raw outcomes of the
/// stat and hash attempts. When an option is disabled for the run, the
/// corresponding outcome is ignored entirely.
#[derive(Debug, PartialEq)]
pub struct EntryInput {
    pub path: Vec<u8>,
    pub kind: EntryKind,
    pub meta: Result<EntryMeta, ()>,
    pub hash: Result<u64, ()>,
}

/// Mathematical model of an `EntryInput`.
#[verifier::ext_equal]
pub struct EntryModel {
    pub path: Seq<u8>,
    pub kind: EntryKind,
    pub meta: Result<EntryMeta, ()>,
    pub hash: Result<u64, ()>,
}

impl View for EntryInput {
    type V = EntryModel;

    open spec fn view(&self) -> EntryModel {
        EntryModel {
            path: self.path@,
            kind: self.kind,
            meta: self.meta,
            hash: self.hash,
        }
    }
}

/// One row of the index: path, kind, and the three optional columns.
/// A column is `None` when it is absent for this row (fixed by the run's
/// options, and for the hash column by the entry kind), `Some(Ok(..))`
/// when the value was obtained, and `Some(Err(..))` when the attempt
/// failed but the row is kept.
#[derive(Debug, PartialEq)]
pub struct FileRecord {
    pub path: Vec<u8>,
    pub is_directory: bool,
    pub size: Option<Result<u64, FieldError>>,
    pub modified_time: Option<Result<u64, FieldError>>,
    pub content_hash: Option<Result<u64, FieldError>>,
}

/// Mathematical model of a `FileRecord`.
#[verifier::ext_equal]
pub struct RecordModel {
    pub path: Seq<u8>,
    pub is_directory: bool,
    pub size: Option<Result<u64, FieldError>>,
    pub modified_time: Option<Result<u64, FieldError>>,
    pub content_hash: Option<Result<u64, FieldError>>,
}

impl View for FileRecord {
    type V = RecordModel;

    open spec fn view(&self) -> RecordModel {
        RecordModel {
            path: self.path@,
            is_directory: self.is_directory,
            size: self.size,
            modified_time: self.modified_time,
            content_hash: self.content_hash,
        }
    }
}

/// The record the engine builds for one entry under the given options:
/// the metadata columns are populated exactly when metadata is enabled,
/// carrying the stat outcome; the hash column is populated exactly when
/// hashing is enabled and the entry is a file, carrying the hash outcome.
pub open spec fn spec_record_of(opts: IndexOptions, e: EntryModel) -> RecordModel {
    RecordModel {
        path: e.path,
        is_directory: e.kind is Directory,
        size: if opts.with_metadata {
            Some(
                match e.meta {
                    Ok(m) => Ok(m.size),
                    Err(_) => Err(FieldError::MetadataUnavailable),
                },
            )
        } else {
            None
        },
        modified_time: if opts.with_metadata {
            Some(
                match e.meta {
                    Ok(m) => Ok(m.modified),
                    Err(_) => Err(FieldError::MetadataUnavailable),
                },
            )
        } else {
            None
        },
        content_hash: if opts.with_hash && e.kind is File {
            Some(
                match e.hash {
                    Ok(d) => Ok(d),
                    Err(_) => Err(FieldError::HashUnavailable),
                },
            )
        } else {
            None
        },
    }
}

/// Column shape of a single row under the run's options: the metadata
/// columns are present iff metadata is enabled (and succeed or fail
/// together, with the metadata error tag), and the hash column is
/// present iff hashing is enabled and the row is a file (with the hash
/// error tag).
pub open spec fn record_shape_ok(opts: IndexOptions, r: RecordModel) -> bool {
    &&& (r.size is Some <==> opts.with_metadata)
    &&& (r.modified_time is Some <==> opts.with_metadata)
    &&& (r.content_hash is Some <==> (opts.with_hash && !r.is_directory))
    &&& (r.size matches Some(f) ==> (f matches Err(t) ==> t == FieldError::MetadataUnavailable))
    &&& (r.modified_time matches Some(f) ==> (f matches Err(t)
        ==> t == FieldError::MetadataUnavailable))
    &&& (r.content_hash matches Some(f) ==> (f matches Err(t) ==> t == FieldError::HashUnavailable))
    &&& (opts.with_metadata ==> (r.size->Some_0 is Ok <==> r.modified_time->Some_0 is Ok))
}

/// Every record the engine builds has the column shape fixed by the options.
pub proof fn lemma_record_of_shape(opts: IndexOptions, e: EntryModel)
    ensures
        record_shape_ok(opts, spec_record_of(opts, e)),
{
}

/// Builds the one row for a single traversal entry. The result is exactly
/// `spec_record_of` applied to the entry: no entry is dropped, and a failed
/// stat or hash becomes a field-level error tag on the row.
pub fn record_for_entry(opts: IndexOptions, e: EntryInput) -> (r: FileRecord)
    ensures
        r@ == spec_record_of(opts, e@),
        record_shape_ok(opts, r@),
{
    let is_directory = match e.kind {
        EntryKind::Directory => true,
        EntryKind::File => false,
    };
    let size: Option<Result<u64, FieldError>> = if opts.with_metadata {
        Some(
            match e.meta {
                Ok(m) => Ok(m.size),
                Err(_) => Err(FieldError::MetadataUnavailable),
            },
        )
    } else {
        None
    };
    let modified_time: Option<Result<u64, FieldError>> = if opts.with_metadata {
        Some(
            match e.meta {
                Ok(m) => Ok(m.modified),
                Err(_) => Err(FieldError::MetadataUnavailable),
            },
        )
    } else {
        None
    };
    let content_hash: Option<Result<u64, FieldError>> = if opts.with_hash && matches!(e.kind, EntryKind::File) {
        Some(
            match e.hash {
                Ok(d) => Ok(d),
                Err(_) => Err(FieldError::HashUnavailable),
            },
        )
    } else {
        None
    };
    let r = FileRecord { path: e.path, is_directory, size, modified_time, content_hash };
    proof {
        assert(r@ =~= spec_record_of(opts, e@));
    }
    r
}

} // verus!
