use rust_folder_analysis::classify_path;
use rust_folder_analysis::IndexOptions;
use rust_folder_analysis::PathError;
use rust_folder_analysis::hashing::hash_bytes;
use rust_folder_analysis::record::{EntryInput, EntryKind, EntryMeta, FieldError};
use rust_folder_analysis::table::{IndexTable, index_from_entries};

fn file_entry(path: &str, size: u64, modified: u64, content: &[u8]) -> EntryInput {
    EntryInput {
        path: path.as_bytes().to_vec(),
        kind: EntryKind::File,
        meta: Ok(EntryMeta { size, modified }),
        hash: Ok(hash_bytes(&content.to_vec())),
    }
}

fn dir_entry(path: &str, modified: u64) -> EntryInput {
    EntryInput {
        path: path.as_bytes().to_vec(),
        kind: EntryKind::Directory,
        meta: Ok(EntryMeta { size: 0, modified }),
        hash: Err(()),
    }
}

#[test]
fn example_two_files_one_subdirectory() {
    // root: a.txt (4 bytes), sub/ and sub/b.txt (0 bytes), indexed with
    // metadata and hashing enabled: three rows.
    let opts = IndexOptions { with_metadata: true, with_hash: true };
    let entries = vec![
        file_entry("a.txt", 4, 1000, b"hop!"),
        dir_entry("sub", 1001),
        file_entry("sub/b.txt", 0, 1002, b""),
    ];
    let t = index_from_entries(opts, entries);
    assert_eq!(t.row_count(), 3);

    let a = &t.rows[0];
    assert_eq!(a.path, b"a.txt".to_vec());
    assert!(!a.is_directory);
    assert_eq!(a.size, Some(Ok(4)));
    let digest = match a.content_hash {
        Some(Ok(d)) => d,
        other => panic!("expected a digest for a.txt, got {:?}", other),
    };
    assert_eq!(digest, hash_bytes(&b"hop!".to_vec()));

    let sub = &t.rows[1];
    assert_eq!(sub.path, b"sub".to_vec());
    assert!(sub.is_directory);
    assert_eq!(sub.content_hash, None);

    let b = &t.rows[2];
    assert_eq!(b.path, b"sub/b.txt".to_vec());
    assert_eq!(b.size, Some(Ok(0)));
    // the empty input still has a digest: the hash of zero bytes
    assert_eq!(b.content_hash, Some(Ok(hash_bytes(&Vec::new()))));
}

#[test]
fn row_count_equals_entry_count() {
    let opts = IndexOptions { with_metadata: false, with_hash: false };
    let entries = vec![
        dir_entry("top", 1),
        file_entry("top/x", 10, 2, b"x"),
        file_entry("top/y", 20, 3, b"yy"),
        dir_entry("top/inner", 4),
        file_entry("top/inner/z", 30, 5, b"zzz"),
    ];
    let n = entries.len();
    let t = index_from_entries(opts, entries);
    assert_eq!(t.row_count(), n);
    for row in &t.rows {
        assert_eq!(row.size, None);
        assert_eq!(row.modified_time, None);
        assert_eq!(row.content_hash, None);
    }
}

#[test]
fn hash_column_present_only_for_files_when_enabled() {
    let entries = || vec![
        file_entry("f1", 1, 1, b"a"),
        dir_entry("d1", 2),
        file_entry("d1/f2", 2, 3, b"bb"),
    ];
    let with = index_from_entries(IndexOptions { with_metadata: false, with_hash: true }, entries());
    assert!(with.rows[0].content_hash.is_some());
    assert!(with.rows[1].content_hash.is_none());
    assert!(with.rows[2].content_hash.is_some());
    let without = index_from_entries(
        IndexOptions { with_metadata: false, with_hash: false },
        entries(),
    );
    for row in &without.rows {
        assert!(row.content_hash.is_none());
    }
}

#[test]
fn metadata_columns_present_iff_enabled() {
    let entries = || vec![file_entry("f", 7, 99, b"q"), dir_entry("d", 100)];
    let with = index_from_entries(IndexOptions { with_metadata: true, with_hash: false }, entries());
    assert_eq!(with.rows[0].size, Some(Ok(7)));
    assert_eq!(with.rows[0].modified_time, Some(Ok(99)));
    assert_eq!(with.rows[1].size, Some(Ok(0)));
    let without = index_from_entries(
        IndexOptions { with_metadata: false, with_hash: false },
        entries(),
    );
    for row in &without.rows {
        assert!(row.size.is_none());
        assert!(row.modified_time.is_none());
    }
}

#[test]
fn one_unreadable_file_keeps_its_row_and_its_siblings() {
    let opts = IndexOptions { with_metadata: true, with_hash: true };
    let blocked = EntryInput {
        path: b"locked.bin".to_vec(),
        kind: EntryKind::File,
        meta: Err(()),
        hash: Err(()),
    };
    let entries = vec![file_entry("ok1", 5, 1, b"aaaaa"), blocked, file_entry("ok2", 2, 2, b"bb")];
    let t = index_from_entries(opts, entries);
    assert_eq!(t.row_count(), 3);
    let bad = &t.rows[1];
    assert_eq!(bad.path, b"locked.bin".to_vec());
    assert_eq!(bad.size, Some(Err(FieldError::MetadataUnavailable)));
    assert_eq!(bad.modified_time, Some(Err(FieldError::MetadataUnavailable)));
    assert_eq!(bad.content_hash, Some(Err(FieldError::HashUnavailable)));
    assert_eq!(t.rows[0].size, Some(Ok(5)));
    assert!(matches!(t.rows[0].content_hash, Some(Ok(_))));
    assert_eq!(t.rows[2].size, Some(Ok(2)));
    assert!(matches!(t.rows[2].content_hash, Some(Ok(_))));
}

#[test]
fn path_seen_twice_yields_one_row() {
    // what a traversal that walked a cyclic symlink would hand over:
    // the same entries again under the already-recorded paths
    let opts = IndexOptions { with_metadata: false, with_hash: false };
    let entries = vec![
        dir_entry("root", 1),
        file_entry("root/a", 1, 1, b"a"),
        dir_entry("root", 1),
        file_entry("root/a", 1, 1, b"a"),
    ];
    let t = index_from_entries(opts, entries);
    assert_eq!(t.row_count(), 2);
    assert_eq!(t.rows[0].path, b"root".to_vec());
    assert_eq!(t.rows[1].path, b"root/a".to_vec());
}

#[test]
fn push_entry_reports_duplicates() {
    let mut t = IndexTable::new(IndexOptions { with_metadata: false, with_hash: false });
    assert!(t.push_entry(dir_entry("d", 1)));
    assert!(!t.push_entry(dir_entry("d", 2)));
    assert_eq!(t.row_count(), 1);
}

#[test]
fn re_indexing_identical_entries_gives_identical_tables() {
    let opts = IndexOptions { with_metadata: true, with_hash: true };
    let entries = || vec![
        file_entry("a", 3, 10, b"one"),
        dir_entry("d", 11),
        file_entry("d/b", 4, 12, b"two!"),
    ];
    let t1 = index_from_entries(opts, entries());
    let t2 = index_from_entries(opts, entries());
    assert_eq!(t1, t2);
}

#[test]
fn modified_times_may_differ_without_changing_content_columns() {
    let opts = IndexOptions { with_metadata: true, with_hash: true };
    let first = vec![file_entry("a", 3, 10, b"one")];
    let second = vec![file_entry("a", 3, 999, b"one")];
    let t1 = index_from_entries(opts, first);
    let t2 = index_from_entries(opts, second);
    assert_eq!(t1.rows[0].path, t2.rows[0].path);
    assert_eq!(t1.rows[0].size, t2.rows[0].size);
    assert_eq!(t1.rows[0].content_hash, t2.rows[0].content_hash);
    assert_ne!(t1.rows[0].modified_time, t2.rows[0].modified_time);
}

#[test]
fn classify_path_accepts_only_existing_directories() {
    assert_eq!(classify_path(true, true), Ok(()));
    assert_eq!(classify_path(false, false), Err(PathError::NotFound));
    assert_eq!(classify_path(false, true), Err(PathError::NotFound));
    assert_eq!(classify_path(true, false), Err(PathError::NotADirectory));
}
