use rust_folder_analysis::IndexOptions;
use rust_folder_analysis::codec::{decode_table, encode_table};
use rust_folder_analysis::record::{FieldError, FileRecord};
use rust_folder_analysis::table::IndexTable;

fn sample_table() -> IndexTable {
    IndexTable {
        options: IndexOptions { with_metadata: true, with_hash: true },
        rows: vec![
            FileRecord {
                path: b"a.txt".to_vec(),
                is_directory: false,
                size: Some(Ok(4)),
                modified_time: Some(Ok(1700000000)),
                content_hash: Some(Ok(0xdeadbeefu64)),
            },
            FileRecord {
                path: b"sub".to_vec(),
                is_directory: true,
                size: Some(Ok(0)),
                modified_time: Some(Ok(1700000001)),
                content_hash: None,
            },
            FileRecord {
                path: b"sub/locked".to_vec(),
                is_directory: false,
                size: Some(Err(FieldError::MetadataUnavailable)),
                modified_time: Some(Err(FieldError::MetadataUnavailable)),
                content_hash: Some(Err(FieldError::HashUnavailable)),
            },
        ],
    }
}

#[test]
fn cache_round_trip_preserves_every_cell() {
    let t = sample_table();
    let bytes = encode_table(&t);
    let back = decode_table(&bytes).expect("a written cache must read back");
    assert_eq!(back, t);
}

#[test]
fn empty_table_round_trips() {
    let t = IndexTable {
        options: IndexOptions { with_metadata: false, with_hash: false },
        rows: Vec::new(),
    };
    let bytes = encode_table(&t);
    let back = decode_table(&bytes).expect("a written cache must read back");
    assert_eq!(back, t);
}

#[test]
fn round_trip_without_optional_columns() {
    let t = IndexTable {
        options: IndexOptions { with_metadata: false, with_hash: false },
        rows: vec![
            FileRecord {
                path: b"x".to_vec(),
                is_directory: false,
                size: None,
                modified_time: None,
                content_hash: None,
            },
            FileRecord {
                path: b"y".to_vec(),
                is_directory: true,
                size: None,
                modified_time: None,
                content_hash: None,
            },
        ],
    };
    let bytes = encode_table(&t);
    assert_eq!(decode_table(&bytes), Some(t));
}

#[test]
fn identical_tables_write_identical_caches() {
    let b1 = encode_table(&sample_table());
    let b2 = encode_table(&sample_table());
    assert_eq!(b1, b2);
}

#[test]
fn decode_rejects_short_input() {
    assert_eq!(decode_table(&Vec::new()), None);
    assert_eq!(decode_table(&vec![0u8; 8]), None);
}

#[test]
fn decode_rejects_unknown_option_byte() {
    let mut bytes = encode_table(&sample_table());
    bytes[0] = 9;
    assert_eq!(decode_table(&bytes), None);
}

#[test]
fn decode_rejects_trailing_bytes() {
    let mut bytes = encode_table(&sample_table());
    bytes.push(0);
    assert_eq!(decode_table(&bytes), None);
}

#[test]
fn decode_rejects_truncated_row() {
    let mut bytes = encode_table(&sample_table());
    bytes.pop();
    assert_eq!(decode_table(&bytes), None);
}

#[test]
fn decode_rejects_bad_kind_byte() {
    let t = IndexTable {
        options: IndexOptions { with_metadata: false, with_hash: false },
        rows: vec![FileRecord {
            path: b"x".to_vec(),
            is_directory: false,
            size: None,
            modified_time: None,
            content_hash: None,
        }],
    };
    let mut bytes = encode_table(&t);
    let last = bytes.len() - 1;
    bytes[last] = 7;
    assert_eq!(decode_table(&bytes), None);
}

#[test]
fn extreme_values_round_trip() {
    let t = IndexTable {
        options: IndexOptions { with_metadata: true, with_hash: true },
        rows: vec![FileRecord {
            path: vec![0xff, 0x00, 0xfe, b'/', b'x'],
            is_directory: false,
            size: Some(Ok(u64::MAX)),
            modified_time: Some(Ok(u64::MAX)),
            content_hash: Some(Ok(u64::MAX)),
        }],
    };
    let bytes = encode_table(&t);
    assert_eq!(decode_table(&bytes), Some(t));
}

#[test]
fn long_path_round_trips() {
    let mut long = b"dir/".to_vec();
    while long.len() < 5000 {
        long.push(b'x');
    }
    let t = IndexTable {
        options: IndexOptions { with_metadata: false, with_hash: true },
        rows: vec![
            FileRecord {
                path: long,
                is_directory: false,
                size: None,
                modified_time: None,
                content_hash: Some(Ok(1)),
            },
            FileRecord {
                path: Vec::new(),
                is_directory: true,
                size: None,
                modified_time: None,
                content_hash: None,
            },
        ],
    };
    let bytes = encode_table(&t);
    assert_eq!(decode_table(&bytes), Some(t));
}
