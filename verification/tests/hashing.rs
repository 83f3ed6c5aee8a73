use rust_folder_analysis::hashing::{FNV_OFFSET_BASIS, StreamHasher, digest_hex, hash_bytes};

#[test]
fn empty_input_hashes_to_the_offset_basis() {
    assert_eq!(hash_bytes(&Vec::new()), FNV_OFFSET_BASIS);
    assert_eq!(hash_bytes(&Vec::new()), 0xcbf29ce484222325);
}

#[test]
fn known_single_byte_digest() {
    // the published 64-bit FNV-1a digest of the one-byte input "a"
    assert_eq!(hash_bytes(&vec![b'a']), 0xaf63dc4c8601ec8c);
}

#[test]
fn chunked_feeding_equals_hashing_the_whole_content() {
    let whole: Vec<u8> = b"a larger content, read in bounded chunks".to_vec();
    let direct = hash_bytes(&whole);
    let mut h = StreamHasher::new();
    for chunk in whole.chunks(7) {
        h.update(&chunk.to_vec());
    }
    assert_eq!(h.digest(), direct);
    // the digest can be read without consuming the hasher
    assert_eq!(h.digest(), direct);
}

#[test]
fn different_contents_give_different_digests() {
    assert_ne!(hash_bytes(&b"one".to_vec()), hash_bytes(&b"two".to_vec()));
}

#[test]
fn digest_hex_is_sixteen_lowercase_hex_bytes() {
    assert_eq!(digest_hex(0), b"0000000000000000".to_vec());
    assert_eq!(digest_hex(0xaf63dc4c8601ec8c), b"af63dc4c8601ec8c".to_vec());
    assert_eq!(digest_hex(u64::MAX), b"ffffffffffffffff".to_vec());
    let d = digest_hex(hash_bytes(&b"hop!".to_vec()));
    assert_eq!(d.len(), 16);
    assert!(!d.is_empty());
    for b in d {
        assert!(b.is_ascii_hexdigit());
    }
}
