//! Fingerprinting of reduced paths.

use path_reduction::hash::{hash_path, path_to_bytes};

#[test]
fn empty_path_fingerprint() {
    // SHA-256 of the empty message, in lowercase hex
    assert_eq!(
        hash_path(&[]),
        "e3b0c44298fc1c149afbf4c8996fb92427ae41e4649b934ca495991b7852b855"
    );
}

#[test]
fn fingerprint_shape() {
    let h = hash_path(&[1, 2, 3]);
    assert_eq!(h.len(), 64);
    assert!(h.chars().all(|c| c.is_ascii_hexdigit() && !c.is_ascii_uppercase()));
}

#[test]
fn equal_paths_equal_fingerprints() {
    let a = hash_path(&[1, 2, 3, 4]);
    let b = hash_path(&[1, 2, 3, 4]);
    assert_eq!(a, b);
}

#[test]
fn distinct_paths_distinct_fingerprints() {
    assert_ne!(hash_path(&[1]), hash_path(&[2]));
    assert_ne!(hash_path(&[1, 2]), hash_path(&[2, 1]));
    assert_ne!(hash_path(&[]), hash_path(&[0]));
}

#[test]
fn serialisation_is_little_endian_per_block() {
    assert_eq!(path_to_bytes(&[1]), vec![1, 0, 0, 0]);
    assert_eq!(path_to_bytes(&[0x01020304]), vec![4, 3, 2, 1]);
    assert_eq!(path_to_bytes(&[-1]), vec![0xff, 0xff, 0xff, 0xff]);
    assert_eq!(
        path_to_bytes(&[1, 256]),
        vec![1, 0, 0, 0, 0, 1, 0, 0]
    );
}
