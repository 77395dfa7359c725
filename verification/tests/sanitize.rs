//! Tests of the path sanitizer and of the byte-level path helpers.

use unpack_assets::paths::{extract_asset_hash, extract_guid_from_path};
use unpack_assets::sanitize_path::sanitize_path;
use unpack_assets::write_ops::WriteErrorKind;

#[test]
fn test_sanitize_path() {
    // Normal filename
    assert_eq!(sanitize_path(b"filename.ext").unwrap(), b"filename.ext".to_vec());

    // Normal path
    assert_eq!(sanitize_path(b"folder\\file.ext").unwrap(), b"folder/file.ext".to_vec());

    // Unix path
    assert_eq!(sanitize_path(b"folder/file.ext").unwrap(), b"folder/file.ext".to_vec());

    // Any number or ../ at the start will be removed.
    assert_eq!(sanitize_path(b"../folder/file.ext").unwrap(), b"folder/file.ext".to_vec());

    // .. anywhere in the dir part will error out.
    assert!(sanitize_path(b"folder/../file.ext").is_err());

    // new line/empty chars at the end should be removed
    assert_eq!(sanitize_path(b"folder/file.ext\r\n\0").unwrap(), b"folder/file.ext".to_vec());

    // anything after a new line should be trimmed off
    assert_eq!(sanitize_path(b"folder/file.ext\n00").unwrap(), b"folder/file.ext".to_vec());
}

#[test]
fn sanitize_is_idempotent_on_accepted_paths() {
    let cases: Vec<&[u8]> = vec![
        b"filename.ext",
        b"folder\\file.ext",
        b"../folder/file.ext",
        b"folder/file.ext\r\n\0",
        b"Assets/Scripts/",
        b"  spaced name  ",
    ];
    for case in cases {
        let once = sanitize_path(case).unwrap();
        let twice = sanitize_path(&once).unwrap();
        assert_eq!(once, twice);
    }
}

#[test]
fn sanitize_rejection_reports_the_offending_path() {
    let err = sanitize_path(b"folder/../file.ext").unwrap_err();
    assert_eq!(err.path, b"folder/../file.ext".to_vec());
    assert_eq!(err.kind, WriteErrorKind::InvalidPath);
}

#[test]
fn sanitize_cuts_at_embedded_terminator() {
    // The remainder after a raw terminator is discarded, wherever it sits.
    assert_eq!(sanitize_path(b"name\0junk").unwrap(), b"name".to_vec());
    // The traversal check runs on the whole normalized path, before the
    // cut, so traversal hidden behind a terminator is still rejected.
    assert!(sanitize_path(b"name\0/../../etc/passwd").is_err());
}

#[test]
fn sanitize_trims_leading_traversal_prefixes() {
    assert_eq!(sanitize_path(b"../../../deep/file").unwrap(), b"deep/file".to_vec());
    assert_eq!(sanitize_path(b"./relative/file").unwrap(), b"relative/file".to_vec());
}

#[test]
fn sanitize_of_all_trim_bytes_is_empty() {
    assert_eq!(sanitize_path(b". / .\r\n").unwrap(), b"".to_vec());
}

#[test]
fn guid_is_the_parent_directory_name() {
    assert_eq!(extract_guid_from_path(b"abc123/asset"), b"abc123".to_vec());
    assert_eq!(extract_guid_from_path(b"a/b/asset"), b"b".to_vec());
    assert_eq!(extract_guid_from_path(b"a//asset"), b"a".to_vec());
    assert_eq!(extract_guid_from_path(b"asset"), b"".to_vec());
}

#[test]
fn asset_hash_is_the_prefix_before_the_first_slash() {
    assert_eq!(extract_asset_hash(b"abc123/asset"), b"abc123".to_vec());
    assert_eq!(extract_asset_hash(b"noslash"), b"noslash".to_vec());
    assert_eq!(extract_asset_hash(b"/leading"), b"".to_vec());
}

#[test]
fn sanitize_handles_bytes_that_are_not_text() {
    // Paths are raw bytes: a byte outside ASCII passes through untouched.
    let mut raw: Vec<u8> = vec![0xFF, 0xC0];
    raw.extend_from_slice(b"folder/file");
    assert_eq!(sanitize_path(&raw).unwrap(), raw);
}
