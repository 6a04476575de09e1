//! Collecting and checking bundles.
use smg::tokenizer_bundle::{
    check_fingerprint, check_zip_entries, checked_add_uncompressed_size, collect_stream_bundle,
    has_traversal, hex_lower, validate_bundle_sha256, validate_zip_archive,
    validate_zip_archive_by, BundleChunk, PathRules,
    BundleCollector, StreamBundle, ZipEntry, MAX_STREAM_BUNDLE_SIZE, MAX_UNCOMPRESSED_SIZE,
    MAX_ZIP_ENTRIES,
};
use sha2::{Digest, Sha256};
use std::io::{Cursor, Write};
use zip::write::SimpleFileOptions;
use zip::ZipWriter;

fn chunk(data: &[u8], sha256: &str) -> Result<BundleChunk, String> {
    Ok(BundleChunk {
        data: data.to_vec(),
        sha256: sha256.to_string(),
    })
}

fn build_test_zip(entry_count: usize, payload: &[u8]) -> Vec<u8> {
    let cursor = Cursor::new(Vec::new());
    let mut writer = ZipWriter::new(cursor);

    for i in 0..entry_count {
        writer
            .start_file(format!("file-{i}.txt"), SimpleFileOptions::default())
            .unwrap();
        writer.write_all(payload).unwrap();
    }

    writer.finish().unwrap().into_inner()
}

fn make_bundle(compressed_data: Vec<u8>, sha256: String) -> StreamBundle {
    StreamBundle {
        sha256,
        compressed_data,
    }
}

#[test]
fn collect_single_chunk() {
    let bundle = collect_stream_bundle(vec![chunk(b"zipdata", "abc123")]).unwrap();
    assert_eq!(bundle.compressed_data, b"zipdata");
    assert_eq!(bundle.sha256, "abc123");
}

#[test]
fn collect_multiple_chunks() {
    let bundle = collect_stream_bundle(vec![
        chunk(b"abc", ""),
        chunk(b"def", ""),
        chunk(b"ghi", "sha"),
    ])
    .unwrap();
    assert_eq!(bundle.compressed_data, b"abcdefghi");
    assert_eq!(bundle.sha256, "sha");
}

#[test]
fn collect_uses_last_non_empty_sha256() {
    let bundle = collect_stream_bundle(vec![
        chunk(b"abc", "sha-old"),
        chunk(b"def", ""),
        chunk(b"ghi", "sha-new"),
    ])
    .unwrap();
    assert_eq!(bundle.compressed_data, b"abcdefghi");
    assert_eq!(bundle.sha256, "sha-new");
}

#[test]
fn collect_rejects_missing_terminal_sha256() {
    let err = collect_stream_bundle(vec![chunk(b"abc", "sha-old"), chunk(b"def", "")]).unwrap_err();
    assert!(err.contains("without terminal sha256"));
}

#[test]
fn collect_empty_stream() {
    let err = collect_stream_bundle(Vec::new()).unwrap_err();
    assert!(err.contains("no chunks received"));
}

#[test]
fn collect_stream_error() {
    let err = collect_stream_bundle(vec![chunk(b"abc", ""), Err("socket closed".to_string())])
        .unwrap_err();
    assert!(err.contains("Stream error: socket closed"));
}

#[test]
fn collect_exceeds_max_size() {
    let oversized = vec![0u8; MAX_STREAM_BUNDLE_SIZE + 1];
    let err = collect_stream_bundle(vec![Ok(BundleChunk {
        data: oversized,
        sha256: String::new(),
    })])
    .unwrap_err();
    assert!(err.contains("exceeds maximum size limit"));
    assert_eq!(
        err,
        "Stream bundle exceeds maximum size limit (209715201 bytes > 209715200 bytes)"
    );
}

#[test]
fn collect_rejects_no_sha256() {
    let err = collect_stream_bundle(vec![chunk(b"data", "")]).unwrap_err();
    assert!(err.contains("without terminal sha256"));
}

#[test]
fn collect_rejects_an_empty_bundle() {
    let err = collect_stream_bundle(vec![chunk(b"", "sha")]).unwrap_err();
    assert_eq!(err, "Received empty stream bundle");
}

#[test]
fn a_refused_chunk_leaves_the_collector_as_it_was() {
    let mut collector = BundleCollector::new();
    collector.add_chunk(chunk(b"abc", "sha").unwrap()).unwrap();
    let oversized = BundleChunk {
        data: vec![0u8; MAX_STREAM_BUNDLE_SIZE],
        sha256: String::new(),
    };
    assert!(collector.add_chunk(oversized).is_err());
    let bundle = collector.finish().unwrap();
    assert_eq!(bundle.compressed_data, b"abc");
    assert_eq!(bundle.sha256, "sha");
}

#[test]
fn validate_sha256_accepts_matching_fingerprint() {
    let compressed_data = b"test-bundle".to_vec();
    let sha256 = hex_lower(&Sha256::digest(&compressed_data));
    let bundle = make_bundle(compressed_data, sha256);

    validate_bundle_sha256(&bundle).unwrap();
}

#[test]
fn validate_sha256_accepts_uppercase_fingerprint() {
    let compressed_data = b"test-bundle".to_vec();
    let sha256 = hex_lower(&Sha256::digest(&compressed_data)).to_uppercase();
    let bundle = make_bundle(compressed_data, sha256);

    validate_bundle_sha256(&bundle).unwrap();
}

#[test]
fn validate_sha256_rejects_mismatch() {
    let bundle = make_bundle(b"test-bundle".to_vec(), "deadbeef".to_string());

    let err = validate_bundle_sha256(&bundle).unwrap_err();
    assert!(err.contains("fingerprint mismatch"));
}

#[test]
fn validate_sha256_allows_missing_fingerprint() {
    let bundle = make_bundle(b"test-bundle".to_vec(), String::new());
    validate_bundle_sha256(&bundle).unwrap();
}

#[test]
fn the_fingerprint_is_the_known_digest() {
    let bundle = make_bundle(
        b"abc".to_vec(),
        "ba7816bf8f01cfea414140de5dae2223b00361a396177a9cb410ff61f20015ad".to_string(),
    );
    validate_bundle_sha256(&bundle).unwrap();
}

#[test]
fn a_mismatch_names_both_fingerprints() {
    assert_eq!(
        check_fingerprint("00", &[0x0f, 0xa0]).unwrap_err(),
        "Bundle fingerprint mismatch: expected 00, got 0fa0"
    );
    assert!(check_fingerprint("0FA0", &[0x0f, 0xa0]).is_ok());
    assert_eq!(hex_lower(&[0x00, 0x9a, 0xff]), "009aff");
}

#[test]
fn validate_zip_accepts_valid_zip() {
    let zip_bytes = build_test_zip(1, b"hello");
    let archive = validate_zip_archive(zip_bytes).unwrap();
    assert_eq!(archive.len(), 1);
}

#[test]
fn validate_zip_rejects_invalid_data() {
    let err = validate_zip_archive(vec![1, 2, 3, 4]).unwrap_err();
    assert!(err.contains("Failed to open zip archive"));
}

#[test]
fn validate_zip_rejects_too_many_entries() {
    let zip_bytes = build_test_zip(MAX_ZIP_ENTRIES + 1, b"x");
    let err = validate_zip_archive(zip_bytes).unwrap_err();
    assert!(err.contains("too many entries"));
    assert_eq!(err, "Zip archive has too many entries (51 > 50)");
    assert_eq!(
        validate_zip_archive(build_test_zip(MAX_ZIP_ENTRIES, b"x"))
            .unwrap()
            .len(),
        MAX_ZIP_ENTRIES
    );
}

#[test]
fn validate_zip_rejects_unsafe_paths() {
    let cursor = Cursor::new(Vec::new());
    let mut writer = ZipWriter::new(cursor);
    writer
        .start_file("../evil.txt", SimpleFileOptions::default())
        .unwrap();
    writer.write_all(b"x").unwrap();
    let zip_bytes = writer.finish().unwrap().into_inner();

    let err = validate_zip_archive(zip_bytes).unwrap_err();
    assert!(err.contains("unsafe path"));
    assert_eq!(err, "Zip archive contains unsafe path: ../evil.txt");
}

#[test]
fn checked_add_rejects_u64_overflow() {
    let err = checked_add_uncompressed_size(u64::MAX, 1).unwrap_err();
    assert!(err.contains("overflowed u64"));
}

#[test]
fn paths_that_lead_out_are_found() {
    assert!(has_traversal("/etc/passwd", PathRules::Unix));
    assert!(has_traversal("..", PathRules::Unix));
    assert!(has_traversal("a/../b", PathRules::Unix));
    assert!(has_traversal("a/..", PathRules::Unix));
    assert!(!has_traversal("a/..b/c..", PathRules::Unix));
    assert!(!has_traversal("a/.../b", PathRules::Unix));
    assert!(!has_traversal("./a", PathRules::Unix));
    assert!(!has_traversal("", PathRules::Unix));
}

#[test]
fn windows_paths_that_lead_out_are_found() {
    for path in ["..\\x", "a\\..\\b", "a/..\\b", "\\x", "\\\\server\\share", "C:x", "z:\\x"] {
        assert!(has_traversal(path, PathRules::Windows), "{path}");
        assert!(!has_traversal(path, PathRules::Unix), "{path}");
    }
    for path in ["/x", "..", "a/../b"] {
        assert!(has_traversal(path, PathRules::Windows), "{path}");
    }
    for path in ["a\\b", "1:x", ":", "..a\\b..", ""] {
        assert!(!has_traversal(path, PathRules::Windows), "{path}");
    }
}

#[test]
fn an_archive_is_checked_by_the_rules_of_the_machine() {
    let cursor = Cursor::new(Vec::new());
    let mut writer = ZipWriter::new(cursor);
    writer
        .start_file("..\\evil.txt", SimpleFileOptions::default())
        .unwrap();
    writer.write_all(b"x").unwrap();
    let zip_bytes = writer.finish().unwrap().into_inner();
    assert_eq!(
        validate_zip_archive_by(zip_bytes.clone(), PathRules::Windows).unwrap_err(),
        "Zip archive contains unsafe path: ..\\evil.txt"
    );
    assert!(validate_zip_archive_by(zip_bytes.clone(), PathRules::Unix).is_ok());
    // The machine refuses what its own way to take paths apart finds.
    let leads_out = std::path::Path::new("..\\evil.txt")
        .components()
        .any(|c| matches!(c, std::path::Component::ParentDir));
    assert_eq!(validate_zip_archive(zip_bytes).is_err(), leads_out);
}

#[test]
fn entries_are_checked_in_turn() {
    let entry = |name: &str, size: u64| {
        Ok(ZipEntry {
            name: name.to_string(),
            size,
        })
    };
    assert!(check_zip_entries(&vec![entry("a", MAX_UNCOMPRESSED_SIZE)], PathRules::Unix).is_ok());
    assert_eq!(
        check_zip_entries(&vec![entry("a", MAX_UNCOMPRESSED_SIZE), entry("b", 1)], PathRules::Unix)
            .unwrap_err(),
        "Zip archive uncompressed size too large (524288001 bytes > 524288000 bytes)"
    );
    assert_eq!(
        check_zip_entries(&vec![
            entry("a", 1),
            Err("broken".to_string()),
            entry("../b", 1)
        ], PathRules::Unix)
        .unwrap_err(),
        "Failed to read zip entry 1: broken"
    );
    assert_eq!(
        check_zip_entries(&vec![entry("a", u64::MAX), entry("b", 1)], PathRules::Unix)
            .unwrap_err(),
        "Zip archive total uncompressed size overflowed u64"
    );
    assert!(check_zip_entries(&Vec::new(), PathRules::Unix).is_ok());
}
