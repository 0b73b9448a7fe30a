use std::path::{Path, PathBuf};

use kaoruko::sender::dtos::{MarketOffer, PublishOfferRequest};
use kaoruko::sender::market::MarketError;
use kaoruko::sender::metadata::{
    build_metadata, resolve_item_path, sanitize_relative_path, to_slash_path, FileEntry,
    ItemMetadata, MetadataBuilder, MetadataError, ScannedFile,
};
use kaoruko::sender::publish::{market_offer, requested_item_path};

fn scanned(path: &str, contents: &[u8]) -> ScannedFile {
    ScannedFile {
        path: path.to_string(),
        size: contents.len() as u64,
        contents: contents.to_vec(),
    }
}

#[test]
fn sanitize_rejects_parent() {
    assert!(sanitize_relative_path("../secret").is_err());
    assert!(sanitize_relative_path("/abs/path").is_err());
}

#[test]
fn build_metadata_collects_files() {
    let files = vec![scanned("a.txt", b"hello"), scanned("nested/b.txt", b"world")];

    let metadata = build_metadata("sample", files);

    assert_eq!(metadata.total_size, 10);
    assert_eq!(metadata.files.len(), 2);
    assert_eq!(metadata.item, "sample");
}

#[test]
fn sanitize_error_messages() {
    let absolute = sanitize_relative_path("/abs/path").unwrap_err();
    assert_eq!(absolute.message(), "absolute paths are not allowed");
    let traversal = sanitize_relative_path("a/../b").unwrap_err();
    assert_eq!(traversal.message(), "path traversal is not allowed");
    assert_eq!(traversal.to_string(), "path traversal is not allowed");
    assert!(traversal.io_source().is_none());
    let last = sanitize_relative_path("a/..").unwrap_err();
    assert_eq!(last.message(), "path traversal is not allowed");
    let only = sanitize_relative_path("..").unwrap_err();
    assert_eq!(only.message(), "path traversal is not allowed");
}

#[test]
fn sanitize_accepts_relative_paths() {
    assert_eq!(sanitize_relative_path("sample").unwrap(), PathBuf::from("sample"));
    assert_eq!(
        sanitize_relative_path("nested/b.txt").unwrap(),
        PathBuf::from("nested/b.txt")
    );
    assert_eq!(sanitize_relative_path("./x/...").unwrap(), PathBuf::from("./x/..."));
    assert_eq!(sanitize_relative_path("a..b/c").unwrap(), PathBuf::from("a..b/c"));
    assert_eq!(sanitize_relative_path("").unwrap(), PathBuf::from(""));
}

#[test]
fn resolve_item_path_joins_under_base() {
    let base = Path::new("/srv/data");
    assert_eq!(
        resolve_item_path(base, "sample/file.bin").unwrap(),
        PathBuf::from("/srv/data/sample/file.bin")
    );
    assert!(resolve_item_path(base, "/etc/passwd").is_err());
    assert!(resolve_item_path(base, "sample/../../etc").is_err());
}

#[test]
fn to_slash_path_replaces_backslashes() {
    assert_eq!(to_slash_path(Path::new("nested\\b.txt")), "nested/b.txt");
    assert_eq!(to_slash_path(Path::new("plain/c.txt")), "plain/c.txt");
    assert_eq!(to_slash_path(Path::new("")), "");
}

#[test]
fn build_metadata_sorts_sums_and_hashes() {
    let files = vec![scanned("nested/b.txt", b"world"), scanned("a.txt", b"hello")];
    let metadata: ItemMetadata = build_metadata("sample", files);
    assert_eq!(metadata.files[0].path, "a.txt");
    assert_eq!(metadata.files[0].size, 5);
    assert_eq!(metadata.files[1].path, "nested/b.txt");
    assert_eq!(metadata.files[1].size, 5);
    assert_eq!(
        metadata.info_hash,
        "46fc85289e7568855333a1fecb69691a48fe1d659d9a1df1ca54d9de9cbc2b48"
    );
}

#[test]
fn build_metadata_is_independent_of_scan_order() {
    let one = build_metadata(
        "item",
        vec![scanned("b", b"2"), scanned("a", b"1"), scanned("c", b"3")],
    );
    let two = build_metadata(
        "item",
        vec![scanned("c", b"3"), scanned("b", b"2"), scanned("a", b"1")],
    );
    assert_eq!(one.info_hash, two.info_hash);
    let paths: Vec<&str> = one.files.iter().map(|f| f.path.as_str()).collect();
    assert_eq!(paths, vec!["a", "b", "c"]);
}

#[test]
fn build_metadata_of_nothing() {
    let metadata = build_metadata("empty", Vec::new());
    assert_eq!(metadata.total_size, 0);
    assert!(metadata.files.is_empty());
    assert_eq!(
        metadata.info_hash,
        "e3b0c44298fc1c149afbf4c8996fb92427ae41e4649b934ca495991b7852b855"
    );
}

#[test]
fn build_metadata_total_saturates() {
    let files = vec![
        ScannedFile { path: "x".to_string(), size: u64::MAX, contents: Vec::new() },
        ScannedFile { path: "y".to_string(), size: 7, contents: Vec::new() },
    ];
    let metadata = build_metadata("big", files);
    assert_eq!(metadata.total_size, u64::MAX);
}

#[test]
fn build_metadata_sorts_by_bytes() {
    // 'Z' (0x5A) sorts before 'a' (0x61), and a prefix before its extensions
    let metadata = build_metadata(
        "item",
        vec![scanned("ab", b""), scanned("a", b""), scanned("Z", b"")],
    );
    let paths: Vec<&str> = metadata.files.iter().map(|f| f.path.as_str()).collect();
    assert_eq!(paths, vec!["Z", "a", "ab"]);
}

#[test]
fn metadata_error_from_io_error() {
    let io = std::io::Error::new(std::io::ErrorKind::NotFound, "gone");
    let err: MetadataError = io.into();
    assert_eq!(err.message(), "io error");
    assert!(err.io_source().is_some());
    let err = MetadataError::with_source("read failed", std::io::Error::new(std::io::ErrorKind::Other, "x"));
    assert_eq!(err.message(), "read failed");
    assert!(err.io_source().is_some());
    let err = MetadataError::new("unsupported file type");
    assert_eq!(err.to_string(), "unsupported file type");
}

#[test]
fn market_error_keeps_message() {
    let err = MarketError::new("market rejected offer: 500 boom");
    assert_eq!(err.to_string(), "market rejected offer: 500 boom");
}

#[test]
fn requested_item_path_prefers_explicit_path() {
    let with_path = PublishOfferRequest {
        item: "sample".to_string(),
        item_path: Some("data/sample".to_string()),
    };
    assert_eq!(requested_item_path(&with_path), "data/sample");
    let without = PublishOfferRequest { item: "sample".to_string(), item_path: None };
    assert_eq!(requested_item_path(&without), "sample");
}

#[test]
fn market_offer_takes_total_size() {
    let metadata = build_metadata("sample", vec![scanned("p.txt", b"hello from sender")]);
    let offer: MarketOffer = market_offer(
        "http://127.0.0.1:4000",
        "sample".to_string(),
        "{}".to_string(),
        &metadata,
        1.0f32.to_bits(),
    );
    assert_eq!(offer.address, "http://127.0.0.1:4000");
    assert_eq!(offer.item, "sample");
    assert_eq!(offer.item_info, "{}");
    assert_eq!(offer.item_size, 17);
    assert_eq!(f32::from_bits(offer.version_bits), 1.0);
}

#[test]
fn metadata_builder_streams_contents() {
    let entries = vec![
        FileEntry { path: "nested/b.txt".to_string(), size: 5 },
        FileEntry { path: "a.txt".to_string(), size: 5 },
    ];
    let mut builder = MetadataBuilder::new("sample", entries);
    builder.absorb(b"ignored before any file");
    let mut seen = Vec::new();
    while let Some(path) = builder.start_next_file() {
        let contents: &[u8] = if path == "a.txt" { b"hello" } else { b"world" };
        // fed in two pieces
        builder.absorb(&contents[..2]);
        builder.absorb(&contents[2..]);
        seen.push(path);
    }
    assert_eq!(seen, vec!["a.txt".to_string(), "nested/b.txt".to_string()]);
    let metadata = builder.finish();
    assert_eq!(metadata.item, "sample");
    assert_eq!(metadata.total_size, 10);
    assert_eq!(metadata.files[0].path, "a.txt");
    assert_eq!(metadata.files[1].path, "nested/b.txt");
    assert_eq!(
        metadata.info_hash,
        "46fc85289e7568855333a1fecb69691a48fe1d659d9a1df1ca54d9de9cbc2b48"
    );
    let whole = build_metadata(
        "sample",
        vec![scanned("a.txt", b"hello"), scanned("nested/b.txt", b"world")],
    );
    assert_eq!(metadata.info_hash, whole.info_hash);
}

#[test]
fn info_hash_is_64_lowercase_hex_digits() {
    let metadata = build_metadata("x", vec![scanned("p", b"data")]);
    assert_eq!(metadata.info_hash.len(), 64);
    assert!(metadata.info_hash.chars().all(|c| c.is_ascii_digit() || ('a'..='f').contains(&c)));
}
