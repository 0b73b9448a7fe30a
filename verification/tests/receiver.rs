use kaoruko::receiver::{
    download_targets, encode_path_preserving_slashes, find_offer, FileEntry, ItemMetadata, Offer,
    ReceiverError,
};

fn offer(address: &str, item: &str) -> Offer {
    Offer {
        address: address.to_string(),
        item: item.to_string(),
        item_info: String::new(),
        item_size: 0,
        version_bits: 1.0f32.to_bits(),
    }
}

fn metadata(item: &str, paths: &[&str]) -> ItemMetadata {
    ItemMetadata {
        item: item.to_string(),
        info_hash: String::new(),
        total_size: 0,
        files: paths
            .iter()
            .map(|p| FileEntry { path: p.to_string(), size: 1 })
            .collect(),
    }
}

#[test]
fn encode_path_keeps_slashes() {
    assert_eq!(encode_path_preserving_slashes("sample/payload.txt"), "sample/payload.txt");
    assert_eq!(encode_path_preserving_slashes("a b/c%d"), "a%20b/c%25d");
    assert_eq!(encode_path_preserving_slashes("/x//y/"), "/x//y/");
    assert_eq!(encode_path_preserving_slashes("é~-._"), "%C3%A9~-._");
    assert_eq!(encode_path_preserving_slashes(""), "");
}

#[test]
fn download_targets_of_nested_files() {
    let targets = download_targets(
        &offer("http://127.0.0.1:4000/", "sample/"),
        &metadata("sample", &["payload.txt", "/dir/a b.txt"]),
    );
    assert_eq!(targets.len(), 2);
    assert_eq!(targets[0].download_path, "sample/payload.txt");
    assert_eq!(targets[0].url, "http://127.0.0.1:4000/api/files/sample/payload.txt");
    assert_eq!(targets[0].out_relative, "payload.txt");
    assert_eq!(targets[1].download_path, "sample/dir/a b.txt");
    assert_eq!(targets[1].url, "http://127.0.0.1:4000/api/files/sample/dir/a%20b.txt");
    assert_eq!(targets[1].out_relative, "dir/a b.txt");
}

#[test]
fn download_target_of_single_file_item() {
    let targets = download_targets(&offer("http://s", "file.bin"), &metadata("file.bin", &[""]));
    assert_eq!(targets.len(), 1);
    assert_eq!(targets[0].download_path, "file.bin");
    assert_eq!(targets[0].url, "http://s/api/files/file.bin");
    assert_eq!(targets[0].out_relative, "file.bin");
}

#[test]
fn receiver_error_keeps_message() {
    let err = ReceiverError::new("offer not found");
    assert_eq!(err.to_string(), "offer not found");
}

#[test]
fn find_offer_picks_first_match() {
    let offers = vec![offer("http://a", "x"), offer("http://b", "y"), offer("http://c", "y")];
    assert_eq!(find_offer(&offers, "y").unwrap(), 1);
    assert_eq!(find_offer(&offers, "x").unwrap(), 0);
    let err = find_offer(&offers, "z").unwrap_err();
    assert_eq!(err.to_string(), "offer not found");
    assert!(find_offer(&Vec::new(), "x").is_err());
}
