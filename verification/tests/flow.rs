use kaoruko::market::dtos::Offer as MarketListing;
use kaoruko::market::store::OfferStore;
use kaoruko::receiver::{download_targets, FileEntry, ItemMetadata, Offer};
use kaoruko::sender::metadata::{build_metadata, sanitize_relative_path, ScannedFile};
use kaoruko::sender::publish::market_offer;

#[test]
fn publish_list_and_plan_download_of_sample_item() {
    // the sender describes its item
    let payload = b"hello from sender".to_vec();
    let described = build_metadata(
        "sample",
        vec![ScannedFile {
            path: "payload.txt".to_string(),
            size: payload.len() as u64,
            contents: payload.clone(),
        }],
    );
    let sender_url = "http://127.0.0.1:4000";
    let offer = market_offer(
        sender_url,
        "sample".to_string(),
        "{...}".to_string(),
        &described,
        1.0f32.to_bits(),
    );

    // the market lists it
    let mut store = OfferStore::default();
    let offer_id = store.upsert(MarketListing {
        address: offer.address.clone(),
        item: offer.item.clone(),
        item_info: offer.item_info.clone(),
        item_size: offer.item_size,
        version_bits: offer.version_bits,
    });
    assert_eq!(offer_id, "http://127.0.0.1:4000::sample");
    let listed = store.list();
    assert_eq!(listed.len(), 1);
    assert_eq!(listed[0].item, "sample");
    assert_eq!(listed[0].address, sender_url);

    // the receiver plans the download of the listed offer
    let received = Offer {
        address: listed[0].address.clone(),
        item: listed[0].item.clone(),
        item_info: listed[0].item_info.clone(),
        item_size: listed[0].item_size,
        version_bits: listed[0].version_bits,
    };
    let metadata = ItemMetadata {
        item: described.item.clone(),
        info_hash: described.info_hash.clone(),
        total_size: described.total_size,
        files: described
            .files
            .iter()
            .map(|f| FileEntry { path: f.path.clone(), size: f.size })
            .collect(),
    };
    let targets = download_targets(&received, &metadata);
    assert_eq!(targets.len(), 1);
    assert_eq!(targets[0].url, "http://127.0.0.1:4000/api/files/sample/payload.txt");
    assert_eq!(targets[0].out_relative, "payload.txt");

    // the sender accepts the requested path
    assert!(sanitize_relative_path(&targets[0].download_path).is_ok());
}
