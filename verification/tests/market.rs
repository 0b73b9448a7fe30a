use kaoruko::market::dtos::Offer;
use kaoruko::market::endpoint::offers_url;
use kaoruko::market::store::{offer_key_from_parts, OfferStore};

fn offer(address: &str, item: &str, info: &str, size: u64) -> Offer {
    Offer {
        address: address.to_string(),
        item: item.to_string(),
        item_info: info.to_string(),
        item_size: size,
        version_bits: 1.0f32.to_bits(),
    }
}

#[test]
fn create_and_list_offers() {
    let mut store = OfferStore::default();

    let offer_id = store.upsert(offer("tor://peer-1.onion", "ubuntu-iso", "Ubuntu 24.04 ISO", 2200));
    assert_eq!(offer_id, "tor://peer-1.onion::ubuntu-iso");

    let offers = store.list();
    assert_eq!(offers.len(), 1);
    assert_eq!(offers[0].address, "tor://peer-1.onion");
    assert_eq!(offers[0].item, "ubuntu-iso");
    assert_eq!(offers[0].item_info, "Ubuntu 24.04 ISO");
    assert_eq!(offers[0].item_size, 2200);
    assert_eq!(f32::from_bits(offers[0].version_bits), 1.0);
}

#[test]
fn upsert_replaces_offer_with_same_key() {
    let mut store = OfferStore::new();
    store.upsert(offer("http://a", "x", "first", 1));
    store.upsert(offer("http://b", "x", "other", 2));
    let key = store.upsert(offer("http://a", "x", "second", 3));
    assert_eq!(key, offer_key_from_parts("http://a", "x"));
    let offers = store.list();
    assert_eq!(offers.len(), 2);
    let a = offers.iter().find(|o| o.address == "http://a").expect("offer of a");
    assert_eq!(a.item_info, "second");
    assert_eq!(a.item_size, 3);
}

#[test]
fn delete_by_key_removes_once() {
    let mut store = OfferStore::new();
    store.upsert(offer("http://a", "x", "i", 1));
    store.upsert(offer("http://a", "y", "j", 2));
    let key = offer_key_from_parts("http://a", "x");
    assert!(store.delete_by_key(&key));
    assert!(!store.delete_by_key(&key));
    let offers = store.list();
    assert_eq!(offers.len(), 1);
    assert_eq!(offers[0].item, "y");
    assert!(!store.delete_by_key("nothing::here"));
}

#[test]
fn offer_key_joins_with_double_colon() {
    assert_eq!(offer_key_from_parts("tor://peer", "item"), "tor://peer::item");
    assert_eq!(offer_key_from_parts("", ""), "::");
}

#[test]
fn offers_url_trims_trailing_slashes() {
    assert_eq!(offers_url("http://127.0.0.1:3000"), "http://127.0.0.1:3000/api/offers");
    assert_eq!(offers_url("http://127.0.0.1:3000//"), "http://127.0.0.1:3000/api/offers");
    assert_eq!(offers_url(""), "/api/offers");
}
