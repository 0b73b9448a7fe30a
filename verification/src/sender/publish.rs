//! The decisions of publishing an offer: which path names the item, and what the
//! market is told about it.
use vstd::prelude::*;

use crate::sender::dtos::{MarketOffer, PublishOfferRequest};
use crate::sender::metadata::ItemMetadata;

verus! {

/// The path under the data directory that a publish request names: its `item_path`
/// when given, else its `item`.
pub open spec fn requested_path_of(request: PublishOfferRequest) -> Seq<char> {
    match request.item_path {
        Some(p) => p@,
        None => request.item@,
    }
}

/// The path under the data directory where the requested item is found.
pub fn requested_item_path(request: &PublishOfferRequest) -> (path: &str)
    ensures
        path@ == requested_path_of(*request),
{
    match &request.item_path {
        Some(p) => p.as_str(),
        None => request.item.as_str(),
    }
}

/// The offer for `item` described by `metadata` (serialised as `item_info`), served at
/// `public_addr` by a sender of version `version_bits`: its size is the item's total size.
pub fn market_offer(
    public_addr: &str,
    item: String,
    item_info: String,
    metadata: &ItemMetadata,
    version_bits: u32,
) -> (offer: MarketOffer)
    ensures
        offer.address@ == public_addr@,
        offer.item@ == item@,
        offer.item_info@ == item_info@,
        offer.item_size == metadata.total_size,
        offer.version_bits == version_bits,
{
    MarketOffer {
        address: crate::text::copy_str(public_addr),
        item,
        item_info,
        item_size: metadata.total_size,
        version_bits,
    }
}

} // verus!
