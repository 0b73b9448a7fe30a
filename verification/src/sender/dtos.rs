//! The messages that the sender takes and gives.
use vstd::prelude::*;

use crate::sender::metadata::ItemMetadata;

verus! {

/// A request to publish an offer for `item`, found at `item_path` under the data
/// directory when given, else at `item`.
#[derive(Clone, Debug)]
pub struct PublishOfferRequest {
    pub item: String,
    pub item_path: Option<String>,
}

/// The offer that the sender lists on the market. The version is a 32-bit
/// floating-point number, held here as its IEEE 754 bit pattern.
#[derive(Clone, Debug)]
pub struct MarketOffer {
    pub address: String,
    pub item: String,
    pub item_info: String,
    pub item_size: u64,
    pub version_bits: u32,
}

/// What the sender tells its subscribers about a published offer.
#[derive(Clone, Debug)]
pub struct OfferAnnouncement {
    pub offer_id: String,
    pub offer: MarketOffer,
    pub metadata: ItemMetadata,
}

/// The answer to a publish request.
#[derive(Clone, Debug)]
pub struct PublishOfferResponse {
    pub offer_id: String,
    pub offer: MarketOffer,
    pub metadata: ItemMetadata,
}

/// The body of an error answer.
#[derive(Clone, Debug)]
pub struct ErrorResponse {
    pub message: String,
}

} // verus!
