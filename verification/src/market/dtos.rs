//! The messages that the market takes and gives.
use vstd::prelude::*;

verus! {

/// An offer listed by a sender: where it can be reached, the item it provides, a
/// description of the item, its size, and the sender's version. The version is a
/// 32-bit floating-point number, held here as its IEEE 754 bit pattern.
#[derive(Debug)]
pub struct Offer {
    pub address: String,
    pub item: String,
    pub item_info: String,
    pub item_size: u64,
    pub version_bits: u32,
}

/// The plain content of an offer.
pub struct OfferView {
    pub address: Seq<char>,
    pub item: Seq<char>,
    pub item_info: Seq<char>,
    pub item_size: u64,
    pub version_bits: u32,
}

impl View for Offer {
    type V = OfferView;

    open spec fn view(&self) -> OfferView {
        OfferView {
            address: self.address@,
            item: self.item@,
            item_info: self.item_info@,
            item_size: self.item_size,
            version_bits: self.version_bits,
        }
    }
}

impl Clone for Offer {
    fn clone(&self) -> (r: Self)
        ensures
            r@ == self@,
    {
        Offer {
            address: self.address.clone(),
            item: self.item.clone(),
            item_info: self.item_info.clone(),
            item_size: self.item_size,
            version_bits: self.version_bits,
        }
    }
}

/// The answer to a new offer: the key under which the market keeps it.
#[derive(Clone, Debug)]
pub struct CreateOfferResponse {
    pub offer_id: String,
}

/// A request to take the offer of `item` by the sender at `address` off the market.
#[derive(Clone, Debug)]
pub struct DeleteOfferRequest {
    pub address: String,
    pub item: String,
}

/// The answer to a delete request: whether an offer was removed.
#[derive(Clone, Debug)]
pub struct DeleteOfferResponse {
    pub deleted: bool,
}

} // verus!
