//! Verified core of a small peer-to-peer item exchange: a market that keeps an offer
//! book, a sender that describes and publishes the items it serves, and a receiver
//! that downloads them.
pub mod market;
pub mod receiver;
pub mod sender;
pub mod text;
