//! The market: an offer book that senders publish to and receivers read from.
pub mod dtos;
pub mod endpoint;
pub mod store;
