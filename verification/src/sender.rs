//! The sender: describes the items it serves and publishes offers for them.
pub mod dtos;
pub mod market;
pub mod metadata;
pub mod publish;
