//! A media-sharing server for the local network: device discovery over SSDP and a
//! browsable catalog of a directory tree, served as a content directory.

pub mod catalog;
pub mod codec;
pub mod listing;
pub mod lru;
pub mod natural_order;
pub mod soap;
pub mod ssdp;
pub mod text;
pub mod types;
