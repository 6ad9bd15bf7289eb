//! The core of a desktop Kafka viewer: what is read, kept, filtered, shown,
//! remembered and sent, without the window, the files and the network.

pub mod clock;
pub mod config;
pub mod diag;
pub mod favorites;
pub mod helpers;
pub mod kafka;
pub mod link;
pub mod sorting;
pub mod strings;
