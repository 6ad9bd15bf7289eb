//! Reading topics of Kafka and sending to them.

pub mod connection;
pub mod cursor;
pub mod filter;
pub mod hex;
pub mod lens;
pub mod produce;
pub mod quota;
pub mod raw_consumer;
pub mod reader;
pub mod rounds;
pub mod search;
pub mod store;
pub mod sweep;
pub mod text;
pub mod topic;
pub mod types;
pub mod view;
