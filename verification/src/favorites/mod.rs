//! Saved messages: they outlive both a restart and the retention of the
//! cluster.

pub mod store;
pub mod types;
