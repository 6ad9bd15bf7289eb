//! Saved connections and their secrets.

pub mod clusters;
pub mod types;
