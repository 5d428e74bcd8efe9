//! The cache that keeps its keys in order of recency.

pub mod cache;
pub mod laws;
pub mod state;
