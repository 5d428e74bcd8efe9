//! The cache that looks through all its entries for the one to discard.

pub mod cache;
pub mod laws;
pub mod state;
