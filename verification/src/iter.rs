//! Lazily filtered candidate sequences.

pub mod filter;
