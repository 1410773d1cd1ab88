//! A set-associative cache model with true-LRU replacement, driven by a
//! trace of decoded memory operations.
pub mod address;
pub mod args;
pub mod cache;
pub mod cache_set;
pub mod laws;
pub mod text;
pub mod trace;
