//! Caches and random access to bytes.
pub mod cache;
pub mod random_access;
pub mod recency;
