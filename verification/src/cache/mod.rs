//! What the cache is asked, and what is made of its replies.
//!
//! The keys have [`CacheConfig::namespace`] before them: `visited` becomes
//! `perses:visited`.

pub mod client;
pub mod config;
pub mod error;

pub use client::Cache;
pub use config::{CacheConfig, DEFAULT_HOST, DEFAULT_NAMESPACE, DEFAULT_PORT};
pub use error::CacheError;
