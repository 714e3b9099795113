//! A small in-memory key-value store with a durable binary snapshot format.
//!
//! The [`store::Store`] owns the mapping from string keys to string values and
//! can encode itself into a deterministic byte buffer (and decode back, with a
//! proved round trip). The [`engine::Engine`] wraps a `Store` and provides the
//! construction policies used at process start; [`service::KeyValueService`]
//! translates remote get/insert calls into engine operations.

pub mod codec;
pub mod engine;
pub mod service;
pub mod store;
