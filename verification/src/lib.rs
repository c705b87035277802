//! Local-first persistence core for an offline-capable desktop client:
//! a key-addressed cache table, a durable sync outbox queue, an in-memory
//! cancellation registry, and the decision logic of a cancellation-aware,
//! progress-reporting streaming uploader.

pub mod cache;
pub mod cancel;
pub mod compress;
pub mod data_url;
pub mod errors;
pub mod progress;
pub mod queue;
pub mod text;
pub mod upload;
