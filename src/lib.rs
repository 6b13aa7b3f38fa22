//! The core of an HTTP server built around a pipeline of handler modules:
//! the per-request decisions, the configuration merge, the URL sanitizer,
//! header finalization and access-log records.
pub mod bytes;
pub mod headers;
pub mod status;
pub mod access_log;
pub mod config;
pub mod sanitize;
pub mod pipeline;
pub mod server;
pub mod forwarded;
