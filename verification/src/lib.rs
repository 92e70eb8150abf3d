//! Handle pools, JSON values, and request/websocket client state for a
//! single-threaded host runtime that issues non-blocking network calls.

pub mod bridge;
pub mod codec;
pub mod errors;
pub mod headers;
pub mod json;
pub mod method;
pub mod plugin;
pub mod pool;
pub mod request_client;
pub mod urls;
pub mod websocket_client;
