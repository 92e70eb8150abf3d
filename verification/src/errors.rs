//! Error types reported synchronously to the host.

use vstd::prelude::*;

verus! {

/// Why constructing a client failed.
#[derive(Debug, Clone, Copy, PartialEq, Eq, Structural)]
pub enum ConstructionError {
    /// The endpoint is not a well-formed absolute URL.
    InvalidUrl,
    /// The endpoint parsed, but its scheme is not one the client speaks.
    InvalidScheme,
}

/// Why dispatching a request failed.
#[derive(Debug, Clone, Copy, PartialEq, Eq, Structural)]
pub enum DispatchError {
    /// The client handle does not name a live client.
    UnknownClient,
    /// The client's endpoint no longer parses as an absolute URL.
    InvalidEndpoint,
}

/// Why enqueueing an outgoing websocket message failed.
#[derive(Debug, Clone, Copy, PartialEq, Eq, Structural)]
pub enum SendError {
    /// The connection's outgoing queue is gone.
    Closed,
}

impl ConstructionError {
    /// A short description for log lines.
    pub fn describe(&self) -> (r: &'static str)
    {
        match self {
            ConstructionError::InvalidUrl => "endpoint is not a valid absolute URL",
            ConstructionError::InvalidScheme => "endpoint scheme is not supported",
        }
    }
}

} // verus!
