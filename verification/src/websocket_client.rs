//! WebSocket client state.
//!
//! A `WebsocketClient` owns a validated ws/wss endpoint, the name of the host
//! callback that receives inbound text frames, and the FIFO queue of outgoing
//! messages. The long-lived network task lives outside this state: it drains
//! the queue in order and feeds inbound frames to the callback dispatcher.

use crate::errors::{ConstructionError, SendError};
use crate::urls::{parse_scheme, url_scheme_of};
use vstd::prelude::*;

verus! {

/// State of one websocket connection as the host sees it.
pub struct WebsocketClient {
    pub endpoint: String,
    /// The host callback invoked for every inbound text frame.
    pub callback: String,
    /// The id passed as first argument of that callback.
    pub client_id: i32,
    /// Whether inbound frames are delivered as freshly parsed JSON handles.
    pub json_mode: bool,
    /// Outgoing messages, oldest first, not yet written to the socket.
    pub outgoing: Vec<String>,
}

impl WebsocketClient {
    /// The endpoint parses as an absolute ws or wss URL.
    pub open spec fn wf(self) -> bool {
        ||| url_scheme_of(self.endpoint@) == Some("ws"@)
        ||| url_scheme_of(self.endpoint@) == Some("wss"@)
    }

    /// Validates the endpoint and builds a client with an empty outgoing
    /// queue. Fails exactly when the endpoint is not an absolute URL with a
    /// ws or wss scheme; the caller performs its connectivity check only
    /// after this succeeds.
    pub fn new(endpoint: String, callback: String, client_id: i32, json_mode: bool) -> (r: Result<
        WebsocketClient,
        ConstructionError,
    >)
        ensures
            match r {
                Ok(c) => {
                    &&& c.wf()
                    &&& c.endpoint == endpoint
                    &&& c.callback == callback
                    &&& c.client_id == client_id
                    &&& c.json_mode == json_mode
                    &&& c.outgoing@ == Seq::<String>::empty()
                },
                Err(ConstructionError::InvalidUrl) => url_scheme_of(endpoint@) is None,
                Err(ConstructionError::InvalidScheme) => {
                    &&& url_scheme_of(endpoint@) is Some
                    &&& url_scheme_of(endpoint@) != Some("ws"@)
                    &&& url_scheme_of(endpoint@) != Some("wss"@)
                },
            },
    {
        let scheme = match parse_scheme(endpoint.as_str()) {
            Some(s) => s,
            None => {
                return Err(ConstructionError::InvalidUrl);
            },
        };
        if scheme == "ws".to_owned() || scheme == "wss".to_owned() {
            Ok(
                WebsocketClient {
                    endpoint,
                    callback,
                    client_id,
                    json_mode,
                    outgoing: Vec::new(),
                },
            )
        } else {
            Err(ConstructionError::InvalidScheme)
        }
    }

    /// Enqueues one outgoing text message at the back of the queue; never
    /// waits for delivery. Messages already queued keep their places, so two
    /// `send` calls leave their messages in call order.
    pub fn send(&mut self, data: String) -> (r: Result<(), SendError>)
        ensures
            r is Ok,
            final(self).outgoing@ == old(self).outgoing@.push(data),
            final(self).endpoint == old(self).endpoint,
            final(self).callback == old(self).callback,
            final(self).client_id == old(self).client_id,
            final(self).json_mode == old(self).json_mode,
    {
        self.outgoing.push(data);
        Ok(())
    }

    /// Takes the oldest queued message, when one exists: the network task
    /// writes exactly these, in exactly this order, to the socket.
    pub fn next_outgoing(&mut self) -> (r: Option<String>)
        ensures
            final(self).endpoint == old(self).endpoint,
            final(self).callback == old(self).callback,
            final(self).client_id == old(self).client_id,
            final(self).json_mode == old(self).json_mode,
            match r {
                Some(msg) => {
                    &&& old(self).outgoing@.len() > 0
                    &&& msg == old(self).outgoing@[0]
                    &&& final(self).outgoing@ == old(self).outgoing@.drop_first()
                },
                None => {
                    &&& old(self).outgoing@.len() == 0
                    &&& final(self).outgoing@ == old(self).outgoing@
                },
            },
    {
        if self.outgoing.len() > 0 {
            let msg = self.outgoing.remove(0);
            proof {
                assert(self.outgoing@ =~= old(self).outgoing@.drop_first());
            }
            Some(msg)
        } else {
            None
        }
    }
}

} // verus!
