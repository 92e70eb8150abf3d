//! Delivering background results into the single-threaded host.
//!
//! Every outbound call into the host goes through one synchronization
//! primitive with three outcomes: access granted, host gone (unloaded), or
//! host lock corrupted by an earlier panic. The functions here make the
//! complete decision for one delivery — whether the callback fires at all,
//! with which arguments, and what happens to the JSON node pool — given that
//! outcome. The caller holds the actual lock, performs the call the returned
//! invocation describes, and drops it silently when `None` comes back.

use crate::codec::{parse, spec_parse};
use crate::json::JsonValue;
use crate::pool::GarbageCollectedPool;
use vstd::prelude::*;

verus! {

/// The outcome of trying to enter the host context from a background task.
#[derive(Debug, Clone, Copy, PartialEq, Eq, Structural)]
pub enum HostAccess {
    /// Exclusive access was acquired; the host can be called.
    Granted,
    /// The host was unloaded; nothing may be called.
    Gone,
    /// The exclusivity primitive was left broken by a prior panic.
    Corrupted,
}

/// What a callback receives as its data argument.
pub enum CallbackPayload {
    /// The raw text.
    Text(String),
    /// A freshly allocated JSON node handle parsed from the text.
    Node(i32),
}

/// One failure callback delivery: `(request id, status, message)`.
pub struct FailureInvocation {
    pub id: i32,
    /// The HTTP status when a response arrived, `-1` when none did.
    pub status: i32,
    pub message: String,
}

/// One response callback delivery: `(request id, status, body or handle)`.
pub struct ResponseInvocation {
    pub callback: String,
    pub id: i32,
    pub status: i32,
    pub payload: CallbackPayload,
}

/// One websocket message delivery: `(client id, message or handle)`.
pub struct MessageInvocation {
    pub callback: String,
    pub client_id: i32,
    pub payload: CallbackPayload,
}

/// Decides the failure callback for a request whose transport failed: it
/// fires exactly when the host is reachable, with the response status code
/// or `-1` when no response was received.
pub fn execute_request_failure_callback(
    access: HostAccess,
    id: i32,
    error_status: Option<u16>,
    message: String,
) -> (r: Option<FailureInvocation>)
    ensures
        r is Some <==> access is Granted,
        match r {
            Some(inv) => {
                &&& inv.id == id
                &&& inv.message == message
                &&& inv.status == match error_status {
                    Some(code) => code as int,
                    None => -1int,
                }
            },
            None => true,
        },
{
    match access {
        HostAccess::Granted => {
            let status: i32 = match error_status {
                Some(code) => code as i32,
                None => -1,
            };
            Some(FailureInvocation { id, status, message })
        },
        _ => None,
    }
}

/// Decides the response callback for a completed request. With `as_json` the
/// body must parse; a body that does not parse is dropped (logged by the
/// caller) and the callback does not fire. The parsed node is allocated in
/// the shared pool under a fresh handle with its retention flag set.
pub fn execute_response_callback(
    access: HostAccess,
    callback: String,
    id: i32,
    status: i32,
    body: String,
    as_json: bool,
    nodes: &mut GarbageCollectedPool<JsonValue>,
) -> (r: Option<ResponseInvocation>)
    requires
        old(nodes).wf(),
        old(nodes).current < i32::MAX,
    ensures
        final(nodes).wf(),
        r is Some <==> (access is Granted && (as_json ==> spec_parse(body@) is Some)),
        r is None ==> *final(nodes) == *old(nodes),
        match r {
            Some(inv) => {
                &&& inv.callback == callback
                &&& inv.id == id
                &&& inv.status == status
                &&& if as_json {
                    &&& inv.payload is Node
                    &&& inv.payload->Node_0 == old(nodes).current + 1
                    &&& final(nodes).current == old(nodes).current + 1
                    &&& !old(nodes).active@.contains_key(((old(nodes).current + 1) as i32))
                    &&& final(nodes).active@.contains_key(((old(nodes).current + 1) as i32))
                    &&& final(nodes).active@[((old(nodes).current + 1) as i32)].gc
                    &&& final(nodes).active@[((old(nodes).current + 1) as i32)].value@ == spec_parse(
                        body@,
                    )->0
                    &&& forall|k: i32|
                        k != old(nodes).current + 1 ==> final(nodes).active@.contains_key(k)
                            == old(nodes).active@.contains_key(k) && (
                        old(nodes).active@.contains_key(k) ==> final(nodes).active@[k] == old(
                            nodes,
                        ).active@[k])
                } else {
                    &&& inv.payload == CallbackPayload::Text(body)
                    &&& *final(nodes) == *old(nodes)
                }
            },
            None => true,
        },
{
    match access {
        HostAccess::Granted => {
            if as_json {
                match parse(body.as_str()) {
                    None => None,
                    Some(v) => {
                        let handle = nodes.allocate(v);
                        Some(
                            ResponseInvocation {
                                callback,
                                id,
                                status,
                                payload: CallbackPayload::Node(handle),
                            },
                        )
                    },
                }
            } else {
                Some(
                    ResponseInvocation {
                        callback,
                        id,
                        status,
                        payload: CallbackPayload::Text(body),
                    },
                )
            }
        },
        _ => None,
    }
}

/// Decides the callback for one inbound websocket text frame; the same
/// rules as for responses, with the client id in place of request id and
/// status.
pub fn execute_websocket_callback(
    access: HostAccess,
    callback: String,
    client_id: i32,
    message: String,
    as_json: bool,
    nodes: &mut GarbageCollectedPool<JsonValue>,
) -> (r: Option<MessageInvocation>)
    requires
        old(nodes).wf(),
        old(nodes).current < i32::MAX,
    ensures
        final(nodes).wf(),
        r is Some <==> (access is Granted && (as_json ==> spec_parse(message@) is Some)),
        r is None ==> *final(nodes) == *old(nodes),
        match r {
            Some(inv) => {
                &&& inv.callback == callback
                &&& inv.client_id == client_id
                &&& if as_json {
                    &&& inv.payload is Node
                    &&& inv.payload->Node_0 == old(nodes).current + 1
                    &&& final(nodes).current == old(nodes).current + 1
                    &&& final(nodes).active@.contains_key(((old(nodes).current + 1) as i32))
                    &&& final(nodes).active@[((old(nodes).current + 1) as i32)].gc
                    &&& final(nodes).active@[((old(nodes).current + 1) as i32)].value@ == spec_parse(
                        message@,
                    )->0
                    &&& forall|k: i32|
                        k != old(nodes).current + 1 ==> final(nodes).active@.contains_key(k)
                            == old(nodes).active@.contains_key(k) && (
                        old(nodes).active@.contains_key(k) ==> final(nodes).active@[k] == old(
                            nodes,
                        ).active@[k])
                } else {
                    &&& inv.payload == CallbackPayload::Text(message)
                    &&& *final(nodes) == *old(nodes)
                }
            },
            None => true,
        },
{
    match access {
        HostAccess::Granted => {
            if as_json {
                match parse(message.as_str()) {
                    None => None,
                    Some(v) => {
                        let handle = nodes.allocate(v);
                        Some(
                            MessageInvocation {
                                callback,
                                client_id,
                                payload: CallbackPayload::Node(handle),
                            },
                        )
                    },
                }
            } else {
                Some(
                    MessageInvocation {
                        callback,
                        client_id,
                        payload: CallbackPayload::Text(message),
                    },
                )
            }
        },
        _ => None,
    }
}

} // verus!
