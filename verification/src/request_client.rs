//! HTTP request clients.
//!
//! A `RequestClient` owns a fixed endpoint and a base header set, and hands
//! out strictly increasing request ids. Dispatching a request only computes:
//! it resolves the final URL, merges headers, allocates the next id, and
//! returns a `RequestPlan` describing exactly what the background execution
//! context must perform. Nothing here blocks or touches the network.

use crate::errors::{ConstructionError, DispatchError};
use crate::headers::HeaderSet;
use crate::method::Method;
use crate::pool::PoolValue;
use crate::urls::{parse_scheme, resolve_with_path, url_scheme_of, url_with_path};
use vstd::prelude::*;

verus! {

/// One request as the host describes it, immutable once submitted.
pub struct Request {
    pub callback: String,
    pub path: String,
    pub method: Method,
    pub headers: Option<HeaderSet>,
    pub body: String,
}

/// What the background task must do for one dispatched request.
pub struct RequestPlan {
    /// The id handed back to the host, echoed into the completion callback.
    pub id: i32,
    /// The fully resolved URL: the client endpoint with its path replaced by
    /// the request's path.
    pub url: String,
    pub method: Method,
    /// Base headers merged with the per-request headers; on a name both
    /// carry, the per-request value wins.
    pub headers: HeaderSet,
    pub body: String,
    pub callback: String,
    /// Whether the response body is delivered as a freshly parsed JSON
    /// handle instead of raw text.
    pub as_json: bool,
}

/// A client bound to one endpoint, handing out per-client request ids.
pub struct RequestClient {
    pub endpoint: String,
    pub headers: HeaderSet,
    pub request_id: i32,
}

impl RequestClient {
    /// The endpoint parses as an absolute http or https URL and the base
    /// headers are valid header text.
    pub open spec fn wf(self) -> bool {
        &&& self.headers.wf()
        &&& 0 <= self.request_id
        &&& {
            ||| url_scheme_of(self.endpoint@) == Some("http"@)
            ||| url_scheme_of(self.endpoint@) == Some("https"@)
        }
    }

    /// Validates the endpoint and builds a client with request ids starting
    /// at 0. Fails exactly when the endpoint is not an absolute URL with an
    /// http or https scheme.
    pub fn new(endpoint: String, headers: HeaderSet) -> (r: Result<RequestClient, ConstructionError>)
        requires
            headers.wf(),
        ensures
            match r {
                Ok(c) => {
                    &&& c.wf()
                    &&& c.endpoint == endpoint
                    &&& c.headers == headers
                    &&& c.request_id == 0
                },
                Err(ConstructionError::InvalidUrl) => url_scheme_of(endpoint@) is None,
                Err(ConstructionError::InvalidScheme) => {
                    &&& url_scheme_of(endpoint@) is Some
                    &&& url_scheme_of(endpoint@) != Some("http"@)
                    &&& url_scheme_of(endpoint@) != Some("https"@)
                },
            },
    {
        let scheme = match parse_scheme(endpoint.as_str()) {
            Some(s) => s,
            None => {
                return Err(ConstructionError::InvalidUrl);
            },
        };
        if scheme == "http".to_owned() || scheme == "https".to_owned() {
            Ok(RequestClient { endpoint, headers, request_id: 0 })
        } else {
            Err(ConstructionError::InvalidScheme)
        }
    }

    /// Allocates the next request id and computes the dispatch plan: final
    /// URL (the request path replaces the endpoint's path), merged headers
    /// (per-request wins) and the unchanged body, method and callback.
    /// Succeeds exactly when the endpoint parses; a client built by `new`
    /// always dispatches.
    pub fn request(&mut self, request: Request, as_json: bool) -> (r: Result<
        RequestPlan,
        DispatchError,
    >)
        requires
            old(self).headers.wf(),
            old(self).request_id < i32::MAX,
            match request.headers {
                Some(h) => h.wf(),
                None => true,
            },
        ensures
            final(self).endpoint == old(self).endpoint,
            final(self).headers == old(self).headers,
            match r {
                Ok(plan) => {
                    &&& url_scheme_of(old(self).endpoint@) is Some
                    &&& final(self).request_id == old(self).request_id + 1
                    &&& plan.id == old(self).request_id
                    &&& plan.url@ == url_with_path(old(self).endpoint@, request.path@)
                    &&& plan.method == request.method
                    &&& plan.body == request.body
                    &&& plan.callback == request.callback
                    &&& plan.as_json == as_json
                    &&& plan.headers.wf()
                    &&& plan.headers@ == match request.headers {
                        Some(h) => old(self).headers@.filter(
                            |e: (Seq<char>, Seq<char>)| !HeaderSet::spec_has_name(h@, e.0),
                        ) + h@,
                        None => old(self).headers@,
                    }
                },
                Err(e) => {
                    &&& e == DispatchError::InvalidEndpoint
                    &&& url_scheme_of(old(self).endpoint@) is None
                    &&& final(self).request_id == old(self).request_id
                },
            },
    {
        let url = match resolve_with_path(self.endpoint.as_str(), request.path.as_str()) {
            Some(u) => u,
            None => {
                return Err(DispatchError::InvalidEndpoint);
            },
        };
        let id = self.request_id;
        self.request_id = self.request_id + 1;
        let merged = match request.headers {
            Some(h) => self.headers.merge(&h),
            None => self.headers.duplicate(),
        };
        Ok(
            RequestPlan {
                id,
                url,
                method: request.method,
                headers: merged,
                body: request.body,
                callback: request.callback,
                as_json,
            },
        )
    }
}

} // verus!
