//! The native call surface the host sees.
//!
//! A `Plugin` owns every pool of one host-load session: request clients,
//! websocket clients, the shared JSON node pool, and header sets under
//! construction. Each method is one host-visible native: it validates the
//! handles the host passed (they routinely carry garbage), performs the pool
//! and value work, and reports failure as a distinguished integer result —
//! never by panicking. Dispatching a request returns the `RequestPlan` the
//! embedder's background execution context must perform; nothing here blocks.
//!
//! The embedder shares `json_nodes` with its background tasks under a mutex
//! of its own; every native here runs inside one such short critical section.

use crate::headers::HeaderSet;
use crate::json::{JsonVal, JsonValue};
use crate::method::Method;
use crate::pool::{GarbageCollectedPool, Item, Pool};
use crate::request_client::{Request, RequestClient, RequestPlan};
use crate::urls::url_scheme_of;
use crate::websocket_client::WebsocketClient;
use vstd::prelude::*;

verus! {

broadcast use vstd::std_specs::hash::group_hash_axioms;


/// The header pool map after `take(h)`, as `take_map` for node pools.
pub open spec fn take_map_headers(
    m: Map<i32, Item<HeaderSet>>,
    h: i32,
) -> Map<i32, Item<HeaderSet>> {
    if m.contains_key(h) && m[h].gc {
        m.remove(h)
    } else {
        m
    }
}

/// All state of one host-load session.
pub struct Plugin {
    pub request_clients: Pool<RequestClient>,
    pub websocket_clients: Pool<WebsocketClient>,
    pub json_nodes: GarbageCollectedPool<JsonValue>,
    pub headers: GarbageCollectedPool<HeaderSet>,
}

impl Plugin {
    /// Every pool is well formed, every stored header set holds valid header
    /// text, and every stored client was built by its constructor.
    pub open spec fn wf(self) -> bool {
        &&& self.request_clients.wf()
        &&& self.websocket_clients.wf()
        &&& self.json_nodes.wf()
        &&& self.headers.wf()
        &&& forall|id: i32|
            self.headers.active@.contains_key(id) ==> (#[trigger] self.headers.active@[id]).value.wf()
        &&& forall|id: i32|
            self.request_clients.active@.contains_key(id) ==> (
            #[trigger] self.request_clients.active@[id]).wf()
        &&& forall|id: i32|
            self.websocket_clients.active@.contains_key(id) ==> (
            #[trigger] self.websocket_clients.active@[id]).wf()
    }

    /// The header pool of `other` as it was in `self`.
    pub open spec fn same_headers(self, other: Plugin) -> bool {
        self.headers.active@ == other.headers.active@ && self.headers.current
            == other.headers.current
    }

    /// The request-client pool of `other` as it was in `self`.
    pub open spec fn same_request_clients(self, other: Plugin) -> bool {
        self.request_clients.active@ == other.request_clients.active@
            && self.request_clients.current == other.request_clients.current
    }

    /// Room for one more allocation in every counter the native may touch.
    pub open spec fn counters_ok(self) -> bool {
        &&& self.request_clients.current < i32::MAX
        &&& self.websocket_clients.current < i32::MAX
        &&& self.json_nodes.current < i32::MAX
        &&& self.headers.current < i32::MAX
        &&& forall|id: i32|
            self.request_clients.active@.contains_key(id) ==> (
            #[trigger] self.request_clients.active@[id]).request_id < i32::MAX
    }

    /// Builds a client against `endpoint`, consuming the header-set handle
    /// (`-1` means no base headers). Returns the new client handle, or `-1`
    /// when the handle is unknown or the endpoint is not an absolute http or
    /// https URL. An unknown header handle changes nothing; an invalid
    /// endpoint still consumes the header set, as the host gave it up.
    pub fn requests_client(&mut self, endpoint: String, headers: i32) -> (r: i32)
        requires
            old(self).wf(),
            old(self).counters_ok(),
        ensures
            final(self).wf(),
            final(self).json_nodes == old(self).json_nodes,
            final(self).websocket_clients == old(self).websocket_clients,
            headers != -1 && !old(self).headers.active@.contains_key(headers) ==> r == -1
                && old(self).same_headers(*final(self)) && old(self).same_request_clients(
                *final(self),
            ),
            r != -1 ==> {
                &&& r == old(self).request_clients.current + 1
                &&& final(self).request_clients.active@.contains_key(r)
                &&& final(self).request_clients.active@[r].endpoint == endpoint
                &&& final(self).request_clients.active@[r].request_id == 0
                &&& (url_scheme_of(endpoint@) == Some("http"@) || url_scheme_of(endpoint@)
                    == Some("https"@))
                &&& headers == -1 ==> final(self).request_clients.active@[r].headers@ =~= Seq::<
                    (Seq<char>, Seq<char>),
                >::empty()
                &&& headers != -1 ==> final(self).request_clients.active@[r].headers@ == old(self).headers.active@[headers].value@
                &&& final(self).request_clients.current == r
                &&& forall|k: i32|
                    k != r ==> final(self).request_clients.active@.contains_key(k) == old(self).request_clients.active@.contains_key(k) && (
                    old(self).request_clients.active@.contains_key(k) ==> final(self).request_clients.active@[k] == old(self).request_clients.active@[k])
            },
            // a resolved header handle is consumed, whether or not the
            // endpoint then turns out invalid
            headers != -1 && old(self).headers.active@.contains_key(headers) ==> final(self).headers.active@ == take_map_headers(old(self).headers.active@, headers),
            r == -1 && (headers == -1 || old(self).headers.active@.contains_key(headers))
                ==> !(url_scheme_of(endpoint@) == Some("http"@) || url_scheme_of(endpoint@)
                == Some("https"@)),
    {
        let header_map: HeaderSet = if headers != -1 {
            match self.headers.take(headers) {
                Some(v) => v,
                None => {
                    return -1;
                },
            }
        } else {
            HeaderSet::new()
        };
        let rqc = match RequestClient::new(endpoint, header_map) {
            Ok(v) => v,
            Err(_) => {
                return -1;
            },
        };
        let id = self.request_clients.allocate(rqc);
        id
    }

    /// Builds a header set from `name: value` pairs (append semantics) and
    /// stores it under a fresh handle. Returns `-1`, storing nothing, as
    /// soon as one name or value is not legal HTTP header text.
    #[verifier::loop_isolation(false)]
    pub fn request_headers(&mut self, pairs: Vec<(String, String)>) -> (r: i32)
        requires
            old(self).wf(),
            old(self).counters_ok(),
        ensures
            final(self).wf(),
            final(self).json_nodes == old(self).json_nodes,
            final(self).websocket_clients == old(self).websocket_clients,
            final(self).request_clients == old(self).request_clients,
            r == -1 ==> final(self).headers == old(self).headers,
            r != -1 ==> {
                &&& r == old(self).headers.current + 1
                &&& final(self).headers.active@.contains_key(r)
                &&& final(self).headers.active@[r].gc
                &&& final(self).headers.active@[r].value@.len() == pairs@.len()
                &&& forall|m: int|
                    0 <= m < pairs@.len() ==> (#[trigger] final(self).headers.active@[r].value@[m])
                        == (crate::headers::header_name_canon(pairs@[m].0@)->0, pairs@[m].1@)
                &&& forall|k: i32|
                    k != r ==> final(self).headers.active@.contains_key(k) == old(self).headers.active@.contains_key(k)
            },
            r != -1 <==> forall|i: int|
                0 <= i < pairs@.len() ==> crate::headers::header_name_canon(
                    (#[trigger] pairs@[i]).0@,
                ) is Some && crate::headers::valid_header_value(pairs@[i].1@),
    {
        let mut set = HeaderSet::new();
        let mut i: usize = 0;
        while i < pairs.len()
            invariant
                i <= pairs.len(),
                set.wf(),
                set@.len() == i as int,
                forall|m: int|
                    0 <= m < i ==> crate::headers::header_name_canon(
                        (#[trigger] pairs@[m]).0@,
                    ) is Some && crate::headers::valid_header_value(pairs@[m].1@),
                forall|m: int|
                    0 <= m < i ==> (#[trigger] set@[m]) == (
                        crate::headers::header_name_canon(pairs@[m].0@)->0,
                        pairs@[m].1@,
                    ),
            decreases pairs.len() - i,
        {
            let name = pairs[i].0.clone();
            let value = pairs[i].1.clone();
            if !set.append(name.as_str(), value) {
                return -1;
            }
            i = i + 1;
        }
        self.headers.allocate(set)
    }

    /// Dispatches a request with a raw text body through a stored client,
    /// consuming the header-set handle (`-1` means none). Returns the
    /// request id and the plan the background context must perform, or `-1`
    /// and no plan when the header handle or the client handle is unknown.
    pub fn request(
        &mut self,
        request_client_id: i32,
        path: String,
        method: Method,
        callback: String,
        body: String,
        headers: i32,
    ) -> (r: (i32, Option<RequestPlan>))
        requires
            old(self).wf(),
            old(self).counters_ok(),
        ensures
            final(self).wf(),
            final(self).json_nodes == old(self).json_nodes,
            final(self).websocket_clients == old(self).websocket_clients,
            r.0 == -1 <==> r.1 is None,
            headers == -1 ==> final(self).headers == old(self).headers,
            headers != -1 && !old(self).headers.active@.contains_key(headers) ==> r.0 == -1
                && old(self).same_headers(*final(self)) && old(self).same_request_clients(
                *final(self),
            ),
            // a resolved header handle is consumed, also when the client
            // handle then turns out unknown
            headers != -1 && old(self).headers.active@.contains_key(headers) ==> final(self).headers.active@ == take_map_headers(old(self).headers.active@, headers) && final(self).headers.current == old(self).headers.current,
            (headers == -1 || old(self).headers.active@.contains_key(headers)) ==> (r.1 is Some
                <==> old(self).request_clients.active@.contains_key(request_client_id)),
            r.1 is None ==> old(self).same_request_clients(*final(self)),
            r.1 is Some ==> {
                &&& final(self).request_clients.current == old(self).request_clients.current
                &&& final(self).request_clients.active@.contains_key(request_client_id)
                &&& final(self).request_clients.active@[request_client_id].request_id == old(self).request_clients.active@[request_client_id].request_id + 1
                &&& final(self).request_clients.active@[request_client_id].endpoint == old(self).request_clients.active@[request_client_id].endpoint
                &&& final(self).request_clients.active@[request_client_id].headers == old(self).request_clients.active@[request_client_id].headers
                &&& forall|k: i32|
                    k != request_client_id ==> final(self).request_clients.active@.contains_key(k)
                        == old(self).request_clients.active@.contains_key(k) && (
                    old(self).request_clients.active@.contains_key(k) ==> final(self).request_clients.active@[k] == old(self).request_clients.active@[k])
                &&& r.0 == old(self).request_clients.active@[request_client_id].request_id
                &&& r.1->0.id == r.0
                &&& r.1->0.body == body
                &&& r.1->0.callback == callback
                &&& r.1->0.method == method
                &&& !r.1->0.as_json
                &&& r.1->0.url@ == crate::urls::url_with_path(
                    old(self).request_clients.active@[request_client_id].endpoint@,
                    path@,
                )
                &&& r.1->0.headers@ == if headers == -1 {
                    old(self).request_clients.active@[request_client_id].headers@
                } else {
                    old(self).request_clients.active@[request_client_id].headers@.filter(
                        |e: (Seq<char>, Seq<char>)| !HeaderSet::spec_has_name(
                            old(self).headers.active@[headers].value@,
                            e.0,
                        ),
                    ) + old(self).headers.active@[headers].value@
                }
            },
    {
        let hs: Option<HeaderSet> = if headers != -1 {
            match self.headers.take(headers) {
                Some(v) => Some(v),
                None => {
                    return (-1, None);
                },
            }
        } else {
            None
        };
        match self.do_request(request_client_id, path, method, callback, body, hs, false) {
            Ok((id, plan)) => {
                proof {
                    assert forall|k: i32|
                        k != request_client_id implies self.request_clients.active@.contains_key(k)
                        == old(self).request_clients.active@.contains_key(k) && (
                    old(self).request_clients.active@.contains_key(k)
                        ==> self.request_clients.active@[k] == old(self).request_clients.active@[k]) by {}
                }
                (id, Some(plan))
            },
            Err(_) => (-1, None),
        }
    }

    /// Dispatches a request whose body is a stored JSON node, consuming the
    /// node handle (`-1` means a null body) and the header-set handle (`-1`
    /// means none), and forcing `Content-Type: application/json`. Returns
    /// the request id and the plan, or `-1` and no plan when a handle is
    /// unknown — a consumed body node stays consumed even when the header
    /// handle then turns out to be unknown.
    pub fn request_json(
        &mut self,
        request_client_id: i32,
        path: String,
        method: Method,
        callback: String,
        node: i32,
        headers: i32,
    ) -> (r: (i32, Option<RequestPlan>))
        requires
            old(self).wf(),
            old(self).counters_ok(),
        ensures
            final(self).wf(),
            final(self).websocket_clients == old(self).websocket_clients,
            r.0 == -1 <==> r.1 is None,
            node != -1 && !old(self).json_nodes.active@.contains_key(node) ==> r.0 == -1
                && old(self).same_nodes(*final(self)) && final(self).headers == old(self).headers,
            // a resolved body node is consumed, whatever happens afterwards
            (node == -1 || old(self).json_nodes.active@.contains_key(node)) ==> final(self).json_nodes.current == old(self).json_nodes.current && final(self).json_nodes.active@
                == if node == -1 {
                old(self).json_nodes.active@
            } else {
                take_map(old(self).json_nodes.active@, node)
            },
            headers == -1 ==> final(self).headers == old(self).headers,
            (node == -1 || old(self).json_nodes.active@.contains_key(node)) && headers != -1
                && !old(self).headers.active@.contains_key(headers) ==> r.0 == -1 && final(self).headers.active@ == old(self).headers.active@ && final(self).headers.current == old(self).headers.current,
            // a resolved header handle is consumed, also when the client
            // handle then turns out unknown
            (node == -1 || old(self).json_nodes.active@.contains_key(node)) && headers != -1
                && old(self).headers.active@.contains_key(headers) ==> final(self).headers.active@
                == take_map_headers(old(self).headers.active@, headers) && final(self).headers.current == old(self).headers.current,
            // with every handle valid, dispatch succeeds exactly for a live
            // client (the two conditions speak of the constant header the
            // dispatcher itself writes, and hold of it)
            (node == -1 || old(self).json_nodes.active@.contains_key(node)) && (headers == -1
                || old(self).headers.active@.contains_key(headers))
                && crate::headers::header_name_canon("content-type"@) == Some("content-type"@)
                && crate::headers::valid_header_value("application/json"@) ==> (r.1 is Some <==> old(self).request_clients.active@.contains_key(request_client_id)),
            r.1 is None ==> old(self).same_request_clients(*final(self)),
            r.1 is Some ==> {
                &&& (node == -1 || old(self).json_nodes.active@.contains_key(node))
                &&& old(self).request_clients.active@.contains_key(request_client_id)
                &&& final(self).request_clients.current == old(self).request_clients.current
                &&& final(self).request_clients.active@.contains_key(request_client_id)
                &&& final(self).request_clients.active@[request_client_id].request_id == old(self).request_clients.active@[request_client_id].request_id + 1
                &&& final(self).request_clients.active@[request_client_id].endpoint == old(self).request_clients.active@[request_client_id].endpoint
                &&& final(self).request_clients.active@[request_client_id].headers == old(self).request_clients.active@[request_client_id].headers
                &&& forall|k: i32|
                    k != request_client_id ==> final(self).request_clients.active@.contains_key(k)
                        == old(self).request_clients.active@.contains_key(k) && (
                    old(self).request_clients.active@.contains_key(k) ==> final(self).request_clients.active@[k] == old(self).request_clients.active@[k])
                &&& r.0 == old(self).request_clients.active@[request_client_id].request_id
                &&& r.1->0.id == r.0
                &&& r.1->0.as_json
                &&& r.1->0.callback == callback
                &&& r.1->0.method == method
                &&& r.1->0.body@ == crate::codec::print_val(
                    if node == -1 {
                        JsonVal::Null
                    } else {
                        old(self).json_nodes.active@[node].value@
                    },
                )
                &&& r.1->0.url@ == crate::urls::url_with_path(
                    old(self).request_clients.active@[request_client_id].endpoint@,
                    path@,
                )
                &&& HeaderSet::spec_has_name(r.1->0.headers@, "content-type"@)
            },
    {
        let body: String = if node != -1 {
            let value = match self.json_nodes.take(node) {
                Some(v) => v,
                None => {
                    return (-1, None);
                },
            };
            crate::codec::stringify(&value)
        } else {
            crate::codec::stringify(&JsonValue::Null)
        };
        let mut hs: HeaderSet = if headers != -1 {
            match self.headers.take(headers) {
                Some(v) => v,
                None => {
                    return (-1, None);
                },
            }
        } else {
            HeaderSet::new()
        };
        if !hs.set("content-type", "application/json".to_owned()) {
            return (-1, None);
        }
        let ghost hsv = hs@;
        match self.do_request(request_client_id, path, method, callback, body, Some(hs), true) {
            Ok((id, plan)) => {
                proof {
                    assert forall|k: i32|
                        k != request_client_id implies self.request_clients.active@.contains_key(k)
                        == old(self).request_clients.active@.contains_key(k) && (
                    old(self).request_clients.active@.contains_key(k)
                        ==> self.request_clients.active@[k] == old(self).request_clients.active@[k]) by {}
                    let ph = plan.headers@;
                    assert(hsv.len() >= 1);
                    assert(hsv[hsv.len() - 1].0 == "content-type"@);
                    assert(ph[ph.len() - 1] == hsv[hsv.len() - 1]);
                    assert(HeaderSet::spec_has_name(ph, "content-type"@));
                }
                (id, Some(plan))
            },
            Err(_) => (-1, None),
        }
    }

    /// Looks the client up, allocates its next request id and computes the
    /// dispatch plan. Fails exactly when the client handle is unknown.
    pub fn do_request(
        &mut self,
        request_client_id: i32,
        path: String,
        method: Method,
        callback: String,
        body: String,
        headers: Option<HeaderSet>,
        is_json: bool,
    ) -> (r: Result<(i32, RequestPlan), crate::errors::DispatchError>)
        requires
            old(self).wf(),
            old(self).counters_ok(),
            match headers {
                Some(h) => h.wf(),
                None => true,
            },
        ensures
            final(self).wf(),
            final(self).json_nodes == old(self).json_nodes,
            final(self).websocket_clients == old(self).websocket_clients,
            final(self).headers == old(self).headers,
            r is Ok <==> old(self).request_clients.active@.contains_key(request_client_id),
            match r {
                Ok((id, plan)) => {
                    &&& id == old(self).request_clients.active@[request_client_id].request_id
                    &&& final(self).request_clients.active@[request_client_id].request_id == id + 1
                    &&& plan.id == id
                    &&& plan.body == body
                    &&& plan.callback == callback
                    &&& plan.method == method
                    &&& plan.as_json == is_json
                    &&& plan.url@ == crate::urls::url_with_path(
                        old(self).request_clients.active@[request_client_id].endpoint@,
                        path@,
                    )
                    &&& plan.headers.wf()
                    &&& plan.headers@ == match headers {
                        Some(h) => old(self).request_clients.active@[request_client_id].headers@.filter(
                            |e: (Seq<char>, Seq<char>)| !HeaderSet::spec_has_name(h@, e.0),
                        ) + h@,
                        None => old(self).request_clients.active@[request_client_id].headers@,
                    }
                    &&& final(self).request_clients.current == old(self).request_clients.current
                    &&& final(self).request_clients.active@.contains_key(request_client_id)
                    &&& final(self).request_clients.active@[request_client_id].endpoint == old(self).request_clients.active@[request_client_id].endpoint
                    &&& final(self).request_clients.active@[request_client_id].headers == old(self).request_clients.active@[request_client_id].headers
                    &&& final(self).request_clients.active@ == old(self).request_clients.active@.insert(
                        request_client_id,
                        final(self).request_clients.active@[request_client_id],
                    )
                },
                Err(e) => e == crate::errors::DispatchError::UnknownClient && old(self).same_request_clients(*final(self)) && final(self).headers == old(self).headers,
            },
    {
        if !self.request_clients.active.contains_key(&request_client_id) {
            return Err(crate::errors::DispatchError::UnknownClient);
        }
        let mut client = match self.request_clients.active.remove(&request_client_id) {
            Some(c) => c,
            None => {
                proof {
                    assert(false);
                }
                return Err(crate::errors::DispatchError::UnknownClient);
            },
        };
        let ghost old_clients = old(self).request_clients.active@;
        let res = client.request(
            Request { callback, path, method, headers, body },
            is_json,
        );
        self.request_clients.active.insert(request_client_id, client);
        proof {
            assert(self.request_clients.active@ =~= old_clients.insert(
                request_client_id,
                self.request_clients.active@[request_client_id],
            ));
        }
        match res {
            Ok(plan) => Ok((plan.id, plan)),
            Err(_) => {
                proof {
                    assert(false);
                }
                Err(crate::errors::DispatchError::UnknownClient)
            },
        }
    }
}

/// One step per child pair: look the handle up (`None` marks failure there),
/// consume it as `take` would, and store the pair. Returns the pool as it
/// stands afterwards — consumed prefixes stay consumed even when a later
/// handle is unknown.
pub open spec fn consume_object_children(
    nodes: Map<i32, Item<JsonValue>>,
    pairs: Seq<(Seq<char>, i32)>,
    acc: Seq<(Seq<char>, JsonVal)>,
) -> (Map<i32, Item<JsonValue>>, Option<Seq<(Seq<char>, JsonVal)>>)
    decreases pairs.len(),
{
    if pairs.len() == 0 {
        (nodes, Some(acc))
    } else {
        let h = pairs[0].1;
        if !nodes.contains_key(h) {
            (nodes, None)
        } else {
            let item = nodes[h];
            let nodes1 = if item.gc {
                nodes.remove(h)
            } else {
                nodes
            };
            consume_object_children(
                nodes1,
                pairs.drop_first(),
                JsonVal::pairs_store(acc, pairs[0].0, item.value@),
            )
        }
    }
}

/// The same consumption walk for array elements.
pub open spec fn consume_array_children(
    nodes: Map<i32, Item<JsonValue>>,
    handles: Seq<i32>,
    acc: Seq<JsonVal>,
) -> (Map<i32, Item<JsonValue>>, Option<Seq<JsonVal>>)
    decreases handles.len(),
{
    if handles.len() == 0 {
        (nodes, Some(acc))
    } else {
        let h = handles[0];
        if !nodes.contains_key(h) {
            (nodes, None)
        } else {
            let item = nodes[h];
            let nodes1 = if item.gc {
                nodes.remove(h)
            } else {
                nodes
            };
            consume_array_children(nodes1, handles.drop_first(), acc.push(item.value@))
        }
    }
}

/// A handle absent from the pool stays absent through a composition walk.
pub proof fn lemma_consume_object_absent(
    nodes: Map<i32, Item<JsonValue>>,
    pairs: Seq<(Seq<char>, i32)>,
    acc: Seq<(Seq<char>, JsonVal)>,
    h: i32,
)
    requires
        !nodes.contains_key(h),
    ensures
        !consume_object_children(nodes, pairs, acc).0.contains_key(h),
    decreases pairs.len(),
{
    if pairs.len() > 0 && nodes.contains_key(pairs[0].1) {
        let item = nodes[pairs[0].1];
        let nodes1 = if item.gc {
            nodes.remove(pairs[0].1)
        } else {
            nodes
        };
        lemma_consume_object_absent(
            nodes1,
            pairs.drop_first(),
            JsonVal::pairs_store(acc, pairs[0].0, item.value@),
            h,
        );
    }
}

/// Composition always invalidates the child handles it has consumed: a
/// child whose handle was found with its retention flag set is gone from
/// the pool the walk leaves behind — also when a later unknown handle
/// aborted the composition midway.
pub proof fn lemma_consume_object_children_invalidates(
    nodes: Map<i32, Item<JsonValue>>,
    pairs: Seq<(Seq<char>, i32)>,
    acc: Seq<(Seq<char>, JsonVal)>,
    i: int,
)
    requires
        0 <= i < pairs.len(),
        forall|j: int|
            0 <= j <= i ==> consume_object_children(nodes, pairs.take(j), acc).0.contains_key(
                #[trigger] pairs[j].1,
            ),
    ensures
        consume_object_children(nodes, pairs.take(i), acc).0[pairs[i].1].gc
            ==> !consume_object_children(nodes, pairs, acc).0.contains_key(pairs[i].1),
    decreases i,
{
    assert(pairs.take(0) =~= Seq::<(Seq<char>, i32)>::empty());
    assert(consume_object_children(nodes, pairs.take(0), acc).0 == nodes);
    let h0 = pairs[0].1;
    assert(nodes.contains_key(h0));
    let item0 = nodes[h0];
    let nodes1 = if item0.gc {
        nodes.remove(h0)
    } else {
        nodes
    };
    let acc1 = JsonVal::pairs_store(acc, pairs[0].0, item0.value@);
    if i == 0 {
        if item0.gc {
            assert(consume_object_children(nodes, pairs, acc) == consume_object_children(
                nodes1,
                pairs.drop_first(),
                acc1,
            ));
            lemma_consume_object_absent(nodes1, pairs.drop_first(), acc1, h0);
        }
    } else {
        let rest = pairs.drop_first();
        // transfer the hypothesis one step in
        assert forall|j: int|
            0 <= j <= i - 1 implies consume_object_children(nodes1, rest.take(j), acc1).0.contains_key(
            #[trigger] rest[j].1,
        ) by {
            assert(pairs.take(j + 1).len() > 0);
            assert(pairs.take(j + 1)[0] == pairs[0]);
            assert(pairs.take(j + 1).drop_first() =~= rest.take(j));
            assert(consume_object_children(nodes, pairs.take(j + 1), acc)
                == consume_object_children(nodes1, rest.take(j), acc1));
            assert(rest[j] == pairs[j + 1]);
        }
        lemma_consume_object_children_invalidates(nodes1, rest, acc1, i - 1);
        assert(pairs.take(i)[0] == pairs[0]);
        assert(pairs.take(i).drop_first() =~= rest.take(i - 1));
        assert(consume_object_children(nodes, pairs.take(i), acc) == consume_object_children(
            nodes1,
            rest.take(i - 1),
            acc1,
        ));
        assert(rest[i - 1] == pairs[i]);
        assert(consume_object_children(nodes, pairs, acc) == consume_object_children(
            nodes1,
            rest,
            acc1,
        ));
    }
}

/// A handle absent from the pool stays absent through an array
/// composition walk.
pub proof fn lemma_consume_array_absent(
    nodes: Map<i32, Item<JsonValue>>,
    handles: Seq<i32>,
    acc: Seq<JsonVal>,
    h: i32,
)
    requires
        !nodes.contains_key(h),
    ensures
        !consume_array_children(nodes, handles, acc).0.contains_key(h),
    decreases handles.len(),
{
    if handles.len() > 0 && nodes.contains_key(handles[0]) {
        let item = nodes[handles[0]];
        let nodes1 = if item.gc {
            nodes.remove(handles[0])
        } else {
            nodes
        };
        lemma_consume_array_absent(nodes1, handles.drop_first(), acc.push(item.value@), h);
    }
}


/// Array composition also always invalidates the child handles it has
/// consumed, midway aborts included.
pub proof fn lemma_consume_array_children_invalidates(
    nodes: Map<i32, Item<JsonValue>>,
    handles: Seq<i32>,
    acc: Seq<JsonVal>,
    i: int,
)
    requires
        0 <= i < handles.len(),
        forall|j: int|
            0 <= j <= i ==> consume_array_children(nodes, handles.take(j), acc).0.contains_key(
                #[trigger] handles[j],
            ),
    ensures
        consume_array_children(nodes, handles.take(i), acc).0[handles[i]].gc
            ==> !consume_array_children(nodes, handles, acc).0.contains_key(handles[i]),
    decreases i,
{
    assert(handles.take(0) =~= Seq::<i32>::empty());
    assert(consume_array_children(nodes, handles.take(0), acc).0 == nodes);
    let h0 = handles[0];
    assert(nodes.contains_key(h0));
    let item0 = nodes[h0];
    let nodes1 = if item0.gc {
        nodes.remove(h0)
    } else {
        nodes
    };
    let acc1 = acc.push(item0.value@);
    if i == 0 {
        if item0.gc {
            assert(consume_array_children(nodes, handles, acc) == consume_array_children(
                nodes1,
                handles.drop_first(),
                acc1,
            ));
            lemma_consume_array_absent(nodes1, handles.drop_first(), acc1, h0);
        }
    } else {
        let rest = handles.drop_first();
        assert forall|j: int|
            0 <= j <= i - 1 implies consume_array_children(nodes1, rest.take(j), acc1).0.contains_key(
            #[trigger] rest[j],
        ) by {
            assert(handles.take(j + 1).len() > 0);
            assert(handles.take(j + 1)[0] == handles[0]);
            assert(handles.take(j + 1).drop_first() =~= rest.take(j));
            assert(consume_array_children(nodes, handles.take(j + 1), acc)
                == consume_array_children(nodes1, rest.take(j), acc1));
            assert(rest[j] == handles[j + 1]);
        }
        lemma_consume_array_children_invalidates(nodes1, rest, acc1, i - 1);
        assert(handles.take(i)[0] == handles[0]);
        assert(handles.take(i).drop_first() =~= rest.take(i - 1));
        assert(consume_array_children(nodes, handles.take(i), acc) == consume_array_children(
            nodes1,
            rest.take(i - 1),
            acc1,
        ));
        assert(rest[i - 1] == handles[i]);
        assert(consume_array_children(nodes, handles, acc) == consume_array_children(
            nodes1,
            rest,
            acc1,
        ));
    }
}

impl Plugin {
    /// Builds a websocket client in raw-text mode. Returns its handle (also
    /// the id its callback receives), or `-1` when the endpoint is not an
    /// absolute ws or wss URL.
    pub fn web_socket_client(&mut self, endpoint: String, callback: String) -> (r: i32)
        requires
            old(self).wf(),
            old(self).counters_ok(),
        ensures
            final(self).wf(),
            final(self).json_nodes == old(self).json_nodes,
            final(self).headers == old(self).headers,
            final(self).request_clients == old(self).request_clients,
            r == -1 <==> !(url_scheme_of(endpoint@) == Some("ws"@) || url_scheme_of(endpoint@)
                == Some("wss"@)),
            r == -1 ==> final(self).websocket_clients == old(self).websocket_clients,
            r != -1 ==> {
                &&& r == old(self).websocket_clients.current + 1
                &&& final(self).websocket_clients.active@.contains_key(r)
                &&& final(self).websocket_clients.active@[r].endpoint == endpoint
                &&& final(self).websocket_clients.active@[r].callback == callback
                &&& final(self).websocket_clients.active@[r].client_id == r
                &&& !final(self).websocket_clients.active@[r].json_mode
                &&& final(self).websocket_clients.active@[r].outgoing@ == Seq::<String>::empty()
                &&& final(self).websocket_clients.current == r
                &&& forall|k: i32|
                    k != r ==> final(self).websocket_clients.active@.contains_key(k) == old(self).websocket_clients.active@.contains_key(k) && (
                    old(self).websocket_clients.active@.contains_key(k) ==> final(self).websocket_clients.active@[k] == old(self).websocket_clients.active@[k])
            },
    {
        let client_id = self.websocket_clients.current + 1;
        let client = match WebsocketClient::new(endpoint, callback, client_id, false) {
            Ok(v) => v,
            Err(_) => {
                return -1;
            },
        };
        self.websocket_clients.allocate(client)
    }

    /// Builds a websocket client in JSON mode: every inbound text frame is
    /// parsed and delivered as a fresh node handle.
    pub fn json_web_socket_client(&mut self, endpoint: String, callback: String) -> (r: i32)
        requires
            old(self).wf(),
            old(self).counters_ok(),
        ensures
            final(self).wf(),
            final(self).json_nodes == old(self).json_nodes,
            final(self).headers == old(self).headers,
            final(self).request_clients == old(self).request_clients,
            r == -1 <==> !(url_scheme_of(endpoint@) == Some("ws"@) || url_scheme_of(endpoint@)
                == Some("wss"@)),
            r == -1 ==> final(self).websocket_clients == old(self).websocket_clients,
            r != -1 ==> {
                &&& r == old(self).websocket_clients.current + 1
                &&& final(self).websocket_clients.active@.contains_key(r)
                &&& final(self).websocket_clients.active@[r].endpoint == endpoint
                &&& final(self).websocket_clients.active@[r].callback == callback
                &&& final(self).websocket_clients.active@[r].client_id == r
                &&& final(self).websocket_clients.active@[r].json_mode
                &&& final(self).websocket_clients.active@[r].outgoing@ == Seq::<String>::empty()
                &&& final(self).websocket_clients.current == r
                &&& forall|k: i32|
                    k != r ==> final(self).websocket_clients.active@.contains_key(k) == old(self).websocket_clients.active@.contains_key(k) && (
                    old(self).websocket_clients.active@.contains_key(k) ==> final(self).websocket_clients.active@[k] == old(self).websocket_clients.active@[k])
            },
    {
        let client_id = self.websocket_clients.current + 1;
        let client = match WebsocketClient::new(endpoint, callback, client_id, true) {
            Ok(v) => v,
            Err(_) => {
                return -1;
            },
        };
        self.websocket_clients.allocate(client)
    }

    /// Enqueues one outgoing text message on a stored client; `-1` when the
    /// client handle is unknown, `0` once the message sits at the back of
    /// the queue.
    pub fn web_socket_send(&mut self, client: i32, data: String) -> (r: i32)
        requires
            old(self).wf(),
        ensures
            final(self).wf(),
            final(self).json_nodes == old(self).json_nodes,
            final(self).headers == old(self).headers,
            final(self).request_clients == old(self).request_clients,
            final(self).websocket_clients.current == old(self).websocket_clients.current,
            r == -1 || r == 0,
            r == -1 <==> !old(self).websocket_clients.active@.contains_key(client),
            r == -1 ==> final(self).websocket_clients.active@ == old(self).websocket_clients.active@,
            r == 0 ==> {
                &&& final(self).websocket_clients.active@[client].outgoing@ == old(self).websocket_clients.active@[client].outgoing@.push(data)
                &&& final(self).websocket_clients.active@[client].endpoint == old(self).websocket_clients.active@[client].endpoint
                &&& final(self).websocket_clients.active@[client].callback == old(self).websocket_clients.active@[client].callback
                &&& final(self).websocket_clients.active@[client].client_id == old(self).websocket_clients.active@[client].client_id
                &&& final(self).websocket_clients.active@[client].json_mode == old(self).websocket_clients.active@[client].json_mode
                &&& forall|k: i32|
                    k != client ==> final(self).websocket_clients.active@.contains_key(k) == old(self).websocket_clients.active@.contains_key(k) && (
                    old(self).websocket_clients.active@.contains_key(k)
                        ==> final(self).websocket_clients.active@[k] == old(self).websocket_clients.active@[k])
            },
    {
        if !self.websocket_clients.active.contains_key(&client) {
            return -1;
        }
        let ghost before = self.websocket_clients.active@;
        let mut c = match self.websocket_clients.active.remove(&client) {
            Some(c) => c,
            None => {
                proof {
                    assert(false);
                }
                return -1;
            },
        };
        let _ = c.send(data);
        self.websocket_clients.active.insert(client, c);
        proof {
            assert forall|k: i32|
                k != client implies final(self).websocket_clients.active@.contains_key(k) == before.contains_key(
                k,
            ) && (before.contains_key(k) ==> final(self).websocket_clients.active@[k] == before[k]) by {}
        }
        0
    }

    /// Serializes a stored JSON node and enqueues the text on a stored
    /// client. `-1` when the client handle is unknown, `1` when the node
    /// handle is unknown, `0` on success. The node is read, not consumed.
    pub fn json_web_socket_send(&mut self, client: i32, node: i32) -> (r: i32)
        requires
            old(self).wf(),
        ensures
            final(self).wf(),
            final(self).json_nodes == old(self).json_nodes,
            final(self).headers == old(self).headers,
            final(self).request_clients == old(self).request_clients,
            final(self).websocket_clients.current == old(self).websocket_clients.current,
            r == -1 || r == 0 || r == 1,
            r == -1 <==> !old(self).websocket_clients.active@.contains_key(client),
            old(self).websocket_clients.active@.contains_key(client) ==> (r == 1 <==> !old(self).json_nodes.active@.contains_key(node)),
            r != 0 ==> final(self).websocket_clients.active@ == old(self).websocket_clients.active@,
            r == 0 ==> {
                &&& final(self).websocket_clients.active@[client].outgoing@.len() == old(self).websocket_clients.active@[client].outgoing@.len() + 1
                &&& final(self).websocket_clients.active@[client].outgoing@.last()@
                    == crate::codec::print_val(old(self).json_nodes.active@[node].value@)
                &&& final(self).websocket_clients.active@[client].outgoing@.drop_last() == old(self).websocket_clients.active@[client].outgoing@
                &&& final(self).websocket_clients.active@[client].endpoint == old(self).websocket_clients.active@[client].endpoint
                &&& final(self).websocket_clients.active@[client].callback == old(self).websocket_clients.active@[client].callback
                &&& final(self).websocket_clients.active@[client].client_id == old(self).websocket_clients.active@[client].client_id
                &&& final(self).websocket_clients.active@[client].json_mode == old(self).websocket_clients.active@[client].json_mode
                &&& forall|k: i32|
                    k != client ==> final(self).websocket_clients.active@.contains_key(k) == old(self).websocket_clients.active@.contains_key(k) && (
                    old(self).websocket_clients.active@.contains_key(k) ==> final(self).websocket_clients.active@[k] == old(self).websocket_clients.active@[k])
            },
    {
        if !self.websocket_clients.active.contains_key(&client) {
            return -1;
        }
        let text = match self.json_nodes.get(node) {
            Some(v) => crate::codec::stringify(v),
            None => {
                return 1;
            },
        };
        let ghost before = self.websocket_clients.active@;
        let mut c = match self.websocket_clients.active.remove(&client) {
            Some(c) => c,
            None => {
                proof {
                    assert(false);
                }
                return 1;
            },
        };
        let _ = c.send(text);
        self.websocket_clients.active.insert(client, c);
        proof {
            assert(final(self).websocket_clients.active@[client].outgoing@.drop_last()
                =~= before[client].outgoing@);
        }
        0
    }
}

/// The pool map after `take(h)`: the entry is gone when it was present with
/// its retention flag set, untouched otherwise.
pub open spec fn take_map(m: Map<i32, Item<JsonValue>>, h: i32) -> Map<i32, Item<JsonValue>> {
    if m.contains_key(h) && m[h].gc {
        m.remove(h)
    } else {
        m
    }
}

impl Plugin {
    /// The JSON node pool of `other` as it was in `self`.
    pub open spec fn same_nodes(self, other: Plugin) -> bool {
        self.json_nodes.active@ == other.json_nodes.active@ && self.json_nodes.current
            == other.json_nodes.current
    }

    /// Nothing outside the JSON node pool changed.
    pub open spec fn only_nodes_touched(self, other: Plugin) -> bool {
        &&& other.request_clients == self.request_clients
        &&& other.websocket_clients == self.websocket_clients
        &&& other.headers == self.headers
    }

    /// `new` is `old_map` plus one fresh retained entry `h` holding `jv`.
    pub open spec fn node_allocated(
        old_map: Map<i32, Item<JsonValue>>,
        old_current: i32,
        new: Plugin,
        h: i32,
        jv: JsonVal,
    ) -> bool {
        &&& h == old_current + 1
        &&& new.json_nodes.current == h
        &&& !old_map.contains_key(h)
        &&& new.json_nodes.active@.contains_key(h)
        &&& new.json_nodes.active@[h].value@ == jv
        &&& new.json_nodes.active@[h].gc
        &&& forall|k: i32|
            k != h ==> new.json_nodes.active@.contains_key(k) == old_map.contains_key(k) && (
            old_map.contains_key(k) ==> new.json_nodes.active@[k] == old_map[k])
    }

    /// `new` is `self` with the value under `h` replaced by `jv` (flag and
    /// every other entry kept).
    pub open spec fn node_value_set(self, new: Plugin, h: i32, jv: JsonVal) -> bool {
        &&& new.json_nodes.current == self.json_nodes.current
        &&& self.json_nodes.active@.contains_key(h)
        &&& new.json_nodes.active@.contains_key(h)
        &&& new.json_nodes.active@[h].value@ == jv
        &&& new.json_nodes.active@[h].gc == self.json_nodes.active@[h].gc
        &&& forall|k: i32|
            k != h ==> new.json_nodes.active@.contains_key(k)
                == self.json_nodes.active@.contains_key(k) && (
            self.json_nodes.active@.contains_key(k) ==> new.json_nodes.active@[k]
                == self.json_nodes.active@[k])
    }

    /// Parses text into a fresh retained node. Returns `0` and the handle,
    /// or `1` and nothing when the text is not valid JSON.
    pub fn json_parse(&mut self, input: String) -> (r: (i32, Option<i32>))
        requires
            old(self).wf(),
            old(self).counters_ok(),
        ensures
            final(self).wf(),
            old(self).only_nodes_touched(*final(self)),
            r.0 == 0 <==> crate::codec::spec_parse(input@) is Some,
            r.0 == 0 <==> r.1 is Some,
            r.0 != 0 ==> r.0 == 1 && old(self).same_nodes(*final(self)),
            r.1 is Some ==> Plugin::node_allocated(
                old(self).json_nodes.active@,
                old(self).json_nodes.current,
                *final(self),
                r.1->0,
                crate::codec::spec_parse(input@)->0,
            ),
    {
        match crate::codec::parse(input.as_str()) {
            None => (1, None),
            Some(v) => {
                let h = self.json_nodes.allocate(v);
                (0, Some(h))
            },
        }
    }

    /// Serializes a stored node (without consuming it). Returns `0` and the
    /// compact JSON text, or `1` and nothing for an unknown handle.
    pub fn json_stringify(&mut self, node: i32) -> (r: (i32, Option<String>))
        requires
            old(self).wf(),
        ensures
            final(self).wf(),
            *final(self) == *old(self),
            r.0 == 0 <==> old(self).json_nodes.active@.contains_key(node),
            r.0 == 0 <==> r.1 is Some,
            r.0 != 0 ==> r.0 == 1,
            r.1 is Some ==> r.1->0@ == crate::codec::print_val(
                old(self).json_nodes.active@[node].value@,
            ),
    {
        match self.json_nodes.get(node) {
            Some(v) => {
                let s = crate::codec::stringify(v);
                (0, Some(s))
            },
            None => (1, None),
        }
    }

    /// The type code of a stored node; an unknown handle reports the code
    /// for null.
    pub fn json_node_type(&mut self, node: i32) -> (r: i32)
        ensures
            *final(self) == *old(self),
            r == if old(self).json_nodes.active@.contains_key(node) {
                match old(self).json_nodes.active@[node].value@ {
                    JsonVal::Null => crate::json::NODE_NULL as int,
                    JsonVal::Bool(_) => crate::json::NODE_BOOLEAN as int,
                    JsonVal::Int(_) => crate::json::NODE_NUMBER as int,
                    JsonVal::Num(_) => crate::json::NODE_NUMBER as int,
                    JsonVal::Str(_) => crate::json::NODE_STRING as int,
                    JsonVal::Arr(_) => crate::json::NODE_ARRAY as int,
                    JsonVal::Obj(_) => crate::json::NODE_OBJECT as int,
                }
            } else {
                crate::json::NODE_NULL as int
            },
    {
        match self.json_nodes.get(node) {
            Some(v) => v.node_type(),
            None => crate::json::NODE_NULL,
        }
    }

    /// Allocates an integer node.
    pub fn json_int(&mut self, value: i32) -> (r: i32)
        requires
            old(self).wf(),
            old(self).counters_ok(),
        ensures
            final(self).wf(),
            old(self).only_nodes_touched(*final(self)),
            Plugin::node_allocated(
                old(self).json_nodes.active@,
                old(self).json_nodes.current,
                *final(self),
                r,
                JsonVal::Int(value as i64),
            ),
    {
        self.json_nodes.allocate(JsonValue::Int(value as i64))
    }

    /// Allocates a boolean node.
    pub fn json_bool(&mut self, value: bool) -> (r: i32)
        requires
            old(self).wf(),
            old(self).counters_ok(),
        ensures
            final(self).wf(),
            old(self).only_nodes_touched(*final(self)),
            Plugin::node_allocated(
                old(self).json_nodes.active@,
                old(self).json_nodes.current,
                *final(self),
                r,
                JsonVal::Bool(value),
            ),
    {
        self.json_nodes.allocate(JsonValue::Bool(value))
    }

    /// Allocates a string node.
    pub fn json_string(&mut self, value: String) -> (r: i32)
        requires
            old(self).wf(),
            old(self).counters_ok(),
        ensures
            final(self).wf(),
            old(self).only_nodes_touched(*final(self)),
            Plugin::node_allocated(
                old(self).json_nodes.active@,
                old(self).json_nodes.current,
                *final(self),
                r,
                JsonVal::Str(value@),
            ),
    {
        self.json_nodes.allocate(JsonValue::Str(value))
    }

    /// Allocates a number node from its decimal text (the host-side path
    /// for numbers that are not 32-bit integers). Returns the handle, or
    /// `-1` when the text is not a JSON number.
    pub fn json_number(&mut self, text: String) -> (r: i32)
        requires
            old(self).wf(),
            old(self).counters_ok(),
        ensures
            final(self).wf(),
            old(self).only_nodes_touched(*final(self)),
            r == -1 <==> !(crate::codec::spec_parse(text@) matches Some(jv) && (jv is Int
                || jv is Num)),
            r == -1 ==> old(self).same_nodes(*final(self)),
            r != -1 ==> Plugin::node_allocated(
                old(self).json_nodes.active@,
                old(self).json_nodes.current,
                *final(self),
                r,
                crate::codec::spec_parse(text@)->0,
            ),
    {
        let v = match crate::codec::parse(text.as_str()) {
            Some(v) => v,
            None => {
                return -1;
            },
        };
        let numeric = match &v {
            JsonValue::Int(_) => true,
            JsonValue::Num(_) => true,
            _ => false,
        };
        if !numeric {
            return -1;
        }
        self.json_nodes.allocate(v)
    }

    /// Looks `key` up in an object node and allocates a deep copy of the
    /// value under a fresh handle. `1`: unknown node; `2`: not an object;
    /// `3`: no such key; `0`: success, with the new handle.
    pub fn json_get_object(&mut self, node: i32, key: String) -> (r: (i32, Option<i32>))
        requires
            old(self).wf(),
            old(self).counters_ok(),
        ensures
            final(self).wf(),
            old(self).only_nodes_touched(*final(self)),
            r.0 == 0 || r.0 == 1 || r.0 == 2 || r.0 == 3,
            r.0 == 1 <==> !old(self).json_nodes.active@.contains_key(node),
            old(self).json_nodes.active@.contains_key(node) ==> (r.0 == 2 <==> !(old(self).json_nodes.active@[node].value@ is Obj)),
            r.0 == 0 <==> (old(self).json_nodes.active@.contains_key(node) && old(self).json_nodes.active@[node].value@ is Obj && JsonVal::pairs_lookup(
                old(self).json_nodes.active@[node].value@->Obj_0,
                key@,
            ) is Some),
            r.0 == 0 <==> r.1 is Some,
            r.0 != 0 ==> old(self).same_nodes(*final(self)),
            r.1 is Some ==> Plugin::node_allocated(
                old(self).json_nodes.active@,
                old(self).json_nodes.current,
                *final(self),
                r.1->0,
                JsonVal::pairs_lookup(old(self).json_nodes.active@[node].value@->Obj_0, key@)->0,
            ),
    {
        let copied = {
            let v = match self.json_nodes.get(node) {
                Some(v) => v,
                None => {
                    return (1, None);
                },
            };
            if !v.is_object() {
                return (2, None);
            }
            match v.obj_get(&key) {
                Some(found) => found.deep_copy(),
                None => {
                    return (3, None);
                },
            }
        };
        let h = self.json_nodes.allocate(copied);
        (0, Some(h))
    }

    /// Reads a 32-bit integer under `key` in an object node. `1`: unknown
    /// node or not an object; `2`: no such key; `3`: not an integer; `0`:
    /// success (an integer outside 32 bits is truncated, as the host cell
    /// is 32 bits wide).
    pub fn json_get_int(&mut self, node: i32, key: String) -> (r: (i32, Option<i32>))
        requires
            old(self).wf(),
        ensures
            final(self).wf(),
            *final(self) == *old(self),
            r.0 == 0 <==> r.1 is Some,
            ({
                let m = old(self).json_nodes.active@;
                if !m.contains_key(node) || !(m[node].value@ is Obj) {
                    r.0 == 1
                } else {
                    match JsonVal::pairs_lookup(m[node].value@->Obj_0, key@) {
                        None => r.0 == 2,
                        Some(jv) => match jv {
                            JsonVal::Int(i) => r.0 == 0 && r.1 == Some(i as i32),
                            _ => r.0 == 3,
                        },
                    }
                }
            }),
    {
        let v = match self.json_nodes.get(node) {
            Some(v) => v,
            None => {
                return (1, None);
            },
        };
        if !v.is_object() {
            return (1, None);
        }
        let found = match v.obj_get(&key) {
            Some(found) => found,
            None => {
                return (2, None);
            },
        };
        match found.as_int() {
            Some(i) => (0, Some(#[verifier::truncate] (i as i32))),
            None => (3, None),
        }
    }

    /// Reads a boolean under `key` in an object node; codes as for
    /// `json_get_int`.
    pub fn json_get_bool(&mut self, node: i32, key: String) -> (r: (i32, Option<bool>))
        requires
            old(self).wf(),
        ensures
            final(self).wf(),
            *final(self) == *old(self),
            r.0 == 0 <==> r.1 is Some,
            ({
                let m = old(self).json_nodes.active@;
                if !m.contains_key(node) || !(m[node].value@ is Obj) {
                    r.0 == 1
                } else {
                    match JsonVal::pairs_lookup(m[node].value@->Obj_0, key@) {
                        None => r.0 == 2,
                        Some(jv) => match jv {
                            JsonVal::Bool(b) => r.0 == 0 && r.1 == Some(b),
                            _ => r.0 == 3,
                        },
                    }
                }
            }),
    {
        let v = match self.json_nodes.get(node) {
            Some(v) => v,
            None => {
                return (1, None);
            },
        };
        if !v.is_object() {
            return (1, None);
        }
        let found = match v.obj_get(&key) {
            Some(found) => found,
            None => {
                return (2, None);
            },
        };
        match found.as_bool() {
            Some(b) => (0, Some(b)),
            None => (3, None),
        }
    }

    /// Reads a string under `key` in an object node; codes as for
    /// `json_get_int`.
    pub fn json_get_string(&mut self, node: i32, key: String) -> (r: (i32, Option<String>))
        requires
            old(self).wf(),
        ensures
            final(self).wf(),
            *final(self) == *old(self),
            r.0 == 0 <==> r.1 is Some,
            ({
                let m = old(self).json_nodes.active@;
                if !m.contains_key(node) || !(m[node].value@ is Obj) {
                    r.0 == 1
                } else {
                    match JsonVal::pairs_lookup(m[node].value@->Obj_0, key@) {
                        None => r.0 == 2,
                        Some(jv) => match jv {
                            JsonVal::Str(sv) => r.0 == 0 && r.1 is Some && r.1->0@ == sv,
                            _ => r.0 == 3,
                        },
                    }
                }
            }),
    {
        let v = match self.json_nodes.get(node) {
            Some(v) => v,
            None => {
                return (1, None);
            },
        };
        if !v.is_object() {
            return (1, None);
        }
        let found = match v.obj_get(&key) {
            Some(found) => found,
            None => {
                return (2, None);
            },
        };
        match found.as_str() {
            Some(sv) => (0, Some(sv.clone())),
            None => (3, None),
        }
    }

    /// Reads the decimal text of a number under `key` in an object node
    /// (the host-side path for numbers that are not 32-bit integers);
    /// codes as for `json_get_int`.
    pub fn json_get_number(&mut self, node: i32, key: String) -> (r: (i32, Option<String>))
        requires
            old(self).wf(),
        ensures
            final(self).wf(),
            *final(self) == *old(self),
            r.0 == 0 <==> r.1 is Some,
            ({
                let m = old(self).json_nodes.active@;
                if !m.contains_key(node) || !(m[node].value@ is Obj) {
                    r.0 == 1
                } else {
                    match JsonVal::pairs_lookup(m[node].value@->Obj_0, key@) {
                        None => r.0 == 2,
                        Some(jv) => if jv is Int || jv is Num {
                            r.0 == 0 && r.1 is Some && r.1->0@ == crate::codec::print_val(jv)
                        } else {
                            r.0 == 3
                        },
                    }
                }
            }),
    {
        let text = {
            let v = match self.json_nodes.get(node) {
                Some(v) => v,
                None => {
                    return (1, None);
                },
            };
            if !v.is_object() {
                return (1, None);
            }
            let found = match v.obj_get(&key) {
                Some(found) => found,
                None => {
                    return (2, None);
                },
            };
            let numeric = match found {
                JsonValue::Int(_) => true,
                JsonValue::Num(_) => true,
                _ => false,
            };
            if !numeric {
                return (3, None);
            }
            crate::codec::stringify(found)
        };
        (0, Some(text))
    }

    /// Looks `key` up in an object node and allocates a deep copy when the
    /// value is an array. `1`: unknown node or not an object; `2`: no such
    /// key; `3`: not an array; `0`: success, with the new handle.
    pub fn json_get_array(&mut self, node: i32, key: String) -> (r: (i32, Option<i32>))
        requires
            old(self).wf(),
            old(self).counters_ok(),
        ensures
            final(self).wf(),
            old(self).only_nodes_touched(*final(self)),
            r.0 == 0 <==> r.1 is Some,
            r.0 != 0 ==> old(self).same_nodes(*final(self)),
            ({
                let m = old(self).json_nodes.active@;
                if !m.contains_key(node) || !(m[node].value@ is Obj) {
                    r.0 == 1
                } else {
                    match JsonVal::pairs_lookup(m[node].value@->Obj_0, key@) {
                        None => r.0 == 2,
                        Some(jv) => if jv is Arr {
                            r.0 == 0 && r.1 is Some && Plugin::node_allocated(
                                old(self).json_nodes.active@,
                                old(self).json_nodes.current,
                                *final(self),
                                r.1->0,
                                jv,
                            )
                        } else {
                            r.0 == 3
                        },
                    }
                }
            }),
    {
        let copied = {
            let v = match self.json_nodes.get(node) {
                Some(v) => v,
                None => {
                    return (1, None);
                },
            };
            if !v.is_object() {
                return (1, None);
            }
            let found = match v.obj_get(&key) {
                Some(found) => found,
                None => {
                    return (2, None);
                },
            };
            if !found.is_array() {
                return (3, None);
            }
            found.deep_copy()
        };
        let h = self.json_nodes.allocate(copied);
        (0, Some(h))
    }

    /// The element count of an array node. `1`: unknown handle or not an
    /// array; `0`: success (a count above 32 bits is truncated, as the
    /// host cell is 32 bits wide).
    pub fn json_array_length(&mut self, node: i32) -> (r: (i32, Option<i32>))
        requires
            old(self).wf(),
        ensures
            final(self).wf(),
            *final(self) == *old(self),
            r.0 == 0 <==> r.1 is Some,
            ({
                let m = old(self).json_nodes.active@;
                if m.contains_key(node) && m[node].value@ is Arr {
                    r.0 == 0 && r.1 == Some((m[node].value@->Arr_0.len() as i32))
                } else {
                    r.0 == 1
                }
            }),
    {
        let v = match self.json_nodes.get(node) {
            Some(v) => v,
            None => {
                return (1, None);
            },
        };
        if !v.is_array() {
            return (1, None);
        }
        let n = v.arr_len();
        (0, Some(#[verifier::truncate] (n as i32)))
    }

    /// Allocates a deep copy of the element at `index` of an array node.
    /// `1`: unknown handle or not an array; `2`: index out of range; `0`:
    /// success, with the new handle.
    pub fn json_array_object(&mut self, node: i32, index: i32) -> (r: (i32, Option<i32>))
        requires
            old(self).wf(),
            old(self).counters_ok(),
        ensures
            final(self).wf(),
            old(self).only_nodes_touched(*final(self)),
            r.0 == 0 <==> r.1 is Some,
            r.0 != 0 ==> old(self).same_nodes(*final(self)),
            ({
                let m = old(self).json_nodes.active@;
                if !m.contains_key(node) || !(m[node].value@ is Arr) {
                    r.0 == 1
                } else if index < 0 || index >= m[node].value@->Arr_0.len() {
                    r.0 == 2
                } else {
                    r.0 == 0 && r.1 is Some && Plugin::node_allocated(
                        old(self).json_nodes.active@,
                        old(self).json_nodes.current,
                        *final(self),
                        r.1->0,
                        m[node].value@->Arr_0[index as int],
                    )
                }
            }),
    {
        let copied = {
            let v = match self.json_nodes.get(node) {
                Some(v) => v,
                None => {
                    return (1, None);
                },
            };
            if !v.is_array() {
                return (1, None);
            }
            if index < 0 {
                return (2, None);
            }
            match v.arr_get(index as usize) {
                Some(found) => found.deep_copy(),
                None => {
                    return (2, None);
                },
            }
        };
        let h = self.json_nodes.allocate(copied);
        (0, Some(h))
    }

    /// Consuming read of an integer node: the entry is removed when its
    /// retention flag is set, also when the node turns out not to be an
    /// integer. `1`: unknown handle or not an integer; `0`: success.
    pub fn json_get_node_int(&mut self, node: i32) -> (r: (i32, Option<i32>))
        requires
            old(self).wf(),
        ensures
            final(self).wf(),
            old(self).only_nodes_touched(*final(self)),
            final(self).json_nodes.current == old(self).json_nodes.current,
            r.0 == 0 <==> r.1 is Some,
            ({
                let m = old(self).json_nodes.active@;
                if !m.contains_key(node) {
                    r.0 == 1 && final(self).json_nodes.active@ == m
                } else {
                    &&& final(self).json_nodes.active@ == take_map(m, node)
                    &&& match m[node].value@ {
                        JsonVal::Int(i) => r.0 == 0 && r.1 == Some(i as i32),
                        _ => r.0 == 1,
                    }
                }
            }),
    {
        let v = match self.json_nodes.take(node) {
            Some(v) => v,
            None => {
                return (1, None);
            },
        };
        match v.as_int() {
            Some(i) => (0, Some(#[verifier::truncate] (i as i32))),
            None => (1, None),
        }
    }

    /// Consuming read of a boolean node; behaves as `json_get_node_int`.
    pub fn json_get_node_bool(&mut self, node: i32) -> (r: (i32, Option<bool>))
        requires
            old(self).wf(),
        ensures
            final(self).wf(),
            old(self).only_nodes_touched(*final(self)),
            final(self).json_nodes.current == old(self).json_nodes.current,
            r.0 == 0 <==> r.1 is Some,
            ({
                let m = old(self).json_nodes.active@;
                if !m.contains_key(node) {
                    r.0 == 1 && final(self).json_nodes.active@ == m
                } else {
                    &&& final(self).json_nodes.active@ == take_map(m, node)
                    &&& match m[node].value@ {
                        JsonVal::Bool(b) => r.0 == 0 && r.1 == Some(b),
                        _ => r.0 == 1,
                    }
                }
            }),
    {
        let v = match self.json_nodes.take(node) {
            Some(v) => v,
            None => {
                return (1, None);
            },
        };
        match v.as_bool() {
            Some(b) => (0, Some(b)),
            None => (1, None),
        }
    }

    /// Consuming read of a string node; behaves as `json_get_node_int`.
    pub fn json_get_node_string(&mut self, node: i32) -> (r: (i32, Option<String>))
        requires
            old(self).wf(),
        ensures
            final(self).wf(),
            old(self).only_nodes_touched(*final(self)),
            final(self).json_nodes.current == old(self).json_nodes.current,
            r.0 == 0 <==> r.1 is Some,
            ({
                let m = old(self).json_nodes.active@;
                if !m.contains_key(node) {
                    r.0 == 1 && final(self).json_nodes.active@ == m
                } else {
                    &&& final(self).json_nodes.active@ == take_map(m, node)
                    &&& match m[node].value@ {
                        JsonVal::Str(sv) => r.0 == 0 && r.1 is Some && r.1->0@ == sv,
                        _ => r.0 == 1,
                    }
                }
            }),
    {
        let v = match self.json_nodes.take(node) {
            Some(v) => v,
            None => {
                return (1, None);
            },
        };
        match v {
            JsonValue::Str(sv) => (0, Some(sv)),
            _ => (1, None),
        }
    }

    /// Consuming read of the decimal text of a number node; behaves as
    /// `json_get_node_int`.
    pub fn json_get_node_number(&mut self, node: i32) -> (r: (i32, Option<String>))
        requires
            old(self).wf(),
        ensures
            final(self).wf(),
            old(self).only_nodes_touched(*final(self)),
            final(self).json_nodes.current == old(self).json_nodes.current,
            r.0 == 0 <==> r.1 is Some,
            ({
                let m = old(self).json_nodes.active@;
                if !m.contains_key(node) {
                    r.0 == 1 && final(self).json_nodes.active@ == m
                } else {
                    &&& final(self).json_nodes.active@ == take_map(m, node)
                    &&& if m[node].value@ is Int || m[node].value@ is Num {
                        r.0 == 0 && r.1 is Some && r.1->0@ == crate::codec::print_val(
                            m[node].value@,
                        )
                    } else {
                        r.0 == 1
                    }
                }
            }),
    {
        let v = match self.json_nodes.take(node) {
            Some(v) => v,
            None => {
                return (1, None);
            },
        };
        let numeric = match &v {
            JsonValue::Int(_) => true,
            JsonValue::Num(_) => true,
            _ => false,
        };
        if !numeric {
            return (1, None);
        }
        let text = crate::codec::stringify(&v);
        (0, Some(text))
    }

    /// Sets the retention flag of a node. `0`: done; `1`: unknown handle.
    pub fn json_toggle_gc(&mut self, node: i32, set: bool) -> (r: i32)
        requires
            old(self).wf(),
        ensures
            final(self).wf(),
            old(self).only_nodes_touched(*final(self)),
            final(self).json_nodes.current == old(self).json_nodes.current,
            r == 0 <==> old(self).json_nodes.active@.contains_key(node),
            r != 0 ==> r == 1 && final(self).json_nodes.active@ == old(self).json_nodes.active@,
            r == 0 ==> final(self).json_nodes.active@ == old(self).json_nodes.active@.insert(
                node,
                Item { value: old(self).json_nodes.active@[node].value, gc: set },
            ),
    {
        match self.json_nodes.set_gc(node, set) {
            Some(_) => 0,
            None => 1,
        }
    }

    /// Removes a node: respecting its retention flag when `auto` is set,
    /// unconditionally otherwise. `0`: removed; `1`: unknown handle, or a
    /// cleared flag under `auto`.
    pub fn json_cleanup(&mut self, node: i32, auto: bool) -> (r: i32)
        requires
            old(self).wf(),
        ensures
            final(self).wf(),
            old(self).only_nodes_touched(*final(self)),
            final(self).json_nodes.current == old(self).json_nodes.current,
            r == 0 || r == 1,
            ({
                let m = old(self).json_nodes.active@;
                if auto {
                    if m.contains_key(node) && m[node].gc {
                        r == 0 && final(self).json_nodes.active@ == m.remove(node)
                    } else {
                        r == 1 && final(self).json_nodes.active@ == m
                    }
                } else {
                    if m.contains_key(node) {
                        r == 0 && final(self).json_nodes.active@ == m.remove(node)
                    } else {
                        r == 1 && final(self).json_nodes.active@ == m
                    }
                }
            }),
    {
        let removed = if auto {
            self.json_nodes.collect(node)
        } else {
            self.json_nodes.collect_force(node)
        };
        match removed {
            Some(_) => 0,
            None => 1,
        }
    }
}

/// The key/handle pairs of an object composition, at the view level.
pub open spec fn object_pairs_view(pairs: Seq<(String, i32)>) -> Seq<(Seq<char>, i32)> {
    Seq::new(pairs.len(), |i: int| (pairs[i].0@, pairs[i].1))
}

impl Plugin {
    /// Replaces the value under `key` of an object node by `val`. `0`: done;
    /// `1` (changing nothing): unknown handle or not an object.
    fn set_in_object(&mut self, node: i32, key: String, val: JsonValue) -> (r: i32)
        requires
            old(self).wf(),
        ensures
            final(self).wf(),
            old(self).only_nodes_touched(*final(self)),
            final(self).json_nodes.current == old(self).json_nodes.current,
            r == 0 <==> (old(self).json_nodes.active@.contains_key(node) && old(self).json_nodes.active@[node].value@ is Obj),
            r != 0 ==> r == 1 && final(self).json_nodes.active@ == old(self).json_nodes.active@,
            r == 0 ==> old(self).node_value_set(
                *final(self),
                node,
                JsonVal::Obj(
                    JsonVal::pairs_store(
                        old(self).json_nodes.active@[node].value@->Obj_0,
                        key@,
                        val@,
                    ),
                ),
            ),
    {
        if !self.json_nodes.active.contains_key(&node) {
            return 1;
        }
        let ghost before = self.json_nodes.active@;
        let item = match self.json_nodes.active.remove(&node) {
            Some(item) => item,
            None => {
                proof {
                    assert(false);
                }
                return 1;
            },
        };
        let mut value = item.value;
        let gc = item.gc;
        if !value.is_object() {
            self.json_nodes.active.insert(node, Item { value, gc });
            proof {
                assert(self.json_nodes.active@ =~= before);
            }
            return 1;
        }
        let _ = value.obj_set(key, val);
        self.json_nodes.active.insert(node, Item { value, gc });
        proof {
            assert forall|k: i32|
                k != node implies final(self).json_nodes.active@.contains_key(k)
                == before.contains_key(k) && (before.contains_key(k)
                ==> final(self).json_nodes.active@[k] == before[k]) by {}
        }
        0
    }

    /// Sets `key` of an object node to an integer. `0`: done; `1`: unknown
    /// handle or not an object.
    pub fn json_set_int(&mut self, node: i32, key: String, value: i32) -> (r: i32)
        requires
            old(self).wf(),
        ensures
            final(self).wf(),
            old(self).only_nodes_touched(*final(self)),
            final(self).json_nodes.current == old(self).json_nodes.current,
            r == 0 <==> (old(self).json_nodes.active@.contains_key(node) && old(self).json_nodes.active@[node].value@ is Obj),
            r != 0 ==> r == 1 && final(self).json_nodes.active@ == old(self).json_nodes.active@,
            r == 0 ==> old(self).node_value_set(
                *final(self),
                node,
                JsonVal::Obj(
                    JsonVal::pairs_store(
                        old(self).json_nodes.active@[node].value@->Obj_0,
                        key@,
                        JsonVal::Int(value as i64),
                    ),
                ),
            ),
    {
        self.set_in_object(node, key, JsonValue::Int(value as i64))
    }

    /// Sets `key` of an object node to a boolean; as `json_set_int`.
    pub fn json_set_bool(&mut self, node: i32, key: String, value: bool) -> (r: i32)
        requires
            old(self).wf(),
        ensures
            final(self).wf(),
            old(self).only_nodes_touched(*final(self)),
            final(self).json_nodes.current == old(self).json_nodes.current,
            r == 0 <==> (old(self).json_nodes.active@.contains_key(node) && old(self).json_nodes.active@[node].value@ is Obj),
            r != 0 ==> r == 1 && final(self).json_nodes.active@ == old(self).json_nodes.active@,
            r == 0 ==> old(self).node_value_set(
                *final(self),
                node,
                JsonVal::Obj(
                    JsonVal::pairs_store(
                        old(self).json_nodes.active@[node].value@->Obj_0,
                        key@,
                        JsonVal::Bool(value),
                    ),
                ),
            ),
    {
        self.set_in_object(node, key, JsonValue::Bool(value))
    }

    /// Sets `key` of an object node to a string; as `json_set_int`.
    pub fn json_set_string(&mut self, node: i32, key: String, value: String) -> (r: i32)
        requires
            old(self).wf(),
        ensures
            final(self).wf(),
            old(self).only_nodes_touched(*final(self)),
            final(self).json_nodes.current == old(self).json_nodes.current,
            r == 0 <==> (old(self).json_nodes.active@.contains_key(node) && old(self).json_nodes.active@[node].value@ is Obj),
            r != 0 ==> r == 1 && final(self).json_nodes.active@ == old(self).json_nodes.active@,
            r == 0 ==> old(self).node_value_set(
                *final(self),
                node,
                JsonVal::Obj(
                    JsonVal::pairs_store(
                        old(self).json_nodes.active@[node].value@->Obj_0,
                        key@,
                        JsonVal::Str(value@),
                    ),
                ),
            ),
    {
        self.set_in_object(node, key, JsonValue::Str(value))
    }

    /// Sets `key` of an object node to the number written by `text` (the
    /// host-side path for numbers that are not 32-bit integers). `0`: done;
    /// `1`: the text is not a JSON number, the handle is unknown, or the
    /// node is not an object.
    pub fn json_set_number(&mut self, node: i32, key: String, text: String) -> (r: i32)
        requires
            old(self).wf(),
        ensures
            final(self).wf(),
            old(self).only_nodes_touched(*final(self)),
            final(self).json_nodes.current == old(self).json_nodes.current,
            r == 0 || r == 1,
            r == 0 <==> ((crate::codec::spec_parse(text@) matches Some(jv) && (jv is Int
                || jv is Num)) && old(self).json_nodes.active@.contains_key(node) && old(self).json_nodes.active@[node].value@ is Obj),
            r != 0 ==> final(self).json_nodes.active@ == old(self).json_nodes.active@,
            r == 0 ==> old(self).node_value_set(
                *final(self),
                node,
                JsonVal::Obj(
                    JsonVal::pairs_store(
                        old(self).json_nodes.active@[node].value@->Obj_0,
                        key@,
                        crate::codec::spec_parse(text@)->0,
                    ),
                ),
            ),
    {
        let v = match crate::codec::parse(text.as_str()) {
            Some(v) => v,
            None => {
                return 1;
            },
        };
        let numeric = match &v {
            JsonValue::Int(_) => true,
            JsonValue::Num(_) => true,
            _ => false,
        };
        if !numeric {
            return 1;
        }
        self.set_in_object(node, key, v)
    }

    /// Sets `key` of an object node to another object node, consuming the
    /// source handle and deep-copying nothing (the source value moves).
    /// `0`: done; `1`: unknown source handle (nothing changes), or — with
    /// the source already consumed — unknown destination or either side
    /// not an object.
    pub fn json_set_object(&mut self, node: i32, key: String, value: i32) -> (r: i32)
        requires
            old(self).wf(),
        ensures
            final(self).wf(),
            old(self).only_nodes_touched(*final(self)),
            final(self).json_nodes.current == old(self).json_nodes.current,
            r == 0 || r == 1,
            !old(self).json_nodes.active@.contains_key(value) ==> r == 1 && final(self).json_nodes.active@ == old(self).json_nodes.active@,
            ({
                let m = old(self).json_nodes.active@;
                let src = m[value].value@;
                let m1 = take_map(m, value);
                m.contains_key(value) ==> {
                    &&& (r == 0 <==> (src is Obj && m1.contains_key(node) && m1[node].value@
                        is Obj))
                    &&& r == 1 ==> final(self).json_nodes.active@ == m1
                    &&& r == 0 ==> {
                        &&& final(self).json_nodes.active@.contains_key(node)
                        &&& final(self).json_nodes.active@[node].value@ == JsonVal::Obj(
                            JsonVal::pairs_store(m1[node].value@->Obj_0, key@, src),
                        )
                        &&& final(self).json_nodes.active@[node].gc == m1[node].gc
                        &&& forall|k: i32|
                            k != node ==> final(self).json_nodes.active@.contains_key(k)
                                == m1.contains_key(k) && (m1.contains_key(k) ==> final(self).json_nodes.active@[k] == m1[k])
                    }
                }
            }),
    {
        let src = match self.json_nodes.take(value) {
            Some(v) => v,
            None => {
                return 1;
            },
        };
        if !src.is_object() {
            return 1;
        }
        if !self.json_nodes.active.contains_key(&node) {
            return 1;
        }
        let ghost m1 = self.json_nodes.active@;
        let item = match self.json_nodes.active.remove(&node) {
            Some(item) => item,
            None => {
                proof {
                    assert(false);
                }
                return 1;
            },
        };
        let mut dst = item.value;
        let gc = item.gc;
        if !dst.is_object() {
            self.json_nodes.active.insert(node, Item { value: dst, gc });
            proof {
                assert(self.json_nodes.active@ =~= m1);
            }
            return 1;
        }
        let _ = dst.obj_set(key, src);
        self.json_nodes.active.insert(node, Item { value: dst, gc });
        proof {
            assert forall|k: i32|
                k != node implies final(self).json_nodes.active@.contains_key(k)
                == m1.contains_key(k) && (m1.contains_key(k)
                ==> final(self).json_nodes.active@[k] == m1[k]) by {}
        }
        0
    }

    /// Builds an object from key/handle pairs, consuming every child handle
    /// in order (a repeated key keeps the later value). Returns the new
    /// object's handle, or `-1` (never a valid handle) as soon as one child
    /// handle is unknown — children consumed up to that point stay
    /// consumed.
    #[verifier::loop_isolation(false)]
    pub fn json_object(&mut self, pairs: Vec<(String, i32)>) -> (r: i32)
        requires
            old(self).wf(),
            old(self).counters_ok(),
        ensures
            final(self).wf(),
            old(self).only_nodes_touched(*final(self)),
            ({
                let walk = consume_object_children(
                    old(self).json_nodes.active@,
                    object_pairs_view(pairs@),
                    Seq::empty(),
                );
                match walk.1 {
                    Some(built) => r == old(self).json_nodes.current + 1 && Plugin::node_allocated(
                        walk.0,
                        old(self).json_nodes.current,
                        *final(self),
                        r,
                        JsonVal::Obj(built),
                    ),
                    None => r == -1 && final(self).json_nodes.active@ == walk.0 && final(self).json_nodes.current == old(self).json_nodes.current,
                }
            }),
    {
        let ghost pv = object_pairs_view(pairs@);
        let ghost m0 = self.json_nodes.active@;
        let mut acc = JsonValue::Obj(Vec::new());
        proof {
            assert(acc@ == JsonVal::Obj(Seq::<(Seq<char>, JsonVal)>::empty()));
            assert(pv.skip(0) =~= pv);
        }
        let mut i: usize = 0;
        while i < pairs.len()
            invariant
                i <= pairs.len(),
                acc@ is Obj,
                self.json_nodes.wf(),
                self.json_nodes.current == old(self).json_nodes.current,
                self.request_clients == old(self).request_clients,
                self.websocket_clients == old(self).websocket_clients,
                self.headers == old(self).headers,
                consume_object_children(m0, pv, Seq::empty()) == consume_object_children(
                    self.json_nodes.active@,
                    pv.skip(i as int),
                    acc@->Obj_0,
                ),
            decreases pairs.len() - i,
        {
            proof {
                assert(pv.skip(i as int)[0] == pv[i as int]);
                assert(pv[i as int] == (pairs@[i as int].0@, pairs@[i as int].1));
                assert(pv.skip(i as int).drop_first() =~= pv.skip(i + 1));
            }
            let key = pairs[i].0.clone();
            let handle = pairs[i].1;
            let child = match self.json_nodes.take(handle) {
                Some(v) => v,
                None => {
                    return -1;
                },
            };
            let _ = acc.obj_set(key, child);
            i = i + 1;
        }
        proof {
            assert(pv.skip(pairs@.len() as int) =~= Seq::<(Seq<char>, i32)>::empty());
        }
        self.json_nodes.allocate(acc)
    }

    /// Builds an array from element handles, consuming each in order.
    /// Returns the new array's handle, or `-1` (never a valid handle) as
    /// soon as one handle is unknown — elements consumed up to that point
    /// stay consumed.
    #[verifier::loop_isolation(false)]
    pub fn json_array(&mut self, handles: Vec<i32>) -> (r: i32)
        requires
            old(self).wf(),
            old(self).counters_ok(),
        ensures
            final(self).wf(),
            old(self).only_nodes_touched(*final(self)),
            ({
                let walk = consume_array_children(
                    old(self).json_nodes.active@,
                    handles@,
                    Seq::empty(),
                );
                match walk.1 {
                    Some(built) => r == old(self).json_nodes.current + 1 && Plugin::node_allocated(
                        walk.0,
                        old(self).json_nodes.current,
                        *final(self),
                        r,
                        JsonVal::Arr(built),
                    ),
                    None => r == -1 && final(self).json_nodes.active@ == walk.0 && final(self).json_nodes.current == old(self).json_nodes.current,
                }
            }),
    {
        let ghost m0 = self.json_nodes.active@;
        let mut elems: Vec<JsonValue> = Vec::new();
        proof {
            crate::json::lemma_view_of_list_index(elems@);
            assert(crate::json::view_of_list(elems@) =~= Seq::<JsonVal>::empty());
            assert(handles@.skip(0) =~= handles@);
        }
        let mut i: usize = 0;
        while i < handles.len()
            invariant
                i <= handles.len(),
                self.json_nodes.wf(),
                self.json_nodes.current == old(self).json_nodes.current,
                self.request_clients == old(self).request_clients,
                self.websocket_clients == old(self).websocket_clients,
                self.headers == old(self).headers,
                consume_array_children(m0, handles@, Seq::empty()) == consume_array_children(
                    self.json_nodes.active@,
                    handles@.skip(i as int),
                    crate::json::view_of_list(elems@),
                ),
            decreases handles.len() - i,
        {
            proof {
                assert(handles@.skip(i as int)[0] == handles@[i as int]);
                assert(handles@.skip(i as int).drop_first() =~= handles@.skip(i + 1));
            }
            let child = match self.json_nodes.take(handles[i]) {
                Some(v) => v,
                None => {
                    return -1;
                },
            };
            let ghost before = elems@;
            elems.push(child);
            proof {
                crate::json::lemma_view_of_list_index(before);
                crate::json::lemma_view_of_list_index(elems@);
                assert(crate::json::view_of_list(elems@) =~= crate::json::view_of_list(
                    before,
                ).push(child@));
            }
            i = i + 1;
        }
        proof {
            assert(handles@.skip(handles@.len() as int) =~= Seq::<i32>::empty());
        }
        self.json_nodes.allocate(JsonValue::Arr(elems))
    }

    /// Merges two nodes, consuming both handles: two objects merge (the
    /// second wins on a repeated key), two arrays concatenate. Returns the
    /// new node's handle; `-1` when either handle is unknown (the first may
    /// already be consumed then); `-2` when the nodes are neither both
    /// objects nor both arrays — both stay consumed. No error code is ever
    /// a valid handle.
    pub fn json_append(&mut self, a: i32, b: i32) -> (r: i32)
        requires
            old(self).wf(),
            old(self).counters_ok(),
        ensures
            final(self).wf(),
            old(self).only_nodes_touched(*final(self)),
            !old(self).json_nodes.active@.contains_key(a) ==> r == -1 && final(self).json_nodes.active@ == old(self).json_nodes.active@ && final(self).json_nodes.current
                == old(self).json_nodes.current,
            ({
                let m = old(self).json_nodes.active@;
                let m1 = take_map(m, a);
                let m2 = take_map(m1, b);
                m.contains_key(a) ==> {
                    &&& (!m1.contains_key(b) ==> r == -1 && final(self).json_nodes.active@ == m1
                        && final(self).json_nodes.current == old(self).json_nodes.current)
                    &&& m1.contains_key(b) ==> {
                        let va = m[a].value@;
                        let vb = m1[b].value@;
                        if va is Obj && vb is Obj {
                            r == old(self).json_nodes.current + 1 && Plugin::node_allocated(
                                m2,
                                old(self).json_nodes.current,
                                *final(self),
                                r,
                                JsonVal::Obj(JsonVal::pairs_merge(va->Obj_0, vb->Obj_0)),
                            )
                        } else if va is Arr && vb is Arr {
                            r == old(self).json_nodes.current + 1 && Plugin::node_allocated(
                                m2,
                                old(self).json_nodes.current,
                                *final(self),
                                r,
                                JsonVal::Arr(va->Arr_0 + vb->Arr_0),
                            )
                        } else {
                            r == -2 && final(self).json_nodes.active@ == m2 && final(self).json_nodes.current == old(self).json_nodes.current
                        }
                    }
                }
            }),
    {
        let va = match self.json_nodes.take(a) {
            Some(v) => v,
            None => {
                return -1;
            },
        };
        let vb = match self.json_nodes.take(b) {
            Some(v) => v,
            None => {
                return -1;
            },
        };
        let a_obj = va.is_object();
        let b_obj = vb.is_object();
        let a_arr = va.is_array();
        let b_arr = vb.is_array();
        if a_obj && b_obj {
            let merged = crate::json::merge_objects(va, vb);
            self.json_nodes.allocate(merged)
        } else if a_arr && b_arr {
            let joined = crate::json::concat_arrays(va, vb);
            self.json_nodes.allocate(joined)
        } else {
            -2
        }
    }
}

impl Default for Plugin {
    /// A fresh session: every pool empty, every counter at zero.
    fn default() -> (r: Self)
        ensures
            r.wf(),
            r.counters_ok(),
            r.request_clients.current == 0,
            r.websocket_clients.current == 0,
            r.json_nodes.current == 0,
            r.headers.current == 0,
            r.request_clients.active@ == Map::<i32, RequestClient>::empty(),
            r.websocket_clients.active@ == Map::<i32, WebsocketClient>::empty(),
            r.json_nodes.active@ == Map::<i32, Item<JsonValue>>::empty(),
            r.headers.active@ == Map::<i32, Item<HeaderSet>>::empty(),
    {
        Plugin {
            request_clients: Default::default(),
            websocket_clients: Default::default(),
            json_nodes: Default::default(),
            headers: Default::default(),
        }
    }
}

} // verus!
