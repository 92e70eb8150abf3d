use requests::errors::ConstructionError;
use requests::headers::HeaderSet;
use requests::method::Method;
use requests::plugin::Plugin;
use requests::request_client::RequestClient;
use requests::websocket_client::WebsocketClient;

#[test]
fn construction_fails_synchronously_on_bad_endpoints() {
    let r = RequestClient::new("not a url".to_string(), HeaderSet::new());
    assert!(matches!(r, Err(ConstructionError::InvalidUrl)));
    let r = RequestClient::new("ftp://example.com".to_string(), HeaderSet::new());
    assert!(matches!(r, Err(ConstructionError::InvalidScheme)));
    let r = RequestClient::new("ws://example.com".to_string(), HeaderSet::new());
    assert!(matches!(r, Err(ConstructionError::InvalidScheme)));
    assert!(RequestClient::new("http://example.com".to_string(), HeaderSet::new()).is_ok());
    assert!(RequestClient::new("https://example.com/x".to_string(), HeaderSet::new()).is_ok());

    let r = WebsocketClient::new("::::".to_string(), "Cb".to_string(), 1, false);
    assert!(matches!(r, Err(ConstructionError::InvalidUrl)));
    let r = WebsocketClient::new("http://example.com".to_string(), "Cb".to_string(), 1, false);
    assert!(matches!(r, Err(ConstructionError::InvalidScheme)));
    assert!(WebsocketClient::new("ws://example.com".to_string(), "Cb".to_string(), 1, false).is_ok());
    assert!(WebsocketClient::new("wss://example.com".to_string(), "Cb".to_string(), 2, true).is_ok());
}

#[test]
fn request_ids_increase_and_paths_replace() {
    let mut p = Plugin::default();
    let client = p.requests_client("http://example.com/base?q=1".to_string(), -1);
    assert_eq!(client, 1);
    let (id0, plan0) = p.request(
        client,
        "/first".to_string(),
        Method::HttpMethodGet,
        "OnFirst".to_string(),
        String::new(),
        -1,
    );
    assert_eq!(id0, 0);
    let plan0 = plan0.unwrap();
    assert_eq!(plan0.id, 0);
    assert_eq!(plan0.url, "http://example.com/first?q=1");
    assert_eq!(plan0.callback, "OnFirst");
    assert!(!plan0.as_json);
    let (id1, plan1) = p.request(
        client,
        "second".to_string(),
        Method::HttpMethodPost,
        "OnSecond".to_string(),
        "payload".to_string(),
        -1,
    );
    assert_eq!(id1, 1);
    let plan1 = plan1.unwrap();
    assert_eq!(plan1.body, "payload");
    assert!(id0 < id1);

    // unknown client is a synchronous caller error: no plan, nothing spawned
    let (bad, plan) = p.request(
        77,
        "/x".to_string(),
        Method::HttpMethodGet,
        "Cb".to_string(),
        String::new(),
        -1,
    );
    assert_eq!(bad, -1);
    assert!(plan.is_none());
}

#[test]
fn client_construction_failure_spawns_nothing() {
    let mut p = Plugin::default();
    let bad = p.requests_client("nonsense".to_string(), -1);
    assert_eq!(bad, -1);
    // no client was registered under any handle
    let (r, plan) = p.request(
        1,
        "/x".to_string(),
        Method::HttpMethodGet,
        "Cb".to_string(),
        String::new(),
        -1,
    );
    assert_eq!(r, -1);
    assert!(plan.is_none());
}

#[test]
fn headers_validate_canonicalize_and_merge() {
    let mut p = Plugin::default();
    assert_eq!(
        p.request_headers(vec![("bad name".to_string(), "v".to_string())]),
        -1
    );
    assert_eq!(
        p.request_headers(vec![("X-Ok".to_string(), "bad\nvalue".to_string())]),
        -1
    );
    let base = p.request_headers(vec![
        ("X-Base".to_string(), "base".to_string()),
        ("X-Shared".to_string(), "from-base".to_string()),
    ]);
    assert!(base > 0);
    let client = p.requests_client("http://example.com".to_string(), base);
    assert!(client > 0);
    // the header set was consumed by the client
    let reused = p.requests_client("http://example.com".to_string(), base);
    assert_eq!(reused, -1);

    let per_request = p.request_headers(vec![("X-Shared".to_string(), "from-request".to_string())]);
    assert!(per_request > 0);
    let (_, plan) = p.request(
        client,
        "/".to_string(),
        Method::HttpMethodGet,
        "Cb".to_string(),
        String::new(),
        per_request,
    );
    let plan = plan.unwrap();
    let mut entries: Vec<(String, String)> = Vec::new();
    let mut i = 0;
    while let Some((name, value)) = plan.headers.entry_at(i) {
        entries.push((name.clone(), value.clone()));
        i += 1;
    }
    // names are canonical (lowercased); the per-request value wins on the
    // shared name and the base-only name survives
    assert_eq!(
        entries,
        vec![
            ("x-base".to_string(), "base".to_string()),
            ("x-shared".to_string(), "from-request".to_string()),
        ]
    );
}

#[test]
fn request_json_sets_content_type_and_serializes_body() {
    let mut p = Plugin::default();
    let client = p.requests_client("http://example.com".to_string(), -1);
    let node = p.json_object(vec![]);
    assert_eq!(p.json_set_int(node, "n".to_string(), 3), 0);
    let (id, plan) = p.request_json(
        client,
        "/api".to_string(),
        Method::HttpMethodPost,
        "OnJson".to_string(),
        node,
        -1,
    );
    assert_eq!(id, 0);
    let plan = plan.unwrap();
    assert!(plan.as_json);
    assert_eq!(plan.body, "{\"n\":3}");
    let mut found = None;
    let mut i = 0;
    while let Some((name, value)) = plan.headers.entry_at(i) {
        if name == "content-type" {
            found = Some(value.clone());
        }
        i += 1;
    }
    assert_eq!(found.as_deref(), Some("application/json"));
    // the body node was consumed
    let (s, _) = p.json_stringify(node);
    assert_eq!(s, 1);

    // an unknown body node is a synchronous error
    let (id, plan) = p.request_json(
        client,
        "/api".to_string(),
        Method::HttpMethodPost,
        "OnJson".to_string(),
        4242,
        -1,
    );
    assert_eq!(id, -1);
    assert!(plan.is_none());
}

#[test]
fn websocket_send_keeps_fifo_order() {
    let mut p = Plugin::default();
    let ws = p.web_socket_client("ws://example.com/feed".to_string(), "OnMessage".to_string());
    assert_eq!(ws, 1);
    assert_eq!(p.web_socket_send(ws, "first".to_string()), 0);
    assert_eq!(p.web_socket_send(ws, "second".to_string()), 0);
    let client = p.websocket_clients.active.get_mut(&ws).unwrap();
    assert_eq!(client.next_outgoing().as_deref(), Some("first"));
    assert_eq!(client.next_outgoing().as_deref(), Some("second"));
    assert!(client.next_outgoing().is_none());

    assert_eq!(p.web_socket_send(99, "x".to_string()), -1);
}

#[test]
fn json_websocket_send_serializes_the_node() {
    let mut p = Plugin::default();
    let ws = p.json_web_socket_client("wss://example.com".to_string(), "OnJson".to_string());
    assert_eq!(ws, 1);
    let node = p.json_object(vec![]);
    assert_eq!(p.json_set_bool(node, "ok".to_string(), true), 0);
    assert_eq!(p.json_web_socket_send(ws, node), 0);
    // the node is read, not consumed
    assert_eq!(p.json_web_socket_send(ws, node), 0);
    assert_eq!(p.json_web_socket_send(ws, 777), 1);
    assert_eq!(p.json_web_socket_send(42, node), -1);
    let client = p.websocket_clients.active.get_mut(&ws).unwrap();
    assert_eq!(client.next_outgoing().as_deref(), Some("{\"ok\":true}"));
    assert_eq!(client.next_outgoing().as_deref(), Some("{\"ok\":true}"));
    assert!(client.next_outgoing().is_none());
}

#[test]
fn method_cells_round_trip() {
    let all = [
        Method::HttpMethodGet,
        Method::HttpMethodHead,
        Method::HttpMethodPost,
        Method::HttpMethodPut,
        Method::HttpMethodDelete,
        Method::HttpMethodConnect,
        Method::HttpMethodOptions,
        Method::HttpMethodTrace,
        Method::HttpMethodPatch,
    ];
    for (i, m) in all.iter().enumerate() {
        assert_eq!(m.as_cell(), i as i32);
        assert_eq!(Method::from_raw(i as i32), Some(*m));
    }
    assert_eq!(Method::from_raw(9), None);
    assert_eq!(Method::from_raw(-1), None);
}

#[test]
fn request_json_consumes_the_body_node_before_checking_headers() {
    let mut p = Plugin::default();
    let client = p.requests_client("http://example.com".to_string(), -1);
    let node = p.json_object(vec![]);
    let (id, plan) = p.request_json(
        client,
        "/".to_string(),
        Method::HttpMethodPost,
        "Cb".to_string(),
        node,
        31337,
    );
    assert_eq!(id, -1);
    assert!(plan.is_none());
    // the body node was taken before the unknown header handle was noticed
    let (s, _) = p.json_stringify(node);
    assert_eq!(s, 1);
}
