use requests::bridge::{
    execute_request_failure_callback, execute_response_callback, execute_websocket_callback,
    CallbackPayload, HostAccess,
};
use requests::json::JsonValue;
use requests::pool::GarbageCollectedPool;

fn nodes() -> GarbageCollectedPool<JsonValue> {
    GarbageCollectedPool::default()
}

#[test]
fn failure_callback_reports_status_or_minus_one() {
    let inv = execute_request_failure_callback(
        HostAccess::Granted,
        4,
        Some(503),
        "server unhappy".to_string(),
    )
    .unwrap();
    assert_eq!(inv.id, 4);
    assert_eq!(inv.status, 503);
    assert_eq!(inv.message, "server unhappy");

    let inv =
        execute_request_failure_callback(HostAccess::Granted, 5, None, "no route".to_string())
            .unwrap();
    assert_eq!(inv.status, -1);

    assert!(execute_request_failure_callback(HostAccess::Gone, 1, None, String::new()).is_none());
    assert!(
        execute_request_failure_callback(HostAccess::Corrupted, 1, None, String::new()).is_none()
    );
}

#[test]
fn response_callback_carries_status_and_body() {
    // an HTTP 404 is a completed response: the callback observes the status
    // and whatever body bytes were returned (empty is valid)
    let mut pool = nodes();
    let inv = execute_response_callback(
        HostAccess::Granted,
        "OnResponse".to_string(),
        9,
        404,
        String::new(),
        false,
        &mut pool,
    )
    .unwrap();
    assert_eq!(inv.callback, "OnResponse");
    assert_eq!(inv.id, 9);
    assert_eq!(inv.status, 404);
    match inv.payload {
        CallbackPayload::Text(body) => assert_eq!(body, ""),
        CallbackPayload::Node(_) => panic!("raw mode must deliver text"),
    }
    assert_eq!(pool.current, 0);
}

#[test]
fn response_callback_is_dropped_when_host_is_unreachable() {
    let mut pool = nodes();
    for access in [HostAccess::Gone, HostAccess::Corrupted] {
        let r = execute_response_callback(
            access,
            "Cb".to_string(),
            1,
            200,
            "body".to_string(),
            false,
            &mut pool,
        );
        assert!(r.is_none());
    }
}

#[test]
fn json_response_allocates_a_node_or_drops_the_delivery() {
    let mut pool = nodes();
    let inv = execute_response_callback(
        HostAccess::Granted,
        "OnJson".to_string(),
        2,
        200,
        "{\"n\": 3}".to_string(),
        true,
        &mut pool,
    )
    .unwrap();
    let handle = match inv.payload {
        CallbackPayload::Node(h) => h,
        CallbackPayload::Text(_) => panic!("json mode must deliver a handle"),
    };
    assert_eq!(handle, 1);
    match pool.take(handle) {
        Some(v) => {
            let (s, got) = {
                let mut p = requests::plugin::Plugin::default();
                let h = p.json_nodes.allocate(v);
                p.json_get_int(h, "n".to_string())
            };
            assert_eq!((s, got), (0, Some(3)));
        }
        None => panic!("the parsed node must be in the pool"),
    }

    // a body that is not JSON drops the delivery and leaves the pool alone
    let r = execute_response_callback(
        HostAccess::Granted,
        "OnJson".to_string(),
        3,
        200,
        "not json".to_string(),
        true,
        &mut pool,
    );
    assert!(r.is_none());
}

#[test]
fn websocket_callback_mirrors_the_response_rules() {
    let mut pool = nodes();
    let inv = execute_websocket_callback(
        HostAccess::Granted,
        "OnMessage".to_string(),
        7,
        "plain text".to_string(),
        false,
        &mut pool,
    )
    .unwrap();
    assert_eq!(inv.client_id, 7);
    match inv.payload {
        CallbackPayload::Text(t) => assert_eq!(t, "plain text"),
        CallbackPayload::Node(_) => panic!("raw mode must deliver text"),
    }

    let inv = execute_websocket_callback(
        HostAccess::Granted,
        "OnMessage".to_string(),
        7,
        "[1,2]".to_string(),
        true,
        &mut pool,
    )
    .unwrap();
    assert!(matches!(inv.payload, CallbackPayload::Node(_)));

    assert!(execute_websocket_callback(
        HostAccess::Gone,
        "OnMessage".to_string(),
        7,
        "x".to_string(),
        false,
        &mut pool,
    )
    .is_none());
}
