use requests::json::JsonValue;
use requests::pool::{GarbageCollectedPool, Pool};

fn int_pool() -> GarbageCollectedPool<JsonValue> {
    GarbageCollectedPool::default()
}

#[test]
fn handles_are_unique_and_strictly_increasing() {
    let mut pool: Pool<u8> = Pool::default();
    let h1 = pool.allocate(10);
    let h2 = pool.allocate(20);
    let h3 = pool.allocate(30);
    assert_eq!(h1, 1);
    assert_eq!(h2, 2);
    assert_eq!(h3, 3);
    assert!(h1 < h2 && h2 < h3);
    assert_eq!(pool.get(h1), Some(&10));
    assert_eq!(pool.get(h2), Some(&20));
    assert_eq!(pool.get(h3), Some(&30));
}

#[test]
fn get_on_unallocated_handle_is_none() {
    let mut pool: Pool<u8> = Pool::default();
    assert_eq!(pool.get(1), None);
    assert_eq!(pool.get(-1), None);
    assert_eq!(pool.get(0), None);
    let h = pool.allocate(1);
    assert_eq!(pool.get(h + 1), None);
}

#[test]
fn retained_take_consumes_exactly_once() {
    let mut pool = int_pool();
    let h = pool.allocate(JsonValue::Int(7));
    match pool.take(h) {
        Some(JsonValue::Int(i)) => assert_eq!(i, 7),
        _ => panic!("first take must return the stored value"),
    }
    assert!(pool.take(h).is_none());
    assert!(pool.get(h).is_none());
}

#[test]
fn unretained_take_survives_until_collect_force() {
    let mut pool = int_pool();
    let h = pool.allocate(JsonValue::Int(9));
    assert!(pool.set_gc(h, false).is_some());
    for _ in 0..3 {
        match pool.take(h) {
            Some(JsonValue::Int(i)) => assert_eq!(i, 9),
            _ => panic!("unretained take must keep returning the value"),
        }
    }
    assert!(pool.collect(h).is_none());
    assert!(pool.collect_force(h).is_some());
    assert!(pool.take(h).is_none());
}

#[test]
fn set_gc_twice_and_collect_collected_are_harmless() {
    let mut pool = int_pool();
    let keep = pool.allocate(JsonValue::Bool(true));
    let h = pool.allocate(JsonValue::Int(1));
    assert!(pool.set_gc(h, true).is_some());
    assert!(pool.set_gc(h, true).is_some());
    assert!(pool.collect(h).is_some());
    assert!(pool.collect(h).is_none());
    assert!(pool.set_gc(h, true).is_none());
    // the other entry is untouched
    match pool.get(keep) {
        Some(JsonValue::Bool(b)) => assert!(*b),
        _ => panic!("unrelated entry must survive"),
    }
}

#[test]
fn set_gc_on_unknown_handle_fails() {
    let mut pool = int_pool();
    assert!(pool.set_gc(5, false).is_none());
    assert!(pool.collect(5).is_none());
    assert!(pool.collect_force(5).is_none());
}
