use selfmqr::registry::{Delivery, Store};
use tokio::sync::mpsc::error::TryRecvError;

#[test]
fn round_robin_serves_each_subscriber_once() {
    let mut store = Store::new();
    let (mut a, ida) = store.get_updates("k".to_string());
    let (mut b, idb) = store.get_updates("k".to_string());
    let (mut c, idc) = store.get_updates("k".to_string());
    assert_eq!((ida, idb, idc), (1, 2, 3));
    assert_eq!(store.rpush("k".to_string(), "v1".to_string()), Delivery::Delivered(1));
    assert_eq!(store.rpush("k".to_string(), "v2".to_string()), Delivery::Delivered(2));
    assert_eq!(store.rpush("k".to_string(), "v3".to_string()), Delivery::Delivered(3));
    assert_eq!(a.try_recv().unwrap(), "v1");
    assert_eq!(b.try_recv().unwrap(), "v2");
    assert_eq!(c.try_recv().unwrap(), "v3");
    assert_eq!(a.try_recv(), Err(TryRecvError::Empty));
    assert_eq!(b.try_recv(), Err(TryRecvError::Empty));
    assert_eq!(c.try_recv(), Err(TryRecvError::Empty));
    // the rotation starts over with the first subscriber
    assert_eq!(store.rpush("k".to_string(), "v4".to_string()), Delivery::Delivered(1));
    assert_eq!(a.try_recv().unwrap(), "v4");
}

#[test]
fn publish_without_subscribers_is_a_no_op() {
    let mut store = Store::new();
    assert_eq!(store.rpush("none".to_string(), "v".to_string()), Delivery::NoSubscriber);
    assert_eq!(store.info("none".to_string()), 0);
    assert!(store.list().is_empty());
}

#[test]
fn full_slot_drops_subscriber_from_rotation() {
    let mut store = Store::new();
    let (mut a, _) = store.get_updates("k".to_string());
    let (mut b, _) = store.get_updates("k".to_string());
    assert_eq!(store.rpush("k".to_string(), "v1".to_string()), Delivery::Delivered(1));
    assert_eq!(store.rpush("k".to_string(), "v2".to_string()), Delivery::Delivered(2));
    assert_eq!(b.try_recv().unwrap(), "v2");
    // a still holds v1 unread: its slot is full
    assert_eq!(store.rpush("k".to_string(), "v3".to_string()), Delivery::Dropped(1));
    assert_eq!(store.rpush("k".to_string(), "v4".to_string()), Delivery::Delivered(2));
    assert_eq!(b.try_recv().unwrap(), "v4");
    assert_eq!(store.rpush("k".to_string(), "v5".to_string()), Delivery::Delivered(2));
    assert_eq!(b.try_recv().unwrap(), "v5");
    assert_eq!(a.try_recv().unwrap(), "v1");
    assert_eq!(a.try_recv(), Err(TryRecvError::Disconnected));
    // the count is left as it was
    assert_eq!(store.info("k".to_string()), 2);
}

#[test]
fn gone_receiver_is_dropped() {
    let mut store = Store::new();
    let (a, _) = store.get_updates("k".to_string());
    drop(a);
    assert_eq!(store.rpush("k".to_string(), "v".to_string()), Delivery::Dropped(1));
    assert_eq!(store.rpush("k".to_string(), "v".to_string()), Delivery::NoSubscriber);
    assert_eq!(store.info("k".to_string()), 1);
    assert_eq!(store.list(), vec!["k".to_string()]);
}

#[test]
fn unsubscribe_unknown_identity_keeps_queue() {
    let mut store = Store::new();
    let (mut a, _) = store.get_updates("k".to_string());
    let (mut b, _) = store.get_updates("k".to_string());
    let (_o, _) = store.get_updates("other".to_string());
    store.dec_key("k".to_string(), 99);
    assert_eq!(store.info("k".to_string()), 1);
    assert_eq!(store.info("other".to_string()), 1);
    assert_eq!(store.rpush("k".to_string(), "x".to_string()), Delivery::Delivered(1));
    assert_eq!(store.rpush("k".to_string(), "y".to_string()), Delivery::Delivered(2));
    assert_eq!(a.try_recv().unwrap(), "x");
    assert_eq!(b.try_recv().unwrap(), "y");
}

#[test]
fn unsubscribe_unknown_key_is_a_no_op() {
    let mut store = Store::new();
    store.dec_key("nothing".to_string(), 1);
    assert_eq!(store.info("nothing".to_string()), 0);
    assert!(store.list().is_empty());
}

#[test]
fn counts_follow_subscriptions() {
    let mut store = Store::default();
    let (_a, ida) = store.get_updates("k".to_string());
    let (_b, idb) = store.get_updates("k".to_string());
    assert_eq!(store.info("k".to_string()), 2);
    store.dec_key("k".to_string(), ida);
    assert_eq!(store.info("k".to_string()), 1);
    assert_eq!(store.list(), vec!["k".to_string()]);
    store.dec_key("k".to_string(), idb);
    assert_eq!(store.info("k".to_string()), 0);
    assert!(store.list().is_empty());
    store.dec_key("k".to_string(), idb);
    assert_eq!(store.info("k".to_string()), 0);
}

#[test]
fn identity_is_the_count_after_subscribe() {
    let mut store = Store::new();
    let (_a, ida) = store.get_updates("k".to_string());
    let (_b, idb) = store.get_updates("k".to_string());
    store.dec_key("k".to_string(), ida);
    let (_c, idc) = store.get_updates("k".to_string());
    assert_eq!((ida, idb, idc), (1, 2, 2));
}

#[test]
fn list_holds_each_key_once() {
    let mut store = Store::new();
    let (_a, _) = store.get_updates("x".to_string());
    let (_b, _) = store.get_updates("y".to_string());
    let (_c, _) = store.get_updates("x".to_string());
    let mut keys = store.list();
    keys.sort();
    assert_eq!(keys, vec!["x".to_string(), "y".to_string()]);
}
