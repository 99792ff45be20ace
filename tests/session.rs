use selfmqr::registry::Store;
use selfmqr::request::{parse_key, parse_publish};
use selfmqr::session::{Inbound, Reaction, Session};
use tokio::sync::mpsc::error::TryRecvError;
use tokio::sync::mpsc::Receiver;

fn subscribe(session: &mut Session, store: &mut Store, key: &str) -> Receiver<String> {
    let msg = Inbound::Text(format!("{{\"key\":\"{}\"}}", key));
    match session.on_inbound(store, msg) {
        Reaction::Subscribed(rx) => rx,
        Reaction::Ended => panic!("subscribe request ended the session"),
    }
}

#[test]
fn switching_keys_keeps_one_subscription() {
    let mut store = Store::new();
    let mut s = Session::new();
    let _r1 = subscribe(&mut s, &mut store, "k1");
    assert_eq!(store.info("k1".to_string()), 1);
    let _r2 = subscribe(&mut s, &mut store, "k2");
    assert_eq!(store.info("k1".to_string()), 0);
    assert_eq!(store.info("k2".to_string()), 1);
    assert_eq!(store.list(), vec!["k2".to_string()]);
    assert!(matches!(s.on_inbound(&mut store, Inbound::Closed), Reaction::Ended));
    assert!(store.list().is_empty());
}

#[test]
fn end_to_end_alerts() {
    let mut store = Store::new();
    let mut first = Session::new();
    let mut r1 = subscribe(&mut first, &mut store, "alerts");
    store.rpush("alerts".to_string(), "fire".to_string());
    assert_eq!(r1.try_recv().unwrap(), "fire");
    assert_eq!(r1.try_recv(), Err(TryRecvError::Empty));
    let mut second = Session::new();
    let mut r2 = subscribe(&mut second, &mut store, "alerts");
    assert_eq!(store.info("alerts".to_string()), 2);
    store.rpush("alerts".to_string(), "x".to_string());
    store.rpush("alerts".to_string(), "y".to_string());
    assert_eq!(r1.try_recv().unwrap(), "x");
    assert_eq!(r2.try_recv().unwrap(), "y");
    first.close(&mut store);
    second.close(&mut store);
    assert!(!store.list().contains(&"alerts".to_string()));
}

#[test]
fn empty_text_ends_session() {
    let mut store = Store::new();
    let mut s = Session::new();
    let _r = subscribe(&mut s, &mut store, "k");
    let r = s.on_inbound(&mut store, Inbound::Text(String::new()));
    assert!(matches!(r, Reaction::Ended));
    assert_eq!(store.info("k".to_string()), 0);
}

#[test]
fn malformed_text_ends_session() {
    let mut store = Store::new();
    let mut s = Session::new();
    let _r = subscribe(&mut s, &mut store, "k");
    let r = s.on_inbound(&mut store, Inbound::Text("not json".to_string()));
    assert!(matches!(r, Reaction::Ended));
    assert!(store.list().is_empty());
}

#[test]
fn non_text_ends_session() {
    let mut store = Store::new();
    let mut s = Session::new();
    let _r = subscribe(&mut s, &mut store, "k");
    assert!(matches!(s.on_inbound(&mut store, Inbound::NotText), Reaction::Ended));
    assert_eq!(store.info("k".to_string()), 0);
}

#[test]
fn close_without_subscription_changes_nothing() {
    let mut store = Store::new();
    let (_a, _) = store.get_updates("k".to_string());
    let mut s = Session::new();
    s.close(&mut store);
    assert_eq!(store.info("k".to_string()), 1);
}

#[test]
fn parse_publish_reads_both_fields() {
    let r = parse_publish("{\"key\":\"a\",\"value\":\"b\"}");
    assert_eq!(r, Some(("a".to_string(), "b".to_string())));
    assert_eq!(parse_publish("{\"key\":\"a\"}"), None);
    assert_eq!(parse_publish("{\"key\":\"a\",\"value\":3}"), None);
    assert_eq!(parse_publish("key=a"), None);
}

#[test]
fn parse_key_reads_key_field() {
    assert_eq!(parse_key("{\"key\":\"topic\"}"), Some("topic".to_string()));
    assert_eq!(parse_key("{\"other\":\"topic\"}"), None);
    assert_eq!(parse_key("[1,2]"), None);
}
