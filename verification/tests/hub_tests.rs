use chathub::envelope::{Envelope, Kind, Payload};
use chathub::hub::Hub;

fn chars(s: &str) -> Vec<char> {
    s.chars().collect()
}

fn chat(content: &str) -> Envelope {
    Envelope { kind: Kind::Chat, sender: 1, content: Payload::Text(chars(content)) }
}

#[test]
fn count_follows_registers_and_deregisters() {
    let mut hub = Hub::new(8);
    assert_eq!(hub.get_user_count(), 0);
    assert!(hub.register(1));
    assert!(hub.register(2));
    assert!(hub.register(3));
    assert_eq!(hub.get_user_count(), 3);
    hub.deregister(2);
    assert_eq!(hub.get_user_count(), 2);
    assert!(hub.register(4));
    hub.deregister(1);
    hub.deregister(3);
    assert_eq!(hub.get_user_count(), 1);
    hub.deregister(4);
    assert_eq!(hub.get_user_count(), 0);
}

#[test]
fn register_existing_id_fails() {
    let mut hub = Hub::new(8);
    assert!(hub.register(5));
    assert!(!hub.register(5));
    assert_eq!(hub.get_user_count(), 1);
}

#[test]
fn deregister_is_idempotent() {
    let mut hub = Hub::new(8);
    assert!(hub.register(5));
    hub.deregister(5);
    hub.deregister(5);
    assert_eq!(hub.get_user_count(), 0);
    hub.deregister(99);
    assert_eq!(hub.get_user_count(), 0);
}

#[test]
fn contains_tracks_membership() {
    let mut hub = Hub::new(8);
    assert!(!hub.contains(1));
    assert!(hub.register(1));
    assert!(hub.contains(1));
    hub.deregister(1);
    assert!(!hub.contains(1));
}

#[test]
fn queue_takes_capacity_then_drops() {
    let mut hub = Hub::new(3);
    assert!(hub.register(1));
    assert!(hub.broadcast(&chat("m1")));
    assert!(hub.broadcast(&chat("m2")));
    assert!(hub.broadcast(&chat("m3")));
    assert!(!hub.broadcast(&chat("m4")));
    for expected in ["m1", "m2", "m3"] {
        let got = hub.pop_pending(1).expect("queued");
        assert_eq!(got.content, Payload::Text(chars(expected)));
    }
    assert!(hub.pop_pending(1).is_none());
}

#[test]
fn full_queue_does_not_affect_others() {
    let mut hub = Hub::new(1);
    assert!(hub.register(1));
    assert!(hub.register(2));
    assert!(hub.broadcast(&chat("m1")));
    let first = hub.pop_pending(1).expect("queued");
    assert_eq!(first.content, Payload::Text(chars("m1")));
    assert!(!hub.broadcast(&chat("m2")));
    let second = hub.pop_pending(1).expect("delivered despite the other queue being full");
    assert_eq!(second.content, Payload::Text(chars("m2")));
    let other = hub.pop_pending(2).expect("kept its earlier envelope");
    assert_eq!(other.content, Payload::Text(chars("m1")));
    assert!(hub.pop_pending(2).is_none());
}

#[test]
fn pop_pending_is_fifo() {
    let mut hub = Hub::new(8);
    assert!(hub.register(1));
    assert!(hub.broadcast(&chat("a")));
    assert!(hub.broadcast(&chat("b")));
    let first = hub.pop_pending(1).expect("first");
    assert!(hub.broadcast(&chat("c")));
    let second = hub.pop_pending(1).expect("second");
    let third = hub.pop_pending(1).expect("third");
    assert_eq!(first.content, Payload::Text(chars("a")));
    assert_eq!(second.content, Payload::Text(chars("b")));
    assert_eq!(third.content, Payload::Text(chars("c")));
}

#[test]
fn pop_pending_unknown_id() {
    let mut hub = Hub::new(8);
    assert!(hub.pop_pending(42).is_none());
}
