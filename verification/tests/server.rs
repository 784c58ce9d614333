use permtrace::message::{Data, Message};
use permtrace::server::MessageStore;

fn text(id: u32, s: &str) -> Message {
    Message::new(id, Data::Text(s.to_string()))
}

fn lines(msgs: Vec<Message>) -> Vec<String> {
    msgs.iter().map(|m| m.to_string()).collect()
}

#[test]
fn direct_send_creates_queue() {
    let mut store = MessageStore::new();
    store.send(2, text(7, "hi"));
    assert_eq!(lines(store.recv(2)), vec!["7: hi".to_string()]);
    assert!(store.recv(2).is_empty());
}

#[test]
fn unknown_recipient_receives_nothing() {
    let mut store = MessageStore::new();
    assert!(store.recv(9).is_empty());
}

#[test]
fn group_send_reaches_everyone_but_the_sender() {
    let mut store = MessageStore::new();
    assert!(store.recv(2).is_empty());
    assert!(store.recv(3).is_empty());
    store.send(1, text(2, "all"));
    assert!(store.recv(2).is_empty());
    // Group messages arrive re-addressed from the group id.
    assert_eq!(lines(store.recv(3)), vec!["1: all".to_string()]);
}

#[test]
fn direct_messages_drain_before_group_messages() {
    let mut store = MessageStore::new();
    assert!(store.recv(2).is_empty());
    store.send(1, text(3, "g"));
    store.send(2, text(4, "d"));
    assert_eq!(
        lines(store.recv(2)),
        vec!["4: d".to_string(), "1: g".to_string()]
    );
}

#[test]
fn queues_are_independent() {
    let mut store = MessageStore::new();
    store.send(2, text(5, "for two"));
    store.send(3, text(6, "for three"));
    assert_eq!(lines(store.recv(3)), vec!["6: for three".to_string()]);
    assert_eq!(lines(store.recv(2)), vec!["5: for two".to_string()]);
}
