use permtrace::message::{Data, Message, TmpMessage};
use std::sync::Arc;

#[test]
fn text_message_renders_id_and_body() {
    let msg = Message::new(5, Data::Text("hi".to_string()));
    assert_eq!(msg.to_string(), "5: hi");
}

#[test]
fn file_message_renders_name_and_size() {
    let data = Data::File {
        filename: "notes.txt".to_string(),
        file: vec![1, 2, 3],
    };
    assert_eq!(data.to_string(), "notes.txt: 3");
    let msg = Message::new(42, data);
    assert_eq!(msg.to_string(), "42: notes.txt: 3");
}

#[test]
fn decimal_rendering_edges() {
    let zero = Message::new(0, Data::Text(String::new()));
    assert_eq!(zero.to_string(), "0: ");
    let ten = Message::new(10, Data::Text("x".to_string()));
    assert_eq!(ten.to_string(), "10: x");
    let max = Message::new(u32::MAX, Data::Text("m".to_string()));
    assert_eq!(max.to_string(), "4294967295: m");
}

#[test]
fn empty_file_size_renders_zero() {
    let data = Data::File {
        filename: "empty".to_string(),
        file: vec![],
    };
    assert_eq!(data.to_string(), "empty: 0");
}

#[test]
fn clone_preserves_message() {
    let msg = Message::new(7, Data::Text("copy".to_string()));
    let twin = msg.clone();
    assert_eq!(twin.id, 7);
    assert_eq!(twin.to_string(), msg.to_string());
}

#[test]
fn new_store_extracts_nothing() {
    let mut store = TmpMessage::new();
    assert!(store.extract().is_empty());
}

#[test]
fn extract_orders_direct_before_group() {
    let mut store = TmpMessage::new();
    store.push(Message::new(1, Data::Text("a".to_string())));
    store.push_group(Arc::new(Message::new(2, Data::Text("b".to_string()))));
    store.push(Message::new(3, Data::Text("c".to_string())));
    let msgs = store.extract();
    let lines: Vec<String> = msgs.iter().map(|m| m.to_string()).collect();
    assert_eq!(
        lines,
        vec!["1: a".to_string(), "3: c".to_string(), "2: b".to_string()]
    );
}

#[test]
fn extract_drains_the_store() {
    let mut store = TmpMessage::new();
    store.push(Message::new(9, Data::Text("once".to_string())));
    assert_eq!(store.extract().len(), 1);
    assert!(store.extract().is_empty());
}

#[test]
fn shared_group_message_reaches_several_stores() {
    let shared = Arc::new(Message::new(1, Data::Text("all".to_string())));
    let mut a = TmpMessage::new();
    let mut b = TmpMessage::new();
    a.push_group(shared.clone());
    b.push_group(shared);
    assert_eq!(a.extract()[0].to_string(), "1: all");
    assert_eq!(b.extract()[0].to_string(), "1: all");
}

#[test]
fn file_payload_keeps_its_bytes() {
    let msg = Message::new(4, Data::File {
        filename: "f".to_string(),
        file: vec![0, 255, 7],
    });
    let twin = msg.clone();
    match twin.data {
        Data::File { filename, file } => {
            assert_eq!(filename, "f");
            assert_eq!(file, vec![0, 255, 7]);
        }
        Data::Text(_) => panic!("wrong payload"),
    }
}
