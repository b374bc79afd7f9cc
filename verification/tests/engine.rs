use lanchat::engine::{Action, Engine, NetEvent, PeerContact, SendError};
use lanchat::message::{ChatMessage, Command};
use lanchat::msgid::payload_id;
use lanchat::topic_name;

fn msg(content: &str, nickname: &str, timestamp: i64) -> ChatMessage {
    ChatMessage { content: content.to_string(), nickname: nickname.to_string(), timestamp }
}

fn contact(peer: &[u8], addr: &[u8]) -> PeerContact {
    PeerContact { peer: peer.to_vec(), addr: addr.to_vec() }
}

#[test]
fn topic_is_fixed() {
    assert_eq!(topic_name(), "lanchat");
}

#[test]
fn send_publishes_the_deterministic_encoding() {
    // A send intent becomes a publish of exactly the canonical encoding of
    // {content: "hi", nickname: "alice", timestamp: 1000}; a second
    // session handed that payload on the topic emits the same three
    // fields to its UI.
    let sender = Engine::new();
    let cmd = Command::SendMessage(msg("hi", "alice", 1000));
    let action = sender.handle_command(&cmd).expect("send must succeed");
    let payload = match action {
        Action::Publish(p) => p,
        other => panic!("expected a publish action, got {other:?}"),
    };
    assert_eq!(payload, rmp_serde::to_vec(&("hi", "alice", 1000i64)).unwrap());

    let mut receiver = Engine::new();
    let actions = receiver.handle_event(NetEvent::TopicMessage(payload));
    assert_eq!(actions.len(), 1);
    match &actions[0] {
        Action::EmitReceived(m) => {
            assert_eq!(m.content, "hi");
            assert_eq!(m.nickname, "alice");
            assert_eq!(m.timestamp, 1000);
        },
        other => panic!("expected an emit action, got {other:?}"),
    }
}

#[test]
fn undecodable_payload_is_dropped_without_delivery() {
    let mut e = Engine::new();
    let actions = e.handle_event(NetEvent::TopicMessage(vec![0x01, 0x02, 0x03]));
    assert!(actions.is_empty());
}

#[test]
fn only_topic_messages_reach_the_ui() {
    let mut e = Engine::new();
    assert!(e.handle_event(NetEvent::NewListenAddr(vec![1, 2, 3])).is_empty());
    assert!(e.handle_event(NetEvent::Other).is_empty());
    let discovered = e.handle_event(NetEvent::PeersDiscovered(vec![contact(b"p1", b"a1")]));
    assert!(discovered.iter().all(|a| !matches!(a, Action::EmitReceived(_))));
}

#[test]
fn discovery_registers_and_force_includes_peers() {
    let mut e = Engine::new();
    let actions = e.handle_event(
        NetEvent::PeersDiscovered(vec![contact(b"p1", b"a1"), contact(b"p2", b"a2")]),
    );
    assert_eq!(actions.len(), 2);
    assert!(matches!(&actions[0], Action::AddExplicitPeer(p) if p == b"p1"));
    assert!(matches!(&actions[1], Action::AddExplicitPeer(p) if p == b"p2"));
    assert_eq!(e.peers.len(), 2);
    assert!(e.peers.contains(b"p1"));
    assert!(e.peers.contains(b"p2"));
}

#[test]
fn expiry_removes_a_registered_peer() {
    let mut e = Engine::new();
    e.handle_event(NetEvent::PeersDiscovered(vec![contact(b"p1", b"a1")]));
    let actions = e.handle_event(NetEvent::PeersExpired(vec![contact(b"p1", b"a1")]));
    assert_eq!(actions.len(), 1);
    assert!(matches!(&actions[0], Action::RemoveExplicitPeer(p) if p == b"p1"));
    assert_eq!(e.peers.len(), 0);
    assert!(!e.peers.contains(b"p1"));
}

#[test]
fn expiry_of_an_unknown_peer_is_a_no_op() {
    // An "expired" discovery event for a peer never registered changes
    // nothing and raises no error.
    let mut e = Engine::new();
    e.handle_event(NetEvent::PeersDiscovered(vec![contact(b"p1", b"a1")]));
    let actions = e.handle_event(NetEvent::PeersExpired(vec![contact(b"ghost", b"a9")]));
    assert_eq!(actions.len(), 1);
    assert!(matches!(&actions[0], Action::RemoveExplicitPeer(p) if p == b"ghost"));
    assert_eq!(e.peers.len(), 1);
    assert!(e.peers.contains(b"p1"));
}

#[test]
fn rediscovery_adds_an_address_not_an_entry() {
    let mut e = Engine::new();
    e.handle_event(NetEvent::PeersDiscovered(vec![contact(b"p1", b"a1")]));
    e.handle_event(NetEvent::PeersDiscovered(vec![contact(b"p1", b"a2")]));
    assert_eq!(e.peers.len(), 1);
}

#[test]
fn identical_fields_give_identical_message_ids() {
    // The identifier hashes the payload bytes alone, so two sessions
    // building the same three fields collapse to one identifier.
    let sender_a = Engine::new();
    let sender_b = Engine::new();
    let pay = |e: &Engine| -> Vec<u8> {
        match e.handle_command(&Command::SendMessage(msg("same", "sam", -5))).unwrap() {
            Action::Publish(p) => p,
            other => panic!("expected a publish action, got {other:?}"),
        }
    };
    assert_eq!(payload_id(&pay(&sender_a)), payload_id(&pay(&sender_b)));
}

#[test]
fn message_id_has_the_expected_hash_values() {
    assert_eq!(payload_id(&[]), 0xcbf2_9ce4_8422_2325);
    assert_eq!(payload_id(b"a"), 0xaf63_dc4c_8601_ec8c);
    assert_eq!(payload_id(b"foobar"), 0x8594_4171_f739_67e8);
}

#[test]
fn send_error_has_a_plain_text_reason() {
    assert_eq!(SendError::MessageTooLarge.describe(), "message too large for the wire format");
}

#[test]
fn ordinary_messages_are_encodable() {
    assert!(msg("hi", "alice", 1000).encodable());
    assert!(msg("", "", i64::MIN).encodable());
}
