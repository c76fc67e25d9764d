use bytetube::chat::{ChatMessage, SessionAction, SessionEvent, SessionState, WsSession};
use bytetube::hub::ChatServer;

fn msg(user: &str, text: &str, ts: &str) -> ChatMessage {
    ChatMessage { user: user.to_string(), text: text.to_string(), timestamp: ts.to_string() }
}

fn started(hub: &mut ChatServer, room: &str, handle: u64) -> WsSession {
    let mut s = WsSession::new(room.to_string(), handle);
    let acts = s.step(hub, SessionEvent::Started, "2024-01-01T00:00:00+00:00");
    assert_eq!(acts.len(), 2);
    s
}

fn broadcast_of(acts: &[SessionAction]) -> Vec<(u64, String)> {
    assert_eq!(acts.len(), 1);
    match &acts[0] {
        SessionAction::Broadcast(ds) => ds.iter().map(|d| (d.to, d.text.clone())).collect(),
        _ => panic!("expected a broadcast"),
    }
}

#[test]
fn message_reaches_both_members_of_room() {
    let mut hub = ChatServer::new();
    let mut a = started(&mut hub, "42", 1);
    let _b = started(&mut hub, "42", 2);
    let acts = a.step(&mut hub, SessionEvent::Chat(msg("alice", "hi", "2024-01-01T00:00:00Z")), "t");
    let expected = r#"{"user":"alice","text":"hi","timestamp":"2024-01-01T00:00:00Z"}"#.to_string();
    assert_eq!(broadcast_of(&acts), vec![(1, expected.clone()), (2, expected)]);
}

#[test]
fn message_stays_in_its_room() {
    let mut hub = ChatServer::new();
    let mut a = started(&mut hub, "r1", 1);
    let _b = started(&mut hub, "r1", 2);
    let _c = started(&mut hub, "r2", 3);
    let acts = a.step(&mut hub, SessionEvent::Chat(msg("a", "x", "t")), "t");
    let targets: Vec<u64> = broadcast_of(&acts).into_iter().map(|d| d.0).collect();
    assert_eq!(targets, vec![1, 2]);
}

#[test]
fn welcome_message_is_sent_on_join() {
    let mut hub = ChatServer::new();
    let mut s = WsSession::new("42".to_string(), 9);
    let acts = s.step(&mut hub, SessionEvent::Started, "2024-01-01T00:00:00+00:00");
    assert_eq!(s.state, SessionState::Active);
    match &acts[0] {
        SessionAction::Text(t) => assert_eq!(
            t,
            r#"{"user":"System","text":"🟢 Welcome to room: 42","timestamp":"2024-01-01T00:00:00+00:00"}"#
        ),
        _ => panic!("expected a text frame"),
    }
    assert!(matches!(acts[1], SessionAction::StartHeartbeat));
    assert_eq!(hub.broadcast("42", "m").len(), 1);
}

#[test]
fn malformed_payload_answers_sender_only() {
    let mut hub = ChatServer::new();
    let mut a = started(&mut hub, "42", 1);
    let _b = started(&mut hub, "42", 2);
    let acts = a.step(&mut hub, SessionEvent::Undecodable, "2024-01-01T00:00:00+00:00");
    assert_eq!(acts.len(), 1);
    match &acts[0] {
        SessionAction::Text(t) => assert_eq!(
            t,
            r#"{"user":"System","text":"⚠️ Invalid message format.","timestamp":"2024-01-01T00:00:00+00:00"}"#
        ),
        _ => panic!("expected a text frame"),
    }
}

#[test]
fn handle_stamps_system_messages() {
    let mut hub = ChatServer::new();
    let mut s = WsSession::new("7".to_string(), 1);
    let acts = s.handle(&mut hub, SessionEvent::Started);
    match &acts[0] {
        SessionAction::Text(t) => {
            assert!(t.starts_with(r#"{"user":"System","text":"🟢 Welcome to room: 7","timestamp":""#));
            assert!(t.len() > 80);
        }
        _ => panic!("expected a text frame"),
    }
}

#[test]
fn json_text_is_escaped() {
    let m = msg("a\"b", "line\nnext", "t");
    assert_eq!(m.to_json(), r#"{"user":"a\"b","text":"line\nnext","timestamp":"t"}"#);
}

#[test]
fn ping_heartbeat_and_delivery() {
    let mut hub = ChatServer::new();
    let mut a = started(&mut hub, "42", 1);
    let acts = a.step(&mut hub, SessionEvent::Ping(b"abc".to_vec()), "t");
    assert!(matches!(&acts[..], [SessionAction::Pong(p)] if p == b"abc"));
    let acts = a.step(&mut hub, SessionEvent::Heartbeat, "t");
    assert!(matches!(&acts[..], [SessionAction::Ping(p)] if p == b"heartbeat"));
    let acts = a.step(&mut hub, SessionEvent::Deliver("hello".to_string()), "t");
    assert!(matches!(&acts[..], [SessionAction::Text(t)] if t == "hello"));
    let acts = a.step(&mut hub, SessionEvent::Other, "t");
    assert!(acts.is_empty());
}

#[test]
fn close_leaves_room() {
    let mut hub = ChatServer::new();
    let mut a = started(&mut hub, "42", 1);
    let _b = started(&mut hub, "42", 2);
    let acts = a.step(&mut hub, SessionEvent::Close, "t");
    assert!(matches!(&acts[..], [SessionAction::CloseAck, SessionAction::StopHeartbeat]));
    assert_eq!(a.state, SessionState::Closed);
    let targets: Vec<u64> = hub.broadcast("42", "m").into_iter().map(|d| d.to).collect();
    assert_eq!(targets, vec![2]);
    let acts = a.step(&mut hub, SessionEvent::Deliver("late".to_string()), "t");
    assert!(acts.is_empty());
}

#[test]
fn disconnect_leaves_room() {
    let mut hub = ChatServer::new();
    let mut a = started(&mut hub, "42", 1);
    let acts = a.step(&mut hub, SessionEvent::Disconnect, "t");
    assert!(matches!(&acts[..], [SessionAction::StopHeartbeat]));
    assert!(hub.broadcast("42", "m").is_empty());
}

#[test]
fn hub_join_leave_idempotent() {
    let mut hub = ChatServer::new();
    assert!(hub.broadcast("none", "m").is_empty());
    hub.add_client("r", 5);
    hub.add_client("r", 5);
    hub.add_client("r", 6);
    let targets: Vec<u64> = hub.broadcast("r", "m").into_iter().map(|d| d.to).collect();
    assert_eq!(targets, vec![5, 6]);
    hub.remove_client("r", 5);
    hub.remove_client("r", 5);
    hub.remove_client("missing", 5);
    let ds = hub.broadcast("r", "m");
    assert_eq!(ds.len(), 1);
    assert_eq!(ds[0].to, 6);
    assert_eq!(ds[0].text, "m");
}
