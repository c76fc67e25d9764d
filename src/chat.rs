//! Chat messages, their wire text, and the life of one connection.

use vstd::prelude::*;
use vstd::string::StringExecFns;
use crate::hub::{ChatServer, Delivery, Handle, delivery_views, deliveries, joined, left, members_of};

verus! {

/// A chat message as it travels between viewers.
pub struct ChatMessage {
    pub user: String,
    pub text: String,
    /// RFC 3339 time of writing.
    pub timestamp: String,
}

/// The JSON string literal, quotes included, that stands for `s`.
pub uninterp spec fn json_string_of(s: Seq<char>) -> Seq<char>;

/// Relies on serde_json::to_string on a `str`: the escaped, quoted JSON string for `s`. For a
/// `str` it writes into a `Vec<u8>`, which takes every write, so it returns `Ok`.
#[verifier::external_body]
fn json_string(s: &str) -> (r: String)
    ensures
        r@ == json_string_of(s@),
{
    match serde_json::to_string(s) {
        Ok(t) => t,
        Err(_) => String::new(),
    }
}

/// Relies on chrono::Utc::now and DateTime::to_rfc3339: the current time as RFC 3339 text.
#[verifier::external_body]
fn current_timestamp() -> (r: String) {
    chrono::Utc::now().to_rfc3339()
}

/// Wire text of a message: a JSON object with the fields `user`, `text` and `timestamp`, in
/// that order, without white space.
pub open spec fn encode_spec(user: Seq<char>, text: Seq<char>, timestamp: Seq<char>) -> Seq<char> {
    "{\"user\":"@ + json_string_of(user) + ",\"text\":"@ + json_string_of(text) + ",\"timestamp\":"@
        + json_string_of(timestamp) + "}"@
}

/// The author of the messages that the server writes itself.
pub open spec fn system_user() -> Seq<char> {
    "System"@
}

pub open spec fn welcome_text(room: Seq<char>) -> Seq<char> {
    "🟢 Welcome to room: "@ + room
}

pub open spec fn invalid_text() -> Seq<char> {
    "⚠️ Invalid message format."@
}

/// The payload of the heartbeat ping.
pub open spec fn heartbeat_payload() -> Seq<u8> {
    seq![104u8, 101u8, 97u8, 114u8, 116u8, 98u8, 101u8, 97u8, 116u8]
}

impl ChatMessage {
    pub open spec fn encoded(&self) -> Seq<char> {
        encode_spec(self.user@, self.text@, self.timestamp@)
    }

    /// A message written by the server.
    pub fn system(text: &str, timestamp: &str) -> (r: ChatMessage)
        ensures
            r.user@ == system_user(),
            r.text@ == text@,
            r.timestamp@ == timestamp@,
    {
        ChatMessage {
            user: String::from_str("System"),
            text: String::from_str(text),
            timestamp: String::from_str(timestamp),
        }
    }

    /// The message's wire text.
    pub fn to_json(&self) -> (r: String)
        ensures
            r@ == self.encoded(),
    {
        let mut out = String::from_str("{\"user\":");
        let u = json_string(self.user.as_str());
        out.append(u.as_str());
        out.append(",\"text\":");
        let t = json_string(self.text.as_str());
        out.append(t.as_str());
        out.append(",\"timestamp\":");
        let s = json_string(self.timestamp.as_str());
        out.append(s.as_str());
        out.append("}");
        out
    }
}

/// Where a connection is in its life.
#[derive(Clone, Copy, Debug, PartialEq, Eq, Structural)]
pub enum SessionState {
    /// Accepted, not yet in its room.
    Connecting,
    /// In its room: sends, receives and is pinged.
    Active,
    /// Out of its room; nothing more happens.
    Closed,
}

/// What happens to a connection.
pub enum SessionEvent {
    /// The connection is established.
    Started,
    /// A text frame that decodes as a chat message.
    Chat(ChatMessage),
    /// A text frame that does not decode as a chat message.
    Undecodable,
    /// A ping from the client, with its payload.
    Ping(Vec<u8>),
    /// The heartbeat timer fired.
    Heartbeat,
    /// A message of the room arrived for this connection.
    Deliver(String),
    /// The client asked to close.
    Close,
    /// The socket failed or went away.
    Disconnect,
    /// Any other frame.
    Other,
}

/// The mathematical content of a `SessionEvent`; a chat message stands as its wire text.
pub enum EventView {
    Started,
    Chat(Seq<char>),
    Undecodable,
    Ping(Seq<u8>),
    Heartbeat,
    Deliver(Seq<char>),
    Close,
    Disconnect,
    Other,
}

impl View for SessionEvent {
    type V = EventView;

    open spec fn view(&self) -> EventView {
        match self {
            SessionEvent::Started => EventView::Started,
            SessionEvent::Chat(m) => EventView::Chat(m.encoded()),
            SessionEvent::Undecodable => EventView::Undecodable,
            SessionEvent::Ping(p) => EventView::Ping(p@),
            SessionEvent::Heartbeat => EventView::Heartbeat,
            SessionEvent::Deliver(t) => EventView::Deliver(t@),
            SessionEvent::Close => EventView::Close,
            SessionEvent::Disconnect => EventView::Disconnect,
            SessionEvent::Other => EventView::Other,
        }
    }
}

/// What the transport is to do for a connection.
pub enum SessionAction {
    /// Write a text frame to this connection's socket.
    Text(String),
    /// Answer a ping with this payload.
    Pong(Vec<u8>),
    /// Send a ping with this payload.
    Ping(Vec<u8>),
    /// Hand each delivery to its connection.
    Broadcast(Vec<Delivery>),
    /// Start the recurring heartbeat timer.
    StartHeartbeat,
    /// Stop the heartbeat timer.
    StopHeartbeat,
    /// Acknowledge the client's close and release the socket.
    CloseAck,
}

pub enum ActionView {
    Text(Seq<char>),
    Pong(Seq<u8>),
    Ping(Seq<u8>),
    Broadcast(Seq<(Handle, Seq<char>)>),
    StartHeartbeat,
    StopHeartbeat,
    CloseAck,
}

impl View for SessionAction {
    type V = ActionView;

    open spec fn view(&self) -> ActionView {
        match self {
            SessionAction::Text(t) => ActionView::Text(t@),
            SessionAction::Pong(p) => ActionView::Pong(p@),
            SessionAction::Ping(p) => ActionView::Ping(p@),
            SessionAction::Broadcast(ds) => ActionView::Broadcast(delivery_views(ds@)),
            SessionAction::StartHeartbeat => ActionView::StartHeartbeat,
            SessionAction::StopHeartbeat => ActionView::StopHeartbeat,
            SessionAction::CloseAck => ActionView::CloseAck,
        }
    }
}

pub open spec fn action_views(acts: Seq<SessionAction>) -> Seq<ActionView> {
    acts.map_values(|a: SessionAction| a@)
}

/// One step of a connection in room `room` with handle `h`: the next state, the next rooms,
/// and the actions, where `now` is the time at which server-written messages are stamped.
pub open spec fn step_spec(
    room: Seq<char>,
    h: Handle,
    state: SessionState,
    rooms: Map<Seq<char>, Seq<Handle>>,
    event: EventView,
    now: Seq<char>,
) -> (SessionState, Map<Seq<char>, Seq<Handle>>, Seq<ActionView>) {
    match state {
        SessionState::Connecting => match event {
            EventView::Started => (
                SessionState::Active,
                joined(rooms, room, h),
                seq![
                    ActionView::Text(encode_spec(system_user(), welcome_text(room), now)),
                    ActionView::StartHeartbeat,
                ],
            ),
            EventView::Close | EventView::Disconnect => (SessionState::Closed, rooms, seq![]),
            _ => (state, rooms, seq![]),
        },
        SessionState::Active => match event {
            EventView::Chat(t) => (
                state,
                rooms,
                seq![ActionView::Broadcast(deliveries(members_of(rooms, room), t))],
            ),
            EventView::Undecodable => (
                state,
                rooms,
                seq![ActionView::Text(encode_spec(system_user(), invalid_text(), now))],
            ),
            EventView::Ping(p) => (state, rooms, seq![ActionView::Pong(p)]),
            EventView::Heartbeat => (state, rooms, seq![ActionView::Ping(heartbeat_payload())]),
            EventView::Deliver(t) => (state, rooms, seq![ActionView::Text(t)]),
            EventView::Close => (
                SessionState::Closed,
                left(rooms, room, h),
                seq![ActionView::CloseAck, ActionView::StopHeartbeat],
            ),
            EventView::Disconnect => (
                SessionState::Closed,
                left(rooms, room, h),
                seq![ActionView::StopHeartbeat],
            ),
            _ => (state, rooms, seq![]),
        },
        SessionState::Closed => (state, rooms, seq![]),
    }
}

/// One connection: its room, its handle and where it is in its life.
pub struct WsSession {
    pub room_id: String,
    pub handle: Handle,
    pub state: SessionState,
}

impl WsSession {
    /// A connection about to join `room_id`.
    pub fn new(room_id: String, handle: Handle) -> (r: WsSession)
        ensures
            r.room_id == room_id,
            r.handle == handle,
            r.state == SessionState::Connecting,
    {
        WsSession { room_id, handle, state: SessionState::Connecting }
    }

    /// Takes one event, with `now` as the time of any message the server writes.
    pub fn step(&mut self, hub: &mut ChatServer, event: SessionEvent, now: &str) -> (r: Vec<
        SessionAction,
    >)
        requires
            old(hub).wf(),
        ensures
            final(hub).wf(),
            final(self).room_id == old(self).room_id,
            final(self).handle == old(self).handle,
            (final(self).state, final(hub)@, action_views(r@)) == step_spec(
                old(self).room_id@,
                old(self).handle,
                old(self).state,
                old(hub)@,
                event@,
                now@,
            ),
    {
        let mut out: Vec<SessionAction> = Vec::new();
        match self.state {
            SessionState::Connecting => match event {
                SessionEvent::Started => {
                    hub.add_client(self.room_id.as_str(), self.handle);
                    let mut text = String::from_str("🟢 Welcome to room: ");
                    text.append(self.room_id.as_str());
                    let welcome = ChatMessage::system(text.as_str(), now);
                    out.push(SessionAction::Text(welcome.to_json()));
                    out.push(SessionAction::StartHeartbeat);
                    self.state = SessionState::Active;
                },
                SessionEvent::Close | SessionEvent::Disconnect => {
                    self.state = SessionState::Closed;
                },
                _ => {},
            },
            SessionState::Active => match event {
                SessionEvent::Chat(m) => {
                    let text = m.to_json();
                    let ds = hub.broadcast(self.room_id.as_str(), text.as_str());
                    out.push(SessionAction::Broadcast(ds));
                },
                SessionEvent::Undecodable => {
                    let msg = ChatMessage::system("⚠️ Invalid message format.", now);
                    out.push(SessionAction::Text(msg.to_json()));
                },
                SessionEvent::Ping(p) => {
                    out.push(SessionAction::Pong(p));
                },
                SessionEvent::Heartbeat => {
                    let mut p: Vec<u8> = Vec::new();
                    p.push(104u8);
                    p.push(101u8);
                    p.push(97u8);
                    p.push(114u8);
                    p.push(116u8);
                    p.push(98u8);
                    p.push(101u8);
                    p.push(97u8);
                    p.push(116u8);
                    assert(p@ =~= heartbeat_payload());
                    out.push(SessionAction::Ping(p));
                },
                SessionEvent::Deliver(t) => {
                    out.push(SessionAction::Text(t));
                },
                SessionEvent::Close => {
                    hub.remove_client(self.room_id.as_str(), self.handle);
                    out.push(SessionAction::CloseAck);
                    out.push(SessionAction::StopHeartbeat);
                    self.state = SessionState::Closed;
                },
                SessionEvent::Disconnect => {
                    hub.remove_client(self.room_id.as_str(), self.handle);
                    out.push(SessionAction::StopHeartbeat);
                    self.state = SessionState::Closed;
                },
                _ => {},
            },
            SessionState::Closed => {},
        }
        assert(action_views(out@) =~= step_spec(
            old(self).room_id@,
            old(self).handle,
            old(self).state,
            old(hub)@,
            event@,
            now@,
        ).2);
        out
    }

    /// Takes one event, stamping any message the server writes with the current time.
    pub fn handle(&mut self, hub: &mut ChatServer, event: SessionEvent) -> (r: Vec<SessionAction>)
        requires
            old(hub).wf(),
        ensures
            final(hub).wf(),
            final(self).room_id == old(self).room_id,
            final(self).handle == old(self).handle,
            exists|now: Seq<char>|
                (final(self).state, final(hub)@, action_views(r@)) == #[trigger] step_spec(
                    old(self).room_id@,
                    old(self).handle,
                    old(self).state,
                    old(hub)@,
                    event@,
                    now,
                ),
    {
        let now = current_timestamp();
        let r = self.step(hub, event, now.as_str());
        r
    }
}

/// A chat message that an active connection sends goes, as its wire text, to every member of
/// the connection's room and to no connection outside it; a member that receives it writes it
/// to its own socket unchanged.
pub proof fn lemma_chat_reaches_room(
    room: Seq<char>,
    h: Handle,
    rooms: Map<Seq<char>, Seq<Handle>>,
    text: Seq<char>,
    now: Seq<char>,
    other: Handle,
    other_room: Seq<char>,
    other_now: Seq<char>,
)
    ensures
        ({
            let (next, next_rooms, acts) = step_spec(
                room,
                h,
                SessionState::Active,
                rooms,
                EventView::Chat(text),
                now,
            );
            &&& next == SessionState::Active
            &&& next_rooms == rooms
            &&& acts.len() == 1
            &&& acts[0] is Broadcast
            &&& forall|i: int|
                0 <= i < acts[0]->Broadcast_0.len() ==> (#[trigger] acts[0]->Broadcast_0[i]).1 == text
            &&& (exists|i: int|
                0 <= i < acts[0]->Broadcast_0.len() && (#[trigger] acts[0]->Broadcast_0[i]).0 == other)
                <==> members_of(rooms, room).contains(other)
        }),
        step_spec(
            other_room,
            other,
            SessionState::Active,
            rooms,
            EventView::Deliver(text),
            other_now,
        ) == (SessionState::Active, rooms, seq![ActionView::Text(text)]),
{
    let m = members_of(rooms, room);
    let ds = deliveries(m, text);
    if m.contains(other) {
        let w = choose|w: int| 0 <= w < m.len() && m[w] == other;
        assert(ds[w].0 == other);
    }
}

/// A text frame that does not decode reaches no other connection and leaves the rooms as they
/// are: its sender gets back exactly one message, written by the server.
pub proof fn lemma_malformed_stays_local(
    room: Seq<char>,
    h: Handle,
    rooms: Map<Seq<char>, Seq<Handle>>,
    now: Seq<char>,
)
    ensures
        step_spec(room, h, SessionState::Active, rooms, EventView::Undecodable, now) == (
            SessionState::Active,
            rooms,
            seq![ActionView::Text(encode_spec(system_user(), invalid_text(), now))],
        ),
{
}

} // verus!
