use vstd::prelude::*;

use crate::room::ClientCommand;

verus! {

/// Where a client session stands in its protocol.
pub enum SessionState {
    /// Greeted; the first line will be taken as the name.
    AwaitingName,
    /// A join under this name was asked for; the room has not answered yet.
    AwaitingJoin(String),
    /// The input ended before the room answered the join under this name.
    Departing(String),
    /// A member under this name.
    Active(String),
    /// Finished; nothing more is read, written or sent.
    Closed,
}

/// Something that happened to a session.
pub enum SessionEvent {
    /// A line arrived from the peer, its terminator stripped.
    Line(String),
    /// The peer's input ended, or reading from or writing to it failed.
    TransportClosed,
    /// The room sent something.
    FromRoom(ClientCommand),
    /// The room's channel to this session is closed.
    RoomGone,
}

/// What a session is to do next.
pub enum SessionAction {
    Nothing,
    /// Ask the room to admit this name.
    Join(String),
    /// Write this line to the peer.
    Write(String),
    /// Send this line to the room as a message from this name.
    Send(String, String),
    /// Tell the room this name has left, then close.
    Leave(String),
    /// Close without telling the room anything.
    Close,
}

/// The session protocol as a transition table.
pub open spec fn session_next(state: SessionState, event: SessionEvent) -> (
    SessionState,
    SessionAction,
) {
    match state {
        SessionState::AwaitingName => match event {
            SessionEvent::Line(name) => (SessionState::AwaitingJoin(name), SessionAction::Join(name)),
            SessionEvent::TransportClosed => (SessionState::Closed, SessionAction::Close),
            _ => (SessionState::AwaitingName, SessionAction::Nothing),
        },
        SessionState::AwaitingJoin(name) => match event {
            SessionEvent::FromRoom(ClientCommand::Message(text)) => (
                SessionState::Active(name),
                SessionAction::Write(text),
            ),
            SessionEvent::FromRoom(ClientCommand::Disconnect) => (
                SessionState::Closed,
                SessionAction::Close,
            ),
            SessionEvent::RoomGone => (SessionState::Closed, SessionAction::Close),
            SessionEvent::TransportClosed => (SessionState::Departing(name), SessionAction::Nothing),
            SessionEvent::Line(_) => (SessionState::AwaitingJoin(name), SessionAction::Nothing),
        },
        SessionState::Departing(name) => match event {
            SessionEvent::FromRoom(ClientCommand::Message(_)) => (
                SessionState::Closed,
                SessionAction::Leave(name),
            ),
            SessionEvent::FromRoom(ClientCommand::Disconnect) => (
                SessionState::Closed,
                SessionAction::Close,
            ),
            SessionEvent::RoomGone => (SessionState::Closed, SessionAction::Close),
            _ => (SessionState::Departing(name), SessionAction::Nothing),
        },
        SessionState::Active(name) => match event {
            SessionEvent::Line(line) => (
                SessionState::Active(name),
                SessionAction::Send(name, line),
            ),
            SessionEvent::TransportClosed => (SessionState::Closed, SessionAction::Leave(name)),
            SessionEvent::FromRoom(ClientCommand::Message(text)) => (
                SessionState::Active(name),
                SessionAction::Write(text),
            ),
            SessionEvent::FromRoom(ClientCommand::Disconnect) => (
                SessionState::Closed,
                SessionAction::Close,
            ),
            SessionEvent::RoomGone => (SessionState::Closed, SessionAction::Leave(name)),
        },
        SessionState::Closed => (SessionState::Closed, SessionAction::Nothing),
    }
}

/// Whether lines from the peer are wanted in this state: before the name is
/// given and while a member. While a join is pending the peer is not read.
pub open spec fn wants_input(state: SessionState) -> bool {
    state is AwaitingName || state is Active
}

/// A session reports its departure at most once: the step that tells the room
/// of it, or closes without a word, ends the session, and an ended session
/// does nothing more.
pub proof fn lemma_session_ends_once(state: SessionState, event: SessionEvent)
    ensures
        session_next(state, event).1 is Leave || session_next(state, event).1 is Close
            ==> session_next(state, event).0 is Closed,
        state is Closed ==> session_next(state, event).1 is Nothing && session_next(
            state,
            event,
        ).0 is Closed,
{
}

/// Moves the session on by one event.
pub fn session_step(state: SessionState, event: SessionEvent) -> (r: (
    SessionState,
    SessionAction,
))
    ensures
        r == session_next(state, event),
{
    match state {
        SessionState::AwaitingName => match event {
            SessionEvent::Line(name) => (
                SessionState::AwaitingJoin(name.clone()),
                SessionAction::Join(name),
            ),
            SessionEvent::TransportClosed => (SessionState::Closed, SessionAction::Close),
            _ => (SessionState::AwaitingName, SessionAction::Nothing),
        },
        SessionState::AwaitingJoin(name) => match event {
            SessionEvent::FromRoom(ClientCommand::Message(text)) => (
                SessionState::Active(name),
                SessionAction::Write(text),
            ),
            SessionEvent::FromRoom(ClientCommand::Disconnect) => (
                SessionState::Closed,
                SessionAction::Close,
            ),
            SessionEvent::RoomGone => (SessionState::Closed, SessionAction::Close),
            SessionEvent::TransportClosed => (SessionState::Departing(name), SessionAction::Nothing),
            SessionEvent::Line(_) => (SessionState::AwaitingJoin(name), SessionAction::Nothing),
        },
        SessionState::Departing(name) => match event {
            SessionEvent::FromRoom(ClientCommand::Message(_)) => (
                SessionState::Closed,
                SessionAction::Leave(name),
            ),
            SessionEvent::FromRoom(ClientCommand::Disconnect) => (
                SessionState::Closed,
                SessionAction::Close,
            ),
            SessionEvent::RoomGone => (SessionState::Closed, SessionAction::Close),
            _ => (SessionState::Departing(name), SessionAction::Nothing),
        },
        SessionState::Active(name) => match event {
            SessionEvent::Line(line) => (
                SessionState::Active(name.clone()),
                SessionAction::Send(name, line),
            ),
            SessionEvent::TransportClosed => (SessionState::Closed, SessionAction::Leave(name)),
            SessionEvent::FromRoom(ClientCommand::Message(text)) => (
                SessionState::Active(name),
                SessionAction::Write(text),
            ),
            SessionEvent::FromRoom(ClientCommand::Disconnect) => (
                SessionState::Closed,
                SessionAction::Close,
            ),
            SessionEvent::RoomGone => (SessionState::Closed, SessionAction::Leave(name)),
        },
        SessionState::Closed => (SessionState::Closed, SessionAction::Nothing),
    }
}

/// Whether the session should read a line from its peer now.
pub fn reads_input(state: &SessionState) -> (r: bool)
    ensures
        r == wants_input(*state),
{
    match state {
        SessionState::AwaitingName => true,
        SessionState::Active(_) => true,
        _ => false,
    }
}

/// Whether the session has finished.
pub fn is_closed(state: &SessionState) -> (r: bool)
    ensures
        r == (*state is Closed),
{
    match state {
        SessionState::Closed => true,
        _ => false,
    }
}

} // verus!
