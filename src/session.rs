//! The lifecycle of one client session: `Connecting`, then `Open`, then `Closed`.
use vstd::prelude::*;

verus! {

#[derive(Clone, Copy, Debug, PartialEq, Eq, Structural)]
pub enum SessionState {
    /// The protocol upgrade is being negotiated.
    Connecting,
    /// Notifications are forwarded to the client.
    Open,
    /// The session has ended; this is final.
    Closed,
}

/// What happens to a session.
#[derive(Debug)]
pub enum SessionEvent {
    /// The upgrade succeeded with the expected sub-protocol.
    Upgraded,
    /// The client did not ask for the expected sub-protocol.
    UpgradeRefused,
    /// The hub handed the session a changed stem.
    Notified(String),
    /// Sending a message to the client failed.
    SendFailed,
    /// The client closed the connection.
    RemoteClosed,
    /// The transport reported a protocol error.
    TransportError,
    /// The process is shutting down.
    Shutdown,
}

/// What the session's driver does next.
#[derive(Debug, PartialEq, Eq)]
pub enum SessionAction {
    /// Nothing.
    Idle,
    /// Subscribe to the hub.
    Subscribe,
    /// Answer the upgrade request with a client error.
    Reject,
    /// Send the stem to the client as a text message.
    Send(String),
    /// Drop the subscription and the connection.
    Release,
    /// Send a close frame, then drop the subscription and the connection.
    CloseAndRelease,
}

/// The next state and action of a session on an event.
pub open spec fn session_step_spec(state: SessionState, event: SessionEvent) -> (SessionState, SessionAction) {
    match state {
        SessionState::Connecting => match event {
            SessionEvent::Upgraded => (SessionState::Open, SessionAction::Subscribe),
            SessionEvent::UpgradeRefused => (SessionState::Closed, SessionAction::Reject),
            SessionEvent::Notified(_) => (SessionState::Connecting, SessionAction::Idle),
            _ => (SessionState::Closed, SessionAction::Idle),
        },
        SessionState::Open => match event {
            SessionEvent::Notified(stem) => (SessionState::Open, SessionAction::Send(stem)),
            SessionEvent::Shutdown => (SessionState::Closed, SessionAction::CloseAndRelease),
            SessionEvent::SendFailed => (SessionState::Closed, SessionAction::Release),
            SessionEvent::RemoteClosed => (SessionState::Closed, SessionAction::Release),
            SessionEvent::TransportError => (SessionState::Closed, SessionAction::Release),
            _ => (SessionState::Open, SessionAction::Idle),
        },
        SessionState::Closed => (SessionState::Closed, SessionAction::Idle),
    }
}

/// Decides a session's next state and action on an event. A refused upgrade is
/// a client error; any transport failure or remote close ends an open session;
/// a closed session stays closed and does nothing.
pub fn session_step(state: SessionState, event: SessionEvent) -> (r: (SessionState, SessionAction))
    ensures
        r == session_step_spec(state, event),
{
    match state {
        SessionState::Connecting => match event {
            SessionEvent::Upgraded => (SessionState::Open, SessionAction::Subscribe),
            SessionEvent::UpgradeRefused => (SessionState::Closed, SessionAction::Reject),
            SessionEvent::Notified(_) => (SessionState::Connecting, SessionAction::Idle),
            _ => (SessionState::Closed, SessionAction::Idle),
        },
        SessionState::Open => match event {
            SessionEvent::Notified(stem) => (SessionState::Open, SessionAction::Send(stem)),
            SessionEvent::Shutdown => (SessionState::Closed, SessionAction::CloseAndRelease),
            SessionEvent::SendFailed => (SessionState::Closed, SessionAction::Release),
            SessionEvent::RemoteClosed => (SessionState::Closed, SessionAction::Release),
            SessionEvent::TransportError => (SessionState::Closed, SessionAction::Release),
            _ => (SessionState::Open, SessionAction::Idle),
        },
        SessionState::Closed => (SessionState::Closed, SessionAction::Idle),
    }
}

/// Once closed, a session stays closed and does nothing, whatever happens.
pub proof fn lemma_closed_is_final(event: SessionEvent)
    ensures
        session_step_spec(SessionState::Closed, event) == (SessionState::Closed, SessionAction::Idle),
{
}

} // verus!
