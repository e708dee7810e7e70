use mdpreview::session::{session_step, SessionAction, SessionEvent, SessionState};

#[test]
fn upgrade_opens_and_subscribes() {
    assert_eq!(
        session_step(SessionState::Connecting, SessionEvent::Upgraded),
        (SessionState::Open, SessionAction::Subscribe)
    );
}

#[test]
fn refused_upgrade_is_rejected() {
    assert_eq!(
        session_step(SessionState::Connecting, SessionEvent::UpgradeRefused),
        (SessionState::Closed, SessionAction::Reject)
    );
}

#[test]
fn open_session_forwards_stems() {
    assert_eq!(
        session_step(SessionState::Open, SessionEvent::Notified("a".to_string())),
        (SessionState::Open, SessionAction::Send("a".to_string()))
    );
}

#[test]
fn failures_close_an_open_session() {
    for e in [SessionEvent::SendFailed, SessionEvent::RemoteClosed, SessionEvent::TransportError] {
        assert_eq!(session_step(SessionState::Open, e), (SessionState::Closed, SessionAction::Release));
    }
    assert_eq!(
        session_step(SessionState::Open, SessionEvent::Shutdown),
        (SessionState::Closed, SessionAction::CloseAndRelease)
    );
}

#[test]
fn closed_is_final() {
    assert_eq!(
        session_step(SessionState::Closed, SessionEvent::Upgraded),
        (SessionState::Closed, SessionAction::Idle)
    );
    assert_eq!(
        session_step(SessionState::Closed, SessionEvent::Notified("a".to_string())),
        (SessionState::Closed, SessionAction::Idle)
    );
}
