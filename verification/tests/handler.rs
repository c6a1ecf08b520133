use eirc::handler::{step, HandlerAction, HandlerEvent, HandlerState};

#[test]
fn clean_lifecycle_walks_all_states() {
    let (s, a) = step(HandlerState::Connecting, HandlerEvent::Accepted);
    assert_eq!(s, HandlerState::Registered);
    assert_eq!(a, HandlerAction::Register);

    let (s, a) = step(s, HandlerEvent::ReadCompleted(12));
    assert_eq!(s, HandlerState::Reading);
    assert_eq!(a, HandlerAction::Broadcast);

    let (s, a) = step(s, HandlerEvent::ReadCompleted(3));
    assert_eq!(s, HandlerState::Reading);
    assert_eq!(a, HandlerAction::Broadcast);

    // Zero-byte read: the peer closed cleanly.
    let (s, a) = step(s, HandlerEvent::ReadCompleted(0));
    assert_eq!(s, HandlerState::Disconnecting);
    assert_eq!(a, HandlerAction::Unregister);

    let (s, a) = step(s, HandlerEvent::Released);
    assert_eq!(s, HandlerState::Closed);
    assert_eq!(a, HandlerAction::Stay);
}

#[test]
fn immediate_zero_byte_read_disconnects_before_any_broadcast() {
    let (s, _) = step(HandlerState::Connecting, HandlerEvent::Accepted);
    let (s, a) = step(s, HandlerEvent::ReadCompleted(0));
    assert_eq!(s, HandlerState::Disconnecting);
    assert_eq!(a, HandlerAction::Unregister);
}

#[test]
fn read_error_fails_the_connection_locally() {
    let (s, _) = step(HandlerState::Connecting, HandlerEvent::Accepted);
    let (s, _) = step(s, HandlerEvent::ReadCompleted(5));
    let (s, a) = step(s, HandlerEvent::ReadFailed);
    assert_eq!(s, HandlerState::Failed);
    assert_eq!(a, HandlerAction::Unregister);

    // The stream is released unconditionally, on the error path too.
    let (s, a) = step(s, HandlerEvent::Released);
    assert_eq!(s, HandlerState::Closed);
    assert_eq!(a, HandlerAction::Stay);
}

#[test]
fn closed_is_terminal() {
    for e in [
        HandlerEvent::Accepted,
        HandlerEvent::ReadCompleted(0),
        HandlerEvent::ReadCompleted(9),
        HandlerEvent::ReadFailed,
        HandlerEvent::Released,
    ] {
        let (s, a) = step(HandlerState::Closed, e);
        assert_eq!(s, HandlerState::Closed);
        assert_eq!(a, HandlerAction::Stay);
    }
}

#[test]
fn unrelated_events_change_nothing() {
    let (s, a) = step(HandlerState::Connecting, HandlerEvent::ReadCompleted(4));
    assert_eq!(s, HandlerState::Connecting);
    assert_eq!(a, HandlerAction::Stay);

    let (s, a) = step(HandlerState::Reading, HandlerEvent::Accepted);
    assert_eq!(s, HandlerState::Reading);
    assert_eq!(a, HandlerAction::Stay);

    let (s, a) = step(HandlerState::Disconnecting, HandlerEvent::ReadCompleted(2));
    assert_eq!(s, HandlerState::Disconnecting);
    assert_eq!(a, HandlerAction::Stay);
}
