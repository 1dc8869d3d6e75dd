use relay::connections::Conn;
use relay::connections::Connections;
use relay::session::handle_stream;
use relay::session::session_step;
use relay::session::SessionAction;
use relay::session::SessionEvent;
use relay::session::SessionState;

#[test]
fn step_broadcasts_on_data() {
    let (state, action) = session_step(SessionState::Active, &SessionEvent::ReadData);
    assert_eq!(state, SessionState::Active);
    assert_eq!(action, SessionAction::Broadcast);
}

#[test]
fn step_backs_off_on_would_block() {
    let (state, action) = session_step(SessionState::Active, &SessionEvent::ReadWouldBlock);
    assert_eq!(state, SessionState::Active);
    assert_eq!(action, SessionAction::Backoff);
}

#[test]
fn step_terminates_on_fatal_events() {
    let fatal = [
        SessionEvent::HealthFailed,
        SessionEvent::ReadClosed,
        SessionEvent::PayloadUnavailable,
        SessionEvent::ReadFailed,
    ];
    for event in fatal.iter() {
        let (state, action) = session_step(SessionState::Active, event);
        assert_eq!(state, SessionState::Terminating);
        assert_eq!(action, SessionAction::Unregister);
    }
}

#[test]
fn session_unregisters_after_orderly_close() {
    let mut conns = Connections::new();
    let peer = conns.store(Conn::new());
    let events = vec![
        SessionEvent::ReadWouldBlock,
        SessionEvent::ReadData,
        SessionEvent::ReadClosed,
    ];
    let payload = vec![7u8, 7];
    let (id, state) = handle_stream(&mut conns, Conn::new(), &events, &payload);
    assert_eq!(id, 2);
    assert_eq!(state, SessionState::Removed);
    // Only the pre-existing peer is left, and it received the one broadcast.
    assert_eq!(conns.entries.len(), 1);
    assert_eq!(conns.entries[0].id, peer);
    assert_eq!(conns.entries[0].conn.delivered, vec![payload.clone()]);
}

#[test]
fn session_unregisters_after_mid_iteration_error() {
    let mut conns = Connections::new();
    let events = vec![SessionEvent::ReadData, SessionEvent::ReadFailed];
    let (id, state) = handle_stream(&mut conns, Conn::new(), &events, &vec![1u8]);
    assert_eq!(id, 1);
    assert_eq!(state, SessionState::Removed);
    assert!(conns.entries.is_empty());
}

#[test]
fn session_terminates_when_payload_is_unreadable() {
    let mut conns = Connections::new();
    let events = vec![SessionEvent::PayloadUnavailable];
    let (id, state) = handle_stream(&mut conns, Conn::new(), &events, &vec![1u8]);
    assert_eq!(id, 1);
    assert_eq!(state, SessionState::Removed);
    assert!(conns.entries.is_empty());
}

#[test]
fn session_broadcasts_skip_held_peer() {
    let mut conns = Connections::new();
    let busy = conns.store(Conn {
        held: true,
        delivered: Vec::new(),
    });
    let idle = conns.store(Conn::new());
    let events = vec![
        SessionEvent::ReadData,
        SessionEvent::ReadData,
        SessionEvent::ReadClosed,
    ];
    let payload = vec![0xCDu8];
    let (_, state) = handle_stream(&mut conns, Conn::new(), &events, &payload);
    assert_eq!(state, SessionState::Removed);
    assert_eq!(conns.entries.len(), 2);
    assert_eq!(conns.entries[0].id, busy);
    assert!(conns.entries[0].conn.delivered.is_empty());
    assert_eq!(conns.entries[1].id, idle);
    assert_eq!(
        conns.entries[1].conn.delivered,
        vec![payload.clone(), payload.clone()]
    );
}

#[test]
fn session_stays_registered_while_events_are_transient() {
    let mut conns = Connections::new();
    let events = vec![SessionEvent::ReadWouldBlock, SessionEvent::ReadData];
    let payload = vec![3u8, 4, 5];
    let (id, state) = handle_stream(&mut conns, Conn::new(), &events, &payload);
    assert_eq!(id, 1);
    assert_eq!(state, SessionState::Active);
    assert_eq!(conns.entries.len(), 1);
    assert_eq!(conns.entries[0].id, id);
    // The session's own connection took part in its broadcast.
    assert_eq!(conns.entries[0].conn.delivered, vec![payload.clone()]);
}
