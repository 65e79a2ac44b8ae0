use rect_session::session::{
    MoveRectangleCommand, SessionCommand, SessionConnection, SessionError, SessionEvent,
    SessionState,
};
use tokio::sync::mpsc::error::TryRecvError;
use tokio::sync::mpsc::{unbounded_channel, UnboundedReceiver};

fn join(state: &mut SessionState, id: u32) -> UnboundedReceiver<SessionEvent> {
    let (tx, rx) = unbounded_channel();
    state
        .handle_command(SessionCommand::Join(SessionConnection::new(id, tx)))
        .expect("a join is always accepted");
    rx
}

fn move_cmd(uuid: &str, dx: i64, dy: i64) -> SessionCommand {
    SessionCommand::MoveRectangle(MoveRectangleCommand::new(uuid.to_string(), dx, dy))
}

fn seeded_uuid(state: &SessionState) -> String {
    let uuids = state.rectangle_uuids();
    assert_eq!(uuids.len(), 1);
    uuids[0].clone()
}

#[test]
fn new_state_has_one_seeded_rectangle() {
    let state = SessionState::new();
    assert!(state.connection_ids().is_empty());
    let uuid = seeded_uuid(&state);
    assert_eq!(uuid.len(), 36);
    assert!(uuid
        .chars()
        .all(|c| c == '-' || c.is_ascii_digit() || ('a'..='f').contains(&c)));
    // 100000 thousandths: the seed sits at (100, 100).
    assert_eq!(state.rectangle_position(&uuid), Some((100_000, 100_000)));
}

#[test]
fn two_joins_broadcast_in_order() {
    let mut state = SessionState::new();
    let mut rx_a = join(&mut state, 1);

    // A's own join: ClientConnected(A), then the snapshot holding only A.
    match rx_a.try_recv().unwrap() {
        SessionEvent::ClientConnected(id) => assert_eq!(id, 1),
        _ => panic!("first event of a join is ClientConnected"),
    }
    match rx_a.try_recv().unwrap() {
        SessionEvent::FullStateSent(f) => {
            let ids: Vec<u32> = f.connections.iter().map(|c| c.id).collect();
            assert_eq!(ids, vec![1]);
        }
        _ => panic!("second event of a join is FullStateSent"),
    }
    assert!(matches!(rx_a.try_recv(), Err(TryRecvError::Empty)));

    // B joins: both A and B see ClientConnected(B) then the {A, B} snapshot.
    let mut rx_b = join(&mut state, 2);
    for rx in [&mut rx_a, &mut rx_b] {
        match rx.try_recv().unwrap() {
            SessionEvent::ClientConnected(id) => assert_eq!(id, 2),
            _ => panic!("first event of a join is ClientConnected"),
        }
        match rx.try_recv().unwrap() {
            SessionEvent::FullStateSent(f) => {
                let ids: Vec<u32> = f.connections.iter().map(|c| c.id).collect();
                assert_eq!(ids, vec![1, 2]);
            }
            _ => panic!("second event of a join is FullStateSent"),
        }
        assert!(matches!(rx.try_recv(), Err(TryRecvError::Empty)));
    }
}

#[test]
fn moves_are_broadcast_and_snapshots_show_them() {
    let mut state = SessionState::new();
    let uuid = seeded_uuid(&state);
    let mut rx_a = join(&mut state, 1);
    rx_a.try_recv().unwrap();
    rx_a.try_recv().unwrap();

    // A moves the seeded rectangle by (10, -5): 10000 and -5000 thousandths.
    let events = state.handle_command(move_cmd(&uuid, 10_000, -5_000)).unwrap();
    assert_eq!(events.len(), 1);
    match rx_a.try_recv().unwrap() {
        SessionEvent::RectangleMoved(m) => {
            assert_eq!(m.uuid, uuid);
            assert_eq!(m.diff_x, 10_000);
            assert_eq!(m.diff_y, -5_000);
        }
        _ => panic!("a move broadcasts RectangleMoved"),
    }
    assert_eq!(state.rectangle_position(&uuid), Some((110_000, 95_000)));

    // A later joiner's snapshot shows the updated position, not the seed.
    let mut rx_c = join(&mut state, 3);
    rx_c.try_recv().unwrap();
    match rx_c.try_recv().unwrap() {
        SessionEvent::FullStateSent(f) => {
            assert_eq!(f.rectangles.len(), 1);
            assert_eq!(f.rectangles[0].uuid, uuid);
            assert_eq!(f.rectangles[0].left, 110_000);
            assert_eq!(f.rectangles[0].top, 95_000);
        }
        _ => panic!("second event of a join is FullStateSent"),
    }
}

#[test]
fn two_moves_compose_additively() {
    let mut state = SessionState::new();
    let uuid = seeded_uuid(&state);
    state.handle_command(move_cmd(&uuid, 1_500, 2_500)).unwrap();
    state.handle_command(move_cmd(&uuid, 500, -500)).unwrap();
    let combined = state.rectangle_position(&uuid);

    let mut other = SessionState::new();
    let other_uuid = seeded_uuid(&other);
    other.handle_command(move_cmd(&other_uuid, 2_000, 2_000)).unwrap();
    assert_eq!(combined, other.rectangle_position(&other_uuid));
    assert_eq!(combined, Some((102_000, 102_000)));
}

#[test]
fn move_of_unknown_rectangle_is_rejected_without_effect() {
    let mut state = SessionState::new();
    let uuid = seeded_uuid(&state);
    let mut rx_a = join(&mut state, 1);
    rx_a.try_recv().unwrap();
    rx_a.try_recv().unwrap();

    let r = state.handle_command(move_cmd("no-such-rectangle", 1_000, 1_000));
    assert!(matches!(r, Err(SessionError::UnknownRectangle)));
    // no event reaches any connection, and the scene is untouched
    assert!(matches!(rx_a.try_recv(), Err(TryRecvError::Empty)));
    assert_eq!(state.rectangle_position(&uuid), Some((100_000, 100_000)));
}

#[test]
fn disconnect_of_unjoined_id_is_a_silent_no_op() {
    let mut state = SessionState::new();
    let mut rx_a = join(&mut state, 1);
    rx_a.try_recv().unwrap();
    rx_a.try_recv().unwrap();

    let events = state.handle_command(SessionCommand::Disconnect(99)).unwrap();
    assert!(events.is_empty());
    assert!(matches!(rx_a.try_recv(), Err(TryRecvError::Empty)));
    assert_eq!(state.connection_ids(), vec![1]);
}

#[test]
fn disconnect_removes_and_tells_the_rest() {
    let mut state = SessionState::new();
    let mut rx_a = join(&mut state, 1);
    let mut rx_b = join(&mut state, 2);
    while rx_a.try_recv().is_ok() {}
    while rx_b.try_recv().is_ok() {}

    // A's socket dropped: the bridge reports Disconnect(1).
    state.handle_command(SessionCommand::Disconnect(1)).unwrap();
    assert_eq!(state.connection_ids(), vec![2]);
    match rx_b.try_recv().unwrap() {
        SessionEvent::ClientDisconnected(id) => assert_eq!(id, 1),
        _ => panic!("remaining connections learn of the disconnect"),
    }
    // A is gone from every later snapshot.
    let mut rx_c = join(&mut state, 3);
    rx_c.try_recv().unwrap();
    match rx_c.try_recv().unwrap() {
        SessionEvent::FullStateSent(f) => {
            let ids: Vec<u32> = f.connections.iter().map(|c| c.id).collect();
            assert_eq!(ids, vec![2, 3]);
        }
        _ => panic!("second event of a join is FullStateSent"),
    }
}

#[test]
fn rejoining_id_replaces_its_sink() {
    let mut state = SessionState::new();
    let mut rx_old = join(&mut state, 1);
    while rx_old.try_recv().is_ok() {}
    let mut rx_new = join(&mut state, 1);
    assert_eq!(state.connection_ids(), vec![1]);
    // the fresh sink got the join's events; the old one was already out of
    // the table when the broadcast ran, so it sees nothing
    assert!(rx_new.try_recv().is_ok());
    assert!(rx_old.try_recv().is_err());
}
