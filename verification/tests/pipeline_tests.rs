use vp_core::frame::{build_frame, Frame, NetworkEvent};
use vp_core::pipeline::process_frame;
use vp_core::wire::{encode_commands, parse_events};
use vp_core::world::{
    Direction, Event, PlayerAction, PlayerCommand, PlayerState, Vec2, World,
};

const TICK_MICROS: u64 = 20_000;

fn state(dir: Option<Direction>, x: i64, y: i64) -> PlayerState {
    PlayerState { movement_direction: dir, position: Vec2 { x, y } }
}

fn frame_of(messages: Vec<NetworkEvent>, connected: &mut Vec<usize>) -> Frame {
    build_frame(messages, connected, TICK_MICROS)
}

#[test]
fn new_connection_gets_snapshot_others_get_broadcast() {
    // Players A (id 0) and B (id 1) are connected and moving Right; in
    // this tick a new player C (id 2) connects. C must receive exactly
    // one payload: the post-tick snapshot. A and B must receive exactly
    // one payload each: the tick's merged events, with a move for each
    // of them — and C must not receive that broadcast as well.
    let mut world = World::new();
    world.apply_events(&vec![
        Event::PlayerCreated(0, state(Some(Direction::Right), 0, 0)),
        Event::PlayerCreated(1, state(Some(Direction::Right), 1_000_000, 0)),
    ]);
    let mut connected: Vec<usize> = vec![0, 1];
    let frame = frame_of(vec![NetworkEvent::ClientConnected(2)], &mut connected);
    assert_eq!(frame.currently_connected_clients, vec![0, 1, 2]);

    let sends = process_frame(&mut world, &frame);
    let ids: Vec<usize> = sends.iter().map(|p| p.0).collect();
    assert_eq!(ids, vec![2, 0, 1], "snapshot first, then the broadcast, one payload each");

    let snapshot = parse_events(&sends[0].1).expect("snapshot decodes");
    let mut snap_sorted: Vec<Event> = snapshot.clone();
    snap_sorted.sort_by_key(|e| match e {
        Event::PlayerCreated(id, _) => *id,
        other => panic!("snapshot holds only creations, got {:?}", other),
    });
    assert_eq!(snap_sorted, vec![
        Event::PlayerCreated(0, state(Some(Direction::Right), 40_000, 0)),
        Event::PlayerCreated(1, state(Some(Direction::Right), 1_040_000, 0)),
        Event::PlayerCreated(2, state(None, 0, 0)),
    ], "the newcomer sees this tick's own movement already applied");

    let broadcast = parse_events(&sends[1].1).expect("broadcast decodes");
    assert_eq!(sends[1].1, sends[2].1, "A and B receive the same bytes");
    assert!(broadcast.contains(&Event::PlayerActed(
        0,
        PlayerAction::Moved(Vec2 { x: 40_000, y: 0 }),
    )));
    assert!(broadcast.contains(&Event::PlayerActed(
        1,
        PlayerAction::Moved(Vec2 { x: 1_040_000, y: 0 }),
    )));
    assert_ne!(sends[0].1, sends[1].1, "the newcomer's payload is the snapshot, not the broadcast");
}

#[test]
fn sole_newcomer_gets_only_the_snapshot() {
    let mut world = World::new();
    let mut connected: Vec<usize> = Vec::new();
    let frame = frame_of(vec![NetworkEvent::ClientConnected(0)], &mut connected);
    let sends = process_frame(&mut world, &frame);
    assert_eq!(sends.len(), 1);
    assert_eq!(sends[0].0, 0);
    let snapshot = parse_events(&sends[0].1).unwrap();
    assert_eq!(snapshot, vec![Event::PlayerCreated(0, state(None, 0, 0))]);
}

#[test]
fn quiet_tick_sends_nothing() {
    // A connected player standing still, no input: merged is empty, and
    // no empty payload goes out.
    let mut world = World::new();
    world.apply_events(&vec![Event::PlayerCreated(0, state(None, 0, 0))]);
    let mut connected: Vec<usize> = vec![0];
    let frame = frame_of(Vec::new(), &mut connected);
    let sends = process_frame(&mut world, &frame);
    assert!(sends.is_empty());
}

#[test]
fn command_changes_direction_and_is_broadcast() {
    let mut world = World::new();
    world.apply_events(&vec![
        Event::PlayerCreated(0, state(None, 0, 0)),
        Event::PlayerCreated(1, state(None, 0, 0)),
    ]);
    let mut connected: Vec<usize> = vec![0, 1];
    let payload = encode_commands(&vec![PlayerCommand::ChangeMovementDirection(Some(
        Direction::Up,
    ))]);
    let frame = frame_of(vec![NetworkEvent::ClientDataReceived(0, payload)], &mut connected);
    let sends = process_frame(&mut world, &frame);
    assert!(world.contains_player(0));
    let ids: Vec<usize> = sends.iter().map(|p| p.0).collect();
    assert_eq!(ids, vec![0, 1]);
    let events = parse_events(&sends[0].1).unwrap();
    assert_eq!(events[0], Event::PlayerActed(
        0,
        PlayerAction::ChangedMovementDirection(Some(Direction::Up)),
    ));
    // The direction change lands before this tick's movement: the move
    // already integrates the fresh direction.
    assert_eq!(events[1], Event::PlayerActed(
        0,
        PlayerAction::Moved(Vec2 { x: 0, y: 40_000 }),
    ));
}

#[test]
fn undecodable_payload_is_dropped_whole() {
    let mut world = World::new();
    world.apply_events(&vec![Event::PlayerCreated(0, state(None, 0, 0))]);
    let mut connected: Vec<usize> = vec![0];
    let frame = frame_of(
        vec![NetworkEvent::ClientDataReceived(0, vec![0xFF, 0xEE, 0xDD])],
        &mut connected,
    );
    let sends = process_frame(&mut world, &frame);
    assert!(sends.is_empty());
    assert_eq!(snapshot_state(&world, 0), state(None, 0, 0));
}

#[test]
fn command_from_unknown_client_is_ignored() {
    let mut world = World::new();
    let mut connected: Vec<usize> = Vec::new();
    let payload = encode_commands(&vec![PlayerCommand::ChangeMovementDirection(Some(
        Direction::Up,
    ))]);
    let frame = frame_of(vec![NetworkEvent::ClientDataReceived(7, payload)], &mut connected);
    let sends = process_frame(&mut world, &frame);
    assert!(sends.is_empty());
    assert_eq!(world.player_count(), 0);
}

#[test]
fn flash_connection_does_not_mute_the_broadcast() {
    // A client that connects and disconnects within one frame is
    // just-connected yet no longer connected, so the counts coincide
    // while the sets differ. The remaining client must still receive the
    // tick's merged events — its own movement and the removal.
    let mut world = World::new();
    world.apply_events(&vec![Event::PlayerCreated(
        5,
        state(Some(Direction::Right), 0, 0),
    )]);
    let mut connected: Vec<usize> = vec![5];
    let frame = frame_of(
        vec![NetworkEvent::ClientConnected(7), NetworkEvent::ClientDisconnected(7)],
        &mut connected,
    );
    assert_eq!(frame.currently_connected_clients, vec![5]);

    let sends = process_frame(&mut world, &frame);
    let ids: Vec<usize> = sends.iter().map(|p| p.0).collect();
    // The snapshot addressed to 7 is dropped later, by the reactor, as
    // an unknown recipient; the broadcast to 5 must be here.
    assert_eq!(ids, vec![7, 5]);
    let broadcast = parse_events(&sends[1].1).expect("broadcast decodes");
    assert!(broadcast.contains(&Event::PlayerRemoved(7)));
    assert!(broadcast.contains(&Event::PlayerActed(
        5,
        PlayerAction::Moved(Vec2 { x: 40_000, y: 0 }),
    )));
}

#[test]
fn disconnect_is_broadcast_as_removal() {
    let mut world = World::new();
    world.apply_events(&vec![
        Event::PlayerCreated(0, state(None, 0, 0)),
        Event::PlayerCreated(1, state(None, 0, 0)),
    ]);
    let mut connected: Vec<usize> = vec![0, 1];
    let frame = frame_of(vec![NetworkEvent::ClientDisconnected(1)], &mut connected);
    assert_eq!(frame.currently_connected_clients, vec![0]);
    let sends = process_frame(&mut world, &frame);
    assert!(!world.contains_player(1));
    assert_eq!(sends.len(), 1);
    assert_eq!(sends[0].0, 0);
    assert_eq!(parse_events(&sends[0].1).unwrap(), vec![Event::PlayerRemoved(1)]);
}

fn snapshot_state(world: &World, id: usize) -> PlayerState {
    for e in world.get_snapshot() {
        if let Event::PlayerCreated(pid, st) = e {
            if pid == id {
                return st;
            }
        }
    }
    panic!("player {} not in snapshot", id);
}
