use vp_core::wire::{encode_commands, encode_events, parse_commands, parse_events};
use vp_core::world::{
    Direction, Event, PlayerAction, PlayerCommand, PlayerState, Vec2,
};

fn state(dir: Option<Direction>, x: i64, y: i64) -> PlayerState {
    PlayerState { movement_direction: dir, position: Vec2 { x, y } }
}

#[test]
fn commands_round_trip() {
    let commands = vec![
        PlayerCommand::ChangeMovementDirection(None),
        PlayerCommand::ChangeMovementDirection(Some(Direction::Up)),
        PlayerCommand::ChangeMovementDirection(Some(Direction::Down)),
        PlayerCommand::ChangeMovementDirection(Some(Direction::Left)),
        PlayerCommand::ChangeMovementDirection(Some(Direction::Right)),
    ];
    let bytes = encode_commands(&commands);
    assert_eq!(parse_commands(&bytes), Some(commands));
}

#[test]
fn empty_command_list_round_trips() {
    let bytes = encode_commands(&Vec::new());
    assert_eq!(bytes, vec![0, 0, 0, 0]);
    assert_eq!(parse_commands(&bytes), Some(Vec::new()));
}

#[test]
fn command_encoding_exact_bytes() {
    let bytes = encode_commands(&vec![PlayerCommand::ChangeMovementDirection(Some(
        Direction::Up,
    ))]);
    // count 1 big-endian, variant tag 0, direction byte 1 (= Up).
    assert_eq!(bytes, vec![0, 0, 0, 1, 0, 1]);
}

#[test]
fn events_round_trip() {
    let events = vec![
        Event::PlayerCreated(0, state(None, 0, 0)),
        Event::PlayerCreated(7, state(Some(Direction::Left), -1_000_000, 250_000)),
        Event::PlayerRemoved(7),
        Event::PlayerActed(0, PlayerAction::ChangedMovementDirection(Some(Direction::Down))),
        Event::PlayerActed(0, PlayerAction::ChangedMovementDirection(None)),
        Event::PlayerActed(0, PlayerAction::Moved(Vec2 { x: i64::MIN, y: i64::MAX })),
    ];
    let bytes = encode_events(&events);
    assert_eq!(parse_events(&bytes), Some(events));
}

#[test]
fn removed_event_exact_bytes() {
    let bytes = encode_events(&vec![Event::PlayerRemoved(3)]);
    // count 1, variant tag 1, id 3 as eight big-endian bytes.
    assert_eq!(bytes, vec![0, 0, 0, 1, 1, 0, 0, 0, 0, 0, 0, 0, 3]);
}

#[test]
fn negative_coordinate_offset_encoding() {
    let bytes = encode_events(&vec![Event::PlayerActed(
        0,
        PlayerAction::Moved(Vec2 { x: -1, y: 0 }),
    )]);
    // tag 2, id 0 (8 bytes), action tag 1, then x = -1 offset by 2^63.
    let x_bytes = &bytes[14..22];
    assert_eq!(x_bytes, &[0x7F, 0xFF, 0xFF, 0xFF, 0xFF, 0xFF, 0xFF, 0xFF]);
}

#[test]
fn malformed_command_tag_rejected() {
    // variant tag 9 does not exist.
    assert_eq!(parse_commands(&vec![0, 0, 0, 1, 9, 0]), None);
}

#[test]
fn malformed_direction_byte_rejected() {
    // direction byte 7 does not exist.
    assert_eq!(parse_commands(&vec![0, 0, 0, 1, 0, 7]), None);
}

#[test]
fn truncated_payload_rejected() {
    let mut bytes = encode_commands(&vec![PlayerCommand::ChangeMovementDirection(None)]);
    bytes.pop();
    assert_eq!(parse_commands(&bytes), None);
}

#[test]
fn trailing_garbage_rejected() {
    let mut bytes = encode_commands(&vec![PlayerCommand::ChangeMovementDirection(None)]);
    bytes.push(0);
    assert_eq!(parse_commands(&bytes), None);
}

#[test]
fn short_header_rejected() {
    assert_eq!(parse_commands(&vec![0, 0]), None);
    assert_eq!(parse_events(&vec![]), None);
}

#[test]
fn malformed_event_tag_rejected() {
    let mut bytes = encode_events(&vec![Event::PlayerRemoved(1)]);
    bytes[4] = 9;
    assert_eq!(parse_events(&bytes), None);
}
