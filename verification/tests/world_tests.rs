use vp_core::world::{
    moved_position, Direction, Event, PlayerAction, PlayerCommand, PlayerState, Vec2, World,
    PLAYER_SPEED, POSITION_UNIT,
};

fn state(dir: Option<Direction>, x: i64, y: i64) -> PlayerState {
    PlayerState { movement_direction: dir, position: Vec2 { x, y } }
}

fn snapshot_sorted(world: &World) -> Vec<(usize, PlayerState)> {
    let mut entries: Vec<(usize, PlayerState)> = world
        .get_snapshot()
        .into_iter()
        .map(|e| match e {
            Event::PlayerCreated(id, st) => (id, st),
            other => panic!("snapshot may only hold creation events, got {:?}", other),
        })
        .collect();
    entries.sort_by_key(|p| p.0);
    entries
}

#[test]
fn spawn_produces_one_default_creation() {
    let world = World::new();
    let events = world.spawn_player(5);
    assert_eq!(events, vec![Event::PlayerCreated(5, state(None, 0, 0))]);
}

#[test]
fn create_then_remove_leaves_no_entry() {
    let mut world = World::new();
    world.apply_events(&vec![
        Event::PlayerCreated(4, state(Some(Direction::Up), 0, 0)),
        Event::PlayerRemoved(4),
    ]);
    assert!(!world.contains_player(4));
    assert_eq!(world.player_count(), 0);
}

#[test]
fn moved_changes_only_position() {
    let mut world = World::new();
    world.apply_events(&vec![
        Event::PlayerCreated(1, state(Some(Direction::Left), 10, 20)),
        Event::PlayerActed(1, PlayerAction::Moved(Vec2 { x: -7, y: 99 })),
    ]);
    let entries = snapshot_sorted(&world);
    assert_eq!(entries, vec![(1, state(Some(Direction::Left), -7, 99))]);
}

#[test]
fn direction_change_changes_only_direction() {
    let mut world = World::new();
    world.apply_events(&vec![
        Event::PlayerCreated(1, state(None, 3, 4)),
        Event::PlayerActed(1, PlayerAction::ChangedMovementDirection(Some(Direction::Down))),
    ]);
    let entries = snapshot_sorted(&world);
    assert_eq!(entries, vec![(1, state(Some(Direction::Down), 3, 4))]);
}

#[test]
fn action_for_absent_player_is_noop() {
    let mut world = World::new();
    world.apply_events(&vec![Event::PlayerActed(
        9,
        PlayerAction::Moved(Vec2 { x: 1, y: 1 }),
    )]);
    assert_eq!(world.player_count(), 0);
}

#[test]
fn creation_overwrites_existing_entry() {
    let mut world = World::new();
    world.apply_events(&vec![
        Event::PlayerCreated(2, state(Some(Direction::Up), 1, 1)),
        Event::PlayerCreated(2, state(None, 5, 5)),
    ]);
    assert_eq!(world.player_count(), 1);
    assert_eq!(snapshot_sorted(&world), vec![(2, state(None, 5, 5))]);
}

#[test]
fn snapshot_is_complete_and_exact() {
    let mut world = World::new();
    let states = vec![
        (10, state(None, 0, 0)),
        (11, state(Some(Direction::Right), 500, -500)),
        (12, state(Some(Direction::Up), 1, 2)),
    ];
    let creations: Vec<Event> =
        states.iter().map(|(id, st)| Event::PlayerCreated(*id, *st)).collect();
    world.apply_events(&creations);
    assert_eq!(snapshot_sorted(&world), states);
}

#[test]
fn movement_arithmetic_up_for_20_milliseconds() {
    // Position (0,0), direction Up, 0.02 s at 2 units/s: expect (0.0, 0.04).
    let mut world = World::new();
    world.apply_events(&vec![Event::PlayerCreated(0, state(Some(Direction::Up), 0, 0))]);
    let events = world.update(20_000);
    assert_eq!(events.len(), 1);
    match events[0] {
        Event::PlayerActed(0, PlayerAction::Moved(pos)) => {
            assert_eq!(pos.x, 0);
            assert_eq!(pos.y, 40_000);
            assert_eq!(pos.x as f64 / POSITION_UNIT as f64, 0.0);
            assert_eq!(pos.y as f64 / POSITION_UNIT as f64, 0.04);
        },
        ref other => panic!("expected a move for player 0, got {:?}", other),
    }
}

#[test]
fn update_skips_players_standing_still() {
    let mut world = World::new();
    world.apply_events(&vec![
        Event::PlayerCreated(0, state(None, 0, 0)),
        Event::PlayerCreated(1, state(Some(Direction::Down), 0, 0)),
    ]);
    let events = world.update(1_000_000);
    assert_eq!(events, vec![Event::PlayerActed(
        1,
        PlayerAction::Moved(Vec2 { x: 0, y: -2 * POSITION_UNIT }),
    )]);
}

#[test]
fn stale_command_after_removal_is_noop() {
    let mut world = World::new();
    world.apply_events(&vec![
        Event::PlayerCreated(3, state(None, 0, 0)),
        Event::PlayerRemoved(3),
    ]);
    let events = world.process_player_command(
        3,
        PlayerCommand::ChangeMovementDirection(Some(Direction::Up)),
    );
    assert!(events.is_empty());
}

#[test]
fn unchanged_direction_is_noop() {
    let mut world = World::new();
    world.apply_events(&vec![Event::PlayerCreated(3, state(Some(Direction::Up), 0, 0))]);
    let events = world.process_player_command(
        3,
        PlayerCommand::ChangeMovementDirection(Some(Direction::Up)),
    );
    assert!(events.is_empty());
}

#[test]
fn changed_direction_yields_one_event() {
    let mut world = World::new();
    world.apply_events(&vec![Event::PlayerCreated(3, state(Some(Direction::Up), 0, 0))]);
    let events = world.process_player_command(
        3,
        PlayerCommand::ChangeMovementDirection(Some(Direction::Left)),
    );
    assert_eq!(events, vec![Event::PlayerActed(
        3,
        PlayerAction::ChangedMovementDirection(Some(Direction::Left)),
    )]);
}

#[test]
fn unit_vectors_match_directions() {
    assert_eq!(Direction::Up.to_vec2(), Vec2 { x: 0, y: 1 });
    assert_eq!(Direction::Down.to_vec2(), Vec2 { x: 0, y: -1 });
    assert_eq!(Direction::Left.to_vec2(), Vec2 { x: -1, y: 0 });
    assert_eq!(Direction::Right.to_vec2(), Vec2 { x: 1, y: 0 });
}

#[test]
fn moved_position_saturates_at_the_coordinate_range() {
    let pos = Vec2 { x: i64::MAX - 1, y: 0 };
    let moved = moved_position(pos, Direction::Right, u64::MAX);
    assert_eq!(moved.x, i64::MAX);
    assert_eq!(moved.y, 0);
    assert_eq!(PLAYER_SPEED, 2);
}
