//! Event-sourced world state: a registry of players keyed by id. Commands
//! and the passage of time are turned into events; applying events is the
//! only way the state changes, so the state can always be replayed or
//! snapshotted as a sequence of events.
//!
//! Positions are fixed-point: an i64 counts micro-units, with
//! `POSITION_UNIT` micro-units to one distance unit.

use vstd::prelude::*;

verus! {

/// Handle of a player while it exists in the world; the connection slot
/// identifier doubles as the player id.
pub type PlayerId = usize;

#[derive(Clone, Copy, Debug, PartialEq, Eq, Structural)]
pub enum Direction {
    Up,
    Down,
    Left,
    Right,
}

/// A 2D vector of fixed-point coordinates (micro-units).
#[derive(Clone, Copy, Debug, PartialEq, Eq, Structural)]
pub struct Vec2 {
    pub x: i64,
    pub y: i64,
}

#[derive(Clone, Copy, Debug, PartialEq, Eq)]
pub struct PlayerState {
    pub movement_direction: Option<Direction>,
    pub position: Vec2,
}

#[derive(Clone, Copy, Debug, PartialEq, Eq)]
pub enum PlayerCommand {
    ChangeMovementDirection(Option<Direction>),
}

#[derive(Clone, Copy, Debug, PartialEq, Eq)]
pub enum PlayerAction {
    ChangedMovementDirection(Option<Direction>),
    Moved(Vec2),
}

#[derive(Clone, Copy, Debug, PartialEq, Eq)]
pub enum Event {
    PlayerCreated(PlayerId, PlayerState),
    PlayerRemoved(PlayerId),
    PlayerActed(PlayerId, PlayerAction),
}

/// Micro-units per distance unit.
pub const POSITION_UNIT: i64 = 1000000;

/// Movement speed, in distance units per second.
pub const PLAYER_SPEED: i64 = 2;

impl Direction {
    /// The unit vector of this direction, in whole distance units.
    pub open spec fn spec_unit_vector(self) -> Vec2 {
        match self {
            Direction::Up => Vec2 { x: 0, y: 1 },
            Direction::Down => Vec2 { x: 0, y: -1i64 },
            Direction::Right => Vec2 { x: 1, y: 0 },
            Direction::Left => Vec2 { x: -1i64, y: 0 },
        }
    }

    /// The unit vector of this direction, in whole distance units.
    pub fn to_vec2(&self) -> (r: Vec2)
        ensures
            r == self.spec_unit_vector(),
    {
        match self {
            Direction::Up => Vec2 { x: 0, y: 1 },
            Direction::Down => Vec2 { x: 0, y: -1 },
            Direction::Right => Vec2 { x: 1, y: 0 },
            Direction::Left => Vec2 { x: -1, y: 0 },
        }
    }
}

/// Equality test on optional directions, usable from verified code.
pub fn opt_direction_eq(a: Option<Direction>, b: Option<Direction>) -> (r: bool)
    ensures
        r == (a == b),
{
    match (a, b) {
        (None, None) => true,
        (Some(x), Some(y)) => x == y,
        _ => false,
    }
}

/// The state a freshly created player starts in: standing still at the
/// origin.
pub open spec fn spec_default_state() -> PlayerState {
    PlayerState { movement_direction: None, position: Vec2 { x: 0, y: 0 } }
}

impl PlayerState {
    /// The state a freshly created player starts in.
    pub fn default_state() -> (r: PlayerState)
        ensures
            r == spec_default_state(),
    {
        PlayerState { movement_direction: None, position: Vec2 { x: 0, y: 0 } }
    }
}

/// Clamps a mathematical integer into the i64 range.
pub open spec fn clamp_i64(v: int) -> int {
    if v > i64::MAX {
        i64::MAX as int
    } else if v < i64::MIN {
        i64::MIN as int
    } else {
        v
    }
}

/// Where a player moving in direction `d` ends up after `elapsed_micros`
/// microseconds: position + unit vector * speed * elapsed. Speed is in
/// units per second, so units/s times microseconds counts micro-units
/// directly. Coordinates saturate at the i64 range.
pub open spec fn spec_moved_position(pos: Vec2, d: Direction, elapsed_micros: u64) -> Vec2 {
    let u = d.spec_unit_vector();
    Vec2 {
        x: clamp_i64(pos.x + u.x * PLAYER_SPEED * elapsed_micros) as i64,
        y: clamp_i64(pos.y + u.y * PLAYER_SPEED * elapsed_micros) as i64,
    }
}

/// Clamps a wide intermediate value into i64.
fn clamp_i64_exec(v: i128) -> (r: i64)
    ensures
        r as int == clamp_i64(v as int),
{
    if v > i64::MAX as i128 {
        i64::MAX
    } else if v < i64::MIN as i128 {
        i64::MIN
    } else {
        v as i64
    }
}

/// One axis of the movement delta: unit component times speed times
/// elapsed microseconds.
fn axis_delta(unit: i64, elapsed_micros: u64) -> (r: i128)
    requires
        unit == -1i64 || unit == 0i64 || unit == 1i64,
    ensures
        r as int == unit * PLAYER_SPEED * elapsed_micros,
        -(PLAYER_SPEED as int) * elapsed_micros <= r <= PLAYER_SPEED as int * elapsed_micros,
{
    let ghost e = elapsed_micros as int;
    let step = PLAYER_SPEED as i128 * elapsed_micros as i128;
    if unit == 1 {
        proof {
            assert(unit as int * PLAYER_SPEED * e == PLAYER_SPEED * e) by (nonlinear_arith)
                requires
                    unit == 1i64,
            ;
        }
        step
    } else if unit == -1 {
        proof {
            assert(unit as int * PLAYER_SPEED * e == -(PLAYER_SPEED * e)) by (nonlinear_arith)
                requires
                    unit == -1i64,
            ;
        }
        -step
    } else {
        proof {
            assert(unit as int * PLAYER_SPEED * e == 0) by (nonlinear_arith)
                requires
                    unit == 0i64,
            ;
        }
        0
    }
}

/// Computes the moved position of `spec_moved_position` in wide arithmetic.
pub fn moved_position(pos: Vec2, d: Direction, elapsed_micros: u64) -> (r: Vec2)
    ensures
        r == spec_moved_position(pos, d, elapsed_micros),
{
    let u = d.to_vec2();
    let x = clamp_i64_exec(pos.x as i128 + axis_delta(u.x, elapsed_micros));
    let y = clamp_i64_exec(pos.y as i128 + axis_delta(u.y, elapsed_micros));
    Vec2 { x, y }
}

/// The mapping that an entry list denotes: later entries would win, though
/// a well-formed list never repeats an id.
pub open spec fn spec_map_of(s: Seq<(PlayerId, PlayerState)>) -> Map<PlayerId, PlayerState>
    decreases s.len(),
{
    if s.len() == 0 {
        Map::empty()
    } else {
        spec_map_of(s.drop_last()).insert(s.last().0, s.last().1)
    }
}

/// No player id occurs twice in the entry list.
pub open spec fn spec_ids_unique(s: Seq<(PlayerId, PlayerState)>) -> bool {
    forall|i: int, j: int| 0 <= i < j < s.len() ==> (#[trigger] s[i]).0 != (#[trigger] s[j]).0
}

/// Some entry of the list carries this id.
pub open spec fn spec_has_id(s: Seq<(PlayerId, PlayerState)>, id: PlayerId) -> bool {
    exists|i: int| 0 <= i < s.len() && (#[trigger] s[i]).0 == id
}

proof fn lemma_has_id_step(s: Seq<(PlayerId, PlayerState)>, id: PlayerId)
    requires
        s.len() > 0,
    ensures
        spec_has_id(s, id) <==> (spec_has_id(s.drop_last(), id) || s.last().0 == id),
{
    if spec_has_id(s, id) {
        let i = choose|i: int| 0 <= i < s.len() && (#[trigger] s[i]).0 == id;
        if i < s.len() - 1 {
            assert((#[trigger] s.drop_last()[i]).0 == id);
        }
    }
    if spec_has_id(s.drop_last(), id) {
        let i = choose|i: int| 0 <= i < s.drop_last().len() && (#[trigger] s.drop_last()[i]).0
            == id;
        assert((#[trigger] s[i]).0 == id);
    }
    if s.last().0 == id {
        assert((#[trigger] s[s.len() - 1]).0 == id);
    }
}

/// The map of an entry list has exactly the listed ids in its domain, and
/// under unique ids each listed entry gives its id's state.
pub proof fn lemma_map_of_entries(s: Seq<(PlayerId, PlayerState)>)
    ensures
        forall|id: PlayerId| #![trigger spec_map_of(s).dom().contains(id)]
            #![trigger spec_has_id(s, id)]
            spec_map_of(s).dom().contains(id) <==> spec_has_id(s, id),
        spec_ids_unique(s) ==> forall|i: int|
            0 <= i < s.len() ==> spec_map_of(s)[(#[trigger] s[i]).0] == s[i].1,
    decreases s.len(),
{
    if s.len() == 0 {
    } else {
        lemma_map_of_entries(s.drop_last());
        assert forall|id: PlayerId|
            spec_map_of(s).dom().contains(id) <==> spec_has_id(s, id) by {
            lemma_has_id_step(s, id);
        }
        if spec_ids_unique(s) {
            assert(spec_ids_unique(s.drop_last()));
            assert forall|i: int| 0 <= i < s.len() implies spec_map_of(s)[(#[trigger] s[i]).0]
                == s[i].1 by {
                if i < s.len() - 1 {
                    assert(s[i].0 != s.last().0);
                    assert((#[trigger] s.drop_last()[i]).0 == s[i].0);
                }
            }
        }
    }
}

/// Replacing the state stored at one listed id updates the denoted map at
/// that id alone.
proof fn lemma_map_of_update(s: Seq<(PlayerId, PlayerState)>, i: int, st: PlayerState)
    requires
        spec_ids_unique(s),
        0 <= i < s.len(),
    ensures
        spec_map_of(s.update(i, (s[i].0, st))) == spec_map_of(s).insert(s[i].0, st),
    decreases s.len(),
{
    let id = s[i].0;
    let t = s.update(i, (id, st));
    if i == s.len() - 1 {
        assert(t.drop_last() =~= s.drop_last());
        assert(spec_map_of(s).insert(id, st) =~= spec_map_of(s.drop_last()).insert(id, st));
    } else {
        assert(t.drop_last() =~= s.drop_last().update(i, (id, st)));
        assert(spec_ids_unique(s.drop_last()));
        assert(s.drop_last()[i] == s[i]);
        lemma_map_of_update(s.drop_last(), i, st);
        assert(s.last().0 != id);
        assert(spec_map_of(s.drop_last()).insert(id, st).insert(s.last().0, s.last().1)
            =~= spec_map_of(s.drop_last()).insert(s.last().0, s.last().1).insert(id, st));
    }
}

/// Removing one listed entry removes its id from the denoted map.
proof fn lemma_map_of_remove(s: Seq<(PlayerId, PlayerState)>, i: int)
    requires
        spec_ids_unique(s),
        0 <= i < s.len(),
    ensures
        spec_map_of(s.remove(i)) == spec_map_of(s).remove(s[i].0),
    decreases s.len(),
{
    let id = s[i].0;
    if i == s.len() - 1 {
        assert(s.remove(i) =~= s.drop_last());
        lemma_map_of_entries(s.drop_last());
        assert(!spec_map_of(s.drop_last()).dom().contains(id)) by {
            if spec_map_of(s.drop_last()).dom().contains(id) {
                let j = choose|j: int|
                    0 <= j < s.drop_last().len() && (#[trigger] s.drop_last()[j]).0 == id;
                assert(s[j].0 == s[i].0);
            }
        }
        assert(spec_map_of(s.drop_last()) =~= spec_map_of(s.drop_last()).insert(id, s[i].1).remove(
            id,
        ));
    } else {
        assert(s.remove(i).drop_last() =~= s.drop_last().remove(i));
        assert(spec_ids_unique(s.drop_last()));
        assert(s.drop_last()[i] == s[i]);
        lemma_map_of_remove(s.drop_last(), i);
        assert(s.remove(i).last() == s.last());
        assert(s.last().0 != id);
        assert(spec_map_of(s.drop_last()).remove(id).insert(s.last().0, s.last().1)
            =~= spec_map_of(s.drop_last()).insert(s.last().0, s.last().1).remove(id));
    }
}

/// Appending an entry for a fresh id inserts it into the denoted map.
proof fn lemma_map_of_push(s: Seq<(PlayerId, PlayerState)>, id: PlayerId, st: PlayerState)
    ensures
        spec_map_of(s.push((id, st))) == spec_map_of(s).insert(id, st),
{
    assert(s.push((id, st)).drop_last() =~= s);
}

/// The events a command gives rise to, against a given world mapping: a
/// direction change for a known player whose direction actually differs;
/// nothing for an unknown player or an unchanged direction.
pub open spec fn spec_command_events(
    m: Map<PlayerId, PlayerState>,
    id: PlayerId,
    cmd: PlayerCommand,
) -> Seq<Event> {
    match cmd {
        PlayerCommand::ChangeMovementDirection(d) => if m.dom().contains(id)
            && m[id].movement_direction != d {
            seq![Event::PlayerActed(id, PlayerAction::ChangedMovementDirection(d))]
        } else {
            Seq::empty()
        },
    }
}

/// The movement events of one tick over an entry list: one `Moved` per
/// player with a direction, in list order; none for players standing still.
pub open spec fn spec_update_events(
    s: Seq<(PlayerId, PlayerState)>,
    elapsed_micros: u64,
) -> Seq<Event>
    decreases s.len(),
{
    if s.len() == 0 {
        Seq::empty()
    } else {
        spec_update_events(s.drop_last(), elapsed_micros) + match s.last().1.movement_direction {
            Some(d) => seq![
                Event::PlayerActed(
                    s.last().0,
                    PlayerAction::Moved(spec_moved_position(s.last().1.position, d, elapsed_micros)),
                ),
            ],
            None => Seq::empty(),
        }
    }
}

/// The snapshot of an entry list: one `PlayerCreated` per entry, in order.
pub open spec fn spec_snapshot_of(s: Seq<(PlayerId, PlayerState)>) -> Seq<Event> {
    s.map_values(|p: (PlayerId, PlayerState)| Event::PlayerCreated(p.0, p.1))
}

/// A player state after one action: a direction change touches only the
/// direction, a move touches only the position.
pub open spec fn spec_acted(st: PlayerState, a: PlayerAction) -> PlayerState {
    match a {
        PlayerAction::ChangedMovementDirection(d) => PlayerState {
            movement_direction: d,
            position: st.position,
        },
        PlayerAction::Moved(p) => PlayerState { movement_direction: st.movement_direction, position: p },
    }
}

/// Index of the first entry carrying `id`, or -1 if there is none.
pub open spec fn spec_idx_of(s: Seq<(PlayerId, PlayerState)>, id: PlayerId) -> int
    decreases s.len(),
{
    if s.len() == 0 {
        -1
    } else if s.first().0 == id {
        0
    } else {
        let r = spec_idx_of(s.drop_first(), id);
        if r == -1 {
            -1
        } else {
            r + 1
        }
    }
}

proof fn lemma_idx_of_first(s: Seq<(PlayerId, PlayerState)>, i: int, id: PlayerId)
    requires
        0 <= i < s.len(),
        s[i].0 == id,
        forall|j: int| 0 <= j < i ==> (#[trigger] s[j]).0 != id,
    ensures
        spec_idx_of(s, id) == i,
    decreases i,
{
    if i == 0 {
    } else {
        assert(s.drop_first()[i - 1].0 == id);
        assert(forall|j: int| 0 <= j < i - 1 ==> (#[trigger] s.drop_first()[j]).0 != id);
        lemma_idx_of_first(s.drop_first(), i - 1, id);
    }
}

proof fn lemma_idx_of_absent(s: Seq<(PlayerId, PlayerState)>, id: PlayerId)
    requires
        !spec_has_id(s, id),
    ensures
        spec_idx_of(s, id) == -1,
    decreases s.len(),
{
    if s.len() == 0 {
    } else {
        assert(s.first().0 != id) by {
            assert((#[trigger] s[0]).0 == s.first().0);
        }
        assert(!spec_has_id(s.drop_first(), id)) by {
            if spec_has_id(s.drop_first(), id) {
                let k = choose|k: int|
                    0 <= k < s.drop_first().len() && (#[trigger] s.drop_first()[k]).0 == id;
                assert((#[trigger] s[k + 1]).0 == id);
            }
        }
        lemma_idx_of_absent(s.drop_first(), id);
    }
}

/// What one event does to the entry list itself: creation overwrites in
/// place or appends, removal closes the gap, an action rewrites one
/// entry's state; entries of other players keep their places.
pub open spec fn spec_apply_event_entries(
    s: Seq<(PlayerId, PlayerState)>,
    e: Event,
) -> Seq<(PlayerId, PlayerState)> {
    match e {
        Event::PlayerCreated(id, st) => {
            let i = spec_idx_of(s, id);
            if i == -1 {
                s.push((id, st))
            } else {
                s.update(i, (id, st))
            }
        },
        Event::PlayerRemoved(id) => {
            let i = spec_idx_of(s, id);
            if i == -1 {
                s
            } else {
                s.remove(i)
            }
        },
        Event::PlayerActed(id, a) => {
            let i = spec_idx_of(s, id);
            if i == -1 {
                s
            } else {
                s.update(i, (id, spec_acted(s[i].1, a)))
            }
        },
    }
}

/// What a sequence of events does to the entry list, first to last.
pub open spec fn spec_apply_events_entries(
    s: Seq<(PlayerId, PlayerState)>,
    es: Seq<Event>,
) -> Seq<(PlayerId, PlayerState)>
    decreases es.len(),
{
    if es.len() == 0 {
        s
    } else {
        spec_apply_events_entries(spec_apply_event_entries(s, es.first()), es.drop_first())
    }
}

/// What one event does to the world mapping. An action for an absent
/// player is a no-op, not an error.
pub open spec fn spec_apply_event(m: Map<PlayerId, PlayerState>, e: Event) -> Map<
    PlayerId,
    PlayerState,
> {
    match e {
        Event::PlayerCreated(id, st) => m.insert(id, st),
        Event::PlayerRemoved(id) => m.remove(id),
        Event::PlayerActed(id, a) => if m.dom().contains(id) {
            m.insert(id, spec_acted(m[id], a))
        } else {
            m
        },
    }
}

/// What a sequence of events does to the world mapping, first to last.
pub open spec fn spec_apply_events(m: Map<PlayerId, PlayerState>, es: Seq<Event>) -> Map<
    PlayerId,
    PlayerState,
>
    decreases es.len(),
{
    if es.len() == 0 {
        m
    } else {
        spec_apply_events(spec_apply_event(m, es.first()), es.drop_first())
    }
}

/// Creating a player and then removing it leaves the world without an
/// entry for it, whatever else the world held.
pub proof fn lemma_create_then_remove_leaves_no_entry(
    m: Map<PlayerId, PlayerState>,
    id: PlayerId,
    st: PlayerState,
)
    ensures
        spec_apply_events(
            m,
            seq![Event::PlayerCreated(id, st), Event::PlayerRemoved(id)],
        ) == m.remove(id),
        !spec_apply_events(
            m,
            seq![Event::PlayerCreated(id, st), Event::PlayerRemoved(id)],
        ).dom().contains(id),
{
    let es = seq![Event::PlayerCreated(id, st), Event::PlayerRemoved(id)];
    let es2 = seq![Event::PlayerRemoved(id)];
    let m1 = spec_apply_event(m, Event::PlayerCreated(id, st));
    let m2 = m1.remove(id);
    assert(es.first() == Event::PlayerCreated(id, st));
    assert(es.drop_first() =~= es2);
    assert(spec_apply_events(m, es) == spec_apply_events(m1, es2));
    assert(es2.first() == Event::PlayerRemoved(id));
    assert(es2.drop_first() =~= Seq::<Event>::empty());
    assert(spec_apply_events(m1, es2) == spec_apply_events(m2, Seq::<Event>::empty()));
    assert(m2 =~= m.remove(id));
}

/// A `Moved` action changes only the position of the player it names:
/// every other player is untouched, no player appears or disappears, and
/// the named player keeps its movement direction.
pub proof fn lemma_moved_changes_only_position(
    m: Map<PlayerId, PlayerState>,
    id: PlayerId,
    p: Vec2,
)
    ensures
        ({
            let m2 = spec_apply_event(m, Event::PlayerActed(id, PlayerAction::Moved(p)));
            &&& m2.dom() == m.dom()
            &&& forall|q: PlayerId| m.dom().contains(q) && q != id ==> #[trigger] m2[q] == m[q]
            &&& m.dom().contains(id) ==> m2[id].position == p && m2[id].movement_direction
                == m[id].movement_direction
        }),
{
    let m2 = spec_apply_event(m, Event::PlayerActed(id, PlayerAction::Moved(p)));
    assert(m2.dom() =~= m.dom());
}

/// Snapshot completeness: for a well-formed world, the snapshot holds
/// exactly one `PlayerCreated` per live player, carrying its current
/// state — no extras, no omissions, no duplicates.
pub proof fn lemma_snapshot_completeness(w: World)
    requires
        w.wf(),
    ensures
        ({
            let ss = spec_snapshot_of(w.entries());
            &&& ss.len() == w.entries().len()
            &&& forall|j: int| 0 <= j < ss.len() ==> #[trigger] ss[j] == Event::PlayerCreated(
                w.entries()[j].0,
                w@[w.entries()[j].0],
            )
            &&& forall|id: PlayerId| #[trigger] w@.dom().contains(id) <==> exists|j: int|
                0 <= j < ss.len() && #[trigger] ss[j] == Event::PlayerCreated(id, w@[id])
            &&& forall|j: int, k: int| 0 <= j < k < ss.len() ==> ss[j] != ss[k]
        }),
{
    let s = w.entries();
    let ss = spec_snapshot_of(s);
    lemma_map_of_entries(s);
    w.lemma_view_is_map_of_entries();
    assert forall|id: PlayerId| #[trigger] w@.dom().contains(id) implies exists|j: int|
        0 <= j < ss.len() && #[trigger] ss[j] == Event::PlayerCreated(id, w@[id]) by {
        let i = choose|i: int| 0 <= i < s.len() && (#[trigger] s[i]).0 == id;
        assert(ss[i] == Event::PlayerCreated(id, w@[id]));
    }
    assert forall|id: PlayerId|
        (exists|j: int| 0 <= j < ss.len() && #[trigger] ss[j] == Event::PlayerCreated(id, w@[id]))
        implies #[trigger] w@.dom().contains(id) by {
        let j = choose|j: int|
            0 <= j < ss.len() && #[trigger] ss[j] == Event::PlayerCreated(id, w@[id]);
        assert((#[trigger] s[j]).0 == id);
    }
}

/// Stale-command no-op: once a removal for a player has been applied, any
/// later command for that player yields no events at all.
pub proof fn lemma_stale_command_noop(
    m: Map<PlayerId, PlayerState>,
    id: PlayerId,
    cmd: PlayerCommand,
)
    ensures
        spec_command_events(spec_apply_event(m, Event::PlayerRemoved(id)), id, cmd)
            == Seq::<Event>::empty(),
{
}

/// The world: per-player state, keyed by player id, mutated only by
/// applying events.
pub struct World {
    players: Vec<(PlayerId, PlayerState)>,
}

impl View for World {
    type V = Map<PlayerId, PlayerState>;

    closed spec fn view(&self) -> Map<PlayerId, PlayerState> {
        spec_map_of(self.players@)
    }
}

impl World {
    /// The registry as an ordered list of (id, state) entries. The order is
    /// an implementation detail; under `wf` it carries no duplicate id.
    pub closed spec fn entries(self) -> Seq<(PlayerId, PlayerState)> {
        self.players@
    }

    /// Well-formed: no player id is registered twice.
    pub open spec fn wf(self) -> bool {
        spec_ids_unique(self.entries())
    }

    /// The mapping the world denotes is exactly the map of its entries.
    pub proof fn lemma_view_is_map_of_entries(self)
        ensures
            self@ == spec_map_of(self.entries()),
    {
    }

    pub fn new() -> (w: World)
        ensures
            w.wf(),
            w@ == Map::<PlayerId, PlayerState>::empty(),
            w.entries() == Seq::<(PlayerId, PlayerState)>::empty(),
    {
        World { players: Vec::new() }
    }

    /// How many players currently exist.
    pub fn player_count(&self) -> (n: usize)
        ensures
            n == self.entries().len(),
    {
        self.players.len()
    }

    /// Whether a player currently exists in the world.
    pub fn contains_player(&self, id: PlayerId) -> (r: bool)
        ensures
            r == self@.dom().contains(id),
    {
        proof {
            lemma_map_of_entries(self.entries());
        }
        self.find_index(id).is_some()
    }

    /// Index of the entry carrying `id`, if any.
    fn find_index(&self, id: PlayerId) -> (r: Option<usize>)
        ensures
            match r {
                Some(i) => i < self.entries().len() && self.entries()[i as int].0 == id && forall|
                    j: int,
                | 0 <= j < i ==> (#[trigger] self.entries()[j]).0 != id,
                None => !spec_has_id(self.entries(), id),
            },
    {
        let mut i: usize = 0;
        let len = self.players.len();
        while i < len
            invariant
                i <= len == self.players@.len(),
                forall|j: int| 0 <= j < i ==> (#[trigger] self.players@[j]).0 != id,
            decreases len - i,
        {
            if self.players[i].0 == id {
                return Some(i);
            }
            i += 1;
        }
        None
    }

    /// The creation events for a new player: one `PlayerCreated` carrying
    /// the default state — no direction, origin position.
    pub fn spawn_player(&self, player_id: PlayerId) -> (events: Vec<Event>)
        ensures
            events@ == seq![Event::PlayerCreated(player_id, spec_default_state())],
    {
        let mut events: Vec<Event> = Vec::new();
        events.push(Event::PlayerCreated(player_id, PlayerState::default_state()));
        events
    }

    /// The removal events for a departing player: one `PlayerRemoved`.
    pub fn remove_player(&self, player_id: PlayerId) -> (events: Vec<Event>)
        ensures
            events@ == seq![Event::PlayerRemoved(player_id)],
    {
        let mut events: Vec<Event> = Vec::new();
        events.push(Event::PlayerRemoved(player_id));
        events
    }

    /// Turns one client command into events, against the current state.
    /// A command for an untracked player, or one that changes nothing, is
    /// silently ignored.
    pub fn process_player_command(&self, player_id: PlayerId, command: PlayerCommand) -> (events:
        Vec<Event>)
        requires
            self.wf(),
        ensures
            events@ == spec_command_events(self@, player_id, command),
    {
        proof {
            lemma_map_of_entries(self.entries());
        }
        let mut events: Vec<Event> = Vec::new();
        match self.find_index(player_id) {
            Some(i) => {
                let st = self.players[i].1;
                let PlayerCommand::ChangeMovementDirection(d) = command;
                if !opt_direction_eq(st.movement_direction, d) {
                    events.push(
                        Event::PlayerActed(player_id, PlayerAction::ChangedMovementDirection(d)),
                    );
                }
            },
            None => {},
        }
        events
    }

    /// The movement events of one tick: every player with a direction gets
    /// one `Moved` carrying its integrated position; players standing
    /// still produce nothing.
    pub fn update(&self, elapsed_micros: u64) -> (events: Vec<Event>)
        ensures
            events@ == spec_update_events(self.entries(), elapsed_micros),
    {
        let mut events: Vec<Event> = Vec::new();
        let len = self.players.len();
        let mut i: usize = 0;
        while i < len
            invariant
                i <= len == self.players@.len(),
                events@ == spec_update_events(self.players@.take(i as int), elapsed_micros),
            decreases len - i,
        {
            let ghost prefix = self.players@.take(i as int);
            let (id, st) = self.players[i];
            match st.movement_direction {
                Some(d) => {
                    let new_pos = moved_position(st.position, d, elapsed_micros);
                    events.push(Event::PlayerActed(id, PlayerAction::Moved(new_pos)));
                },
                None => {},
            }
            i += 1;
            proof {
                let next = self.players@.take(i as int);
                assert(next.drop_last() =~= prefix);
                assert(next.last() == self.players@[i - 1]);
            }
        }
        proof {
            assert(self.players@.take(len as int) =~= self.players@);
        }
        events
    }

    /// A full reconstruction of the current state: one `PlayerCreated` per
    /// live player with its current state, nothing else.
    pub fn get_snapshot(&self) -> (events: Vec<Event>)
        ensures
            events@ == spec_snapshot_of(self.entries()),
    {
        let mut events: Vec<Event> = Vec::new();
        let len = self.players.len();
        let mut i: usize = 0;
        while i < len
            invariant
                i <= len == self.players@.len(),
                events@ == spec_snapshot_of(self.players@.take(i as int)),
            decreases len - i,
        {
            let (id, st) = self.players[i];
            events.push(Event::PlayerCreated(id, st));
            i += 1;
            proof {
                assert(events@ =~= spec_snapshot_of(self.players@.take(i as int)));
            }
        }
        proof {
            assert(self.players@.take(len as int) =~= self.players@);
        }
        events
    }

    /// Applies one event to the registry; the only mutation path.
    fn apply_event(&mut self, event: Event)
        requires
            old(self).wf(),
        ensures
            final(self).wf(),
            final(self)@ == spec_apply_event(old(self)@, event),
            final(self).entries() == spec_apply_event_entries(old(self).entries(), event),
    {
        proof {
            lemma_map_of_entries(self.players@);
        }
        match event {
            Event::PlayerCreated(id, st) => {
                match self.find_index(id) {
                    Some(i) => {
                        proof {
                            lemma_map_of_update(self.players@, i as int, st);
                            lemma_idx_of_first(self.players@, i as int, id);
                        }
                        let ghost before = self.players@;
                        let entry = vstd::std_specs::vec::vec_index_mut(&mut self.players, i);
                        *entry = (id, st);
                        proof {
                            assert(spec_ids_unique(self.players@)) by {
                                assert(forall|j: int|
                                    0 <= j < self.players@.len() ==> (#[trigger] self.players@[j]).0
                                        == before[j].0);
                            }
                        }
                    },
                    None => {
                        proof {
                            lemma_map_of_push(self.players@, id, st);
                            lemma_idx_of_absent(self.players@, id);
                        }
                        let ghost before = self.players@;
                        self.players.push((id, st));
                        proof {
                            assert(spec_ids_unique(self.players@)) by {
                                assert(forall|j: int|
                                    0 <= j < before.len() ==> (#[trigger] self.players@[j])
                                        == before[j]);
                            }
                        }
                    },
                }
            },
            Event::PlayerRemoved(id) => {
                match self.find_index(id) {
                    Some(i) => {
                        proof {
                            lemma_map_of_remove(self.players@, i as int);
                            lemma_idx_of_first(self.players@, i as int, id);
                        }
                        let ghost before = self.players@;
                        self.players.remove(i);
                        proof {
                            assert(spec_ids_unique(self.players@)) by {
                                assert(forall|j: int|
                                    0 <= j < self.players@.len() ==> #[trigger] self.players@[j]
                                        == if j < i { before[j] } else { before[j + 1] });
                            }
                        }
                    },
                    None => {
                        proof {
                            assert(old(self)@.remove(id) =~= old(self)@);
                            lemma_idx_of_absent(self.players@, id);
                        }
                    },
                }
            },
            Event::PlayerActed(id, action) => {
                match self.find_index(id) {
                    Some(i) => {
                        let st = self.players[i].1;
                        let new_st = match action {
                            PlayerAction::ChangedMovementDirection(d) => PlayerState {
                                movement_direction: d,
                                position: st.position,
                            },
                            PlayerAction::Moved(p) => PlayerState {
                                movement_direction: st.movement_direction,
                                position: p,
                            },
                        };
                        proof {
                            lemma_map_of_update(self.players@, i as int, new_st);
                            lemma_idx_of_first(self.players@, i as int, id);
                        }
                        let ghost before = self.players@;
                        let entry = vstd::std_specs::vec::vec_index_mut(&mut self.players, i);
                        *entry = (id, new_st);
                        proof {
                            assert(spec_ids_unique(self.players@)) by {
                                assert(forall|j: int|
                                    0 <= j < self.players@.len() ==> (#[trigger] self.players@[j]).0
                                        == before[j].0);
                            }
                        }
                    },
                    None => {
                        proof {
                            lemma_idx_of_absent(self.players@, id);
                        }
                    },
                }
            },
        }
    }

    /// Applies a sequence of events, first to last; the sole public
    /// mutation path.
    pub fn apply_events(&mut self, events: &Vec<Event>)
        requires
            old(self).wf(),
        ensures
            final(self).wf(),
            final(self)@ == spec_apply_events(old(self)@, events@),
            final(self).entries() == spec_apply_events_entries(old(self).entries(), events@),
    {
        let len = events.len();
        let mut i: usize = 0;
        proof {
            assert(events@.skip(0) =~= events@);
        }
        while i < len
            invariant
                i <= len == events@.len(),
                self.wf(),
                spec_apply_events(old(self)@, events@) == spec_apply_events(
                    self@,
                    events@.skip(i as int),
                ),
                spec_apply_events_entries(old(self).entries(), events@)
                    == spec_apply_events_entries(self.entries(), events@.skip(i as int)),
            decreases len - i,
        {
            let ghost pending = events@.skip(i as int);
            self.apply_event(events[i]);
            i += 1;
            proof {
                assert(pending.drop_first() =~= events@.skip(i as int));
            }
        }
    }
}

} // verus!
