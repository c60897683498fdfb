//! Byte encoding of the domain messages that cross the wire inside a
//! frame's payload: sequences of client commands and sequences of world
//! events. The encoding is symmetric: a count prefix, then each message as
//! a tag byte followed by its fields, integers big-endian, coordinates
//! offset so the sign needs no separate treatment.

use vstd::prelude::*;

use crate::codec::{be32_bytes, be32_val, lemma_be32_round_trip, read_be32, write_be32};
use crate::world::{Direction, Event, PlayerAction, PlayerCommand, PlayerState, Vec2};

verus! {

/// Value of eight bytes read as a big-endian unsigned integer.
pub open spec fn be64_val(b: Seq<u8>) -> int
    recommends
        b.len() == 8,
{
    b[0] * 0x100000000000000 + b[1] * 0x1000000000000 + b[2] * 0x10000000000 + b[3] * 0x100000000
        + b[4] * 0x1000000 + b[5] * 0x10000 + b[6] * 0x100 + b[7]
}

/// The eight big-endian bytes of a value below 2^64.
pub open spec fn be64_bytes(n: int) -> Seq<u8>
    recommends
        0 <= n < 0x10000000000000000,
{
    seq![
        (n / 0x100000000000000 % 0x100) as u8,
        (n / 0x1000000000000 % 0x100) as u8,
        (n / 0x10000000000 % 0x100) as u8,
        (n / 0x100000000 % 0x100) as u8,
        (n / 0x1000000 % 0x100) as u8,
        (n / 0x10000 % 0x100) as u8,
        (n / 0x100 % 0x100) as u8,
        (n % 0x100) as u8,
    ]
}

pub proof fn lemma_be64_round_trip(n: int)
    requires
        0 <= n < 0x10000000000000000,
    ensures
        be64_val(be64_bytes(n)) == n,
{
    let n1 = n / 0x100;
    let n2 = n / 0x10000;
    let n3 = n / 0x1000000;
    let n4 = n / 0x100000000;
    let n5 = n / 0x10000000000;
    let n6 = n / 0x1000000000000;
    let n7 = n / 0x100000000000000;
    vstd::arithmetic::div_mod::lemma_div_denominator(n, 0x100, 0x100);
    vstd::arithmetic::div_mod::lemma_div_denominator(n, 0x10000, 0x100);
    vstd::arithmetic::div_mod::lemma_div_denominator(n, 0x1000000, 0x100);
    vstd::arithmetic::div_mod::lemma_div_denominator(n, 0x100000000, 0x100);
    vstd::arithmetic::div_mod::lemma_div_denominator(n, 0x10000000000, 0x100);
    vstd::arithmetic::div_mod::lemma_div_denominator(n, 0x1000000000000, 0x100);
    vstd::arithmetic::div_mod::lemma_fundamental_div_mod(n, 0x100);
    vstd::arithmetic::div_mod::lemma_fundamental_div_mod(n1, 0x100);
    vstd::arithmetic::div_mod::lemma_fundamental_div_mod(n2, 0x100);
    vstd::arithmetic::div_mod::lemma_fundamental_div_mod(n3, 0x100);
    vstd::arithmetic::div_mod::lemma_fundamental_div_mod(n4, 0x100);
    vstd::arithmetic::div_mod::lemma_fundamental_div_mod(n5, 0x100);
    vstd::arithmetic::div_mod::lemma_fundamental_div_mod(n6, 0x100);
    assert(n7 < 0x100) by (nonlinear_arith)
        requires
            n < 0x10000000000000000,
            n7 == n / 0x100000000000000,
    ;
    assert(n7 % 0x100 == n7) by {
        vstd::arithmetic::div_mod::lemma_small_mod(n7 as nat, 0x100);
    }
    assert(n7 * 0x100000000000000 + (n6 % 0x100) * 0x1000000000000 == n6 * 0x1000000000000);
    assert(n6 * 0x1000000000000 + (n5 % 0x100) * 0x10000000000 == n5 * 0x10000000000);
    assert(n5 * 0x10000000000 + (n4 % 0x100) * 0x100000000 == n4 * 0x100000000);
    assert(n4 * 0x100000000 + (n3 % 0x100) * 0x1000000 == n3 * 0x1000000);
    assert(n3 * 0x1000000 + (n2 % 0x100) * 0x10000 == n2 * 0x10000);
    assert(n2 * 0x10000 + (n1 % 0x100) * 0x100 == n1 * 0x100);
    assert(n1 * 0x100 + n % 0x100 == n);
}

/// Appends the eight big-endian bytes of `n` to `out`.
pub fn write_be64(out: &mut Vec<u8>, n: u64)
    ensures
        final(out)@ == old(out)@ + be64_bytes(n as int),
{
    out.push((n / 0x100000000000000 % 0x100) as u8);
    out.push((n / 0x1000000000000 % 0x100) as u8);
    out.push((n / 0x10000000000 % 0x100) as u8);
    out.push((n / 0x100000000 % 0x100) as u8);
    out.push((n / 0x1000000 % 0x100) as u8);
    out.push((n / 0x10000 % 0x100) as u8);
    out.push((n / 0x100 % 0x100) as u8);
    out.push((n % 0x100) as u8);
    assert(final(out)@ =~= old(out)@ + be64_bytes(n as int));
}

/// Reads the big-endian value of the eight bytes at `i`.
pub fn read_be64(buf: &Vec<u8>, i: usize) -> (n: u64)
    requires
        i + 8 <= buf@.len(),
    ensures
        n == be64_val(buf@.subrange(i as int, i + 8)),
{
    let _len = buf.len();
    let b0 = buf[i] as u64;
    let b1 = buf[i + 1] as u64;
    let b2 = buf[i + 2] as u64;
    let b3 = buf[i + 3] as u64;
    let b4 = buf[i + 4] as u64;
    let b5 = buf[i + 5] as u64;
    let b6 = buf[i + 6] as u64;
    let b7 = buf[i + 7] as u64;
    b0 * 0x100000000000000 + b1 * 0x1000000000000 + b2 * 0x10000000000 + b3 * 0x100000000 + b4
        * 0x1000000 + b5 * 0x10000 + b6 * 0x100 + b7
}

/// A signed coordinate on the wire: offset by 2^63 so it encodes as an
/// unsigned big-endian value.
pub open spec fn coord_bytes(x: int) -> Seq<u8>
    recommends
        i64::MIN <= x <= i64::MAX,
{
    be64_bytes(x + 0x8000000000000000)
}

/// The coordinate encoded by eight bytes.
pub open spec fn coord_val(b: Seq<u8>) -> int
    recommends
        b.len() == 8,
{
    be64_val(b) - 0x8000000000000000
}

/// Appends the eight offset big-endian bytes of a coordinate.
pub fn write_coord(out: &mut Vec<u8>, x: i64)
    ensures
        final(out)@ == old(out)@ + coord_bytes(x as int),
{
    let wide: i128 = x as i128 + 0x8000000000000000i128;
    let u: u64 = wide as u64;
    write_be64(out, u);
}

/// Reads the coordinate stored at `i`.
pub fn read_coord(buf: &Vec<u8>, i: usize) -> (x: i64)
    requires
        i + 8 <= buf@.len(),
    ensures
        x as int == coord_val(buf@.subrange(i as int, i + 8)),
{
    let u = read_be64(buf, i);
    proof {
        assert(0 <= be64_val(buf@.subrange(i as int, i + 8)) < 0x10000000000000000);
    }
    let wide: i128 = u as i128 - 0x8000000000000000i128;
    wide as i64
}

/// The byte standing for an optional movement direction.
pub open spec fn opt_dir_byte(od: Option<Direction>) -> u8 {
    match od {
        None => 0u8,
        Some(Direction::Up) => 1u8,
        Some(Direction::Down) => 2u8,
        Some(Direction::Left) => 3u8,
        Some(Direction::Right) => 4u8,
    }
}

/// The optional direction a byte stands for; bytes above 4 are malformed.
pub open spec fn parse_opt_dir(b: u8) -> Option<Option<Direction>> {
    if b == 0 {
        Some(None)
    } else if b == 1 {
        Some(Some(Direction::Up))
    } else if b == 2 {
        Some(Some(Direction::Down))
    } else if b == 3 {
        Some(Some(Direction::Left))
    } else if b == 4 {
        Some(Some(Direction::Right))
    } else {
        None
    }
}

/// Appends the byte of an optional direction.
pub fn write_opt_dir(out: &mut Vec<u8>, od: Option<Direction>)
    ensures
        final(out)@ == old(out)@ + seq![opt_dir_byte(od)],
{
    let b: u8 = match od {
        None => 0,
        Some(Direction::Up) => 1,
        Some(Direction::Down) => 2,
        Some(Direction::Left) => 3,
        Some(Direction::Right) => 4,
    };
    out.push(b);
    assert(final(out)@ =~= old(out)@ + seq![opt_dir_byte(od)]);
}

/// Decodes the byte of an optional direction.
pub fn read_opt_dir(b: u8) -> (r: Option<Option<Direction>>)
    ensures
        r == parse_opt_dir(b),
{
    if b == 0 {
        Some(None)
    } else if b == 1 {
        Some(Some(Direction::Up))
    } else if b == 2 {
        Some(Some(Direction::Down))
    } else if b == 3 {
        Some(Some(Direction::Left))
    } else if b == 4 {
        Some(Some(Direction::Right))
    } else {
        None
    }
}

/// A player state on the wire: direction byte, then both coordinates.
pub open spec fn spec_encode_state(st: PlayerState) -> Seq<u8> {
    seq![opt_dir_byte(st.movement_direction)] + coord_bytes(st.position.x as int) + coord_bytes(
        st.position.y as int,
    )
}

/// A command on the wire: a variant tag, then its field.
pub open spec fn spec_encode_command(c: PlayerCommand) -> Seq<u8> {
    match c {
        PlayerCommand::ChangeMovementDirection(od) => seq![0u8, opt_dir_byte(od)],
    }
}

/// An action on the wire: a variant tag, then its field.
pub open spec fn spec_encode_action(a: PlayerAction) -> Seq<u8> {
    match a {
        PlayerAction::ChangedMovementDirection(od) => seq![0u8, opt_dir_byte(od)],
        PlayerAction::Moved(p) => seq![1u8] + coord_bytes(p.x as int) + coord_bytes(p.y as int),
    }
}

/// An event on the wire: a variant tag, the player id, then the fields.
pub open spec fn spec_encode_event(e: Event) -> Seq<u8> {
    match e {
        Event::PlayerCreated(id, st) => seq![0u8] + be64_bytes(id as int) + spec_encode_state(st),
        Event::PlayerRemoved(id) => seq![1u8] + be64_bytes(id as int),
        Event::PlayerActed(id, a) => seq![2u8] + be64_bytes(id as int) + spec_encode_action(a),
    }
}

/// The commands of a list, encoded back to back.
pub open spec fn spec_encode_command_items(cs: Seq<PlayerCommand>) -> Seq<u8>
    decreases cs.len(),
{
    if cs.len() == 0 {
        Seq::empty()
    } else {
        spec_encode_command(cs.first()) + spec_encode_command_items(cs.drop_first())
    }
}

/// The events of a list, encoded back to back.
pub open spec fn spec_encode_event_items(es: Seq<Event>) -> Seq<u8>
    decreases es.len(),
{
    if es.len() == 0 {
        Seq::empty()
    } else {
        spec_encode_event(es.first()) + spec_encode_event_items(es.drop_first())
    }
}

/// A command list on the wire: a big-endian count, then the commands.
pub open spec fn spec_encode_commands(cs: Seq<PlayerCommand>) -> Seq<u8>
    recommends
        cs.len() <= u32::MAX,
{
    be32_bytes(cs.len() as int) + spec_encode_command_items(cs)
}

/// An event list on the wire: a big-endian count, then the events.
pub open spec fn spec_encode_events(es: Seq<Event>) -> Seq<u8>
    recommends
        es.len() <= u32::MAX,
{
    be32_bytes(es.len() as int) + spec_encode_event_items(es)
}

proof fn lemma_bytes_assoc(a: Seq<u8>, b: Seq<u8>, c: Seq<u8>)
    ensures
        (a + b) + c == a + (b + c),
{
    assert((a + b) + c =~= a + (b + c));
}

proof fn lemma_encode_command_items_snoc(cs: Seq<PlayerCommand>, c: PlayerCommand)
    ensures
        spec_encode_command_items(cs.push(c)) == spec_encode_command_items(cs)
            + spec_encode_command(c),
    decreases cs.len(),
{
    let enc = spec_encode_command(c);
    if cs.len() == 0 {
        assert(cs.push(c).first() == c);
        assert(cs.push(c).drop_first() =~= Seq::<PlayerCommand>::empty());
        assert(spec_encode_command_items(Seq::<PlayerCommand>::empty()) == Seq::<u8>::empty());
        assert(enc + Seq::<u8>::empty() =~= Seq::<u8>::empty() + enc);
    } else {
        let f = spec_encode_command(cs.first());
        let rest = cs.drop_first();
        assert(cs.push(c).first() == cs.first());
        assert(cs.push(c).drop_first() =~= rest.push(c));
        lemma_encode_command_items_snoc(rest, c);
        lemma_bytes_assoc(f, spec_encode_command_items(rest), enc);
    }
}

proof fn lemma_encode_event_items_snoc(es: Seq<Event>, e: Event)
    ensures
        spec_encode_event_items(es.push(e)) == spec_encode_event_items(es) + spec_encode_event(e),
    decreases es.len(),
{
    let enc = spec_encode_event(e);
    if es.len() == 0 {
        assert(es.push(e).first() == e);
        assert(es.push(e).drop_first() =~= Seq::<Event>::empty());
        assert(spec_encode_event_items(Seq::<Event>::empty()) == Seq::<u8>::empty());
        assert(enc + Seq::<u8>::empty() =~= Seq::<u8>::empty() + enc);
    } else {
        let f = spec_encode_event(es.first());
        let rest = es.drop_first();
        assert(es.push(e).first() == es.first());
        assert(es.push(e).drop_first() =~= rest.push(e));
        lemma_encode_event_items_snoc(rest, e);
        lemma_bytes_assoc(f, spec_encode_event_items(rest), enc);
    }
}

/// Appends one encoded player state.
fn write_state(out: &mut Vec<u8>, st: PlayerState)
    ensures
        final(out)@ == old(out)@ + spec_encode_state(st),
{
    write_opt_dir(out, st.movement_direction);
    write_coord(out, st.position.x);
    write_coord(out, st.position.y);
    assert(final(out)@ =~= old(out)@ + spec_encode_state(st));
}

/// Appends one encoded command.
fn write_command(out: &mut Vec<u8>, c: PlayerCommand)
    ensures
        final(out)@ == old(out)@ + spec_encode_command(c),
{
    match c {
        PlayerCommand::ChangeMovementDirection(od) => {
            out.push(0u8);
            write_opt_dir(out, od);
        },
    }
    assert(final(out)@ =~= old(out)@ + spec_encode_command(c));
}

/// Appends one encoded action.
fn write_action(out: &mut Vec<u8>, a: PlayerAction)
    ensures
        final(out)@ == old(out)@ + spec_encode_action(a),
{
    match a {
        PlayerAction::ChangedMovementDirection(od) => {
            out.push(0u8);
            write_opt_dir(out, od);
        },
        PlayerAction::Moved(p) => {
            out.push(1u8);
            write_coord(out, p.x);
            write_coord(out, p.y);
        },
    }
    assert(final(out)@ =~= old(out)@ + spec_encode_action(a));
}

/// Appends one encoded event.
fn write_event(out: &mut Vec<u8>, e: &Event)
    ensures
        final(out)@ == old(out)@ + spec_encode_event(*e),
{
    match e {
        Event::PlayerCreated(id, st) => {
            out.push(0u8);
            write_be64(out, *id as u64);
            write_state(out, *st);
        },
        Event::PlayerRemoved(id) => {
            out.push(1u8);
            write_be64(out, *id as u64);
        },
        Event::PlayerActed(id, a) => {
            out.push(2u8);
            write_be64(out, *id as u64);
            write_action(out, *a);
        },
    }
    assert(final(out)@ =~= old(out)@ + spec_encode_event(*e));
}

/// Encodes a command list: count prefix, then each command in order.
pub fn encode_commands(commands: &Vec<PlayerCommand>) -> (r: Vec<u8>)
    requires
        commands@.len() <= u32::MAX,
    ensures
        r@ == spec_encode_commands(commands@),
{
    let mut out: Vec<u8> = Vec::new();
    write_be32(&mut out, commands.len() as u32);
    let len = commands.len();
    let mut i: usize = 0;
    while i < len
        invariant
            i <= len == commands@.len() <= u32::MAX,
            out@ == be32_bytes(commands@.len() as int) + spec_encode_command_items(
                commands@.take(i as int),
            ),
        decreases len - i,
    {
        let ghost prefix = commands@.take(i as int);
        write_command(&mut out, commands[i]);
        i += 1;
        proof {
            assert(commands@.take(i as int) =~= prefix.push(commands@[i - 1]));
            lemma_encode_command_items_snoc(prefix, commands@[i - 1]);
            assert(out@ =~= be32_bytes(commands@.len() as int) + spec_encode_command_items(
                commands@.take(i as int),
            ));
        }
    }
    proof {
        assert(commands@.take(len as int) =~= commands@);
    }
    out
}

/// Encodes an event list: count prefix, then each event in order.
pub fn encode_events(events: &Vec<Event>) -> (r: Vec<u8>)
    requires
        events@.len() <= u32::MAX,
    ensures
        r@ == spec_encode_events(events@),
{
    let mut out: Vec<u8> = Vec::new();
    write_be32(&mut out, events.len() as u32);
    let len = events.len();
    let mut i: usize = 0;
    while i < len
        invariant
            i <= len == events@.len() <= u32::MAX,
            out@ == be32_bytes(events@.len() as int) + spec_encode_event_items(
                events@.take(i as int),
            ),
        decreases len - i,
    {
        let ghost prefix = events@.take(i as int);
        write_event(&mut out, &events[i]);
        i += 1;
        proof {
            assert(events@.take(i as int) =~= prefix.push(events@[i - 1]));
            lemma_encode_event_items_snoc(prefix, events@[i - 1]);
            assert(out@ =~= be32_bytes(events@.len() as int) + spec_encode_event_items(
                events@.take(i as int),
            ));
        }
    }
    proof {
        assert(events@.take(len as int) =~= events@);
    }
    out
}

/// Parses one command at the front of a buffer: the command and the bytes
/// it took. Malformed or truncated input parses to nothing.
pub open spec fn spec_parse_command(b: Seq<u8>) -> Option<(PlayerCommand, int)> {
    if b.len() < 2 {
        None
    } else if b[0] != 0u8 {
        None
    } else {
        match parse_opt_dir(b[1]) {
            None => None,
            Some(od) => Some((PlayerCommand::ChangeMovementDirection(od), 2)),
        }
    }
}

/// Parses one player state at the front of a buffer.
pub open spec fn spec_parse_state(b: Seq<u8>) -> Option<(PlayerState, int)> {
    if b.len() < 17 {
        None
    } else {
        match parse_opt_dir(b[0]) {
            None => None,
            Some(od) => Some(
                (
                    PlayerState {
                        movement_direction: od,
                        position: Vec2 {
                            x: coord_val(b.subrange(1, 9)) as i64,
                            y: coord_val(b.subrange(9, 17)) as i64,
                        },
                    },
                    17,
                ),
            ),
        }
    }
}

/// Parses one action at the front of a buffer.
pub open spec fn spec_parse_action(b: Seq<u8>) -> Option<(PlayerAction, int)> {
    if b.len() < 1 {
        None
    } else if b[0] == 0u8 {
        if b.len() < 2 {
            None
        } else {
            match parse_opt_dir(b[1]) {
                None => None,
                Some(od) => Some((PlayerAction::ChangedMovementDirection(od), 2)),
            }
        }
    } else if b[0] == 1u8 {
        if b.len() < 17 {
            None
        } else {
            Some(
                (
                    PlayerAction::Moved(
                        Vec2 {
                            x: coord_val(b.subrange(1, 9)) as i64,
                            y: coord_val(b.subrange(9, 17)) as i64,
                        },
                    ),
                    17,
                ),
            )
        }
    } else {
        None
    }
}

/// Parses one event at the front of a buffer. An id too wide for this
/// machine's player handles is malformed.
pub open spec fn spec_parse_event(b: Seq<u8>) -> Option<(Event, int)> {
    if b.len() < 9 {
        None
    } else {
        let id_val = be64_val(b.subrange(1, 9));
        if id_val > usize::MAX {
            None
        } else {
            let id = id_val as usize;
            if b[0] == 0u8 {
                match spec_parse_state(b.skip(9)) {
                    None => None,
                    Some((st, sz)) => Some((Event::PlayerCreated(id, st), 9 + sz)),
                }
            } else if b[0] == 1u8 {
                Some((Event::PlayerRemoved(id), 9))
            } else if b[0] == 2u8 {
                match spec_parse_action(b.skip(9)) {
                    None => None,
                    Some((a, sz)) => Some((Event::PlayerActed(id, a), 9 + sz)),
                }
            } else {
                None
            }
        }
    }
}

/// Parses exactly `count` commands filling the whole buffer.
pub open spec fn spec_parse_command_items(b: Seq<u8>, count: nat) -> Option<Seq<PlayerCommand>>
    decreases count,
{
    if count == 0 {
        if b.len() == 0 {
            Some(Seq::empty())
        } else {
            None
        }
    } else {
        match spec_parse_command(b) {
            None => None,
            Some((c, sz)) => match spec_parse_command_items(b.skip(sz), (count - 1) as nat) {
                None => None,
                Some(rest) => Some(seq![c] + rest),
            },
        }
    }
}

/// Parses exactly `count` events filling the whole buffer.
pub open spec fn spec_parse_event_items(b: Seq<u8>, count: nat) -> Option<Seq<Event>>
    decreases count,
{
    if count == 0 {
        if b.len() == 0 {
            Some(Seq::empty())
        } else {
            None
        }
    } else {
        match spec_parse_event(b) {
            None => None,
            Some((e, sz)) => match spec_parse_event_items(b.skip(sz), (count - 1) as nat) {
                None => None,
                Some(rest) => Some(seq![e] + rest),
            },
        }
    }
}

/// Parses a whole command-list payload: count prefix, then exactly that
/// many commands, with no bytes left over.
pub open spec fn spec_parse_commands(b: Seq<u8>) -> Option<Seq<PlayerCommand>> {
    if b.len() < 4 {
        None
    } else {
        spec_parse_command_items(b.skip(4), be32_val(b.subrange(0, 4)) as nat)
    }
}

/// Parses a whole event-list payload: count prefix, then exactly that
/// many events, with no bytes left over.
pub open spec fn spec_parse_events(b: Seq<u8>) -> Option<Seq<Event>> {
    if b.len() < 4 {
        None
    } else {
        spec_parse_event_items(b.skip(4), be32_val(b.subrange(0, 4)) as nat)
    }
}

/// Puts already-parsed commands in front of a parse outcome.
pub open spec fn prepend_commands(
    acc: Seq<PlayerCommand>,
    d: Option<Seq<PlayerCommand>>,
) -> Option<Seq<PlayerCommand>> {
    match d {
        None => None,
        Some(s) => Some(acc + s),
    }
}

/// Puts already-parsed events in front of a parse outcome.
pub open spec fn prepend_events(acc: Seq<Event>, d: Option<Seq<Event>>) -> Option<Seq<Event>> {
    match d {
        None => None,
        Some(s) => Some(acc + s),
    }
}

/// Decodes a command-list payload, or nothing if any byte of it is
/// malformed, truncated, or left over.
pub fn parse_commands(bytes: &Vec<u8>) -> (r: Option<Vec<PlayerCommand>>)
    ensures
        match spec_parse_commands(bytes@) {
            None => r is None,
            Some(cs) => r matches Some(v) && v@ == cs,
        },
{
    let len = bytes.len();
    if len < 4 {
        return None;
    }
    let count = read_be32(bytes, 0);
    let mut acc: Vec<PlayerCommand> = Vec::new();
    let mut idx: usize = 4;
    let mut k: u32 = 0;
    proof {
        assert(bytes@.subrange(4, len as int) =~= bytes@.skip(4));
        match spec_parse_command_items(bytes@.skip(4), count as nat) {
            None => {},
            Some(s) => {
                assert(acc@ + s =~= s);
            },
        }
    }
    while k < count
        invariant
            4 <= idx <= len == bytes@.len(),
            k <= count,
            spec_parse_commands(bytes@) == prepend_commands(
                acc@,
                spec_parse_command_items(
                    bytes@.subrange(idx as int, len as int),
                    (count - k) as nat,
                ),
            ),
        decreases count - k,
    {
        let ghost sub = bytes@.subrange(idx as int, len as int);
        if len - idx < 2 {
            return None;
        }
        if bytes[idx] != 0 {
            return None;
        }
        match read_opt_dir(bytes[idx + 1]) {
            None => {
                return None;
            },
            Some(od) => {
                let c = PlayerCommand::ChangeMovementDirection(od);
                proof {
                    assert(sub[0] == bytes@[idx as int]);
                    assert(sub[1] == bytes@[idx + 1]);
                    assert(spec_parse_command(sub) == Some((c, 2int)));
                    assert(sub.skip(2) =~= bytes@.subrange(idx + 2, len as int));
                    match spec_parse_command_items(sub.skip(2), (count - k - 1) as nat) {
                        None => {},
                        Some(rest) => {
                            assert(acc@ + (seq![c] + rest) =~= acc@.push(c) + rest);
                        },
                    }
                }
                acc.push(c);
                idx += 2;
                k += 1;
            },
        }
    }
    if idx != len {
        return None;
    }
    proof {
        assert(bytes@.subrange(idx as int, len as int).len() == 0);
        assert(acc@ + Seq::<PlayerCommand>::empty() =~= acc@);
    }
    Some(acc)
}

/// Decodes one event at `idx`, returning it with its encoded size.
fn parse_event_at(bytes: &Vec<u8>, idx: usize) -> (r: Option<(Event, usize)>)
    requires
        idx <= bytes@.len(),
    ensures
        match spec_parse_event(bytes@.subrange(idx as int, bytes@.len() as int)) {
            None => r is None,
            Some((e, sz)) => r matches Some(p) && p.0 == e && p.1 as int == sz,
        },
{
    let len = bytes.len();
    let ghost sub = bytes@.subrange(idx as int, len as int);
    if len - idx < 9 {
        return None;
    }
    let tag = bytes[idx];
    let id_u = read_be64(bytes, idx + 1);
    proof {
        assert(sub[0] == bytes@[idx as int]);
        assert(sub.subrange(1, 9) =~= bytes@.subrange(idx + 1, idx + 9));
    }
    if id_u > usize::MAX as u64 {
        return None;
    }
    let id: usize = id_u as usize;
    if tag == 0 {
        proof {
            assert(sub.skip(9) =~= bytes@.subrange(idx + 9, len as int));
        }
        if (len - idx) - 9 < 17 {
            return None;
        }
        match read_opt_dir(bytes[idx + 9]) {
            None => {
                proof {
                    assert(sub.skip(9)[0] == bytes@[idx + 9]);
                }
                None
            },
            Some(od) => {
                let x = read_coord(bytes, idx + 10);
                let y = read_coord(bytes, idx + 18);
                proof {
                    assert(sub.skip(9)[0] == bytes@[idx + 9]);
                    assert(sub.skip(9).subrange(1, 9) =~= bytes@.subrange(idx + 10, idx + 18));
                    assert(sub.skip(9).subrange(9, 17) =~= bytes@.subrange(idx + 18, idx + 26));
                }
                Some(
                    (
                        Event::PlayerCreated(
                            id,
                            PlayerState { movement_direction: od, position: Vec2 { x, y } },
                        ),
                        26,
                    ),
                )
            },
        }
    } else if tag == 1 {
        Some((Event::PlayerRemoved(id), 9))
    } else if tag == 2 {
        proof {
            assert(sub.skip(9) =~= bytes@.subrange(idx + 9, len as int));
        }
        if (len - idx) - 9 < 1 {
            return None;
        }
        let atag = bytes[idx + 9];
        proof {
            assert(sub.skip(9)[0] == bytes@[idx + 9]);
        }
        if atag == 0 {
            if (len - idx) - 9 < 2 {
                return None;
            }
            match read_opt_dir(bytes[idx + 10]) {
                None => {
                    proof {
                        assert(sub.skip(9)[1] == bytes@[idx + 10]);
                    }
                    None
                },
                Some(od) => {
                    proof {
                        assert(sub.skip(9)[1] == bytes@[idx + 10]);
                    }
                    Some(
                        (
                            Event::PlayerActed(id, PlayerAction::ChangedMovementDirection(od)),
                            11,
                        ),
                    )
                },
            }
        } else if atag == 1 {
            if (len - idx) - 9 < 17 {
                return None;
            }
            let x = read_coord(bytes, idx + 10);
            let y = read_coord(bytes, idx + 18);
            proof {
                assert(sub.skip(9).subrange(1, 9) =~= bytes@.subrange(idx + 10, idx + 18));
                assert(sub.skip(9).subrange(9, 17) =~= bytes@.subrange(idx + 18, idx + 26));
            }
            Some((Event::PlayerActed(id, PlayerAction::Moved(Vec2 { x, y })), 26))
        } else {
            None
        }
    } else {
        None
    }
}

/// Decodes an event-list payload, or nothing if any byte of it is
/// malformed, truncated, or left over.
pub fn parse_events(bytes: &Vec<u8>) -> (r: Option<Vec<Event>>)
    ensures
        match spec_parse_events(bytes@) {
            None => r is None,
            Some(es) => r matches Some(v) && v@ == es,
        },
{
    let len = bytes.len();
    if len < 4 {
        return None;
    }
    let count = read_be32(bytes, 0);
    let mut acc: Vec<Event> = Vec::new();
    let mut idx: usize = 4;
    let mut k: u32 = 0;
    proof {
        assert(bytes@.subrange(4, len as int) =~= bytes@.skip(4));
        match spec_parse_event_items(bytes@.skip(4), count as nat) {
            None => {},
            Some(s) => {
                assert(acc@ + s =~= s);
            },
        }
    }
    while k < count
        invariant
            4 <= idx <= len == bytes@.len(),
            k <= count,
            spec_parse_events(bytes@) == prepend_events(
                acc@,
                spec_parse_event_items(bytes@.subrange(idx as int, len as int), (count - k) as nat),
            ),
        decreases count - k,
    {
        let ghost sub = bytes@.subrange(idx as int, len as int);
        match parse_event_at(bytes, idx) {
            None => {
                return None;
            },
            Some((e, sz)) => {
                proof {
                    assert(sub.skip(spec_parse_event(sub)->Some_0.1) =~= bytes@.subrange(
                        idx + sz,
                        len as int,
                    ));
                    match spec_parse_event_items(
                        sub.skip(spec_parse_event(sub)->Some_0.1),
                        (count - k - 1) as nat,
                    ) {
                        None => {},
                        Some(rest) => {
                            assert(acc@ + (seq![e] + rest) =~= acc@.push(e) + rest);
                        },
                    }
                }
                acc.push(e);
                idx += sz;
                k += 1;
            },
        }
    }
    if idx != len {
        return None;
    }
    proof {
        assert(bytes@.subrange(idx as int, len as int).len() == 0);
        assert(acc@ + Seq::<Event>::empty() =~= acc@);
    }
    Some(acc)
}

pub proof fn lemma_coord_round_trip(x: int)
    requires
        i64::MIN <= x <= i64::MAX,
    ensures
        coord_val(coord_bytes(x)) == x,
{
    lemma_be64_round_trip(x + 0x8000000000000000);
}

proof fn lemma_parse_command_of_encoded(c: PlayerCommand, rest: Seq<u8>)
    ensures
        spec_parse_command(spec_encode_command(c) + rest) == Some((c, 2int)),
{
    let b = spec_encode_command(c) + rest;
    match c {
        PlayerCommand::ChangeMovementDirection(od) => {
            assert(b[0] == 0u8);
            assert(b[1] == opt_dir_byte(od));
        },
    }
}

proof fn lemma_parse_state_of_encoded(st: PlayerState, rest: Seq<u8>)
    ensures
        spec_parse_state(spec_encode_state(st) + rest) == Some((st, 17int)),
{
    let b = spec_encode_state(st) + rest;
    assert(b[0] == opt_dir_byte(st.movement_direction));
    assert(b.subrange(1, 9) =~= coord_bytes(st.position.x as int));
    assert(b.subrange(9, 17) =~= coord_bytes(st.position.y as int));
    lemma_coord_round_trip(st.position.x as int);
    lemma_coord_round_trip(st.position.y as int);
}

proof fn lemma_parse_action_of_encoded(a: PlayerAction, rest: Seq<u8>)
    ensures
        spec_parse_action(spec_encode_action(a) + rest) == Some(
            (a, spec_encode_action(a).len() as int),
        ),
{
    let b = spec_encode_action(a) + rest;
    match a {
        PlayerAction::ChangedMovementDirection(od) => {
            assert(b[0] == 0u8);
            assert(b[1] == opt_dir_byte(od));
        },
        PlayerAction::Moved(p) => {
            assert(b[0] == 1u8);
            assert(b.subrange(1, 9) =~= coord_bytes(p.x as int));
            assert(b.subrange(9, 17) =~= coord_bytes(p.y as int));
            lemma_coord_round_trip(p.x as int);
            lemma_coord_round_trip(p.y as int);
        },
    }
}

#[verifier::rlimit(100)]
proof fn lemma_parse_event_of_encoded(e: Event, rest: Seq<u8>)
    ensures
        spec_parse_event(spec_encode_event(e) + rest) == Some(
            (e, spec_encode_event(e).len() as int),
        ),
{
    let b = spec_encode_event(e) + rest;
    match e {
        Event::PlayerCreated(id, st) => {
            assert(b[0] == 0u8);
            assert(b.subrange(1, 9) =~= be64_bytes(id as int));
            lemma_be64_round_trip(id as int);
            assert(b.skip(9) =~= spec_encode_state(st) + rest);
            lemma_parse_state_of_encoded(st, rest);
        },
        Event::PlayerRemoved(id) => {
            assert(b[0] == 1u8);
            assert(b.subrange(1, 9) =~= be64_bytes(id as int));
            lemma_be64_round_trip(id as int);
        },
        Event::PlayerActed(id, a) => {
            assert(b[0] == 2u8);
            assert(b.subrange(1, 9) =~= be64_bytes(id as int));
            lemma_be64_round_trip(id as int);
            assert(b.skip(9) =~= spec_encode_action(a) + rest);
            lemma_parse_action_of_encoded(a, rest);
        },
    }
}

proof fn lemma_command_items_round_trip(cs: Seq<PlayerCommand>)
    ensures
        spec_parse_command_items(spec_encode_command_items(cs), cs.len()) == Some(cs),
    decreases cs.len(),
{
    if cs.len() == 0 {
        assert(cs =~= Seq::<PlayerCommand>::empty());
    } else {
        let first = cs.first();
        let rest = cs.drop_first();
        let b = spec_encode_command_items(cs);
        lemma_parse_command_of_encoded(first, spec_encode_command_items(rest));
        assert(b.skip(2) =~= spec_encode_command_items(rest));
        lemma_command_items_round_trip(rest);
        assert(seq![first] + rest =~= cs);
    }
}

proof fn lemma_event_items_round_trip(es: Seq<Event>)
    ensures
        spec_parse_event_items(spec_encode_event_items(es), es.len()) == Some(es),
    decreases es.len(),
{
    if es.len() == 0 {
        assert(es =~= Seq::<Event>::empty());
    } else {
        let first = es.first();
        let rest = es.drop_first();
        let b = spec_encode_event_items(es);
        lemma_parse_event_of_encoded(first, spec_encode_event_items(rest));
        assert(b.skip(spec_encode_event(first).len() as int) =~= spec_encode_event_items(rest));
        lemma_event_items_round_trip(rest);
        assert(seq![first] + rest =~= es);
    }
}

/// Round trip: an encoded command list parses back to exactly the
/// commands that were encoded.
pub proof fn lemma_commands_round_trip(cs: Seq<PlayerCommand>)
    requires
        cs.len() <= u32::MAX,
    ensures
        spec_parse_commands(spec_encode_commands(cs)) == Some(cs),
{
    let b = spec_encode_commands(cs);
    assert(b.subrange(0, 4) =~= be32_bytes(cs.len() as int));
    lemma_be32_round_trip(cs.len() as int);
    assert(b.skip(4) =~= spec_encode_command_items(cs));
    lemma_command_items_round_trip(cs);
}

/// Round trip: an encoded event list parses back to exactly the events
/// that were encoded.
pub proof fn lemma_events_round_trip(es: Seq<Event>)
    requires
        es.len() <= u32::MAX,
    ensures
        spec_parse_events(spec_encode_events(es)) == Some(es),
{
    let b = spec_encode_events(es);
    assert(b.subrange(0, 4) =~= be32_bytes(es.len() as int));
    lemma_be32_round_trip(es.len() as int);
    assert(b.skip(4) =~= spec_encode_event_items(es));
    lemma_event_items_round_trip(es);
}

} // verus!
