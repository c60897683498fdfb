//! The tick pipeline: turn one frame's network events into domain events
//! against the pre-tick world, apply them, integrate movement, and decide
//! which client receives which payload — newly connected clients get a
//! full snapshot, everyone else the tick's incremental events.

use vstd::prelude::*;

use crate::frame::{spec_just_connected, spec_no_dup_ids, ClientId, Frame, NetworkEvent};
use crate::wire::{encode_events, parse_commands, spec_encode_events, spec_parse_commands};
use crate::world::{
    spec_apply_events_entries, spec_command_events, spec_default_state, spec_snapshot_of,
    spec_update_events, Event, PlayerCommand, PlayerId, PlayerState, World,
};

verus! {

/// The events a batch of commands from one client gives rise to, all
/// judged against the same pre-tick world state.
pub open spec fn spec_commands_events(
    m: Map<PlayerId, PlayerState>,
    id: PlayerId,
    cs: Seq<PlayerCommand>,
) -> Seq<Event>
    decreases cs.len(),
{
    if cs.len() == 0 {
        Seq::empty()
    } else {
        spec_commands_events(m, id, cs.drop_last()) + spec_command_events(m, id, cs.last())
    }
}

/// The events one network event gives rise to: a connect creates a
/// player, a disconnect removes one, received data is decoded into
/// commands — a payload that does not decode is dropped whole.
pub open spec fn spec_message_events(
    m: Map<PlayerId, PlayerState>,
    msg: NetworkEvent,
) -> Seq<Event> {
    match msg {
        NetworkEvent::ClientConnected(id) => seq![
            Event::PlayerCreated(id, spec_default_state()),
        ],
        NetworkEvent::ClientDisconnected(id) => seq![Event::PlayerRemoved(id)],
        NetworkEvent::ClientDataReceived(id, data) => match spec_parse_commands(data@) {
            Some(cs) => spec_commands_events(m, id, cs),
            None => Seq::empty(),
        },
    }
}

/// The command-derived events of a whole frame, in message order, all
/// against the same pre-tick world state.
pub open spec fn spec_command_execution_events(
    m: Map<PlayerId, PlayerState>,
    msgs: Seq<NetworkEvent>,
) -> Seq<Event>
    decreases msgs.len(),
{
    if msgs.len() == 0 {
        Seq::empty()
    } else {
        spec_command_execution_events(m, msgs.drop_last()) + spec_message_events(m, msgs.last())
    }
}

/// Turns one frame's network events into domain events, every command
/// judged against the world as it stood before this tick.
pub fn get_command_execution_events(world: &World, frame: &Frame) -> (events: Vec<Event>)
    requires
        world.wf(),
    ensures
        events@ == spec_command_execution_events(world@, frame.messages@),
{
    let mut events: Vec<Event> = Vec::new();
    let len = frame.messages.len();
    let mut i: usize = 0;
    while i < len
        invariant
            i <= len == frame.messages@.len(),
            world.wf(),
            events@ == spec_command_execution_events(world@, frame.messages@.take(i as int)),
        decreases len - i,
    {
        let ghost prefix = frame.messages@.take(i as int);
        match &frame.messages[i] {
            NetworkEvent::ClientConnected(id) => {
                let mut created = world.spawn_player(*id);
                events.append(&mut created);
            },
            NetworkEvent::ClientDisconnected(id) => {
                let mut removed = world.remove_player(*id);
                events.append(&mut removed);
            },
            NetworkEvent::ClientDataReceived(id, data) => {
                match parse_commands(data) {
                    Some(commands) => {
                        let clen = commands.len();
                        let mut k: usize = 0;
                        while k < clen
                            invariant
                                k <= clen == commands@.len(),
                                world.wf(),
                                events@ == spec_command_execution_events(world@, prefix)
                                    + spec_commands_events(world@, *id, commands@.take(k as int)),
                            decreases clen - k,
                        {
                            let ghost cmd_prefix = commands@.take(k as int);
                            let mut cmd_events = world.process_player_command(*id, commands[k]);
                            events.append(&mut cmd_events);
                            k += 1;
                            proof {
                                assert(commands@.take(k as int).drop_last() =~= cmd_prefix);
                                assert(commands@.take(k as int).last() == commands@[k - 1]);
                            }
                        }
                        proof {
                            assert(commands@.take(clen as int) =~= commands@);
                        }
                    },
                    None => {},
                }
            },
        }
        i += 1;
        proof {
            assert(frame.messages@.take(i as int).drop_last() =~= prefix);
            assert(frame.messages@.take(i as int).last() == frame.messages@[i - 1]);
        }
    }
    proof {
        assert(frame.messages@.take(len as int) =~= frame.messages@);
    }
    events
}

/// The view of an outbound batch: each pair's payload as a byte sequence.
pub open spec fn sends_view(s: Seq<(ClientId, Vec<u8>)>) -> Seq<(ClientId, Seq<u8>)> {
    s.map_values(|p: (ClientId, Vec<u8>)| (p.0, p.1@))
}

/// One pair per id, all carrying the same payload, in id-list order.
pub open spec fn spec_pairs(ids: Seq<ClientId>, bytes: Seq<u8>) -> Seq<(ClientId, Seq<u8>)>
    decreases ids.len(),
{
    if ids.len() == 0 {
        Seq::empty()
    } else {
        spec_pairs(ids.drop_last(), bytes) + seq![(ids.last(), bytes)]
    }
}

proof fn lemma_sends_view_push(s: Seq<(ClientId, Vec<u8>)>, p: (ClientId, Vec<u8>))
    ensures
        sends_view(s.push(p)) == sends_view(s) + seq![(p.0, p.1@)],
{
    assert(sends_view(s.push(p)) =~= sends_view(s) + seq![(p.0, p.1@)]);
}

/// One pair per connected id that is not excluded, all carrying the same
/// payload, in connected order.
pub open spec fn spec_filtered_pairs(
    connected: Seq<ClientId>,
    excluded: Seq<ClientId>,
    bytes: Seq<u8>,
) -> Seq<(ClientId, Seq<u8>)>
    decreases connected.len(),
{
    if connected.len() == 0 {
        Seq::empty()
    } else {
        spec_filtered_pairs(connected.drop_last(), excluded, bytes) + if !excluded.contains(
            connected.last(),
        ) {
            seq![(connected.last(), bytes)]
        } else {
            Seq::empty()
        }
    }
}

/// Which client receives which payload for one tick: every client that
/// connected this frame gets the post-tick snapshot — and nothing else;
/// every other connected client gets the tick's merged events, unless
/// there are none. The snapshot payloads come first, then the broadcast
/// payloads in connected order.
pub open spec fn spec_sends(
    snapshot_events: Seq<Event>,
    frame_events: Seq<Event>,
    msgs: Seq<NetworkEvent>,
    connected: Seq<ClientId>,
) -> Seq<(ClientId, Seq<u8>)> {
    let jc = spec_just_connected(msgs);
    let snaps = if jc.len() != 0 {
        spec_pairs(jc, spec_encode_events(snapshot_events))
    } else {
        Seq::empty()
    };
    let upds = if frame_events.len() != 0 {
        spec_filtered_pairs(connected, jc, spec_encode_events(frame_events))
    } else {
        Seq::empty()
    };
    snaps + upds
}

/// Copies a byte vector.
fn clone_bytes(v: &Vec<u8>) -> (r: Vec<u8>)
    ensures
        r@ == v@,
{
    let mut out: Vec<u8> = Vec::new();
    let len = v.len();
    let mut i: usize = 0;
    while i < len
        invariant
            i <= len == v@.len(),
            out@ == v@.take(i as int),
        decreases len - i,
    {
        out.push(v[i]);
        i += 1;
        proof {
            assert(out@ =~= v@.take(i as int));
        }
    }
    proof {
        assert(v@.take(len as int) =~= v@);
    }
    out
}

/// Appends one pair per id, all carrying copies of the same payload.
fn push_pairs(sends: &mut Vec<(ClientId, Vec<u8>)>, ids: &Vec<ClientId>, bytes: &Vec<u8>)
    ensures
        sends_view(final(sends)@) == sends_view(old(sends)@) + spec_pairs(ids@, bytes@),
{
    let len = ids.len();
    let mut i: usize = 0;
    proof {
        assert(sends_view(sends@) + spec_pairs(ids@.take(0), bytes@) =~= sends_view(sends@));
    }
    while i < len
        invariant
            i <= len == ids@.len(),
            sends_view(sends@) == sends_view(old(sends)@) + spec_pairs(
                ids@.take(i as int),
                bytes@,
            ),
        decreases len - i,
    {
        let ghost before = sends@;
        let ghost prefix = ids@.take(i as int);
        sends.push((ids[i], clone_bytes(bytes)));
        i += 1;
        proof {
            lemma_sends_view_push(before, (ids@[i - 1], before[0].1));
            assert(sends_view(sends@) =~= sends_view(before) + seq![(ids@[i - 1], bytes@)]);
            assert(ids@.take(i as int).drop_last() =~= prefix);
            assert(ids@.take(i as int).last() == ids@[i - 1]);
            assert(sends_view(old(sends)@) + (spec_pairs(prefix, bytes@) + seq![
                (ids@[i - 1], bytes@),
            ]) =~= (sends_view(old(sends)@) + spec_pairs(prefix, bytes@)) + seq![
                (ids@[i - 1], bytes@),
            ]);
        }
    }
    proof {
        assert(ids@.take(len as int) =~= ids@);
    }
}

/// Appends one pair per connected id outside the excluded list, all
/// carrying copies of the same payload.
fn push_filtered_pairs(
    sends: &mut Vec<(ClientId, Vec<u8>)>,
    connected: &Vec<ClientId>,
    excluded: &Vec<ClientId>,
    bytes: &Vec<u8>,
)
    ensures
        sends_view(final(sends)@) == sends_view(old(sends)@) + spec_filtered_pairs(
            connected@,
            excluded@,
            bytes@,
        ),
{
    let len = connected.len();
    let mut i: usize = 0;
    proof {
        assert(sends_view(sends@) + spec_filtered_pairs(connected@.take(0), excluded@, bytes@)
            =~= sends_view(sends@));
    }
    while i < len
        invariant
            i <= len == connected@.len(),
            sends_view(sends@) == sends_view(old(sends)@) + spec_filtered_pairs(
                connected@.take(i as int),
                excluded@,
                bytes@,
            ),
        decreases len - i,
    {
        let ghost before = sends@;
        let ghost prefix = connected@.take(i as int);
        let cid = connected[i];
        let was_pushed = if !crate::frame::contains_id(excluded, cid) {
            sends.push((cid, clone_bytes(bytes)));
            true
        } else {
            false
        };
        i += 1;
        proof {
            assert(connected@.take(i as int).drop_last() =~= prefix);
            assert(connected@.take(i as int).last() == connected@[i - 1]);
            let step = spec_filtered_pairs(connected@.take(i as int), excluded@, bytes@);
            if was_pushed {
                lemma_sends_view_push(before, (cid, sends@[sends@.len() - 1].1));
                assert(sends_view(sends@) =~= sends_view(before) + seq![(cid, bytes@)]);
                assert(sends_view(old(sends)@) + (spec_filtered_pairs(prefix, excluded@, bytes@)
                    + seq![(cid, bytes@)]) =~= (sends_view(old(sends)@) + spec_filtered_pairs(
                    prefix,
                    excluded@,
                    bytes@,
                )) + seq![(cid, bytes@)]);
            } else {
                assert(step =~= spec_filtered_pairs(prefix, excluded@, bytes@));
            }
        }
    }
    proof {
        assert(connected@.take(len as int) =~= connected@);
    }
}

/// Builds the outbound batch of one tick: snapshots for the clients that
/// connected this frame, the merged events for the rest.
pub fn get_sends(frame_events: &Vec<Event>, world: &World, frame: &Frame) -> (sends: Vec<
    (ClientId, Vec<u8>),
>)
    requires
        world.entries().len() <= u32::MAX,
        frame_events@.len() <= u32::MAX,
    ensures
        sends_view(sends@) == spec_sends(
            spec_snapshot_of(world.entries()),
            frame_events@,
            frame.messages@,
            frame.currently_connected_clients@,
        ),
{
    let just_connected = frame.get_just_connected_clients();
    let mut sends: Vec<(ClientId, Vec<u8>)> = Vec::new();
    proof {
        assert(sends_view(sends@) =~= Seq::<(ClientId, Seq<u8>)>::empty());
    }
    if just_connected.len() != 0 {
        let snapshot = world.get_snapshot();
        let snapshot_bytes = encode_events(&snapshot);
        push_pairs(&mut sends, &just_connected, &snapshot_bytes);
        proof {
            assert(Seq::<(ClientId, Seq<u8>)>::empty() + spec_pairs(
                just_connected@,
                snapshot_bytes@,
            ) =~= spec_pairs(just_connected@, snapshot_bytes@));
        }
    }
    let ghost after_snaps = sends_view(sends@);
    if frame_events.len() != 0 {
        let broadcast_bytes = encode_events(frame_events);
        push_filtered_pairs(
            &mut sends,
            &frame.currently_connected_clients,
            &just_connected,
            &broadcast_bytes,
        );
    } else {
        proof {
            assert(after_snaps + Seq::<(ClientId, Seq<u8>)>::empty() =~= after_snaps);
        }
    }
    sends
}

/// Runs the whole tick pipeline: derive command events against the
/// pre-tick world, apply them, integrate movement on the fresh
/// directions, apply that too, and build the outbound batch — snapshots
/// for this frame's newcomers, the merged events for everyone else.
/// Should a tick's event count or the world outgrow what a count prefix
/// can carry, nothing is sent that tick rather than anything truncated.
pub fn process_frame(world: &mut World, frame: &Frame) -> (sends: Vec<(ClientId, Vec<u8>)>)
    requires
        old(world).wf(),
    ensures
        ({
            let cmd = spec_command_execution_events(old(world)@, frame.messages@);
            let mid = spec_apply_events_entries(old(world).entries(), cmd);
            let upd = spec_update_events(mid, frame.elapsed_micros);
            let merged = cmd + upd;
            let in_range = final(world).entries().len() <= u32::MAX && merged.len() <= u32::MAX;
            &&& final(world).wf()
            &&& final(world).entries() == spec_apply_events_entries(mid, upd)
            &&& in_range ==> sends_view(sends@) == spec_sends(
                spec_snapshot_of(final(world).entries()),
                merged,
                frame.messages@,
                frame.currently_connected_clients@,
            )
            &&& !in_range ==> sends@ == Seq::<(ClientId, Vec<u8>)>::empty()
        }),
{
    let command_events = get_command_execution_events(world, frame);
    world.apply_events(&command_events);
    let update_events = world.update(frame.elapsed_micros);
    world.apply_events(&update_events);
    let mut merged = command_events;
    let mut tail = update_events;
    merged.append(&mut tail);
    if world.player_count() > u32::MAX as usize || merged.len() > u32::MAX as usize {
        return Vec::new();
    }
    get_sends(&merged, world, frame)
}

proof fn lemma_pairs_elems(ids: Seq<ClientId>, bytes: Seq<u8>)
    ensures
        spec_pairs(ids, bytes).len() == ids.len(),
        forall|k: int| 0 <= k < ids.len() ==> #[trigger] spec_pairs(ids, bytes)[k] == (
            ids[k],
            bytes,
        ),
    decreases ids.len(),
{
    if ids.len() == 0 {
    } else {
        lemma_pairs_elems(ids.drop_last(), bytes);
    }
}

proof fn lemma_filtered_elems(connected: Seq<ClientId>, excluded: Seq<ClientId>, bytes: Seq<u8>)
    ensures
        forall|k: int|
            0 <= k < spec_filtered_pairs(connected, excluded, bytes).len() ==> (
            #[trigger] spec_filtered_pairs(connected, excluded, bytes)[k]).1 == bytes,
        forall|k: int|
            0 <= k < spec_filtered_pairs(connected, excluded, bytes).len() ==> !excluded.contains(
                (#[trigger] spec_filtered_pairs(connected, excluded, bytes)[k]).0,
            ),
    decreases connected.len(),
{
    let r = spec_filtered_pairs(connected, excluded, bytes);
    if connected.len() == 0 {
    } else {
        let prev = spec_filtered_pairs(connected.drop_last(), excluded, bytes);
        lemma_filtered_elems(connected.drop_last(), excluded, bytes);
        assert forall|k: int| 0 <= k < r.len() implies (#[trigger] r[k]).1 == bytes
            && !excluded.contains(r[k].0) by {
            if k < prev.len() {
                assert(r[k] == prev[k]);
            } else {
                assert(!excluded.contains(connected.last()));
                assert(r[k] == (connected.last(), bytes));
            }
        }
    }
}

proof fn lemma_filtered_ids(connected: Seq<ClientId>, excluded: Seq<ClientId>, bytes: Seq<u8>)
    ensures
        forall|k: int|
            0 <= k < spec_filtered_pairs(connected, excluded, bytes).len() ==> connected.contains(
                (#[trigger] spec_filtered_pairs(connected, excluded, bytes)[k]).0,
            ),
    decreases connected.len(),
{
    let r = spec_filtered_pairs(connected, excluded, bytes);
    if connected.len() == 0 {
    } else {
        let prev = spec_filtered_pairs(connected.drop_last(), excluded, bytes);
        lemma_filtered_ids(connected.drop_last(), excluded, bytes);
        assert forall|k: int| 0 <= k < r.len() implies connected.contains(
            (#[trigger] r[k]).0,
        ) by {
            if k < prev.len() {
                assert(r[k] == prev[k]);
                assert(connected.drop_last().contains(prev[k].0));
                let j = choose|j: int|
                    0 <= j < connected.drop_last().len() && connected.drop_last()[j] == prev[k].0;
                assert(connected[j] == prev[k].0);
            } else {
                assert(r[k].0 == connected.last());
                assert(connected[connected.len() - 1] == connected.last());
            }
        }
    }
}

proof fn lemma_filtered_no_dup(connected: Seq<ClientId>, excluded: Seq<ClientId>, bytes: Seq<u8>)
    requires
        spec_no_dup_ids(connected),
    ensures
        ({
            let r = spec_filtered_pairs(connected, excluded, bytes);
            forall|a: int, b: int|
                0 <= a < b < r.len() ==> (#[trigger] r[a]).0 != (#[trigger] r[b]).0
        }),
    decreases connected.len(),
{
    let r = spec_filtered_pairs(connected, excluded, bytes);
    if connected.len() == 0 {
    } else {
        let prev = spec_filtered_pairs(connected.drop_last(), excluded, bytes);
        assert(spec_no_dup_ids(connected.drop_last()));
        lemma_filtered_no_dup(connected.drop_last(), excluded, bytes);
        lemma_filtered_ids(connected.drop_last(), excluded, bytes);
        assert forall|a: int, b: int|
            0 <= a < b < r.len() implies (#[trigger] r[a]).0 != (#[trigger] r[b]).0 by {
            if b < prev.len() {
                assert(r[a] == prev[a]);
                assert(r[b] == prev[b]);
            } else {
                assert(r[b].0 == connected.last());
                assert(r[a] == prev[a]);
                assert(connected.drop_last().contains(prev[a].0));
                let j = choose|j: int|
                    0 <= j < connected.drop_last().len() && connected.drop_last()[j] == prev[a].0;
                assert(connected[j] == prev[a].0);
                assert(connected[connected.len() - 1] == connected.last());
            }
        }
    }
}

/// One payload per client and tick: as long as the tracked connected set
/// holds no id twice, no client is ever named twice in one tick's
/// outbound batch — a newcomer cannot see its creation arrive through
/// two channels.
pub proof fn lemma_one_payload_per_client(
    snapshot_events: Seq<Event>,
    frame_events: Seq<Event>,
    msgs: Seq<NetworkEvent>,
    connected: Seq<ClientId>,
)
    requires
        spec_no_dup_ids(connected),
    ensures
        ({
            let r = spec_sends(snapshot_events, frame_events, msgs, connected);
            forall|a: int, b: int|
                0 <= a < b < r.len() ==> (#[trigger] r[a]).0 != (#[trigger] r[b]).0
        }),
{
    let jc = spec_just_connected(msgs);
    let r = spec_sends(snapshot_events, frame_events, msgs, connected);
    let snap_bytes = spec_encode_events(snapshot_events);
    let bc_bytes = spec_encode_events(frame_events);
    let snaps = if jc.len() != 0 {
        spec_pairs(jc, snap_bytes)
    } else {
        Seq::<(ClientId, Seq<u8>)>::empty()
    };
    crate::frame::lemma_just_connected_no_dup(msgs);
    lemma_pairs_elems(jc, snap_bytes);
    lemma_filtered_elems(connected, jc, bc_bytes);
    lemma_filtered_no_dup(connected, jc, bc_bytes);
    assert forall|a: int, b: int|
        0 <= a < b < r.len() implies (#[trigger] r[a]).0 != (#[trigger] r[b]).0 by {
        if b < snaps.len() {
            assert(r[a].0 == jc[a] && r[b].0 == jc[b]);
        } else if a >= snaps.len() {
            let upds = spec_filtered_pairs(connected, jc, bc_bytes);
            assert(r[a] == upds[a - snaps.len()]);
            assert(r[b] == upds[b - snaps.len()]);
        } else {
            assert(r[a].0 == jc[a]);
            assert(jc.contains(jc[a]));
            let upds = spec_filtered_pairs(connected, jc, bc_bytes);
            assert(r[b] == upds[b - snaps.len()]);
            assert(!jc.contains(r[b].0));
        }
    }
}

/// New-connection exclusion: in one tick's outbound batch, a client that
/// connected this frame only ever receives the snapshot payload, and a
/// client that did not only ever receives the broadcast payload — no
/// creation record can reach anyone through both channels.
pub proof fn lemma_new_connection_exclusion(
    snapshot_events: Seq<Event>,
    frame_events: Seq<Event>,
    msgs: Seq<NetworkEvent>,
    connected: Seq<ClientId>,
)
    ensures
        ({
            let jc = spec_just_connected(msgs);
            let r = spec_sends(snapshot_events, frame_events, msgs, connected);
            &&& forall|k: int|
                0 <= k < r.len() && jc.contains((#[trigger] r[k]).0) ==> r[k].1
                    == spec_encode_events(snapshot_events)
            &&& forall|k: int|
                0 <= k < r.len() && !jc.contains((#[trigger] r[k]).0) ==> r[k].1
                    == spec_encode_events(frame_events)
        }),
{
    let jc = spec_just_connected(msgs);
    let r = spec_sends(snapshot_events, frame_events, msgs, connected);
    let snap_bytes = spec_encode_events(snapshot_events);
    let bc_bytes = spec_encode_events(frame_events);
    let snaps = if jc.len() != 0 {
        spec_pairs(jc, snap_bytes)
    } else {
        Seq::<(ClientId, Seq<u8>)>::empty()
    };
    lemma_pairs_elems(jc, snap_bytes);
    lemma_filtered_elems(connected, jc, bc_bytes);
    assert forall|k: int| 0 <= k < r.len() && jc.contains((#[trigger] r[k]).0) implies r[k].1
        == snap_bytes by {
        if k >= snaps.len() {
            assert(!jc.contains(r[k].0));
        }
    }
    assert forall|k: int| 0 <= k < r.len() && !jc.contains((#[trigger] r[k]).0) implies r[k].1
        == bc_bytes by {
        if k < snaps.len() {
            assert(r[k].0 == jc[k]);
            assert(jc.contains(jc[k]));
        }
    }
}

} // verus!
