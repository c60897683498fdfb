//! One tick's harvested inputs: the network events drained since the last
//! tick, the set of currently-connected clients, and the simulated
//! duration the tick stands for. The connected set is tracked across
//! ticks by folding connection events into it, in order.

use vstd::prelude::*;

verus! {

/// Identifier of a connection slot. Unique among open connections; may be
/// reused once its holder's disconnect has been processed.
pub type ClientId = usize;

/// What the reactor reports to the scheduler. Events of one connection
/// arrive in the order the bytes were produced.
#[derive(Clone, Debug, PartialEq, Eq)]
pub enum NetworkEvent {
    ClientConnected(ClientId),
    ClientDisconnected(ClientId),
    ClientDataReceived(ClientId, Vec<u8>),
}

/// What the scheduler asks of the reactor.
#[derive(Clone, Debug, PartialEq, Eq)]
pub enum NetworkCommand {
    Send(Vec<(ClientId, Vec<u8>)>),
}

/// What the tick processor asks of the scheduler: carry on, dispatching a
/// batch of payloads, or stop cleanly.
#[derive(Clone, Debug, PartialEq, Eq)]
pub enum GameServerCommand {
    Continue(Vec<(ClientId, Vec<u8>)>),
    Exit,
}

/// One tick's inputs.
#[derive(Clone, Debug, PartialEq, Eq)]
pub struct Frame {
    /// The network events seen since the last tick, in arrival order.
    pub messages: Vec<NetworkEvent>,
    /// Every client connected as of this frame's construction.
    pub currently_connected_clients: Vec<ClientId>,
    /// The simulated duration of the tick: the target tick length, not
    /// the measured one, so simulation math is decoupled from jitter.
    pub elapsed_micros: u64,
}

/// The clients whose connection event sits in this message list: each id
/// once, in order of first appearance.
pub open spec fn spec_just_connected(msgs: Seq<NetworkEvent>) -> Seq<ClientId>
    decreases msgs.len(),
{
    if msgs.len() == 0 {
        Seq::empty()
    } else {
        let prev = spec_just_connected(msgs.drop_last());
        match msgs.last() {
            NetworkEvent::ClientConnected(id) => if prev.contains(id) {
                prev
            } else {
                prev.push(id)
            },
            _ => prev,
        }
    }
}

/// No id occurs twice in the list.
pub open spec fn spec_no_dup_ids(s: Seq<ClientId>) -> bool {
    forall|i: int, j: int| 0 <= i < j < s.len() ==> s[i] != s[j]
}

/// The just-connected list never repeats an id.
pub proof fn lemma_just_connected_no_dup(msgs: Seq<NetworkEvent>)
    ensures
        spec_no_dup_ids(spec_just_connected(msgs)),
    decreases msgs.len(),
{
    if msgs.len() == 0 {
    } else {
        lemma_just_connected_no_dup(msgs.drop_last());
        let prev = spec_just_connected(msgs.drop_last());
        match msgs.last() {
            NetworkEvent::ClientConnected(id) => {
                if !prev.contains(id) {
                    assert forall|i: int, j: int|
                        0 <= i < j < prev.push(id).len() implies prev.push(id)[i] != prev.push(
                        id,
                    )[j] by {
                        if j == prev.len() {
                            assert(prev[i] == prev.push(id)[i]);
                            assert(prev.contains(prev[i]));
                        }
                    }
                }
            },
            _ => {},
        }
    }
}

/// An id is just-connected exactly when some message connects it.
pub proof fn lemma_just_connected_membership(msgs: Seq<NetworkEvent>, id: ClientId)
    ensures
        spec_just_connected(msgs).contains(id) <==> exists|i: int|
            0 <= i < msgs.len() && msgs[i] == NetworkEvent::ClientConnected(id),
    decreases msgs.len(),
{
    if msgs.len() == 0 {
    } else {
        lemma_just_connected_membership(msgs.drop_last(), id);
        let prev = spec_just_connected(msgs.drop_last());
        if prev.contains(id) {
            let i = choose|i: int|
                0 <= i < msgs.drop_last().len() && msgs.drop_last()[i]
                    == NetworkEvent::ClientConnected(id);
            assert(msgs[i] == NetworkEvent::ClientConnected(id));
        }
        match msgs.last() {
            NetworkEvent::ClientConnected(cid) => {
                if cid == id {
                    assert(msgs[msgs.len() - 1] == NetworkEvent::ClientConnected(id));
                    if !prev.contains(id) {
                        assert(prev.push(id)[prev.len() as int] == id);
                        assert(prev.push(id).contains(id));
                    }
                }
            },
            _ => {},
        }
        if spec_just_connected(msgs).contains(id) && !prev.contains(id) {
            match msgs.last() {
                NetworkEvent::ClientConnected(cid) => {
                    if cid != id {
                        let k = choose|k: int|
                            0 <= k < prev.push(cid).len() && prev.push(cid)[k] == id;
                        assert(prev[k] == id);
                        assert(prev.contains(id));
                    }
                },
                _ => {},
            }
        }
        if (exists|i: int| 0 <= i < msgs.len() && msgs[i] == NetworkEvent::ClientConnected(id))
            && !spec_just_connected(msgs).contains(id) {
            let i = choose|i: int|
                0 <= i < msgs.len() && msgs[i] == NetworkEvent::ClientConnected(id);
            if i < msgs.len() - 1 {
                assert(msgs.drop_last()[i] == NetworkEvent::ClientConnected(id));
                assert(prev.contains(id));
                match msgs.last() {
                    NetworkEvent::ClientConnected(cid) => {
                        if prev.contains(cid) {
                        } else {
                            let k = choose|k: int| 0 <= k < prev.len() && prev[k] == id;
                            assert(prev.push(cid)[k] == id);
                        }
                    },
                    _ => {},
                }
            } else {
                match msgs.last() {
                    NetworkEvent::ClientConnected(cid) => {
                        assert(cid == id);
                        if !prev.contains(id) {
                            assert(prev.push(id)[prev.len() as int] == id);
                        }
                    },
                    _ => {},
                }
            }
        }
    }
}

/// Whether a client id is in the list.
pub fn contains_id(v: &Vec<ClientId>, id: ClientId) -> (r: bool)
    ensures
        r == v@.contains(id),
{
    let mut i: usize = 0;
    let len = v.len();
    while i < len
        invariant
            i <= len == v@.len(),
            forall|j: int| 0 <= j < i ==> v@[j] != id,
        decreases len - i,
    {
        if v[i] == id {
            assert(v@[i as int] == id);
            return true;
        }
        i += 1;
    }
    false
}

impl Frame {
    /// The clients that connected within this frame, each once, in order
    /// of first appearance.
    pub fn get_just_connected_clients(&self) -> (r: Vec<ClientId>)
        ensures
            r@ == spec_just_connected(self.messages@),
    {
        let mut out: Vec<ClientId> = Vec::new();
        let len = self.messages.len();
        let mut i: usize = 0;
        while i < len
            invariant
                i <= len == self.messages@.len(),
                out@ == spec_just_connected(self.messages@.take(i as int)),
            decreases len - i,
        {
            let ghost prefix = self.messages@.take(i as int);
            match &self.messages[i] {
                NetworkEvent::ClientConnected(id) => {
                    if !contains_id(&out, *id) {
                        out.push(*id);
                    }
                },
                _ => {},
            }
            i += 1;
            proof {
                assert(self.messages@.take(i as int).drop_last() =~= prefix);
                assert(self.messages@.take(i as int).last() == self.messages@[i - 1]);
            }
        }
        proof {
            assert(self.messages@.take(len as int) =~= self.messages@);
        }
        out
    }
}

/// The list with the first occurrence of `id` taken out, if any.
pub open spec fn spec_remove_first(s: Seq<ClientId>, id: ClientId) -> Seq<ClientId>
    decreases s.len(),
{
    if s.len() == 0 {
        s
    } else if s.first() == id {
        s.drop_first()
    } else {
        seq![s.first()] + spec_remove_first(s.drop_first(), id)
    }
}

proof fn lemma_remove_first_at(s: Seq<ClientId>, i: int, id: ClientId)
    requires
        0 <= i < s.len(),
        s[i] == id,
        forall|j: int| 0 <= j < i ==> s[j] != id,
    ensures
        spec_remove_first(s, id) == s.remove(i),
    decreases i,
{
    if i == 0 {
        assert(s.drop_first() =~= s.remove(0));
    } else {
        assert(s.drop_first()[i - 1] == id);
        assert(forall|j: int| 0 <= j < i - 1 ==> s.drop_first()[j] == s[j + 1]);
        lemma_remove_first_at(s.drop_first(), i - 1, id);
        assert(seq![s.first()] + s.drop_first().remove(i - 1) =~= s.remove(i));
    }
}

/// The connected set after one connection event: connects add an id not
/// already present, disconnects take it out, data events change nothing.
pub open spec fn spec_apply_conn_event(s: Seq<ClientId>, msg: NetworkEvent) -> Seq<ClientId> {
    match msg {
        NetworkEvent::ClientConnected(id) => if s.contains(id) {
            s
        } else {
            s.push(id)
        },
        NetworkEvent::ClientDisconnected(id) => spec_remove_first(s, id),
        NetworkEvent::ClientDataReceived(_, _) => s,
    }
}

/// The connected set after a batch of events, folded in order.
pub open spec fn spec_apply_conn_events(s: Seq<ClientId>, msgs: Seq<NetworkEvent>) -> Seq<ClientId>
    decreases msgs.len(),
{
    if msgs.len() == 0 {
        s
    } else {
        spec_apply_conn_event(spec_apply_conn_events(s, msgs.drop_last()), msgs.last())
    }
}

/// Folds a batch of network events into the tracked connected set, kept
/// across ticks.
pub fn apply_connection_events(connected: &mut Vec<ClientId>, messages: &Vec<NetworkEvent>)
    ensures
        final(connected)@ == spec_apply_conn_events(old(connected)@, messages@),
{
    let len = messages.len();
    let mut i: usize = 0;
    while i < len
        invariant
            i <= len == messages@.len(),
            connected@ == spec_apply_conn_events(old(connected)@, messages@.take(i as int)),
        decreases len - i,
    {
        let ghost prefix = messages@.take(i as int);
        match &messages[i] {
            NetworkEvent::ClientConnected(id) => {
                if !contains_id(connected, *id) {
                    connected.push(*id);
                }
            },
            NetworkEvent::ClientDisconnected(id) => {
                remove_id(connected, *id);
            },
            NetworkEvent::ClientDataReceived(_, _) => {},
        }
        i += 1;
        proof {
            assert(messages@.take(i as int).drop_last() =~= prefix);
            assert(messages@.take(i as int).last() == messages@[i - 1]);
        }
    }
    proof {
        assert(messages@.take(len as int) =~= messages@);
    }
}

/// Takes the first occurrence of `id` out of the list, if it is there.
fn remove_id(v: &mut Vec<ClientId>, id: ClientId)
    ensures
        final(v)@ == spec_remove_first(old(v)@, id),
{
    let len = v.len();
    let mut j: usize = 0;
    while j < len
        invariant
            j <= len == v@.len(),
            v@ == old(v)@,
            forall|q: int| 0 <= q < j ==> v@[q] != id,
        decreases len - j,
    {
        if v[j] == id {
            proof {
                lemma_remove_first_at(v@, j as int, id);
            }
            v.remove(j);
            return;
        }
        j += 1;
    }
    proof {
        assert(!v@.contains(id)) by {
            if v@.contains(id) {
                let k = choose|k: int| 0 <= k < v@.len() && v@[k] == id;
            }
        }
        lemma_remove_first_keeps_absent(v@, id);
    }
}

/// Removing an id that is not present leaves the list unchanged.
proof fn lemma_remove_first_keeps_absent(s: Seq<ClientId>, id: ClientId)
    requires
        !s.contains(id),
    ensures
        spec_remove_first(s, id) == s,
    decreases s.len(),
{
    if s.len() == 0 {
    } else {
        assert(s.first() != id) by {
            assert(s[0] == s.first());
        }
        assert(!s.drop_first().contains(id)) by {
            if s.drop_first().contains(id) {
                let k = choose|k: int| 0 <= k < s.drop_first().len() && s.drop_first()[k] == id;
                assert(s[k + 1] == id);
            }
        }
        lemma_remove_first_keeps_absent(s.drop_first(), id);
        assert(seq![s.first()] + s.drop_first() =~= s);
    }
}

/// Whatever a removal leaves in the list was in the list before.
proof fn lemma_remove_first_subset(s: Seq<ClientId>, id: ClientId, x: ClientId)
    requires
        spec_remove_first(s, id).contains(x),
    ensures
        s.contains(x),
    decreases s.len(),
{
    if s.len() == 0 {
    } else if s.first() == id {
        let k = choose|k: int| 0 <= k < s.drop_first().len() && s.drop_first()[k] == x;
        assert(s[k + 1] == x);
    } else {
        let r = seq![s.first()] + spec_remove_first(s.drop_first(), id);
        let k = choose|k: int| 0 <= k < r.len() && r[k] == x;
        if k == 0 {
            assert(s[0] == x);
        } else {
            assert(spec_remove_first(s.drop_first(), id)[k - 1] == x);
            lemma_remove_first_subset(s.drop_first(), id, x);
            let j = choose|j: int| 0 <= j < s.drop_first().len() && s.drop_first()[j] == x;
            assert(s[j + 1] == x);
        }
    }
}

proof fn lemma_remove_first_no_dup(s: Seq<ClientId>, id: ClientId)
    requires
        spec_no_dup_ids(s),
    ensures
        spec_no_dup_ids(spec_remove_first(s, id)),
    decreases s.len(),
{
    if s.len() == 0 {
    } else if s.first() == id {
        assert forall|i: int, j: int|
            0 <= i < j < s.drop_first().len() implies s.drop_first()[i] != s.drop_first()[j] by {
            assert(s[i + 1] == s.drop_first()[i]);
            assert(s[j + 1] == s.drop_first()[j]);
        }
    } else {
        assert(spec_no_dup_ids(s.drop_first())) by {
            assert forall|i: int, j: int|
                0 <= i < j < s.drop_first().len() implies s.drop_first()[i] != s.drop_first()[j] by {
                assert(s[i + 1] == s.drop_first()[i]);
                assert(s[j + 1] == s.drop_first()[j]);
            }
        }
        lemma_remove_first_no_dup(s.drop_first(), id);
        let rest = spec_remove_first(s.drop_first(), id);
        let r = seq![s.first()] + rest;
        assert forall|i: int, j: int| 0 <= i < j < r.len() implies r[i] != r[j] by {
            if i == 0 {
                assert(rest[j - 1] == r[j]);
                assert(rest.contains(rest[j - 1]));
                lemma_remove_first_subset(s.drop_first(), id, rest[j - 1]);
                if s.first() == rest[j - 1] {
                    let k = choose|k: int|
                        0 <= k < s.drop_first().len() && s.drop_first()[k] == s.first();
                    assert(s[k + 1] == s[0]);
                }
            } else {
                assert(r[i] == rest[i - 1]);
                assert(r[j] == rest[j - 1]);
            }
        }
    }
}

/// The tracked connected set never holds an id twice, however the
/// connection events fold into it.
pub proof fn lemma_conn_events_preserve_no_dup(s: Seq<ClientId>, msgs: Seq<NetworkEvent>)
    requires
        spec_no_dup_ids(s),
    ensures
        spec_no_dup_ids(spec_apply_conn_events(s, msgs)),
    decreases msgs.len(),
{
    if msgs.len() == 0 {
    } else {
        lemma_conn_events_preserve_no_dup(s, msgs.drop_last());
        let prev = spec_apply_conn_events(s, msgs.drop_last());
        match msgs.last() {
            NetworkEvent::ClientConnected(id) => {
                if !prev.contains(id) {
                    assert forall|i: int, j: int|
                        0 <= i < j < prev.push(id).len() implies prev.push(id)[i] != prev.push(
                        id,
                    )[j] by {
                        if j == prev.len() {
                            assert(prev[i] == prev.push(id)[i]);
                            assert(prev.contains(prev[i]));
                        }
                    }
                }
            },
            NetworkEvent::ClientDisconnected(id) => {
                lemma_remove_first_no_dup(prev, id);
            },
            NetworkEvent::ClientDataReceived(_, _) => {},
        }
    }
}

/// Copies a list of client ids.
pub fn clone_ids(v: &Vec<ClientId>) -> (r: Vec<ClientId>)
    ensures
        r@ == v@,
{
    let mut out: Vec<ClientId> = Vec::new();
    let len = v.len();
    let mut i: usize = 0;
    while i < len
        invariant
            i <= len == v@.len(),
            out@ == v@.take(i as int),
        decreases len - i,
    {
        out.push(v[i]);
        i += 1;
        proof {
            assert(out@ =~= v@.take(i as int));
        }
    }
    proof {
        assert(v@.take(len as int) =~= v@);
    }
    out
}

/// Builds one tick's frame: folds the drained events into the tracked
/// connected set and records its new value, the events, and the tick's
/// nominal duration.
pub fn build_frame(
    messages: Vec<NetworkEvent>,
    connected: &mut Vec<ClientId>,
    elapsed_micros: u64,
) -> (frame: Frame)
    ensures
        final(connected)@ == spec_apply_conn_events(old(connected)@, messages@),
        frame.messages@ == messages@,
        frame.currently_connected_clients@ == final(connected)@,
        frame.elapsed_micros == elapsed_micros,
{
    apply_connection_events(connected, &messages);
    let snapshot_ids = clone_ids(connected);
    Frame { messages, currently_connected_clients: snapshot_ids, elapsed_micros }
}

} // verus!
