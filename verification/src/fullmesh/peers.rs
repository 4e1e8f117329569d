//! The full mesh with several connections to each node.
//!
//! New connections to a node are opened all the time, up to a number, and old ones are discarded, so
//! that a better path is found when there is one. Packets are sent over one of them only, the
//! selected one: the newest but one of those that are up, so that the peer has had time to see it.

use vstd::prelude::*;
use std::collections::HashMap;
use crate::addr::Prefix;
use crate::packet::{elapsed, time_since, Duration, Instant, NodeId, MILLISECOND, SECOND};
use crate::tables::node_keys;
use crate::uapi::{is_random_uuid, new_uuid, Conn, ConnEntry, ConnState};
use super::candidates::{
    candidate_octets, check_line, description_text, filter_description, filtered_sections, line_allowed,
    AttributeText, SdpAttribute,
};

verus! {

broadcast use vstd::std_specs::hash::group_hash_axioms;

/// What is told about one of the connections between two nodes.
#[derive(Clone, Debug)]
pub enum SignalPayload {
    Offer(u128, String),
    Answer(u128, String),
    Candidate(u128, String),
}

/// One of the connections to a node.
#[derive(Clone, Copy, PartialEq, Eq, Structural, Debug)]
pub struct PeerConn {
    pub id: u128,
    /// When it was made.
    pub time: Instant,
    /// Whether packets are sent over it.
    pub selected: bool,
}

/// What is seen of a connection from outside, for the control interface.
#[derive(Clone, Debug)]
pub struct ConnObservation {
    pub state: ConnState,
    /// The candidate over which the node is reached.
    pub selected_candidate: Option<String>,
}

/// What the full mesh asks for.
pub enum SignalAction {
    /// Nothing.
    Ignore,
    /// End the full mesh: the mesh is gone.
    Stop,
    /// Answer an offer with these attributes in its sections, and take the connection with
    /// [`FullMesh::add_conn`].
    AnswerOffer { peer: NodeId, id: u128, sdp: String, sections: Vec<Vec<SdpAttribute>> },
    /// Complete a connection with an answer with these attributes in its sections.
    ApplyAnswer { peer: NodeId, id: u128, sdp: String, sections: Vec<Vec<SdpAttribute>> },
    /// Add a candidate to a connection.
    AddCandidate { peer: NodeId, id: u128, line: String },
}

/// What the full mesh asks for, with the texts as characters.
#[verifier::ext_equal]
pub enum SignalDecision {
    Ignore,
    Stop,
    AnswerOffer { peer: NodeId, id: u128, sdp: Seq<char>, sections: Seq<Seq<AttributeText>> },
    ApplyAnswer { peer: NodeId, id: u128, sdp: Seq<char>, sections: Seq<Seq<AttributeText>> },
    AddCandidate { peer: NodeId, id: u128, line: Seq<char> },
}

impl View for SignalAction {
    type V = SignalDecision;

    open spec fn view(&self) -> SignalDecision {
        match self {
            SignalAction::Ignore => SignalDecision::Ignore,
            SignalAction::Stop => SignalDecision::Stop,
            SignalAction::AnswerOffer { peer, id, sdp, sections } => SignalDecision::AnswerOffer {
                peer: *peer,
                id: *id,
                sdp: sdp@,
                sections: description_text(sections@),
            },
            SignalAction::ApplyAnswer { peer, id, sdp, sections } => SignalDecision::ApplyAnswer {
                peer: *peer,
                id: *id,
                sdp: sdp@,
                sections: description_text(sections@),
            },
            SignalAction::AddCandidate { peer, id, line } => SignalDecision::AddCandidate {
                peer: *peer,
                id: *id,
                line: line@,
            },
        }
    }
}

/// Why a packet was refused.
#[derive(Clone, Copy, PartialEq, Eq, Structural, Debug)]
pub enum SignalError {
    /// It carries something that is no candidate.
    InvalidCandidate,
    /// It carries something that is no session description.
    InvalidDescription,
}

/// The full mesh of one node.
pub struct FullMesh {
    id: NodeId,
    timeout: Duration,
    discard_timeout: Duration,
    max_connected: usize,
    candidate_filter_prefix: Option<Prefix>,
    peers: HashMap<NodeId, Vec<PeerConn>>,
}

/// The state of the full mesh.
#[verifier::ext_equal]
pub struct FullMeshView {
    pub id: NodeId,
    pub timeout: Duration,
    pub discard_timeout: Duration,
    pub max_connected: nat,
    pub candidate_filter_prefix: Option<Prefix>,
    pub peers: Map<NodeId, Seq<PeerConn>>,
}

/// The connection with this id is up.
pub open spec fn is_up(id: u128, states: Map<u128, ConnState>) -> bool {
    states.contains_key(id) && states[id] is Connected
}

/// The connections that are kept: those that are young, and those that are up.
pub open spec fn kept(
    conns: Seq<PeerConn>,
    states: Map<u128, ConnState>,
    now: Instant,
    timeout: Duration,
) -> Seq<PeerConn>
    decreases conns.len(),
{
    if conns.len() == 0 {
        Seq::empty()
    } else {
        let before = kept(conns.drop_last(), states, now, timeout);
        if time_since(now, conns.last().time) <= timeout || is_up(conns.last().id, states) {
            before.push(conns.last())
        } else {
            before
        }
    }
}

/// The connections that are up.
pub open spec fn up(conns: Seq<PeerConn>, states: Map<u128, ConnState>) -> Seq<PeerConn>
    decreases conns.len(),
{
    if conns.len() == 0 {
        Seq::empty()
    } else {
        let before = up(conns.drop_last(), states);
        if is_up(conns.last().id, states) {
            before.push(conns.last())
        } else {
            before
        }
    }
}

/// A connection of which `seen` is seen as the control interface tells it.
pub open spec fn conn_entry(conn: PeerConn, seen: ConnObservation, now: Instant) -> ConnEntry {
    ConnEntry {
        id: conn.id,
        conn: Conn {
            selected: conn.selected,
            state: seen.state,
            selected_candidate: seen.selected_candidate,
            elapsed_ms: (time_since(now, conn.time) / MILLISECOND as int) as u64,
        },
    }
}

/// Those of the connections that are seen as the control interface tells them, in order.
pub open spec fn conn_entries(
    conns: Seq<PeerConn>,
    seen: Map<u128, ConnObservation>,
    now: Instant,
) -> Seq<ConnEntry>
    decreases conns.len(),
{
    if conns.len() == 0 {
        Seq::empty()
    } else {
        let before = conn_entries(conns.drop_last(), seen, now);
        if seen.contains_key(conns.last().id) {
            before.push(conn_entry(conns.last(), seen[conns.last().id], now))
        } else {
            before
        }
    }
}

/// The connections without the one with this id.
pub open spec fn without(conns: Seq<PeerConn>, id: u128) -> Seq<PeerConn>
    decreases conns.len(),
{
    if conns.len() == 0 {
        Seq::empty()
    } else {
        let before = without(conns.drop_last(), id);
        if conns.last().id == id {
            before
        } else {
            before.push(conns.last())
        }
    }
}

/// The time of the newest connection.
pub open spec fn newest(conns: Seq<PeerConn>) -> Instant
    decreases conns.len(),
{
    if conns.len() <= 1 {
        conns[0].time
    } else {
        let before = newest(conns.drop_last());
        if conns.last().time >= before {
            conns.last().time
        } else {
            before
        }
    }
}

/// The place of a connection made at `time` among connections in order of age, the oldest first:
/// behind all that are as old or older.
pub open spec fn place(sorted: Seq<PeerConn>, time: Instant) -> int
    decreases sorted.len(),
{
    if sorted.len() == 0 || sorted.last().time <= time {
        sorted.len() as int
    } else {
        place(sorted.drop_last(), time)
    }
}

/// The connections in order of age, the oldest first; those of one age stay in order.
pub open spec fn oldest_first(conns: Seq<PeerConn>) -> Seq<PeerConn>
    decreases conns.len(),
{
    if conns.len() == 0 {
        Seq::empty()
    } else {
        let before = oldest_first(conns.drop_last());
        before.insert(place(before, conns.last().time), conns.last())
    }
}

/// The place of a connection made at `time` among connections in order of age, the newest first:
/// behind all that are as new or newer.
pub open spec fn place_from_new(sorted: Seq<PeerConn>, time: Instant) -> int
    decreases sorted.len(),
{
    if sorted.len() == 0 || sorted.last().time >= time {
        sorted.len() as int
    } else {
        place_from_new(sorted.drop_last(), time)
    }
}

/// The connections in order of age, the newest first; those of one age stay in order.
pub open spec fn newest_first(conns: Seq<PeerConn>) -> Seq<PeerConn>
    decreases conns.len(),
{
    if conns.len() == 0 {
        Seq::empty()
    } else {
        let before = newest_first(conns.drop_last());
        before.insert(place_from_new(before, conns.last().time), conns.last())
    }
}

/// What is left of the connections after the first `n` in the order `order` have been discarded, as
/// long as there are too many; a selected one is not discarded.
pub open spec fn pruned(
    conns: Seq<PeerConn>,
    order: Seq<PeerConn>,
    max_connected: nat,
    n: int,
) -> Seq<PeerConn>
    decreases n,
{
    if n <= 0 {
        conns
    } else {
        let before = pruned(conns, order, max_connected, n - 1);
        if before.len() < max_connected || order[n - 1].selected {
            before
        } else {
            without(before, order[n - 1].id)
        }
    }
}

/// The connection to select: the newest but one of those that are up, or the only one.
pub open spec fn favourite(conns: Seq<PeerConn>, states: Map<u128, ConnState>) -> Option<u128> {
    let sorted = newest_first(up(conns, states));
    if sorted.len() == 0 {
        None
    } else if sorted.len() == 1 {
        Some(sorted[0].id)
    } else {
        Some(sorted[1].id)
    }
}

/// The selected connection.
pub open spec fn selected_of(conns: Seq<PeerConn>) -> Option<u128>
    decreases conns.len(),
{
    if conns.len() == 0 {
        None
    } else {
        match selected_of(conns.drop_last()) {
            Some(id) => Some(id),
            None => if conns.last().selected {
                Some(conns.last().id)
            } else {
                None
            },
        }
    }
}

/// The connections once the favourite has been selected.
pub open spec fn reselected(conns: Seq<PeerConn>, states: Map<u128, ConnState>) -> Seq<PeerConn> {
    Seq::new(
        conns.len(),
        |i: int|
            PeerConn { selected: favourite(conns, states) == Some(conns[i].id), ..conns[i] },
    )
}

/// No two connections have the same id.
pub open spec fn ids_distinct(conns: Seq<PeerConn>) -> bool {
    forall|i: int, j: int|
        0 <= i < j < conns.len() ==> (#[trigger] conns[i]).id != (#[trigger] conns[j]).id
}

/// At most one connection is selected.
pub open spec fn one_selected(conns: Seq<PeerConn>) -> bool {
    forall|i: int, j: int|
        0 <= i < j < conns.len() ==> !((#[trigger] conns[i]).selected && (
        #[trigger] conns[j]).selected)
}

/// The connections are in order.
pub open spec fn conns_inv(conns: Seq<PeerConn>) -> bool {
    ids_distinct(conns) && one_selected(conns)
}

/// A connection in this state is over.
pub open spec fn is_over(state: ConnState) -> bool {
    state is Disconnected || state is Failed || state is Closed
}

impl FullMeshView {
    /// The connections to every node are in order, and so is the prefix.
    pub open spec fn inv(self) -> bool {
        &&& forall|n: NodeId| #[trigger] self.peers.contains_key(n) ==> conns_inv(self.peers[n])
        &&& self.candidate_filter_prefix matches Some(p) ==> p.wf()
    }

    /// The connections to `node`.
    pub open spec fn conns(self, node: NodeId) -> Seq<PeerConn> {
        if self.peers.contains_key(node) {
            self.peers[node]
        } else {
            Seq::empty()
        }
    }

    /// There is a connection to `node` with this id.
    pub open spec fn has(self, node: NodeId, id: u128) -> bool {
        exists|i: int| 0 <= i < self.conns(node).len() && (#[trigger] self.conns(node)[i]).id == id
    }

    /// The state with other connections to `node`.
    pub open spec fn with(self, node: NodeId, conns: Seq<PeerConn>) -> FullMeshView {
        FullMeshView { peers: self.peers.insert(node, conns), ..self }
    }

    /// There are as many connections to `node` up as there may be.
    pub open spec fn is_crowded(self, node: NodeId, states: Map<u128, ConnState>) -> bool {
        up(self.conns(node), states).len() >= self.max_connected
    }

    /// All connections to `node` are old enough for the oldest to be discarded.
    pub open spec fn is_stale(self, node: NodeId, now: Instant) -> bool {
        time_since(now, newest(self.conns(node))) > self.discard_timeout
    }

    /// The connections to `node` after the oldest have been discarded.
    pub open spec fn thinned(self, node: NodeId) -> Seq<PeerConn> {
        let conns = self.conns(node);
        let order = oldest_first(conns);
        pruned(conns, order, self.max_connected, order.len() as int)
    }

    /// The connections to `node` after a visit.
    pub open spec fn visited(self, node: NodeId, states: Map<u128, ConnState>, now: Instant) -> Seq<
        PeerConn,
    > {
        if self.is_crowded(node, states) && self.is_stale(node, now) {
            self.thinned(node)
        } else {
            self.conns(node)
        }
    }

    /// Another connection to `node` is opened, by the end with the smaller address.
    pub open spec fn opens(self, node: NodeId, states: Map<u128, ConnState>, now: Instant) -> bool {
        self.id <= node && (!self.is_crowded(node, states) || self.is_stale(node, now))
    }

    /// What is left of the sections of a session description once the candidate lines that are not
    /// used have been taken out.
    pub open spec fn filtered(self, offer: bool, sdp: Seq<char>) -> Option<Seq<Seq<AttributeText>>> {
        filtered_sections(offer, sdp, self.candidate_filter_prefix)
    }

    /// Reaction to a packet from `src`.
    pub open spec fn on_packet(self, src: NodeId, payload: SignalPayload) -> Result<
        SignalDecision,
        SignalError,
    > {
        if src == self.id {
            Ok(SignalDecision::Ignore)
        } else {
            match payload {
                SignalPayload::Offer(id, sdp) => if self.id > src {
                    match self.filtered(true, sdp@) {
                        Some(sections) => Ok(
                            SignalDecision::AnswerOffer { peer: src, id, sdp: sdp@, sections },
                        ),
                        None => Err(SignalError::InvalidDescription),
                    }
                } else {
                    Ok(SignalDecision::Ignore)
                },
                SignalPayload::Answer(id, sdp) => if self.id < src && self.has(src, id) {
                    match self.filtered(false, sdp@) {
                        Some(sections) => Ok(
                            SignalDecision::ApplyAnswer { peer: src, id, sdp: sdp@, sections },
                        ),
                        None => Err(SignalError::InvalidDescription),
                    }
                } else {
                    Ok(SignalDecision::Ignore)
                },
                SignalPayload::Candidate(id, line) => if !self.has(src, id) {
                    Ok(SignalDecision::Ignore)
                } else if candidate_octets(line@) is None {
                    Err(SignalError::InvalidCandidate)
                } else if line_allowed(line@, self.candidate_filter_prefix) {
                    Ok(SignalDecision::AddCandidate { peer: src, id, line: line@ })
                } else {
                    Ok(SignalDecision::Ignore)
                },
            }
        }
    }
}

/// Whether the connection with this id is up.
fn check_up(id: u128, states: &HashMap<u128, ConnState>) -> (result: bool)
    ensures
        result == is_up(id, states@),
{
    match states.get(&id) {
        Some(state) => *state == ConnState::Connected,
        None => false,
    }
}

/// The id for a connection that is about to be opened.
pub fn new_conn_id() -> (id: u128)
    ensures
        is_random_uuid(id),
{
    new_uuid()
}

/// Whether a connection in this state is over.
pub fn check_over(state: &ConnState) -> (result: bool)
    ensures
        result == is_over(*state),
{
    *state == ConnState::Disconnected || *state == ConnState::Failed || *state == ConnState::Closed
}

/// The connections that are kept.
pub fn keep(
    conns: &Vec<PeerConn>,
    states: &HashMap<u128, ConnState>,
    now: Instant,
    timeout: Duration,
) -> (result: Vec<PeerConn>)
    ensures
        result@ == kept(conns@, states@, now, timeout),
{
    let mut result: Vec<PeerConn> = Vec::new();
    let mut i: usize = 0;
    while i < conns.len()
        invariant
            i <= conns.len(),
            result@ == kept(conns@.take(i as int), states@, now, timeout),
        decreases conns.len() - i,
    {
        proof {
            assert(conns@.take(i + 1).drop_last() =~= conns@.take(i as int));
            assert(conns@.take(i + 1).last() == conns@[i as int]);
        }
        let conn = conns[i];
        if elapsed(now, conn.time) <= timeout || check_up(conn.id, states) {
            result.push(conn);
        }
        i += 1;
    }
    assert(conns@.take(conns.len() as int) =~= conns@);
    result
}

/// The connections that are up.
pub fn connected(conns: &Vec<PeerConn>, states: &HashMap<u128, ConnState>) -> (result: Vec<PeerConn>)
    ensures
        result@ == up(conns@, states@),
{
    let mut result: Vec<PeerConn> = Vec::new();
    let mut i: usize = 0;
    while i < conns.len()
        invariant
            i <= conns.len(),
            result@ == up(conns@.take(i as int), states@),
        decreases conns.len() - i,
    {
        proof {
            assert(conns@.take(i + 1).drop_last() =~= conns@.take(i as int));
            assert(conns@.take(i + 1).last() == conns@[i as int]);
        }
        let conn = conns[i];
        if check_up(conn.id, states) {
            result.push(conn);
        }
        i += 1;
    }
    assert(conns@.take(conns.len() as int) =~= conns@);
    result
}

/// The connections without the one with this id.
pub fn remove_id(conns: &Vec<PeerConn>, id: u128) -> (result: Vec<PeerConn>)
    ensures
        result@ == without(conns@, id),
{
    let mut result: Vec<PeerConn> = Vec::new();
    let mut i: usize = 0;
    while i < conns.len()
        invariant
            i <= conns.len(),
            result@ == without(conns@.take(i as int), id),
        decreases conns.len() - i,
    {
        proof {
            assert(conns@.take(i + 1).drop_last() =~= conns@.take(i as int));
            assert(conns@.take(i + 1).last() == conns@[i as int]);
        }
        if conns[i].id != id {
            result.push(conns[i]);
        }
        i += 1;
    }
    assert(conns@.take(conns.len() as int) =~= conns@);
    result
}

/// The time of the newest connection.
fn newest_time(conns: &Vec<PeerConn>) -> (time: Instant)
    requires
        conns.len() > 0,
    ensures
        time == newest(conns@),
{
    let mut time: Instant = conns[0].time;
    let mut i: usize = 1;
    proof {
        assert(conns@.take(1)[0] == conns@[0]);
    }
    while i < conns.len()
        invariant
            1 <= i <= conns.len(),
            time == newest(conns@.take(i as int)),
        decreases conns.len() - i,
    {
        proof {
            assert(conns@.take(i + 1).drop_last() =~= conns@.take(i as int));
            assert(conns@.take(i + 1).last() == conns@[i as int]);
        }
        if conns[i].time >= time {
            time = conns[i].time;
        }
        i += 1;
    }
    assert(conns@.take(conns.len() as int) =~= conns@);
    time
}

/// The connections in order of age, the oldest first.
pub fn sort_oldest_first(conns: &Vec<PeerConn>) -> (sorted: Vec<PeerConn>)
    ensures
        sorted@ == oldest_first(conns@),
{
    let mut sorted: Vec<PeerConn> = Vec::new();
    let mut i: usize = 0;
    while i < conns.len()
        invariant
            i <= conns.len(),
            sorted@ == oldest_first(conns@.take(i as int)),
        decreases conns.len() - i,
    {
        proof {
            assert(conns@.take(i + 1).drop_last() =~= conns@.take(i as int));
            assert(conns@.take(i + 1).last() == conns@[i as int]);
        }
        let conn = conns[i];
        let mut k: usize = sorted.len();
        assert(sorted@.take(k as int) =~= sorted@);
        while k > 0 && sorted[k - 1].time > conn.time
            invariant
                k <= sorted.len(),
                place(sorted@, conn.time) == place(sorted@.take(k as int), conn.time),
            decreases k,
        {
            proof {
                assert(sorted@.take(k as int).last() == sorted@[k - 1]);
                assert(sorted@.take(k as int).drop_last() =~= sorted@.take(k - 1));
            }
            k -= 1;
        }
        proof {
            if k > 0 {
                assert(sorted@.take(k as int).last() == sorted@[k - 1]);
            }
            assert(place(sorted@.take(k as int), conn.time) == k);
        }
        sorted.insert(k, conn);
        i += 1;
    }
    assert(conns@.take(conns.len() as int) =~= conns@);
    sorted
}

/// The connections in order of age, the newest first.
pub fn sort_newest_first(conns: &Vec<PeerConn>) -> (sorted: Vec<PeerConn>)
    ensures
        sorted@ == newest_first(conns@),
{
    let mut sorted: Vec<PeerConn> = Vec::new();
    let mut i: usize = 0;
    while i < conns.len()
        invariant
            i <= conns.len(),
            sorted@ == newest_first(conns@.take(i as int)),
        decreases conns.len() - i,
    {
        proof {
            assert(conns@.take(i + 1).drop_last() =~= conns@.take(i as int));
            assert(conns@.take(i + 1).last() == conns@[i as int]);
        }
        let conn = conns[i];
        let mut k: usize = sorted.len();
        assert(sorted@.take(k as int) =~= sorted@);
        while k > 0 && sorted[k - 1].time < conn.time
            invariant
                k <= sorted.len(),
                place_from_new(sorted@, conn.time) == place_from_new(
                    sorted@.take(k as int),
                    conn.time,
                ),
            decreases k,
        {
            proof {
                assert(sorted@.take(k as int).last() == sorted@[k - 1]);
                assert(sorted@.take(k as int).drop_last() =~= sorted@.take(k - 1));
            }
            k -= 1;
        }
        proof {
            if k > 0 {
                assert(sorted@.take(k as int).last() == sorted@[k - 1]);
            }
            assert(place_from_new(sorted@.take(k as int), conn.time) == k);
        }
        sorted.insert(k, conn);
        i += 1;
    }
    assert(conns@.take(conns.len() as int) =~= conns@);
    sorted
}

/// Discards the oldest connections while there are too many.
pub fn prune(conns: Vec<PeerConn>, max_connected: usize) -> (result: Vec<PeerConn>)
    ensures
        result@ == pruned(
            conns@,
            oldest_first(conns@),
            max_connected as nat,
            oldest_first(conns@).len() as int,
        ),
{
    let ghost all = conns@;
    let order = sort_oldest_first(&conns);
    let mut conns = conns;
    let mut i: usize = 0;
    while i < order.len()
        invariant
            i <= order.len(),
            order@ == oldest_first(all),
            conns@ == pruned(all, order@, max_connected as nat, i as int),
        decreases order.len() - i,
    {
        if conns.len() >= max_connected && !order[i].selected {
            conns = remove_id(&conns, order[i].id);
        }
        i += 1;
    }
    conns
}

/// The connection to select.
pub fn find_favourite(conns: &Vec<PeerConn>, states: &HashMap<u128, ConnState>) -> (result: Option<
    u128,
>)
    ensures
        result == favourite(conns@, states@),
{
    let sorted = sort_newest_first(&connected(conns, states));
    if sorted.len() == 0 {
        None
    } else if sorted.len() == 1 {
        Some(sorted[0].id)
    } else {
        Some(sorted[1].id)
    }
}

/// The selected connection.
pub fn find_selected_conn(conns: &Vec<PeerConn>) -> (result: Option<u128>)
    ensures
        result == selected_of(conns@),
{
    let mut result: Option<u128> = None;
    let mut i: usize = 0;
    while i < conns.len()
        invariant
            i <= conns.len(),
            result == selected_of(conns@.take(i as int)),
        decreases conns.len() - i,
    {
        proof {
            assert(conns@.take(i + 1).drop_last() =~= conns@.take(i as int));
            assert(conns@.take(i + 1).last() == conns@[i as int]);
        }
        if result.is_none() && conns[i].selected {
            result = Some(conns[i].id);
        }
        i += 1;
    }
    assert(conns@.take(conns.len() as int) =~= conns@);
    result
}

/// Selects the favourite.
pub fn reselect(conns: &Vec<PeerConn>, states: &HashMap<u128, ConnState>) -> (result: Vec<PeerConn>)
    ensures
        result@ == reselected(conns@, states@),
{
    let best = find_favourite(conns, states);
    let mut result: Vec<PeerConn> = Vec::new();
    let mut i: usize = 0;
    while i < conns.len()
        invariant
            i <= conns.len(),
            best == favourite(conns@, states@),
            result@ == reselected(conns@, states@).take(i as int),
        decreases conns.len() - i,
    {
        let mut conn = conns[i];
        conn.selected = match best {
            Some(id) => id == conn.id,
            None => false,
        };
        result.push(conn);
        assert(result@ =~= reselected(conns@, states@).take(i + 1));
        i += 1;
    }
    assert(result@ =~= reselected(conns@, states@));
    result
}

/// A copy of the connections.
fn copy_conns(conns: &Vec<PeerConn>) -> (result: Vec<PeerConn>)
    ensures
        result@ == conns@,
{
    let mut result: Vec<PeerConn> = Vec::new();
    let mut i: usize = 0;
    while i < conns.len()
        invariant
            i <= conns.len(),
            result@ == conns@.take(i as int),
        decreases conns.len() - i,
    {
        assert(conns@.take(i + 1) =~= conns@.take(i as int).push(conns@[i as int]));
        result.push(conns[i]);
        i += 1;
    }
    assert(conns@.take(conns.len() as int) =~= conns@);
    result
}

/// `conn` is one of the connections from the `i`-th on.
spec fn stands_from(conns: Seq<PeerConn>, i: int, conn: PeerConn) -> bool {
    exists|j: int| i <= j < conns.len() && #[trigger] conns[j] == conn
}

/// Each connection that is kept was there before, in the same order.
proof fn lemma_kept_origin(
    conns: Seq<PeerConn>,
    states: Map<u128, ConnState>,
    now: Instant,
    timeout: Duration,
)
    ensures
        kept(conns, states, now, timeout).len() <= conns.len(),
        forall|i: int|
            0 <= i < kept(conns, states, now, timeout).len() ==> stands_from(
                conns,
                i,
                #[trigger] kept(conns, states, now, timeout)[i],
            ),
        conns_inv(conns) ==> conns_inv(kept(conns, states, now, timeout)),
    decreases conns.len(),
{
    if conns.len() > 0 {
        let rest = conns.drop_last();
        lemma_kept_origin(rest, states, now, timeout);
        let before = kept(rest, states, now, timeout);
        let all = kept(conns, states, now, timeout);
        lemma_extended_origin(conns, before, all);
    }
}

/// What follows for a selection from all connections from the same of all but the last.
proof fn lemma_extended_origin(conns: Seq<PeerConn>, before: Seq<PeerConn>, all: Seq<PeerConn>)
    requires
        conns.len() > 0,
        all == before || all == before.push(conns.last()),
        before.len() <= conns.len() - 1,
        forall|i: int|
            0 <= i < before.len() ==> stands_from(conns.drop_last(), i, #[trigger] before[i]),
        conns_inv(conns.drop_last()) ==> conns_inv(before),
    ensures
        all.len() <= conns.len(),
        forall|i: int| 0 <= i < all.len() ==> stands_from(conns, i, #[trigger] all[i]),
        conns_inv(conns) ==> conns_inv(all),
{
    let rest = conns.drop_last();
    let last = conns.len() - 1;
    assert forall|i: int| 0 <= i < all.len() implies stands_from(conns, i, #[trigger] all[i]) by {
        if i < before.len() {
            assert(all[i] == before[i]);
            assert(stands_from(rest, i, before[i]));
            let j = choose|j: int| i <= j < rest.len() && #[trigger] rest[j] == before[i];
            assert(conns[j] == rest[j]);
        } else {
            assert(all[i] == conns[last]);
        }
    }
    if conns_inv(conns) {
        assert forall|i: int, j: int| 0 <= i < j < rest.len() implies (#[trigger] rest[i]).id != (
        #[trigger] rest[j]).id && !(rest[i].selected && rest[j].selected) by {
            assert(rest[i] == conns[i] && rest[j] == conns[j]);
        }
        assert forall|i: int, j: int| 0 <= i < j < all.len() implies (#[trigger] all[i]).id != (
        #[trigger] all[j]).id && !(all[i].selected && all[j].selected) by {
            assert(all[i] == before[i]);
            if j < before.len() {
                assert(all[j] == before[j]);
            } else {
                assert(stands_from(rest, i, before[i]));
                let k = choose|k: int| i <= k < rest.len() && #[trigger] rest[k] == before[i];
                assert(rest[k] == conns[k] && all[j] == conns[last]);
            }
        }
    }
}

/// Each connection that is left was there before, in the same order, and none has the id.
proof fn lemma_without_origin(conns: Seq<PeerConn>, id: u128)
    ensures
        without(conns, id).len() <= conns.len(),
        forall|i: int|
            0 <= i < without(conns, id).len() ==> stands_from(
                conns,
                i,
                #[trigger] without(conns, id)[i],
            ),
        conns_inv(conns) ==> conns_inv(without(conns, id)),
        forall|i: int| 0 <= i < without(conns, id).len() ==> (#[trigger] without(conns, id)[i]).id != id,
    decreases conns.len(),
{
    if conns.len() > 0 {
        let rest = conns.drop_last();
        lemma_without_origin(rest, id);
        lemma_extended_origin(conns, without(rest, id), without(conns, id));
    }
}

/// Adding a connection that is not selected in place of one with its id keeps the connections in
/// order.
proof fn lemma_with_conn_inv(conns: Seq<PeerConn>, conn: PeerConn)
    requires
        conns_inv(conns),
        !conn.selected,
    ensures
        conns_inv(without(conns, conn.id).push(conn)),
{
    lemma_without_origin(conns, conn.id);
}

/// Discarding connections keeps them in order.
proof fn lemma_pruned_inv(conns: Seq<PeerConn>, order: Seq<PeerConn>, max_connected: nat, n: int)
    requires
        conns_inv(conns),
    ensures
        conns_inv(pruned(conns, order, max_connected, n)),
    decreases n,
{
    if n > 0 {
        lemma_pruned_inv(conns, order, max_connected, n - 1);
        let before = pruned(conns, order, max_connected, n - 1);
        lemma_without_origin(before, order[n - 1].id);
    }
}

/// After a selection at most one connection is selected.
proof fn lemma_reselected_inv(conns: Seq<PeerConn>, states: Map<u128, ConnState>)
    requires
        conns_inv(conns),
    ensures
        conns_inv(reselected(conns, states)),
{
    let after = reselected(conns, states);
    assert forall|i: int, j: int| 0 <= i < j < after.len() implies (#[trigger] after[i]).id != (
    #[trigger] after[j]).id && !(after[i].selected && after[j].selected) by {
        assert(conns[i].id == after[i].id && conns[j].id == after[j].id);
    }
}

/// The place is within the order.
proof fn lemma_place(sorted: Seq<PeerConn>, time: Instant)
    ensures
        0 <= place(sorted, time) <= sorted.len(),
        0 <= place_from_new(sorted, time) <= sorted.len(),
    decreases sorted.len(),
{
    if sorted.len() > 0 {
        lemma_place(sorted.drop_last(), time);
    }
}

/// Bringing connections in order changes neither which they are nor how many.
pub proof fn lemma_order_keeps_connections(conns: Seq<PeerConn>)
    ensures
        oldest_first(conns).to_multiset() == conns.to_multiset(),
        newest_first(conns).to_multiset() == conns.to_multiset(),
        oldest_first(conns).len() == conns.len(),
        newest_first(conns).len() == conns.len(),
    decreases conns.len(),
{
    if conns.len() > 0 {
        let rest = conns.drop_last();
        lemma_order_keeps_connections(rest);
        let a = oldest_first(rest);
        let b = newest_first(rest);
        lemma_place(a, conns.last().time);
        lemma_place(b, conns.last().time);
        vstd::seq_lib::to_multiset_insert(a, place(a, conns.last().time), conns.last());
        vstd::seq_lib::to_multiset_insert(b, place_from_new(b, conns.last().time), conns.last());
        vstd::seq_lib::to_multiset_build(rest, conns.last());
        assert(rest.push(conns.last()) =~= conns);
    } else {
        assert(oldest_first(conns) =~= conns);
        assert(newest_first(conns) =~= conns);
    }
}

/// Before the place are connections that are as old or older, and behind it newer ones.
proof fn lemma_place_parts(sorted: Seq<PeerConn>, time: Instant)
    requires
        forall|i: int, j: int| 0 <= i <= j < sorted.len() ==> sorted[i].time <= sorted[j].time,
    ensures
        0 <= place(sorted, time) <= sorted.len(),
        forall|i: int| 0 <= i < place(sorted, time) ==> (#[trigger] sorted[i]).time <= time,
        forall|i: int|
            place(sorted, time) <= i < sorted.len() ==> time < (#[trigger] sorted[i]).time,
    decreases sorted.len(),
{
    if sorted.len() > 0 && sorted.last().time > time {
        let rest = sorted.drop_last();
        lemma_place_parts(rest, time);
        assert forall|i: int| 0 <= i < place(sorted, time) implies (#[trigger] sorted[i]).time
            <= time by {
            assert(rest[i] == sorted[i]);
        }
        assert forall|i: int| place(sorted, time) <= i < sorted.len() implies time < (
        #[trigger] sorted[i]).time by {
            if i < rest.len() {
                assert(rest[i] == sorted[i]);
            }
        }
    }
}

/// Before the place are connections that are as new or newer, and behind it older ones.
proof fn lemma_place_from_new_parts(sorted: Seq<PeerConn>, time: Instant)
    requires
        forall|i: int, j: int| 0 <= i <= j < sorted.len() ==> sorted[i].time >= sorted[j].time,
    ensures
        0 <= place_from_new(sorted, time) <= sorted.len(),
        forall|i: int|
            0 <= i < place_from_new(sorted, time) ==> (#[trigger] sorted[i]).time >= time,
        forall|i: int|
            place_from_new(sorted, time) <= i < sorted.len() ==> time > (#[trigger] sorted[i]).time,
    decreases sorted.len(),
{
    if sorted.len() > 0 && sorted.last().time < time {
        let rest = sorted.drop_last();
        lemma_place_from_new_parts(rest, time);
        assert forall|i: int| 0 <= i < place_from_new(sorted, time) implies (
        #[trigger] sorted[i]).time >= time by {
            assert(rest[i] == sorted[i]);
        }
        assert forall|i: int| place_from_new(sorted, time) <= i < sorted.len() implies time > (
        #[trigger] sorted[i]).time by {
            if i < rest.len() {
                assert(rest[i] == sorted[i]);
            }
        }
    }
}

/// In the order in which the oldest connection comes first, the times at which the connections were
/// made ascend.
pub proof fn lemma_oldest_first_ascends(conns: Seq<PeerConn>)
    ensures
        forall|i: int, j: int|
            0 <= i <= j < oldest_first(conns).len() ==> (#[trigger] oldest_first(conns)[i]).time <= (
            #[trigger] oldest_first(conns)[j]).time,
    decreases conns.len(),
{
    if conns.len() > 0 {
        let before = oldest_first(conns.drop_last());
        lemma_oldest_first_ascends(conns.drop_last());
        lemma_place_parts(before, conns.last().time);
    }
}

/// In the order in which the newest connection comes first, the times at which the connections were
/// made descend.
pub proof fn lemma_newest_first_descends(conns: Seq<PeerConn>)
    ensures
        forall|i: int, j: int|
            0 <= i <= j < newest_first(conns).len() ==> (#[trigger] newest_first(conns)[i]).time >= (
            #[trigger] newest_first(conns)[j]).time,
    decreases conns.len(),
{
    if conns.len() > 0 {
        let before = newest_first(conns.drop_last());
        lemma_newest_first_descends(conns.drop_last());
        lemma_place_from_new_parts(before, conns.last().time);
    }
}

impl View for FullMesh {
    type V = FullMeshView;

    closed spec fn view(&self) -> FullMeshView {
        FullMeshView {
            id: self.id,
            timeout: self.timeout,
            discard_timeout: self.discard_timeout,
            max_connected: self.max_connected as nat,
            candidate_filter_prefix: self.candidate_filter_prefix,
            peers: self.peers@.map_values(|conns: Vec<PeerConn>| conns@),
        }
    }
}

impl FullMesh {
    /// The full mesh of node `id` with the usual limits.
    pub fn new(id: NodeId, candidate_filter_prefix: Option<Prefix>) -> (fm: FullMesh)
        requires
            candidate_filter_prefix matches Some(p) ==> p.wf(),
        ensures
            fm@.inv(),
            fm@ == (FullMeshView {
                id,
                timeout: (30 * SECOND) as u64,
                discard_timeout: (60 * SECOND) as u64,
                max_connected: 5,
                candidate_filter_prefix,
                peers: Map::empty(),
            }),
    {
        FullMesh::new_with_parameters(id, 30 * SECOND, 60 * SECOND, 5, candidate_filter_prefix)
    }

    /// The full mesh of node `id` with the given limits. There are no connections yet.
    pub fn new_with_parameters(
        id: NodeId,
        timeout: Duration,
        discard_timeout: Duration,
        max_connected: usize,
        candidate_filter_prefix: Option<Prefix>,
    ) -> (fm: FullMesh)
        requires
            candidate_filter_prefix matches Some(p) ==> p.wf(),
        ensures
            fm@.inv(),
            fm@ == (FullMeshView {
                id,
                timeout,
                discard_timeout,
                max_connected: max_connected as nat,
                candidate_filter_prefix,
                peers: Map::empty(),
            }),
    {
        let fm = FullMesh {
            id,
            timeout,
            discard_timeout,
            max_connected,
            candidate_filter_prefix,
            peers: HashMap::new(),
        };
        assert(fm@.peers =~= Map::empty());
        fm
    }

    /// The connections to `node`.
    pub fn get_conns(&self, node: NodeId) -> (conns: Vec<PeerConn>)
        ensures
            conns@ == self@.conns(node),
    {
        match self.peers.get(&node) {
            Some(conns) => copy_conns(conns),
            None => Vec::new(),
        }
    }

    /// The nodes to which there are or have been connections, each once, in no particular order.
    pub fn get_peers(&self) -> (nodes: Vec<NodeId>)
        ensures
            nodes@.no_duplicates(),
            nodes@.to_set() == self@.peers.dom(),
    {
        let nodes = node_keys(&self.peers);
        assert(self@.peers.dom() =~= self.peers@.dom());
        nodes
    }

    /// What is told about those of the connections to `node` that are seen.
    pub fn report_conns(
        &self,
        node: NodeId,
        seen: &HashMap<u128, ConnObservation>,
        now: Instant,
    ) -> (entries: Vec<ConnEntry>)
        ensures
            entries@ == conn_entries(self@.conns(node), seen@, now),
    {
        let conns = self.get_conns(node);
        let mut entries: Vec<ConnEntry> = Vec::new();
        let mut i: usize = 0;
        while i < conns.len()
            invariant
                i <= conns.len(),
                entries@ == conn_entries(conns@.take(i as int), seen@, now),
            decreases conns.len() - i,
        {
            proof {
                assert(conns@.take(i + 1).drop_last() =~= conns@.take(i as int));
                assert(conns@.take(i + 1).last() == conns@[i as int]);
            }
            let conn = conns[i];
            if let Some(observation) = seen.get(&conn.id) {
                let selected_candidate = match &observation.selected_candidate {
                    Some(line) => Some(line.clone()),
                    None => None,
                };
                entries.push(
                    ConnEntry {
                        id: conn.id,
                        conn: Conn {
                            selected: conn.selected,
                            state: observation.state,
                            selected_candidate,
                            elapsed_ms: elapsed(now, conn.time) / MILLISECOND,
                        },
                    },
                );
            }
            i += 1;
        }
        assert(conns@.take(conns.len() as int) =~= conns@);
        entries
    }

    fn set_conns(&mut self, node: NodeId, conns: Vec<PeerConn>)
        ensures
            final(self)@ == old(self)@.with(node, conns@),
    {
        self.peers.insert(node, conns);
        assert(self@.peers =~= old(self)@.peers.insert(node, conns@));
    }

    /// Whether there is a connection to `node` with this id.
    fn has_conn(&self, node: NodeId, id: u128) -> (result: bool)
        ensures
            result == self@.has(node, id),
    {
        let conns = self.get_conns(node);
        let mut i: usize = 0;
        while i < conns.len()
            invariant
                i <= conns.len(),
                conns@ == self@.conns(node),
                forall|j: int| 0 <= j < i ==> (#[trigger] conns@[j]).id != id,
            decreases conns.len() - i,
        {
            if conns[i].id == id {
                assert(self@.conns(node)[i as int].id == id);
                return true;
            }
            i += 1;
        }
        false
    }

    /// Takes a packet; without one, the full mesh ends.
    pub fn handle_packet(&self, packet: Option<(NodeId, SignalPayload)>) -> (result: Result<
        SignalAction,
        SignalError,
    >)
        requires
            self@.inv(),
        ensures
            match packet {
                Some((src, payload)) => match result {
                    Ok(action) => self@.on_packet(src, payload) == Ok::<_, SignalError>(action@),
                    Err(e) => self@.on_packet(src, payload) == Err::<SignalDecision, _>(e),
                },
                None => result matches Ok(action) && action == SignalAction::Stop,
            },
    {
        let (src, payload) = match packet {
            Some(packet) => packet,
            None => {
                return Ok(SignalAction::Stop);
            },
        };
        if src == self.id {
            return Ok(SignalAction::Ignore);
        }
        match payload {
            SignalPayload::Offer(id, sdp) => if self.id > src {
                match filter_description(true, sdp.as_str(), &self.candidate_filter_prefix) {
                    Some(sections) => Ok(SignalAction::AnswerOffer { peer: src, id, sdp, sections }),
                    None => Err(SignalError::InvalidDescription),
                }
            } else {
                Ok(SignalAction::Ignore)
            },
            SignalPayload::Answer(id, sdp) => if self.id < src && self.has_conn(src, id) {
                match filter_description(false, sdp.as_str(), &self.candidate_filter_prefix) {
                    Some(sections) => Ok(SignalAction::ApplyAnswer { peer: src, id, sdp, sections }),
                    None => Err(SignalError::InvalidDescription),
                }
            } else {
                Ok(SignalAction::Ignore)
            },
            SignalPayload::Candidate(id, line) => {
                if !self.has_conn(src, id) {
                    return Ok(SignalAction::Ignore);
                }
                match check_line(line.as_str(), &self.candidate_filter_prefix) {
                    None => Err(SignalError::InvalidCandidate),
                    Some(true) => Ok(SignalAction::AddCandidate { peer: src, id, line }),
                    Some(false) => Ok(SignalAction::Ignore),
                }
            },
        }
    }

    /// Takes a new connection to `node`, in place of one with the same id.
    pub fn add_conn(&mut self, node: NodeId, id: u128, now: Instant)
        requires
            old(self)@.inv(),
        ensures
            final(self)@.inv(),
            final(self)@ == old(self)@.with(
                node,
                without(old(self)@.conns(node), id).push(
                    PeerConn { id, time: now, selected: false },
                ),
            ),
    {
        let conns = self.get_conns(node);
        proof {
            lemma_with_conn_inv(conns@, PeerConn { id, time: now, selected: false });
        }
        let mut conns = remove_id(&conns, id);
        conns.push(PeerConn { id, time: now, selected: false });
        self.set_conns(node, conns);
    }

    /// Forgets a connection. Tells whether the users of connections have to look anew.
    pub fn remove_conn(&mut self, node: NodeId, id: u128) -> (refresh: bool)
        requires
            old(self)@.inv(),
        ensures
            final(self)@.inv(),
            refresh == old(self)@.peers.contains_key(node),
            final(self)@ == if refresh {
                old(self)@.with(node, without(old(self)@.conns(node), id))
            } else {
                old(self)@
            },
    {
        if self.peers.contains_key(&node) {
            let conns = self.get_conns(node);
            proof {
                lemma_without_origin(conns@, id);
            }
            let conns = remove_id(&conns, id);
            self.set_conns(node, conns);
            true
        } else {
            false
        }
    }

    /// First part of a tick: drops the connections that have not come up in time.
    pub fn tick_gc(&mut self, states: &HashMap<u128, ConnState>, now: Instant)
        requires
            old(self)@.inv(),
        ensures
            final(self)@.inv(),
            final(self)@ == (FullMeshView {
                peers: old(self)@.peers.map_values(
                    |conns: Seq<PeerConn>| kept(conns, states@, now, old(self)@.timeout),
                ),
                ..old(self)@
            }),
    {
        let ghost before = self@;
        let nodes = self.get_peers();
        let mut i: usize = 0;
        proof {
            assert forall|n: NodeId| before.peers.contains_key(n) <==> nodes@.contains(n) by {
                assert(nodes@.to_set().contains(n) <==> nodes@.contains(n));
            }
        }
        while i < nodes.len()
            invariant
                i <= nodes.len(),
                before == old(self)@,
                before.inv(),
                self@.inv(),
                nodes@.no_duplicates(),
                forall|n: NodeId| before.peers.contains_key(n) <==> #[trigger] nodes@.contains(n),
                self@ == (FullMeshView { peers: self@.peers, ..before }),
                forall|n: NodeId| #[trigger]
                    self@.peers.contains_key(n) <==> before.peers.contains_key(n),
                forall|n: NodeId| #[trigger]
                    self@.peers.contains_key(n) ==> self@.peers[n] == if nodes@.take(
                        i as int,
                    ).contains(n) {
                        kept(before.peers[n], states@, now, before.timeout)
                    } else {
                        before.peers[n]
                    },
            decreases nodes.len() - i,
        {
            let node = nodes[i];
            let ghost done = nodes@.take(i as int);
            let ghost next = nodes@.take(i + 1);
            proof {
                assert(next =~= done.push(node));
                assert(!done.contains(node));
                assert(nodes@.contains(node));
                assert forall|k: NodeId| next.contains(k) <==> done.contains(k) || k == node by {
                    if done.contains(k) {
                        let j = choose|j: int| 0 <= j < done.len() && done[j] == k;
                        assert(next[j] == k);
                    }
                    assert(next[i as int] == node);
                }
                assert(self@.peers.contains_key(node));
            }
            let conns = self.get_conns(node);
            proof {
                lemma_kept_origin(conns@, states@, now, before.timeout);
            }
            let conns = keep(&conns, states, now, self.timeout);
            self.set_conns(node, conns);
            i += 1;
        }
        proof {
            assert(nodes@.take(nodes.len() as int) =~= nodes@);
            assert(self@.peers =~= before.peers.map_values(
                |conns: Seq<PeerConn>| kept(conns, states@, now, before.timeout),
            ));
        }
    }

    /// Second part of a tick, for each node to which there is a route: discards connections where
    /// there are too many, and tells whether the users of connections have to look anew and whether
    /// another connection is to be opened.
    pub fn tick_node(&mut self, node: NodeId, states: &HashMap<u128, ConnState>, now: Instant) -> (
        result: (bool, bool))
        requires
            old(self)@.inv(),
            old(self)@.max_connected > 0 || old(self)@.conns(node).len() > 0,
        ensures
            final(self)@.inv(),
            final(self)@ == old(self)@.with(node, old(self)@.visited(node, states@, now)),
            result.0 <==> old(self)@.visited(node, states@, now).len() != old(self)@.conns(
                node,
            ).len(),
            result.1 == old(self)@.opens(node, states@, now),
    {
        let ghost before = self@;
        let conns = self.get_conns(node);
        let count: usize = conns.len();
        let crowded = connected(&conns, states).len() >= self.max_connected;
        if crowded {
            proof {
                lemma_up_len(conns@, states@);
            }
            if elapsed(now, newest_time(&conns)) > self.discard_timeout {
                proof {
                    lemma_pruned_inv(
                        conns@,
                        oldest_first(conns@),
                        before.max_connected,
                        oldest_first(conns@).len() as int,
                    );
                }
                let conns = prune(conns, self.max_connected);
                let refresh = conns.len() != count;
                self.set_conns(node, conns);
                (refresh, self.id <= node)
            } else {
                self.set_conns(node, conns);
                (false, false)
            }
        } else {
            self.set_conns(node, conns);
            (false, self.id <= node)
        }
    }

    /// Last part of a tick: selects a connection to each node. Tells whether the users of connections
    /// have to look anew.
    pub fn tick_select(&mut self, states: &HashMap<u128, ConnState>) -> (refresh: bool)
        requires
            old(self)@.inv(),
        ensures
            final(self)@.inv(),
            final(self)@ == (FullMeshView {
                peers: old(self)@.peers.map_values(
                    |conns: Seq<PeerConn>| reselected(conns, states@),
                ),
                ..old(self)@
            }),
            refresh <==> exists|n: NodeId| #[trigger]
                old(self)@.peers.contains_key(n) && selected_of(old(self)@.peers[n]) != favourite(
                    old(self)@.peers[n],
                    states@,
                ),
    {
        let ghost before = self@;
        let nodes = self.get_peers();
        let mut refresh = false;
        let mut i: usize = 0;
        proof {
            assert forall|n: NodeId| before.peers.contains_key(n) <==> nodes@.contains(n) by {
                assert(nodes@.to_set().contains(n) <==> nodes@.contains(n));
            }
        }
        while i < nodes.len()
            invariant
                i <= nodes.len(),
                before == old(self)@,
                before.inv(),
                self@.inv(),
                nodes@.no_duplicates(),
                forall|n: NodeId| before.peers.contains_key(n) <==> #[trigger] nodes@.contains(n),
                self@ == (FullMeshView { peers: self@.peers, ..before }),
                forall|n: NodeId| #[trigger]
                    self@.peers.contains_key(n) <==> before.peers.contains_key(n),
                forall|n: NodeId| #[trigger]
                    self@.peers.contains_key(n) ==> self@.peers[n] == if nodes@.take(
                        i as int,
                    ).contains(n) {
                        reselected(before.peers[n], states@)
                    } else {
                        before.peers[n]
                    },
                refresh <==> exists|n: NodeId| #[trigger]
                    before.peers.contains_key(n) && nodes@.take(i as int).contains(n)
                        && selected_of(before.peers[n]) != favourite(before.peers[n], states@),
            decreases nodes.len() - i,
        {
            let node = nodes[i];
            let ghost done = nodes@.take(i as int);
            let ghost next = nodes@.take(i + 1);
            proof {
                assert(next =~= done.push(node));
                assert(!done.contains(node));
                assert(nodes@.contains(node));
                assert forall|k: NodeId| next.contains(k) <==> done.contains(k) || k == node by {
                    if done.contains(k) {
                        let j = choose|j: int| 0 <= j < done.len() && done[j] == k;
                        assert(next[j] == k);
                    }
                    assert(next[i as int] == node);
                }
                assert(self@.peers.contains_key(node));
                assert(before.peers.contains_key(node));
            }
            let conns = self.get_conns(node);
            if find_selected_conn(&conns) != find_favourite(&conns, states) {
                refresh = true;
            }
            proof {
                lemma_reselected_inv(conns@, states@);
            }
            let conns = reselect(&conns, states);
            self.set_conns(node, conns);
            i += 1;
        }
        proof {
            assert(nodes@.take(nodes.len() as int) =~= nodes@);
            assert(self@.peers =~= before.peers.map_values(
                |conns: Seq<PeerConn>| reselected(conns, states@),
            ));
        }
        refresh
    }

    /// The connection over which packets to `node` are sent.
    pub fn get_sender(&self, node: NodeId) -> (result: Option<u128>)
        ensures
            result == selected_of(self@.conns(node)),
    {
        find_selected_conn(&self.get_conns(node))
    }

    /// The connections over which packets from `node` are received.
    pub fn get_receivers(&self, node: NodeId, states: &HashMap<u128, ConnState>) -> (conns: Vec<
        PeerConn,
    >)
        ensures
            conns@ == up(self@.conns(node), states@),
    {
        connected(&self.get_conns(node), states)
    }
}

/// No more connections are up than there are.
proof fn lemma_up_len(conns: Seq<PeerConn>, states: Map<u128, ConnState>)
    ensures
        up(conns, states).len() <= conns.len(),
    decreases conns.len(),
{
    if conns.len() > 0 {
        lemma_up_len(conns.drop_last(), states);
    }
}

/// Each connection that is up is one of the connections, and up.
proof fn lemma_up_members(conns: Seq<PeerConn>, states: Map<u128, ConnState>, i: int)
    requires
        0 <= i < up(conns, states).len(),
    ensures
        conns.contains(up(conns, states)[i]),
        is_up(up(conns, states)[i].id, states),
    decreases conns.len(),
{
    let rest = conns.drop_last();
    if i < up(rest, states).len() {
        lemma_up_members(rest, states, i);
        let k = choose|k: int| 0 <= k < rest.len() && rest[k] == up(rest, states)[i];
        assert(conns[k] == rest[k]);
    } else {
        assert(conns[conns.len() - 1] == conns.last());
    }
}

/// The orders by age hold nothing but the connections.
proof fn lemma_order_members(conns: Seq<PeerConn>, i: int)
    requires
        0 <= i < conns.len(),
    ensures
        conns.contains(newest_first(conns)[i]),
        conns.contains(oldest_first(conns)[i]),
{
    lemma_order_keeps_connections(conns);
    let a = newest_first(conns);
    let b = oldest_first(conns);
    a.to_multiset_ensures();
    b.to_multiset_ensures();
    conns.to_multiset_ensures();
    assert(a.contains(a[i]));
    assert(b.contains(b[i]));
    assert(a.to_multiset().count(a[i]) > 0);
    assert(b.to_multiset().count(b[i]) > 0);
}

/// The connection that is selected is one of the connections to the node, and it is up. Where any is
/// up, one is selected.
pub proof fn lemma_favourite_is_up(conns: Seq<PeerConn>, states: Map<u128, ConnState>)
    ensures
        match favourite(conns, states) {
            Some(id) => is_up(id, states) && exists|i: int|
                0 <= i < conns.len() && (#[trigger] conns[i]).id == id,
            None => up(conns, states).len() == 0,
        },
{
    let candidates = up(conns, states);
    lemma_order_keeps_connections(candidates);
    let sorted = newest_first(candidates);
    if sorted.len() > 0 {
        let k: int = if sorted.len() == 1 {
            0
        } else {
            1
        };
        lemma_order_members(candidates, k);
        let i = choose|i: int| 0 <= i < candidates.len() && candidates[i] == sorted[k];
        lemma_up_members(conns, states, i);
        let j = choose|j: int| 0 <= j < conns.len() && conns[j] == candidates[i];
        assert(conns[j].id == sorted[k].id);
    }
}

/// Discarding connections never takes the selected one.
pub proof fn lemma_selected_not_discarded(
    conns: Seq<PeerConn>,
    max_connected: nat,
    n: int,
    selected: PeerConn,
)
    requires
        conns_inv(conns),
        conns.contains(selected),
        selected.selected,
        n <= oldest_first(conns).len(),
    ensures
        pruned(conns, oldest_first(conns), max_connected, n).contains(selected),
    decreases n,
{
    let order = oldest_first(conns);
    if n > 0 {
        lemma_selected_not_discarded(conns, max_connected, n - 1, selected);
        let before = pruned(conns, order, max_connected, n - 1);
        lemma_order_keeps_connections(conns);
        lemma_order_members(conns, n - 1);
        if !order[n - 1].selected {
            let a = choose|a: int| 0 <= a < conns.len() && conns[a] == selected;
            let b = choose|b: int| 0 <= b < conns.len() && conns[b] == order[n - 1];
            assert(conns[a].id != conns[b].id);
            lemma_without_keeps(before, order[n - 1].id, selected);
        }
    }
}

proof fn lemma_without_keeps(conns: Seq<PeerConn>, id: u128, other: PeerConn)
    requires
        conns.contains(other),
        other.id != id,
    ensures
        without(conns, id).contains(other),
    decreases conns.len(),
{
    let rest = conns.drop_last();
    let k = choose|k: int| 0 <= k < conns.len() && conns[k] == other;
    if k < rest.len() {
        assert(rest[k] == other);
        lemma_without_keeps(rest, id, other);
        let before = without(rest, id);
        let j = choose|j: int| 0 <= j < before.len() && before[j] == other;
        assert(without(conns, id)[j] == other);
    } else {
        let all = without(conns, id);
        assert(all[all.len() - 1] == other);
    }
}

/// A connection that is up is never dropped for its age.
pub proof fn lemma_up_is_kept(
    conns: Seq<PeerConn>,
    states: Map<u128, ConnState>,
    now: Instant,
    timeout: Duration,
    conn: PeerConn,
)
    requires
        conns.contains(conn),
        is_up(conn.id, states),
    ensures
        kept(conns, states, now, timeout).contains(conn),
    decreases conns.len(),
{
    let rest = conns.drop_last();
    let k = choose|k: int| 0 <= k < conns.len() && conns[k] == conn;
    if k < rest.len() {
        assert(rest[k] == conn);
        lemma_up_is_kept(rest, states, now, timeout, conn);
        let before = kept(rest, states, now, timeout);
        let j = choose|j: int| 0 <= j < before.len() && before[j] == conn;
        assert(kept(conns, states, now, timeout)[j] == conn);
    } else {
        let all = kept(conns, states, now, timeout);
        assert(all[all.len() - 1] == conn);
    }
}

/// Of two nodes exactly one ignores the offers of the other; the other one answers them, where they
/// are session descriptions.
pub proof fn lemma_one_end_answers(a: FullMeshView, b: FullMeshView, id: u128, sdp: String)
    requires
        a.id != b.id,
    ensures
        (a.on_packet(b.id, SignalPayload::Offer(id, sdp)) == Ok::<_, SignalError>(
            SignalDecision::Ignore,
        )) != (b.on_packet(a.id, SignalPayload::Offer(id, sdp)) == Ok::<_, SignalError>(
            SignalDecision::Ignore,
        )),
        a.id > b.id && a.filtered(true, sdp@) is Some ==> a.on_packet(
            b.id,
            SignalPayload::Offer(id, sdp),
        ) == Ok::<_, SignalError>(
            SignalDecision::AnswerOffer {
                peer: b.id,
                id,
                sdp: sdp@,
                sections: a.filtered(true, sdp@)->0,
            },
        ),
{
}

/// A connection is put into its order behind all that are as old as it, and before all that are newer;
/// or, where the newest come first, behind all that are as new and before all that are older. So those
/// of one age stay in the order in which they came.
pub proof fn lemma_ties_stay_in_order(conns: Seq<PeerConn>, conn: PeerConn)
    ensures
        exists|k: int|
            {
                let sorted = oldest_first(conns);
                &&& 0 <= k <= sorted.len()
                &&& oldest_first(conns.push(conn)) == #[trigger] oldest_first(conns).insert(
                    k,
                    conn,
                )
                &&& forall|i: int| 0 <= i < k ==> (#[trigger] sorted[i]).time <= conn.time
                &&& forall|i: int| k <= i < sorted.len() ==> (#[trigger] sorted[i]).time > conn.time
            },
        exists|k: int|
            {
                let sorted = newest_first(conns);
                &&& 0 <= k <= sorted.len()
                &&& newest_first(conns.push(conn)) == #[trigger] newest_first(conns).insert(
                    k,
                    conn,
                )
                &&& forall|i: int| 0 <= i < k ==> (#[trigger] sorted[i]).time >= conn.time
                &&& forall|i: int| k <= i < sorted.len() ==> (#[trigger] sorted[i]).time < conn.time
            },
{
    lemma_oldest_first_ascends(conns);
    lemma_newest_first_descends(conns);
    let old = oldest_first(conns);
    let new = newest_first(conns);
    lemma_place_parts(old, conn.time);
    lemma_place_from_new_parts(new, conn.time);
    assert(conns.push(conn).drop_last() =~= conns);
    assert(oldest_first(conns.push(conn)) == old.insert(place(old, conn.time), conn));
    assert(newest_first(conns.push(conn)) == new.insert(place_from_new(new, conn.time), conn));
}

} // verus!
