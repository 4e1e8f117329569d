//! The full mesh: one direct connection to every known node.
//!
//! Of two nodes the one with the smaller address opens the connection and asks for new keys, the
//! other one answers. Keys are agreed on with fresh key pairs; while a change of keys is under way
//! each end can still open what the other sealed under the key before.

use vstd::prelude::*;
use std::collections::HashMap;
use crate::crypto::{agreed_key, EcdhKey, PublicKey};
use crate::packet::{elapsed, time_since, Duration, Instant, NodeId, SECOND};
use crate::tables::node_keys;
use crate::uapi::ConnState;
use super::{report_state, reported_state, ConnectionState};
use super::candidates::{check_description, described_sections};
use super::frame::FullMeshKey;
use super::registry::{ConnectionType, Peer};

verus! {

broadcast use vstd::std_specs::hash::group_hash_axioms;

/// What the full meshes tell each other.
#[derive(Clone, Debug)]
pub enum FullMeshPayload {
    /// The parameters of one end of an ICE connection.
    Shake { ufrag: String, pwd: String, candidates: Vec<String>, public_key: PublicKey },
    /// A request for a new key, or the answer to one.
    Rekey { index: bool, public_key: PublicKey },
    /// The confirmation that the new key is in use.
    RekeyConfirm { index: bool, public_key: PublicKey },
    /// The offer of a data channel.
    Offer { sdp: String, candidates: Vec<String> },
    /// The answer to an offer.
    Answer { sdp: String, candidates: Vec<String> },
}

/// A connection to a node.
#[derive(Clone, Copy)]
pub struct FullMeshConnection {
    pub kind: ConnectionType,
    /// How many bytes had been received when that number was last seen to change.
    pub last_received: u64,
    /// When it was last seen to change.
    pub last_received_at: Instant,
    /// Whether the connection has been handed to the device.
    pub once_connected: bool,
    pub last_rekey: Instant,
    pub ecdh_key: EcdhKey,
    /// The key under which packets are sealed.
    pub send_key: Option<FullMeshKey>,
}

/// What is seen of a connection from outside.
#[derive(Clone, Copy, PartialEq, Eq, Structural, Debug)]
pub struct Observation {
    pub status: ConnectionState,
    /// How many bytes have been received.
    pub received: u64,
}

/// What the full mesh asks for.
pub enum FullMeshAction {
    /// End the full mesh: the mesh is gone.
    Stop,
    /// Send a packet to a node.
    Send { dst: NodeId, payload: FullMeshPayload },
    /// Make the answering end of an ICE connection, start it with these parameters, and report with
    /// [`FullMeshIce::ice_accepted`].
    AcceptIce {
        peer: NodeId,
        ufrag: String,
        pwd: String,
        candidates: Vec<String>,
        ecdh_key: EcdhKey,
        key: FullMeshKey,
    },
    /// Start the opening end of an ICE connection with these parameters, and report with
    /// [`FullMeshIce::ice_started`].
    StartIce {
        peer: NodeId,
        ufrag: String,
        pwd: String,
        candidates: Vec<String>,
        key: FullMeshKey,
    },
    /// Open packets from a node with this key.
    SetRecvKey { peer: NodeId, key: FullMeshKey },
    /// Seal packets to a node with this key.
    SetSendKey { peer: NodeId, key: FullMeshKey },
    /// Answer the offer of a data channel, and report with [`FullMeshIce::offer_answered`] and
    /// [`FullMeshIce::answer_sent`].
    AnswerOffer { peer: NodeId, sdp: String, candidates: Vec<String> },
    /// Complete a data channel.
    ApplyAnswer { peer: NodeId, sdp: String, candidates: Vec<String> },
    /// Make the opening end of an ICE connection, and report with [`FullMeshIce::ice_opened`].
    OpenIce { peer: NodeId },
    /// Make the offer of a data channel, and report with [`FullMeshIce::channel_opened`].
    OpenChannel { peer: NodeId },
}

/// Why a packet was refused.
#[derive(Clone, Copy, PartialEq, Eq, Structural, Debug)]
pub enum FullMeshError {
    /// It carries something that is no public key.
    InvalidPublicKey,
    /// It carries something that is no session description.
    InvalidDescription,
}

/// What is seen of a connection from outside, for the control interface.
#[derive(Clone, Debug)]
pub struct PeerObservation {
    pub status: ConnectionState,
    /// The candidate over which the node is reached.
    pub selected_candidate: Option<String>,
    pub sent: u64,
    pub received: u64,
}

/// What is told about the connection to a node.
#[derive(Clone, Debug)]
pub struct PeerReport {
    pub node_id: NodeId,
    pub state: ConnState,
    pub selected_candidate: Option<String>,
    pub sent: u64,
    pub received: u64,
}

/// What is told about the connection to a node of which `seen` is seen.
pub open spec fn peer_report(node_id: NodeId, seen: PeerObservation) -> PeerReport {
    PeerReport {
        node_id,
        state: reported_state(seen.status),
        selected_candidate: seen.selected_candidate,
        sent: seen.sent,
        received: seen.received,
    }
}

/// The full mesh of one node.
pub struct FullMeshIce {
    pub id: NodeId,
    pub connect_interval: Duration,
    pub connection_timeout: Duration,
    pub rekey_timeout: Duration,
    pub connections: HashMap<NodeId, FullMeshConnection>,
}

/// The state of the full mesh.
#[verifier::ext_equal]
pub struct FullMeshIceView {
    pub id: NodeId,
    pub connect_interval: Duration,
    pub connection_timeout: Duration,
    pub rekey_timeout: Duration,
    pub connections: Map<NodeId, FullMeshConnection>,
}

/// The key on which a key pair and the public key of a peer agree.
pub open spec fn session_key(ecdh_key: EcdhKey, public_key: PublicKey, index: bool) -> Option<
    FullMeshKey,
> {
    match agreed_key(ecdh_key.secret(), public_key.bytes@) {
        Some(key) => Some(FullMeshKey { index, key }),
        None => None,
    }
}

/// Two key pairs agree on a key, whichever end computes it.
pub open spec fn agrees(mine: EcdhKey, theirs: EcdhKey, index: bool) -> bool {
    &&& session_key(mine, theirs.public(), index) is Some
    &&& session_key(mine, theirs.public(), index) == session_key(theirs, mine.public(), index)
}

/// The public key in a packet, and the index of the key to be agreed on with it.
pub open spec fn offered_key(payload: FullMeshPayload) -> Option<(PublicKey, bool)> {
    match payload {
        FullMeshPayload::Shake { ufrag, pwd, candidates, public_key } => Some((public_key, false)),
        FullMeshPayload::Rekey { index, public_key } => Some((public_key, index)),
        FullMeshPayload::RekeyConfirm { index, public_key } => Some((public_key, index)),
        _ => None,
    }
}

/// A new connection.
pub open spec fn new_connection(
    kind: ConnectionType,
    ecdh_key: EcdhKey,
    send_key: Option<FullMeshKey>,
    now: Instant,
) -> FullMeshConnection {
    FullMeshConnection {
        kind,
        last_received: 0,
        last_received_at: now,
        once_connected: false,
        last_rekey: now,
        ecdh_key,
        send_key,
    }
}

/// The parameters of an end of an ICE connection with this key pair, as they are told to the other end.
pub open spec fn parameters_of(
    ufrag: String,
    pwd: String,
    candidates: Vec<String>,
    ecdh_key: EcdhKey,
) -> FullMeshPayload {
    FullMeshPayload::Shake { ufrag, pwd, candidates, public_key: ecdh_key.public() }
}

/// The packet is the request to open, or to change the key of, a connection that this node answers
/// with a key pair of its own.
pub open spec fn needs_key(id: NodeId, connections: Map<NodeId, FullMeshConnection>, src: NodeId,
    payload: FullMeshPayload) -> bool {
    match payload {
        FullMeshPayload::Shake { .. } => id > src,
        FullMeshPayload::Rekey { .. } => id > src && connections.contains_key(src)
            && connections[src].kind is Ice,
        _ => false,
    }
}

/// What came of a packet: the state after it and what is to be done.
pub type Outcome = Result<(FullMeshIceView, Seq<FullMeshAction>), FullMeshError>;

impl FullMeshIceView {
    /// The state with another connection to `peer`.
    pub open spec fn with(self, peer: NodeId, connection: FullMeshConnection) -> FullMeshIceView {
        FullMeshIceView { connections: self.connections.insert(peer, connection), ..self }
    }

    /// Reaction to the parameters of the other end. The end with the larger address makes its own
    /// end now, with the key pair `fresh`; the other one has made it before, and starts it.
    pub open spec fn on_shake(
        self,
        src: NodeId,
        ufrag: String,
        pwd: String,
        candidates: Vec<String>,
        public_key: PublicKey,
        fresh: Option<EcdhKey>,
        now: Instant,
    ) -> Outcome {
        if self.id > src {
            let ecdh_key = fresh->0;
            match session_key(ecdh_key, public_key, false) {
                None => Err(FullMeshError::InvalidPublicKey),
                Some(key) => Ok(
                    (
                        self,
                        seq![
                            FullMeshAction::AcceptIce {
                                peer: src,
                                ufrag,
                                pwd,
                                candidates,
                                ecdh_key,
                                key,
                            },
                        ],
                    ),
                ),
            }
        } else if !self.connections.contains_key(src) {
            Ok((self, Seq::empty()))
        } else {
            let conn = self.connections[src];
            match session_key(conn.ecdh_key, public_key, false) {
                None => Err(FullMeshError::InvalidPublicKey),
                Some(key) => Ok(
                    (
                        self.with(src, FullMeshConnection { last_rekey: now, ..conn }),
                        if conn.kind is Ice {
                            seq![
                                FullMeshAction::StartIce {
                                    peer: src,
                                    ufrag,
                                    pwd,
                                    candidates,
                                    key,
                                },
                            ]
                        } else {
                            Seq::empty()
                        },
                    ),
                ),
            }
        }
    }

    /// Reaction to a request for a new key, at the end with the larger address, and to the answer to
    /// one, at the other end.
    pub open spec fn on_rekey(
        self,
        src: NodeId,
        index: bool,
        public_key: PublicKey,
        fresh: Option<EcdhKey>,
        now: Instant,
    ) -> Outcome {
        if !self.connections.contains_key(src) || !(self.connections[src].kind is Ice) {
            Ok((self, Seq::empty()))
        } else if self.id > src {
            let ecdh_key = fresh->0;
            match session_key(ecdh_key, public_key, index) {
                None => Err(FullMeshError::InvalidPublicKey),
                Some(key) => Ok(
                    (
                        self.with(
                            src,
                            FullMeshConnection {
                                ecdh_key,
                                last_rekey: now,
                                ..self.connections[src]
                            },
                        ),
                        seq![
                            FullMeshAction::SetRecvKey { peer: src, key },
                            FullMeshAction::Send {
                                dst: src,
                                payload: FullMeshPayload::Rekey {
                                    index,
                                    public_key: ecdh_key.public(),
                                },
                            },
                        ],
                    ),
                ),
            }
        } else {
            let conn = self.connections[src];
            match session_key(conn.ecdh_key, public_key, index) {
                None => Err(FullMeshError::InvalidPublicKey),
                Some(key) => Ok(
                    (
                        self.with(
                            src,
                            FullMeshConnection { last_rekey: now, send_key: Some(key), ..conn },
                        ),
                        seq![
                            FullMeshAction::SetRecvKey { peer: src, key },
                            FullMeshAction::SetSendKey { peer: src, key },
                            FullMeshAction::Send {
                                dst: src,
                                payload: FullMeshPayload::RekeyConfirm {
                                    index,
                                    public_key: conn.ecdh_key.public(),
                                },
                            },
                        ],
                    ),
                ),
            }
        }
    }

    /// Reaction to the confirmation that a new key is in use.
    pub open spec fn on_rekey_confirm(
        self,
        src: NodeId,
        index: bool,
        public_key: PublicKey,
    ) -> Outcome {
        if !self.connections.contains_key(src) || !(self.connections[src].kind is Ice) {
            Ok((self, Seq::empty()))
        } else {
            let conn = self.connections[src];
            match session_key(conn.ecdh_key, public_key, index) {
                None => Err(FullMeshError::InvalidPublicKey),
                Some(key) => Ok(
                    (
                        self.with(src, FullMeshConnection { send_key: Some(key), ..conn }),
                        seq![FullMeshAction::SetSendKey { peer: src, key }],
                    ),
                ),
            }
        }
    }

    /// The key pair with which this node agrees on a key when it takes a packet, if it does.
    pub open spec fn own_key(
        self,
        src: NodeId,
        payload: FullMeshPayload,
        fresh: Option<EcdhKey>,
    ) -> Option<EcdhKey> {
        if src == self.id || offered_key(payload) is None {
            None
        } else if payload is Shake && self.id > src {
            fresh
        } else if !self.connections.contains_key(src) {
            None
        } else if payload is Shake {
            Some(self.connections[src].ecdh_key)
        } else if !(self.connections[src].kind is Ice) {
            None
        } else if payload is Rekey && self.id > src {
            fresh
        } else {
            Some(self.connections[src].ecdh_key)
        }
    }

    /// Reaction to a packet from `src`. A packet from this node itself is ignored.
    pub open spec fn on_packet(
        self,
        src: NodeId,
        payload: FullMeshPayload,
        fresh: Option<EcdhKey>,
        now: Instant,
    ) -> Outcome {
        if src == self.id {
            Ok((self, Seq::empty()))
        } else {
            match payload {
                FullMeshPayload::Shake { ufrag, pwd, candidates, public_key } => self.on_shake(
                    src,
                    ufrag,
                    pwd,
                    candidates,
                    public_key,
                    fresh,
                    now,
                ),
                FullMeshPayload::Rekey { index, public_key } => self.on_rekey(
                    src,
                    index,
                    public_key,
                    fresh,
                    now,
                ),
                FullMeshPayload::RekeyConfirm { index, public_key } => self.on_rekey_confirm(
                    src,
                    index,
                    public_key,
                ),
                FullMeshPayload::Offer { sdp, candidates } => if described_sections(
                    true,
                    sdp@,
                ) is None {
                    Err(FullMeshError::InvalidDescription)
                } else {
                    Ok((self, seq![FullMeshAction::AnswerOffer { peer: src, sdp, candidates }]))
                },
                FullMeshPayload::Answer { sdp, candidates } => if !self.connections.contains_key(src)
                    || !(self.connections[src].kind is DataChannel) {
                    Ok((self, Seq::empty()))
                } else if described_sections(false, sdp@) is None {
                    Err(FullMeshError::InvalidDescription)
                } else {
                    Ok((self, seq![FullMeshAction::ApplyAnswer { peer: src, sdp, candidates }]))
                },
            }
        }
    }

    /// The key pairs of all connections are in order.
    pub open spec fn inv(self) -> bool {
        forall|n: NodeId| #[trigger]
            self.connections.contains_key(n) ==> self.connections[n].ecdh_key.wf()
    }

    /// The connection to `n` after `seen` has been seen of it.
    pub open spec fn observed(
        self,
        n: NodeId,
        seen: Map<NodeId, Observation>,
        now: Instant,
    ) -> FullMeshConnection {
        let conn = self.connections[n];
        if seen[n].received != conn.last_received {
            FullMeshConnection {
                last_received: seen[n].received,
                last_received_at: now,
                ..conn
            }
        } else {
            conn
        }
    }

    /// The connection to `n` has been silent for too long.
    pub open spec fn is_silent(
        self,
        n: NodeId,
        seen: Map<NodeId, Observation>,
        now: Instant,
    ) -> bool {
        time_since(now, self.observed(n, seen, now).last_received_at) >= self.connection_timeout
    }

    /// The connection to `n` is kept.
    pub open spec fn is_kept(self, n: NodeId, seen: Map<NodeId, Observation>, now: Instant) -> bool {
        &&& self.connections.contains_key(n)
        &&& !(seen[n].status is Closed)
        &&& !self.is_silent(n, seen, now)
    }

    /// The device has to be told that the connection to `n` is gone.
    pub open spec fn is_lost(self, n: NodeId, seen: Map<NodeId, Observation>, now: Instant) -> bool {
        &&& self.connections.contains_key(n)
        &&& !(seen[n].status is Closed)
        &&& self.is_silent(n, seen, now)
        &&& self.connections[n].once_connected
    }

    /// The state after the connections that are closed or silent have been dropped.
    pub open spec fn swept(self, seen: Map<NodeId, Observation>, now: Instant) -> FullMeshIceView {
        FullMeshIceView {
            connections: Map::new(
                |n: NodeId| self.is_kept(n, seen, now),
                |n: NodeId| self.observed(n, seen, now),
            ),
            ..self
        }
    }

    /// The connection to `n` is up and has not been handed to the device.
    pub open spec fn is_new(self, n: NodeId, seen: Map<NodeId, Observation>) -> bool {
        &&& self.connections.contains_key(n)
        &&& !self.connections[n].once_connected
        &&& seen[n].status is Connected
    }

    /// A new key is due on the connection to `n`, and it is for this node to ask for it.
    pub open spec fn rekey_due(
        self,
        n: NodeId,
        seen: Map<NodeId, Observation>,
        now: Instant,
    ) -> bool {
        &&& self.id <= n
        &&& self.connections.contains_key(n)
        &&& self.connections[n].kind is Ice
        &&& seen[n].status is Connected
        &&& time_since(now, self.connections[n].last_rekey) >= self.rekey_timeout
        &&& self.connections[n].send_key is Some
    }

    /// The request for a new key on the connection to `n`, with a new key pair.
    pub open spec fn rekey_request(self, n: NodeId, ecdh_key: EcdhKey) -> FullMeshAction {
        FullMeshAction::Send {
            dst: n,
            payload: FullMeshPayload::Rekey {
                index: !self.connections[n].send_key->0.index,
                public_key: ecdh_key.public(),
            },
        }
    }

    /// Reaction to the start of the opening end of an ICE connection.
    pub open spec fn on_started(self, peer: NodeId, key: FullMeshKey) -> (
        FullMeshIceView,
        Seq<FullMeshAction>,
    ) {
        if self.connections.contains_key(peer) {
            (
                self.with(
                    peer,
                    FullMeshConnection { send_key: Some(key), ..self.connections[peer] },
                ),
                seq![
                    FullMeshAction::SetRecvKey { peer, key },
                    FullMeshAction::SetSendKey { peer, key },
                ],
            )
        } else {
            (self, Seq::empty())
        }
    }

    /// The state after the connection to `n` has been handed to the device.
    pub open spec fn handed_over(self, n: NodeId) -> FullMeshIceView {
        self.with(n, FullMeshConnection { once_connected: true, ..self.connections[n] })
    }

    /// It is for this node to open a connection to `n`, and there is none.
    pub open spec fn to_open(self, n: NodeId) -> bool {
        self.id <= n && !self.connections.contains_key(n)
    }

    /// The connections to open to `peers`, in order.
    pub open spec fn open_actions(self, peers: Seq<Peer>) -> Seq<FullMeshAction>
        decreases peers.len(),
    {
        if peers.len() == 0 {
            Seq::empty()
        } else {
            let before = self.open_actions(peers.drop_last());
            if self.to_open(peers.last().id) {
                before.push(
                    if peers.last().ice {
                        FullMeshAction::OpenIce { peer: peers.last().id }
                    } else {
                        FullMeshAction::OpenChannel { peer: peers.last().id }
                    },
                )
            } else {
                before
            }
        }
    }
}

impl View for FullMeshIce {
    type V = FullMeshIceView;

    open spec fn view(&self) -> FullMeshIceView {
        FullMeshIceView {
            id: self.id,
            connect_interval: self.connect_interval,
            connection_timeout: self.connection_timeout,
            rekey_timeout: self.rekey_timeout,
            connections: self.connections@,
        }
    }
}

/// The key on which a key pair and the public key of a peer agree.
fn agree_on(ecdh_key: &EcdhKey, public_key: &PublicKey, index: bool) -> (result: Option<FullMeshKey>)
    requires
        ecdh_key.wf(),
    ensures
        result == session_key(*ecdh_key, *public_key, index),
        forall|other: EcdhKey| #[trigger]
            other.wf() && other.public() == *public_key ==> agrees(*ecdh_key, other, index),
{
    match ecdh_key.agree(public_key) {
        Some(key) => Some(FullMeshKey { index, key }),
        None => None,
    }
}

impl FullMeshIce {
    /// The full mesh of node `id` with the usual timers.
    pub fn new(id: NodeId) -> (fm: FullMeshIce)
        ensures
            fm@.inv(),
            fm@ == (FullMeshIceView {
                id,
                connect_interval: (10 * SECOND) as u64,
                connection_timeout: (30 * SECOND) as u64,
                rekey_timeout: (120 * SECOND) as u64,
                connections: Map::empty(),
            }),
    {
        FullMeshIce::new_with_parameters(id, 10 * SECOND, 30 * SECOND, 120 * SECOND)
    }

    /// The full mesh of node `id` with the given timers. There are no connections yet.
    pub fn new_with_parameters(
        id: NodeId,
        connect_interval: Duration,
        connection_timeout: Duration,
        rekey_timeout: Duration,
    ) -> (fm: FullMeshIce)
        ensures
            fm@.inv(),
            fm@ == (FullMeshIceView {
                id,
                connect_interval,
                connection_timeout,
                rekey_timeout,
                connections: Map::empty(),
            }),
    {
        FullMeshIce {
            id,
            connect_interval,
            connection_timeout,
            rekey_timeout,
            connections: HashMap::new(),
        }
    }

    /// The connection to `peer`.
    fn connection(&self, peer: NodeId) -> (result: Option<FullMeshConnection>)
        ensures
            result == if self@.connections.contains_key(peer) {
                Some(self@.connections[peer])
            } else {
                None
            },
    {
        match self.connections.get(&peer) {
            Some(conn) => Some(*conn),
            None => None,
        }
    }

    /// Whether the packet calls for a key pair of this node.
    fn wants_key(&self, src: NodeId, payload: &FullMeshPayload) -> (result: bool)
        ensures
            result == needs_key(self@.id, self@.connections, src, *payload),
    {
        match payload {
            FullMeshPayload::Shake { .. } => self.id > src,
            FullMeshPayload::Rekey { .. } => {
                self.id > src && match self.connections.get(&src) {
                    Some(conn) => conn.kind == ConnectionType::Ice,
                    None => false,
                }
            },
            _ => false,
        }
    }

    /// Takes a packet from `src`, where `fresh` is a new key pair if the packet calls for one.
    ///
    /// Where a key is agreed on, the owner of the public key in the packet arrives at the same one.
    pub fn handle_packet_with(
        &mut self,
        src: NodeId,
        payload: FullMeshPayload,
        fresh: Option<EcdhKey>,
        now: Instant,
    ) -> (result: Result<Vec<FullMeshAction>, FullMeshError>)
        requires
            old(self)@.inv(),
            needs_key(old(self)@.id, old(self)@.connections, src, payload) ==> fresh is Some,
            fresh matches Some(key) ==> key.wf(),
        ensures
            final(self)@.inv(),
            match result {
                Ok(actions) => old(self)@.on_packet(src, payload, fresh, now) == Ok::<_, FullMeshError>(
                    (final(self)@, actions@),
                ),
                Err(e) => old(self)@.on_packet(src, payload, fresh, now) == Err::<
                    (FullMeshIceView, Seq<FullMeshAction>),
                    _,
                >(e) && final(self)@ == old(self)@,
            },
            forall|other: EcdhKey| #[trigger]
                other.wf() && old(self)@.own_key(src, payload, fresh) is Some && other.public()
                    == (offered_key(payload)->Some_0).0 ==> agrees(
                    old(self)@.own_key(src, payload, fresh)->0,
                    other,
                    (offered_key(payload)->Some_0).1,
                ),
    {
        let mut actions: Vec<FullMeshAction> = Vec::new();
        if src == self.id {
            return Ok(actions);
        }
        let conn = self.connection(src);
        match payload {
            FullMeshPayload::Shake { ufrag, pwd, candidates, public_key } => {
                if self.id > src {
                    let ecdh_key = fresh.unwrap();
                    match agree_on(&ecdh_key, &public_key, false) {
                        Some(key) => {
                            actions.push(
                                FullMeshAction::AcceptIce {
                                    peer: src,
                                    ufrag,
                                    pwd,
                                    candidates,
                                    ecdh_key,
                                    key,
                                },
                            );
                        },
                        None => {
                            return Err(FullMeshError::InvalidPublicKey);
                        },
                    }
                } else {
                    match conn {
                        Some(mut conn) => {
                            match agree_on(&conn.ecdh_key, &public_key, false) {
                                Some(key) => {
                                    conn.last_rekey = now;
                                    self.connections.insert(src, conn);
                                    if conn.kind == ConnectionType::Ice {
                                        actions.push(
                                            FullMeshAction::StartIce {
                                                peer: src,
                                                ufrag,
                                                pwd,
                                                candidates,
                                                key,
                                            },
                                        );
                                    }
                                },
                                None => {
                                    return Err(FullMeshError::InvalidPublicKey);
                                },
                            }
                        },
                        None => {},
                    }
                }
            },
            FullMeshPayload::Rekey { index, public_key } => {
                match conn {
                    Some(mut conn) => {
                        if conn.kind == ConnectionType::Ice {
                            if self.id > src {
                                let ecdh_key = fresh.unwrap();
                                match agree_on(&ecdh_key, &public_key, index) {
                                    Some(key) => {
                                        conn.ecdh_key = ecdh_key;
                                        conn.last_rekey = now;
                                        self.connections.insert(src, conn);
                                        actions.push(FullMeshAction::SetRecvKey { peer: src, key });
                                        actions.push(
                                            FullMeshAction::Send {
                                                dst: src,
                                                payload: FullMeshPayload::Rekey {
                                                    index,
                                                    public_key: ecdh_key.public_key(),
                                                },
                                            },
                                        );
                                    },
                                    None => {
                                        return Err(FullMeshError::InvalidPublicKey);
                                    },
                                }
                            } else {
                                match agree_on(&conn.ecdh_key, &public_key, index) {
                                    Some(key) => {
                                        conn.last_rekey = now;
                                        conn.send_key = Some(key);
                                        self.connections.insert(src, conn);
                                        actions.push(FullMeshAction::SetRecvKey { peer: src, key });
                                        actions.push(FullMeshAction::SetSendKey { peer: src, key });
                                        actions.push(
                                            FullMeshAction::Send {
                                                dst: src,
                                                payload: FullMeshPayload::RekeyConfirm {
                                                    index,
                                                    public_key: conn.ecdh_key.public_key(),
                                                },
                                            },
                                        );
                                    },
                                    None => {
                                        return Err(FullMeshError::InvalidPublicKey);
                                    },
                                }
                            }
                        }
                    },
                    None => {},
                }
            },
            FullMeshPayload::RekeyConfirm { index, public_key } => {
                match conn {
                    Some(mut conn) => {
                        if conn.kind == ConnectionType::Ice {
                            match agree_on(&conn.ecdh_key, &public_key, index) {
                                Some(key) => {
                                    conn.send_key = Some(key);
                                    self.connections.insert(src, conn);
                                    actions.push(FullMeshAction::SetSendKey { peer: src, key });
                                },
                                None => {
                                    return Err(FullMeshError::InvalidPublicKey);
                                },
                            }
                        }
                    },
                    None => {},
                }
            },
            FullMeshPayload::Offer { sdp, candidates } => {
                if !check_description(true, sdp.as_str()) {
                    return Err(FullMeshError::InvalidDescription);
                }
                actions.push(FullMeshAction::AnswerOffer { peer: src, sdp, candidates });
            },
            FullMeshPayload::Answer { sdp, candidates } => {
                match conn {
                    Some(conn) => {
                        if conn.kind == ConnectionType::DataChannel {
                            if !check_description(false, sdp.as_str()) {
                                return Err(FullMeshError::InvalidDescription);
                            }
                            actions.push(
                                FullMeshAction::ApplyAnswer { peer: src, sdp, candidates },
                            );
                        }
                    },
                    None => {},
                }
            },
        }
        proof {
            let expected = old(self)@.on_packet(src, payload, fresh, now)->Ok_0;
            assert(self@ =~= expected.0);
            assert(actions@ =~= expected.1);
        }
        Ok(actions)
    }

    /// Takes a packet; without one, the full mesh ends. A key pair is made where the packet calls for
    /// one. Where a key is agreed on, the owner of the public key in the packet arrives at the same one.
    pub fn handle_packet(&mut self, packet: Option<(NodeId, FullMeshPayload)>, now: Instant) -> (
        result: Result<Vec<FullMeshAction>, FullMeshError>)
        requires
            old(self)@.inv(),
        ensures
            final(self)@.inv(),
            match packet {
                None => final(self)@ == old(self)@ && (result matches Ok(actions) && actions@ == seq![
                    FullMeshAction::Stop,
                ]),
                Some((src, payload)) => exists|fresh: Option<EcdhKey>|
                    {
                        &&& fresh is Some <==> needs_key(
                            old(self)@.id,
                            old(self)@.connections,
                            src,
                            payload,
                        )
                        &&& fresh matches Some(key) ==> key.wf()
                        &&& forall|other: EcdhKey| #[trigger]
                            other.wf() && old(self)@.own_key(src, payload, fresh) is Some
                                && other.public() == (offered_key(payload)->Some_0).0 ==> agrees(
                                old(self)@.own_key(src, payload, fresh)->0,
                                other,
                                (offered_key(payload)->Some_0).1,
                            )
                        &&& match result {
                            Ok(actions) => #[trigger] old(self)@.on_packet(src, payload, fresh, now)
                                == Ok::<_, FullMeshError>((final(self)@, actions@)),
                            Err(e) => old(self)@.on_packet(src, payload, fresh, now) == Err::<
                                (FullMeshIceView, Seq<FullMeshAction>),
                                _,
                            >(e) && final(self)@ == old(self)@,
                        }
                    },
            },
    {
        match packet {
            None => {
                let mut actions: Vec<FullMeshAction> = Vec::new();
                actions.push(FullMeshAction::Stop);
                Ok(actions)
            },
            Some((src, payload)) => {
                let fresh: Option<EcdhKey> = if self.wants_key(src, &payload) {
                    Some(EcdhKey::generate())
                } else {
                    None
                };
                self.handle_packet_with(src, payload, fresh, now)
            },
        }
    }

    /// The answering end of an ICE connection has been made and started: it takes its place, and the
    /// other end is told its parameters.
    pub fn ice_accepted(
        &mut self,
        peer: NodeId,
        ecdh_key: EcdhKey,
        key: FullMeshKey,
        ufrag: String,
        pwd: String,
        candidates: Vec<String>,
        now: Instant,
    ) -> (actions: Vec<FullMeshAction>)
        requires
            old(self)@.inv(),
            ecdh_key.wf(),
        ensures
            final(self)@.inv(),
            final(self)@ == old(self)@.with(
                peer,
                new_connection(ConnectionType::Ice, ecdh_key, Some(key), now),
            ),
            actions@[2] == (FullMeshAction::Send {
                dst: peer,
                payload: parameters_of(ufrag, pwd, candidates, ecdh_key),
            }),
            actions@ == seq![
                FullMeshAction::SetRecvKey { peer, key },
                FullMeshAction::SetSendKey { peer, key },
                FullMeshAction::Send {
                    dst: peer,
                    payload: FullMeshPayload::Shake {
                        ufrag,
                        pwd,
                        candidates,
                        public_key: ecdh_key.public(),
                    },
                },
            ],
    {
        self.insert_connection(peer, ConnectionType::Ice, ecdh_key, Some(key), now);
        let mut actions: Vec<FullMeshAction> = Vec::new();
        actions.push(FullMeshAction::SetRecvKey { peer, key });
        actions.push(FullMeshAction::SetSendKey { peer, key });
        let public_key = ecdh_key.public_key();
        actions.push(
            FullMeshAction::Send {
                dst: peer,
                payload: FullMeshPayload::Shake { ufrag, pwd, candidates, public_key },
            },
        );
        actions
    }

    fn insert_connection(
        &mut self,
        peer: NodeId,
        kind: ConnectionType,
        ecdh_key: EcdhKey,
        send_key: Option<FullMeshKey>,
        now: Instant,
    )
        requires
            old(self)@.inv(),
            ecdh_key.wf(),
        ensures
            final(self)@.inv(),
            final(self)@ == old(self)@.with(peer, new_connection(kind, ecdh_key, send_key, now)),
    {
        self.connections.insert(
            peer,
            FullMeshConnection {
                kind,
                last_received: 0,
                last_received_at: now,
                once_connected: false,
                last_rekey: now,
                ecdh_key,
                send_key,
            },
        );
    }

    /// The opening end of an ICE connection has been started: it takes up its key.
    pub fn ice_started(&mut self, peer: NodeId, key: FullMeshKey) -> (actions: Vec<FullMeshAction>)
        requires
            old(self)@.inv(),
        ensures
            final(self)@.inv(),
            (final(self)@, actions@) == old(self)@.on_started(peer, key),
            final(self)@ == if old(self)@.connections.contains_key(peer) {
                old(self)@.with(
                    peer,
                    FullMeshConnection {
                        send_key: Some(key),
                        ..old(self)@.connections[peer]
                    },
                )
            } else {
                old(self)@
            },
            actions@ == if old(self)@.connections.contains_key(peer) {
                seq![
                    FullMeshAction::SetRecvKey { peer, key },
                    FullMeshAction::SetSendKey { peer, key },
                ]
            } else {
                Seq::empty()
            },
    {
        let mut actions: Vec<FullMeshAction> = Vec::new();
        match self.connection(peer) {
            Some(mut conn) => {
                conn.send_key = Some(key);
                self.connections.insert(peer, conn);
                actions.push(FullMeshAction::SetRecvKey { peer, key });
                actions.push(FullMeshAction::SetSendKey { peer, key });
            },
            None => {},
        }
        actions
    }

    /// An offer has been answered with `sdp` and `candidates`: the other end is told the answer. Once
    /// that has been sent, report with [`FullMeshIce::answer_sent`]; where it cannot be sent, the data
    /// channel is given up.
    pub fn offer_answered(&self, peer: NodeId, sdp: String, candidates: Vec<String>) -> (action:
        FullMeshAction)
        ensures
            action == (FullMeshAction::Send {
                dst: peer,
                payload: FullMeshPayload::Answer { sdp, candidates },
            }),
    {
        FullMeshAction::Send { dst: peer, payload: FullMeshPayload::Answer { sdp, candidates } }
    }

    /// The answer to an offer has been sent: the data channel takes its place.
    pub fn answer_sent(&mut self, peer: NodeId, now: Instant)
        requires
            old(self)@.inv(),
        ensures
            final(self)@.inv(),
            final(self)@ == old(self)@.with(
                peer,
                new_connection(
                    ConnectionType::DataChannel,
                    final(self)@.connections[peer].ecdh_key,
                    None,
                    now,
                ),
            ),
    {
        let ecdh_key = EcdhKey::generate();
        self.insert_connection(peer, ConnectionType::DataChannel, ecdh_key, None, now);
    }

    /// The opening end of an ICE connection has been made, with these parameters: it takes its place
    /// with a new key pair, and the other end is told.
    pub fn ice_opened(
        &mut self,
        peer: NodeId,
        ufrag: String,
        pwd: String,
        candidates: Vec<String>,
        now: Instant,
    ) -> (actions: Vec<FullMeshAction>)
        requires
            old(self)@.inv(),
        ensures
            final(self)@.inv(),
            final(self)@ == old(self)@.with(
                peer,
                new_connection(
                    ConnectionType::Ice,
                    final(self)@.connections[peer].ecdh_key,
                    None,
                    now,
                ),
            ),
            actions@[0] == (FullMeshAction::Send {
                dst: peer,
                payload: parameters_of(
                    ufrag,
                    pwd,
                    candidates,
                    final(self)@.connections[peer].ecdh_key,
                ),
            }),
            actions@ == seq![
                FullMeshAction::Send {
                    dst: peer,
                    payload: FullMeshPayload::Shake {
                        ufrag,
                        pwd,
                        candidates,
                        public_key: final(self)@.connections[peer].ecdh_key.public(),
                    },
                },
            ],
    {
        let ecdh_key = EcdhKey::generate();
        self.insert_connection(peer, ConnectionType::Ice, ecdh_key, None, now);
        let public_key = ecdh_key.public_key();
        let mut actions: Vec<FullMeshAction> = Vec::new();
        actions.push(
            FullMeshAction::Send {
                dst: peer,
                payload: FullMeshPayload::Shake { ufrag, pwd, candidates, public_key },
            },
        );
        actions
    }

    /// The offer of a data channel has been made: the channel takes its place, and the other end is
    /// told.
    pub fn channel_opened(
        &mut self,
        peer: NodeId,
        sdp: String,
        candidates: Vec<String>,
        now: Instant,
    ) -> (actions: Vec<FullMeshAction>)
        requires
            old(self)@.inv(),
        ensures
            final(self)@.inv(),
            final(self)@ == old(self)@.with(
                peer,
                new_connection(
                    ConnectionType::DataChannel,
                    final(self)@.connections[peer].ecdh_key,
                    None,
                    now,
                ),
            ),
            actions@ == seq![
                FullMeshAction::Send {
                    dst: peer,
                    payload: FullMeshPayload::Offer { sdp, candidates },
                },
            ],
    {
        let ecdh_key = EcdhKey::generate();
        self.insert_connection(peer, ConnectionType::DataChannel, ecdh_key, None, now);
        let mut actions: Vec<FullMeshAction> = Vec::new();
        actions.push(
            FullMeshAction::Send { dst: peer, payload: FullMeshPayload::Offer { sdp, candidates } },
        );
        actions
    }

    /// First part of a tick: drops the connections that are closed or have been silent for too long,
    /// and gives those of the silent ones that the device knows of, in no particular order.
    pub fn connect_tick(&mut self, seen: &HashMap<NodeId, Observation>, now: Instant) -> (lost: Vec<
        NodeId,
    >)
        requires
            old(self)@.inv(),
            forall|n: NodeId|
                old(self)@.connections.contains_key(n) ==> #[trigger] seen@.contains_key(n),
        ensures
            final(self)@.inv(),
            final(self)@ == old(self)@.swept(seen@, now),
            lost@.no_duplicates(),
            forall|n: NodeId| lost@.contains(n) <==> #[trigger] old(self)@.is_lost(n, seen@, now),
    {
        let ghost before = self@;
        let keys = node_keys(&self.connections);
        let mut lost: Vec<NodeId> = Vec::new();
        let mut i: usize = 0;
        proof {
            assert forall|n: NodeId| before.connections.contains_key(n) <==> keys@.contains(n) by {
                assert(keys@.to_set().contains(n) <==> keys@.contains(n));
            }
        }
        while i < keys.len()
            invariant
                i <= keys.len(),
                before == old(self)@,
                before.inv(),
                keys@.no_duplicates(),
                forall|n: NodeId|
                    before.connections.contains_key(n) <==> #[trigger] keys@.contains(n),
                forall|n: NodeId|
                    before.connections.contains_key(n) ==> #[trigger] seen@.contains_key(n),
                self@ == (FullMeshIceView { connections: self.connections@, ..before }),
                forall|n: NodeId| #[trigger]
                    self.connections@.contains_key(n) <==> before.connections.contains_key(n) && (
                    before.is_kept(n, seen@, now) || !keys@.take(i as int).contains(n)),
                forall|n: NodeId| #[trigger]
                    self.connections@.contains_key(n) ==> self.connections@[n] == if keys@.take(
                        i as int,
                    ).contains(n) {
                        before.observed(n, seen@, now)
                    } else {
                        before.connections[n]
                    },
                lost@.no_duplicates(),
                forall|n: NodeId| #[trigger]
                    lost@.contains(n) <==> keys@.take(i as int).contains(n) && before.is_lost(
                        n,
                        seen@,
                        now,
                    ),
            decreases keys.len() - i,
        {
            let key = keys[i];
            let ghost done = keys@.take(i as int);
            let ghost next = keys@.take(i + 1);
            proof {
                assert(next =~= done.push(key));
                assert(!done.contains(key));
                assert(keys@.contains(key));
                assert forall|k: NodeId| next.contains(k) <==> done.contains(k) || k == key by {
                    if done.contains(k) {
                        let j = choose|j: int| 0 <= j < done.len() && done[j] == k;
                        assert(next[j] == k);
                    }
                    assert(next[i as int] == key);
                }
                assert(self.connections@.contains_key(key));
                assert(seen@.contains_key(key));
            }
            let ghost lost_before = lost@;
            assert(!lost_before.contains(key));
            match (self.connection(key), seen.get(&key)) {
                (Some(mut conn), Some(observation)) => {
                    assert(conn == before.connections[key]);
                    if observation.status == ConnectionState::Closed {
                        self.connections.remove(&key);
                    } else {
                        if observation.received != conn.last_received {
                            conn.last_received = observation.received;
                            conn.last_received_at = now;
                        }
                        assert(conn == before.observed(key, seen@, now));
                        if elapsed(now, conn.last_received_at) < self.connection_timeout {
                            self.connections.insert(key, conn);
                        } else {
                            if conn.once_connected {
                                lost.push(key);
                            }
                            self.connections.remove(&key);
                        }
                    }
                },
                _ => {
                    assert(false);
                },
            }
            proof {
                if before.is_lost(key, seen@, now) {
                    assert(lost@ =~= lost_before.push(key));
                    assert(lost@[lost_before.len() as int] == key);
                } else {
                    assert(lost@ =~= lost_before);
                }
                assert forall|n: NodeId| #[trigger] lost@.contains(n) <==> next.contains(n)
                    && before.is_lost(n, seen@, now) by {
                    assert(lost_before.contains(n) <==> done.contains(n) && before.is_lost(
                        n,
                        seen@,
                        now,
                    ));
                    if lost_before.contains(n) {
                        let j = choose|j: int| 0 <= j < lost_before.len() && lost_before[j] == n;
                        assert(lost@[j] == n);
                    }
                }
            }
            i += 1;
        }
        proof {
            assert(keys@.take(keys.len() as int) =~= keys@);
            assert(self.connections@ =~= before.swept(seen@, now).connections);
        }
        lost
    }

    /// Second part of a tick, to be repeated until it gives nothing: a connection that is up and is to
    /// be handed to the device now. Which one comes first is left open.
    pub fn next_connected(&mut self, seen: &HashMap<NodeId, Observation>) -> (result: Option<NodeId>)
        requires
            old(self)@.inv(),
            forall|n: NodeId|
                old(self)@.connections.contains_key(n) ==> #[trigger] seen@.contains_key(n),
        ensures
            final(self)@.inv(),
            result matches Some(n) ==> final(self)@ == old(self)@.handed_over(n),
            match result {
                Some(n) => old(self)@.is_new(n, seen@) && final(self)@ == old(self)@.with(
                    n,
                    FullMeshConnection { once_connected: true, ..old(self)@.connections[n] },
                ),
                None => final(self)@ == old(self)@ && forall|n: NodeId|
                    !#[trigger] old(self)@.is_new(n, seen@),
            },
    {
        let ghost before = self@;
        let keys = node_keys(&self.connections);
        let mut i: usize = 0;
        proof {
            assert forall|n: NodeId| before.connections.contains_key(n) <==> keys@.contains(n) by {
                assert(keys@.to_set().contains(n) <==> keys@.contains(n));
            }
        }
        while i < keys.len()
            invariant
                i <= keys.len(),
                before == old(self)@,
                *self == *old(self),
                before.inv(),
                forall|n: NodeId|
                    before.connections.contains_key(n) <==> #[trigger] keys@.contains(n),
                forall|n: NodeId|
                    before.connections.contains_key(n) ==> #[trigger] seen@.contains_key(n),
                forall|j: int| 0 <= j < i ==> !before.is_new(#[trigger] keys@[j], seen@),
            decreases keys.len() - i,
        {
            let key = keys[i];
            assert(keys@.contains(key));
            assert(seen@.contains_key(key));
            match (self.connection(key), seen.get(&key)) {
                (Some(mut conn), Some(observation)) => {
                    if !conn.once_connected && observation.status == ConnectionState::Connected {
                        conn.once_connected = true;
                        self.connections.insert(key, conn);
                        return Some(key);
                    }
                },
                _ => {},
            }
            i += 1;
        }
        assert forall|n: NodeId| !#[trigger] before.is_new(n, seen@) by {
            if before.connections.contains_key(n) {
                assert(keys@.contains(n));
                let j = choose|j: int| 0 <= j < keys@.len() && keys@[j] == n;
                assert(!before.is_new(keys@[j], seen@));
            }
        }
        None
    }

    /// Third part of a tick, for each announced node in turn: asks for a new key on the connection to
    /// `peer` if one is due. The answer has to fit the new key pair of the connection. Where the packet
    /// cannot be sent, the tick ends with it.
    pub fn rekey_tick(
        &mut self,
        peer: NodeId,
        seen: &HashMap<NodeId, Observation>,
        now: Instant,
    ) -> (action: Option<FullMeshAction>)
        requires
            old(self)@.inv(),
            forall|n: NodeId|
                old(self)@.connections.contains_key(n) ==> #[trigger] seen@.contains_key(n),
        ensures
            final(self)@.inv(),
            if old(self)@.rekey_due(peer, seen@, now) {
                &&& final(self)@ == old(self)@.with(
                    peer,
                    FullMeshConnection {
                        ecdh_key: final(self)@.connections[peer].ecdh_key,
                        ..old(self)@.connections[peer]
                    },
                )
                &&& action == Some(
                    old(self)@.rekey_request(peer, final(self)@.connections[peer].ecdh_key),
                )
                &&& action == Some(
                    FullMeshAction::Send {
                        dst: peer,
                        payload: FullMeshPayload::Rekey {
                            index: !old(self)@.connections[peer].send_key->0.index,
                            public_key: final(self)@.connections[peer].ecdh_key.public(),
                        },
                    },
                )
            } else {
                final(self)@ == old(self)@ && action is None
            },
    {
        if self.id > peer {
            return None;
        }
        let mut conn = match self.connection(peer) {
            Some(conn) => conn,
            None => {
                return None;
            },
        };
        assert(seen@.contains_key(peer));
        let up = match seen.get(&peer) {
            Some(observation) => observation.status == ConnectionState::Connected,
            None => false,
        };
        if conn.kind != ConnectionType::Ice || !up || elapsed(now, conn.last_rekey)
            < self.rekey_timeout {
            return None;
        }
        match conn.send_key {
            Some(key) => {
                conn.ecdh_key = EcdhKey::generate();
                let public_key = conn.ecdh_key.public_key();
                self.connections.insert(peer, conn);
                Some(
                    FullMeshAction::Send {
                        dst: peer,
                        payload: FullMeshPayload::Rekey { index: !key.index, public_key },
                    },
                )
            },
            None => None,
        }
    }

    /// What is told about the connections, each once, in no particular order.
    pub fn get_peers(&self, seen: &HashMap<NodeId, PeerObservation>) -> (peers: Vec<PeerReport>)
        requires
            forall|n: NodeId|
                self@.connections.contains_key(n) ==> #[trigger] seen@.contains_key(n),
        ensures
            peers@.map_values(|p: PeerReport| p.node_id).no_duplicates(),
            peers@.map_values(|p: PeerReport| p.node_id).to_set() == self@.connections.dom(),
            forall|i: int|
                0 <= i < peers.len() ==> #[trigger] peers[i] == peer_report(
                    peers[i].node_id,
                    seen@[peers[i].node_id],
                ),
    {
        let keys = node_keys(&self.connections);
        let mut peers: Vec<PeerReport> = Vec::new();
        let mut i: usize = 0;
        proof {
            assert forall|j: int| 0 <= j < keys.len() implies seen@.contains_key(
                #[trigger] keys@[j],
            ) by {
                assert(keys@.to_set().contains(keys@[j]));
            }
        }
        while i < keys.len()
            invariant
                i <= keys.len(),
                peers.len() == i,
                forall|j: int| 0 <= j < keys.len() ==> seen@.contains_key(#[trigger] keys@[j]),
                forall|j: int|
                    0 <= j < i ==> #[trigger] peers[j] == peer_report(keys@[j], seen@[keys@[j]]),
            decreases keys.len() - i,
        {
            let node_id = keys[i];
            assert(seen@.contains_key(keys@[i as int]));
            match seen.get(&node_id) {
                Some(observation) => {
                    let selected_candidate = match &observation.selected_candidate {
                        Some(line) => Some(line.clone()),
                        None => None,
                    };
                    peers.push(
                        PeerReport {
                            node_id,
                            state: report_state(observation.status),
                            selected_candidate,
                            sent: observation.sent,
                            received: observation.received,
                        },
                    );
                },
                None => {
                    assert(false);
                },
            }
            i += 1;
        }
        assert(peers@.map_values(|p: PeerReport| p.node_id) =~= keys@);
        peers
    }

    /// Last part of a tick: the connections to open.
    pub fn peers_to_open(&self, peers: &Vec<Peer>) -> (actions: Vec<FullMeshAction>)
        ensures
            actions@ == self@.open_actions(peers@),
    {
        let mut actions: Vec<FullMeshAction> = Vec::new();
        let mut i: usize = 0;
        while i < peers.len()
            invariant
                i <= peers.len(),
                actions@ == self@.open_actions(peers@.take(i as int)),
            decreases peers.len() - i,
        {
            proof {
                assert(peers@.take(i + 1).drop_last() =~= peers@.take(i as int));
                assert(peers@.take(i + 1).last() == peers@[i as int]);
            }
            let peer = peers[i];
            if self.id <= peer.id && !self.connections.contains_key(&peer.id) {
                if peer.ice {
                    actions.push(FullMeshAction::OpenIce { peer: peer.id });
                } else {
                    actions.push(FullMeshAction::OpenChannel { peer: peer.id });
                }
            }
            i += 1;
        }
        proof {
            assert(peers@.take(peers.len() as int) =~= peers@);
        }
        actions
    }
}

/// Of two nodes without a connection exactly one opens it.
pub proof fn lemma_one_end_opens(a: FullMeshIceView, b: FullMeshIceView)
    requires
        a.id != b.id,
        !a.connections.contains_key(b.id),
        !b.connections.contains_key(a.id),
    ensures
        a.to_open(b.id) != b.to_open(a.id),
{
}

/// Of the two ends of a connection at most one asks for a new key.
pub proof fn lemma_one_end_rekeys(
    a: FullMeshIceView,
    b: FullMeshIceView,
    seen_by_a: Map<NodeId, Observation>,
    seen_by_b: Map<NodeId, Observation>,
    now: Instant,
)
    requires
        a.id != b.id,
    ensures
        !(a.rekey_due(b.id, seen_by_a, now) && b.rekey_due(a.id, seen_by_b, now)),
{
}

/// A packet from this node itself changes nothing.
pub proof fn lemma_own_packets_ignored(
    state: FullMeshIceView,
    payload: FullMeshPayload,
    fresh: Option<EcdhKey>,
    now: Instant,
)
    ensures
        state.on_packet(state.id, payload, fresh, now) == Ok::<_, FullMeshError>(
            (state, Seq::<FullMeshAction>::empty()),
        ),
{
}

/// A connection over which something has been received since the last tick is kept, unless it is
/// closed.
pub proof fn lemma_active_connection_kept(
    state: FullMeshIceView,
    seen: Map<NodeId, Observation>,
    now: Instant,
    n: NodeId,
)
    requires
        state.connections.contains_key(n),
        seen[n].received != state.connections[n].last_received,
        !(seen[n].status is Closed),
        state.connection_timeout > 0,
    ensures
        state.swept(seen, now).connections.contains_key(n),
{
}

/// When a connection is opened both ends start with the same key: the one with which the answering
/// end accepts the parameters of the other, and the one with which the opening end starts on the
/// parameters that come back.
pub proof fn lemma_opening_agrees(
    low: FullMeshIceView,
    high: FullMeshIceView,
    fresh: EcdhKey,
    offered: FullMeshPayload,
    returned: FullMeshPayload,
    now: Instant,
)
    requires
        low.id < high.id,
        low.connections.contains_key(high.id),
        low.connections[high.id].kind is Ice,
        agrees(low.connections[high.id].ecdh_key, fresh, false),
        offered is Shake,
        offered_key(offered) == Some((low.connections[high.id].ecdh_key.public(), false)),
        returned is Shake,
        offered_key(returned) == Some((fresh.public(), false)),
    ensures
        ({
            let accepted = high.on_packet(low.id, offered, Some(fresh), now);
            let started = low.on_packet(high.id, returned, None, now);
            &&& accepted is Ok && (accepted->Ok_0).1.len() == 1
            &&& started is Ok && (started->Ok_0).1.len() == 1
            &&& (accepted->Ok_0).1[0] is AcceptIce && (started->Ok_0).1[0] is StartIce
            &&& (accepted->Ok_0).1[0]->AcceptIce_key == (started->Ok_0).1[0]->StartIce_key
            &&& !(started->Ok_0).1[0]->StartIce_key.index
        }),
{
}

/// A change of keys ends with both ends sealing under the same new key: after the request, its answer
/// and the confirmation. The answering end opens packets with the new key before the other end seals
/// any with it.
pub proof fn lemma_rekey_agrees(
    low: FullMeshIceView,
    high: FullMeshIceView,
    fresh: EcdhKey,
    index: bool,
    now: Instant,
)
    requires
        low.id < high.id,
        low.connections.contains_key(high.id),
        low.connections[high.id].kind is Ice,
        high.connections.contains_key(low.id),
        high.connections[low.id].kind is Ice,
        agrees(low.connections[high.id].ecdh_key, fresh, index),
    ensures
        ({
            let public_key = low.connections[high.id].ecdh_key.public();
            let request = FullMeshPayload::Rekey { index, public_key };
            let answer = FullMeshPayload::Rekey { index, public_key: fresh.public() };
            let confirmation = FullMeshPayload::RekeyConfirm { index, public_key };
            let key = session_key(fresh, public_key, index)->0;
            let first = high.on_packet(low.id, request, Some(fresh), now);
            let second = low.on_packet(high.id, answer, None, now);
            let third = (first->Ok_0).0.on_packet(low.id, confirmation, None, now);
            &&& first is Ok && second is Ok && third is Ok
            &&& (first->Ok_0).1 == seq![
                FullMeshAction::SetRecvKey { peer: low.id, key },
                FullMeshAction::Send { dst: low.id, payload: answer },
            ]
            &&& (second->Ok_0).1 == seq![
                FullMeshAction::SetRecvKey { peer: high.id, key },
                FullMeshAction::SetSendKey { peer: high.id, key },
                FullMeshAction::Send { dst: high.id, payload: confirmation },
            ]
            &&& (third->Ok_0).1 == seq![FullMeshAction::SetSendKey { peer: low.id, key }]
            &&& (second->Ok_0).0.connections[high.id].send_key == Some(key)
            &&& (third->Ok_0).0.connections[low.id].send_key == Some(key)
            &&& key.index == index
        }),
{
}

} // verus!
