//! The mesh: links to neighbours, a forwarding table, and the parts of a node that take packets.

use vstd::prelude::*;
use std::collections::{HashMap, HashSet};
use crate::errors::CryonetError;
use crate::packet::{NodeId, Packet, Payload, PayloadKind};
use crate::tables::{drop_routes_via, node_keys, set_members};

verus! {

broadcast use vstd::std_specs::hash::group_hash_axioms;

/// How often a packet of this node may be forwarded.
pub const INITIAL_TTL: u8 = 16;

/// Why a link did not send or receive.
#[derive(Clone, Copy, PartialEq, Eq, Structural, Debug)]
pub enum LinkError {
    /// The link is gone.
    Closed,
    /// Something else.
    Unknown,
}

/// What has changed in the mesh.
#[derive(Clone, Copy, PartialEq, Eq, Structural, Debug)]
pub enum MeshEvent {
    LinkUp(NodeId),
    LinkDown(NodeId),
    RouteSet(NodeId, NodeId),
    RouteRemoved(NodeId, NodeId),
}

/// A part of the node that takes packets of one kind.
#[derive(Clone, Copy, PartialEq, Eq, Structural, Debug)]
pub struct Dispatchee {
    pub kind: PayloadKind,
    /// Tells it apart from the others.
    pub token: u64,
}

/// Where a packet goes.
pub enum Delivery {
    /// To a part of this node.
    Dispatch { token: u64, packet: Packet },
    /// Over a link.
    Send { link: NodeId, packet: Packet },
    /// Nowhere: no part of this node takes it, it has been forwarded too often, or there is none.
    Dropped,
}

/// The addressing of a packet without its payload.
#[derive(Clone, Copy, PartialEq, Eq, Structural, Debug)]
pub struct Envelope {
    pub src: NodeId,
    pub dst: NodeId,
    pub ttl: u8,
}

/// The mesh as one node sees it.
pub struct Mesh {
    id: NodeId,
    links: HashSet<NodeId>,
    routes: HashMap<NodeId, NodeId>,
    dispatchees: Vec<Dispatchee>,
    next_token: u64,
    events: Vec<MeshEvent>,
}

/// The state of the mesh.
#[verifier::ext_equal]
pub struct MeshView {
    pub id: NodeId,
    pub links: Set<NodeId>,
    pub routes: Map<NodeId, NodeId>,
    pub dispatchees: Seq<Dispatchee>,
    pub next_token: u64,
    /// What has changed and has not been told yet.
    pub events: Seq<MeshEvent>,
}

/// The first of the dispatchees that takes packets of this kind.
pub open spec fn dispatchee_for(dispatchees: Seq<Dispatchee>, kind: PayloadKind) -> Option<u64>
    decreases dispatchees.len(),
{
    if dispatchees.len() == 0 {
        None
    } else if dispatchees[0].kind == kind {
        Some(dispatchees[0].token)
    } else {
        dispatchee_for(dispatchees.skip(1), kind)
    }
}

/// The dispatchees without the one with this token.
pub open spec fn without_token(dispatchees: Seq<Dispatchee>, token: u64) -> Seq<Dispatchee>
    decreases dispatchees.len(),
{
    if dispatchees.len() == 0 {
        Seq::empty()
    } else {
        let before = without_token(dispatchees.drop_last(), token);
        if dispatchees.last().token == token {
            before
        } else {
            before.push(dispatchees.last())
        }
    }
}

/// Sending over the link to `node` has shown that it is gone.
pub open spec fn found_closed(outcomes: Seq<(NodeId, Result<(), LinkError>)>, node: NodeId) -> bool {
    outcomes.contains((node, Err(LinkError::Closed)))
}

/// What comes of a broadcast: the first failure, if there is one.
pub open spec fn first_failure(outcomes: Seq<(NodeId, Result<(), LinkError>)>) -> Result<
    (),
    LinkError,
>
    decreases outcomes.len(),
{
    if outcomes.len() == 0 {
        Ok(())
    } else {
        match first_failure(outcomes.drop_last()) {
            Err(e) => Err(e),
            Ok(_) => {
                let (node, outcome) = outcomes.last();
                outcome
            },
        }
    }
}

impl MeshView {
    /// The mesh once the links that have been found closed are removed, one after the other.
    pub open spec fn after_broadcast(self, outcomes: Seq<(NodeId, Result<(), LinkError>)>) -> MeshView
        decreases outcomes.len(),
    {
        if outcomes.len() == 0 {
            self
        } else {
            let before = self.after_broadcast(outcomes.drop_last());
            let (node, outcome) = outcomes.last();
            if outcome == Err::<(), LinkError>(LinkError::Closed) {
                before.unlinked(node)
            } else {
                before
            }
        }
    }

    /// Packets are forwarded over links only, and packets for this node are not forwarded.
    pub open spec fn inv(self) -> bool {
        &&& forall|dst: NodeId| #[trigger]
            self.routes.contains_key(dst) ==> self.links.contains(self.routes[dst])
        &&& !self.routes.contains_key(self.id)
    }

    /// The mesh without the link to `dst` and the routes over it.
    pub open spec fn unlinked(self, dst: NodeId) -> MeshView {
        MeshView {
            links: self.links.remove(dst),
            routes: Map::new(
                |d: NodeId| self.routes.contains_key(d) && self.routes[d] != dst,
                |d: NodeId| self.routes[d],
            ),
            events: self.events.push(MeshEvent::LinkDown(dst)),
            ..self
        }
    }

    /// The link over which packets for `dst` leave, if there is one.
    pub open spec fn next_hop(self, dst: NodeId) -> Option<NodeId> {
        if self.routes.contains_key(dst) && self.links.contains(self.routes[dst]) {
            Some(self.routes[dst])
        } else {
            None
        }
    }

    /// What becomes of a payload that is to go to a neighbour.
    pub open spec fn to_neighbour(self, dst: NodeId, payload: Payload) -> Result<
        Delivery,
        CryonetError,
    > {
        if self.links.contains(dst) {
            Ok(
                Delivery::Send {
                    link: dst,
                    packet: Packet { src: self.id, dst, ttl: INITIAL_TTL, payload },
                },
            )
        } else {
            Err(CryonetError::NoSuchLink(dst))
        }
    }

    /// What becomes of a packet that is to leave this node.
    pub open spec fn departure(self, packet: Packet) -> Result<Delivery, CryonetError> {
        match self.next_hop(packet.dst) {
            Some(link) => Ok(Delivery::Send { link, packet }),
            None => Err(CryonetError::Unreachable(packet.dst)),
        }
    }

    /// What becomes of a packet that has come over a link.
    pub open spec fn arrival(self, packet: Packet) -> Result<Delivery, CryonetError> {
        if packet.dst == self.id {
            match dispatchee_for(self.dispatchees, packet.payload.kind_of()) {
                Some(token) => Ok(Delivery::Dispatch { token, packet }),
                None => Ok(Delivery::Dropped),
            }
        } else if packet.ttl == 0 {
            Ok(Delivery::Dropped)
        } else {
            self.departure(Packet { ttl: (packet.ttl - 1) as u8, ..packet })
        }
    }

    /// The mesh that forwards packets for `dst` to `next_hop`, where there is such a link and `dst` is
    /// another node.
    pub open spec fn with_route(self, dst: NodeId, next_hop: NodeId) -> MeshView {
        if dst == self.id || !self.links.contains(next_hop) {
            self
        } else {
            MeshView {
                routes: self.routes.insert(dst, next_hop),
                events: self.events.push(MeshEvent::RouteSet(dst, next_hop)),
                ..self
            }
        }
    }

    /// The mesh that forwards packets for `dst` no longer.
    pub open spec fn without_route(self, dst: NodeId) -> MeshView {
        if self.routes.contains_key(dst) {
            MeshView {
                routes: self.routes.remove(dst),
                events: self.events.push(MeshEvent::RouteRemoved(dst, self.routes[dst])),
                ..self
            }
        } else {
            self
        }
    }

    /// A second link to a node that is linked already is refused by the node with the larger
    /// address, and replaces the first one at the other.
    pub open spec fn refuses_link(self, dst: NodeId) -> bool {
        self.links.contains(dst) && self.id > dst
    }

    /// The mesh with a link to `dst`.
    pub open spec fn linked(self, dst: NodeId) -> MeshView {
        let before = if self.links.contains(dst) {
            self.unlinked(dst)
        } else {
            self
        };
        MeshView {
            links: before.links.insert(dst),
            events: before.events.push(MeshEvent::LinkUp(dst)),
            ..before
        }
    }
}

impl View for Mesh {
    type V = MeshView;

    closed spec fn view(&self) -> MeshView {
        MeshView {
            id: self.id,
            links: self.links@,
            routes: self.routes@,
            dispatchees: self.dispatchees@,
            next_token: self.next_token,
            events: self.events@,
        }
    }
}

impl Mesh {
    /// The mesh of node `id`, without links.
    pub fn new(id: NodeId) -> (mesh: Mesh)
        ensures
            mesh@.inv(),
            mesh@ == (MeshView {
                id,
                links: Set::empty(),
                routes: Map::empty(),
                dispatchees: Seq::empty(),
                next_token: 0,
                events: Seq::empty(),
            }),
    {
        Mesh {
            id,
            links: HashSet::new(),
            routes: HashMap::new(),
            dispatchees: Vec::new(),
            next_token: 0,
            events: Vec::new(),
        }
    }

    /// The address of this node.
    pub fn id(&self) -> (id: NodeId)
        ensures
            id == self@.id,
    {
        self.id
    }

    /// Takes what has come over the link to `from`. Where the link is gone it is removed.
    pub fn handle_packet(&mut self, from: NodeId, received: Result<Packet, LinkError>) -> (result:
        Result<Delivery, CryonetError>)
        requires
            old(self)@.inv(),
        ensures
            final(self)@.inv(),
            match received {
                Ok(packet) => final(self)@ == old(self)@ && result == old(self)@.arrival(packet),
                Err(LinkError::Closed) => final(self)@ == old(self)@.unlinked(from) && result == Ok::<
                    Delivery,
                    CryonetError,
                >(Delivery::Dropped),
                Err(LinkError::Unknown) => final(self)@ == old(self)@ && result == Err::<
                    Delivery,
                    CryonetError,
                >(CryonetError::Unknown),
            },
    {
        let mut packet = match received {
            Ok(packet) => packet,
            Err(LinkError::Closed) => {
                self.remove_link(from);
                return Ok(Delivery::Dropped);
            },
            Err(LinkError::Unknown) => {
                return Err(CryonetError::Unknown);
            },
        };
        if packet.dst == self.id {
            let kind = packet.payload.kind();
            let mut i: usize = 0;
            assert(self.dispatchees@.skip(0) =~= self.dispatchees@);
            while i < self.dispatchees.len()
                invariant
                    i <= self.dispatchees.len(),
                    *self == *old(self),
                    self@.inv(),
                    kind == packet.payload.kind_of(),
                    packet.dst == self@.id,
                    received == Ok::<Packet, LinkError>(packet),
                    dispatchee_for(self.dispatchees@, kind) == dispatchee_for(
                        self.dispatchees@.skip(i as int),
                        kind,
                    ),
                decreases self.dispatchees.len() - i,
            {
                proof {
                    assert(self.dispatchees@.skip(i as int)[0] == self.dispatchees@[i as int]);
                    assert(self.dispatchees@.skip(i as int).skip(1) =~= self.dispatchees@.skip(
                        i + 1,
                    ));
                }
                if self.dispatchees[i].kind == kind {
                    return Ok(Delivery::Dispatch { token: self.dispatchees[i].token, packet });
                }
                i += 1;
            }
            Ok(Delivery::Dropped)
        } else {
            if packet.ttl == 0 {
                return Ok(Delivery::Dropped);
            }
            packet.ttl = packet.ttl - 1;
            self.send_packet_internal(packet)
        }
    }

    /// Finds the link over which a packet leaves.
    fn send_packet_internal(&self, packet: Packet) -> (result: Result<Delivery, CryonetError>)
        ensures
            result == self@.departure(packet),
    {
        match self.routes.get(&packet.dst) {
            Some(next_hop) => {
                let link = *next_hop;
                if self.links.contains(&link) {
                    Ok(Delivery::Send { link, packet })
                } else {
                    Err(CryonetError::Unreachable(packet.dst))
                }
            },
            None => Err(CryonetError::Unreachable(packet.dst)),
        }
    }

    /// Sends a payload to any node.
    pub fn send_packet(&self, dst: NodeId, payload: Payload) -> (result: Result<
        Delivery,
        CryonetError,
    >)
        ensures
            result == self@.departure(Packet { src: self@.id, dst, ttl: INITIAL_TTL, payload }),
    {
        self.send_packet_internal(Packet { src: self.id, dst, ttl: INITIAL_TTL, payload })
    }

    /// Sends a payload to a neighbour.
    pub fn send_packet_link(&self, dst: NodeId, payload: Payload) -> (result: Result<
        Delivery,
        CryonetError,
    >)
        ensures
            result == self@.to_neighbour(dst, payload),
            result == if self@.links.contains(dst) {
                Ok(
                    Delivery::Send {
                        link: dst,
                        packet: Packet { src: self@.id, dst, ttl: INITIAL_TTL, payload },
                    },
                )
            } else {
                Err(CryonetError::NoSuchLink(dst))
            },
    {
        if self.links.contains(&dst) {
            Ok(
                Delivery::Send {
                    link: dst,
                    packet: Packet { src: self.id, dst, ttl: INITIAL_TTL, payload },
                },
            )
        } else {
            Err(CryonetError::NoSuchLink(dst))
        }
    }

    /// The addressing of a payload that goes to every neighbour, in no particular order.
    pub fn broadcast_packet_local(&self) -> (envelopes: Vec<Envelope>)
        ensures
            envelopes@.map_values(|e: Envelope| e.dst).no_duplicates(),
            envelopes@.map_values(|e: Envelope| e.dst).to_set() == self@.links,
            forall|i: int|
                0 <= i < envelopes.len() ==> (#[trigger] envelopes[i]).src == self@.id
                    && envelopes[i].ttl == INITIAL_TTL,
    {
        let links = set_members(&self.links);
        let mut envelopes: Vec<Envelope> = Vec::new();
        let mut i: usize = 0;
        while i < links.len()
            invariant
                i <= links.len(),
                envelopes.len() == i,
                forall|j: int|
                    0 <= j < i ==> #[trigger] envelopes[j] == (Envelope {
                        src: self.id,
                        dst: links[j],
                        ttl: INITIAL_TTL,
                    }),
            decreases links.len() - i,
        {
            envelopes.push(Envelope { src: self.id, dst: links[i], ttl: INITIAL_TTL });
            i += 1;
        }
        assert(envelopes@.map_values(|e: Envelope| e.dst) =~= links@);
        envelopes
    }

    /// Takes what came of sending over a link. Where the link is gone it is removed.
    pub fn link_sent(&mut self, link: NodeId, outcome: Result<(), LinkError>) -> (result: Result<
        (),
        LinkError,
    >)
        requires
            old(self)@.inv(),
        ensures
            final(self)@.inv(),
            result == outcome,
            final(self)@ == if outcome == Err::<(), LinkError>(LinkError::Closed) {
                old(self)@.unlinked(link)
            } else {
                old(self)@
            },
    {
        match outcome {
            Err(LinkError::Closed) => {
                self.remove_link(link);
            },
            _ => {},
        }
        outcome
    }

    /// Takes what came of sending a broadcast over each link. It has succeeded if and only if every
    /// single sending has; the links that are gone are removed, whatever came of the others.
    pub fn broadcast_sent(&mut self, outcomes: &Vec<(NodeId, Result<(), LinkError>)>) -> (result:
        Result<(), LinkError>)
        requires
            old(self)@.inv(),
        ensures
            final(self)@.inv(),
            final(self)@ == old(self)@.after_broadcast(outcomes@),
            result == first_failure(outcomes@),
            result is Ok <==> forall|i: int| 0 <= i < outcomes@.len() ==> (#[trigger] outcomes@[i]).1 is Ok,
            forall|n: NodeId| #[trigger]
                final(self)@.links.contains(n) <==> old(self)@.links.contains(n) && !found_closed(
                    outcomes@,
                    n,
                ),
    {
        let mut result: Result<(), LinkError> = Ok(());
        let mut i: usize = 0;
        while i < outcomes.len()
            invariant
                i <= outcomes.len(),
                self@.inv(),
                self@ == old(self)@.after_broadcast(outcomes@.take(i as int)),
                result == first_failure(outcomes@.take(i as int)),
            decreases outcomes.len() - i,
        {
            proof {
                assert(outcomes@.take(i + 1).drop_last() =~= outcomes@.take(i as int));
                assert(outcomes@.take(i + 1).last() == outcomes@[i as int]);
            }
            let (node, outcome) = outcomes[i];
            match outcome {
                Err(LinkError::Closed) => {
                    self.remove_link(node);
                },
                _ => {},
            }
            if result.is_ok() {
                result = outcome;
            }
            i += 1;
        }
        proof {
            assert(outcomes@.take(outcomes.len() as int) =~= outcomes@);
            lemma_first_failure(outcomes@);
            assert forall|n: NodeId| #[trigger] self@.links.contains(n) <==> old(
                self,
            )@.links.contains(n) && !found_closed(outcomes@, n) by {
                lemma_broadcast_links(old(self)@, outcomes@, n);
            }
        }
        result
    }

    /// Registers a part of the node that takes packets of one kind.
    pub fn add_dispatchee(&mut self, kind: PayloadKind) -> (token: u64)
        requires
            old(self)@.inv(),
            old(self)@.next_token < u64::MAX,
        ensures
            final(self)@.inv(),
            token == old(self)@.next_token,
            final(self)@ == (MeshView {
                dispatchees: old(self)@.dispatchees.push(Dispatchee { kind, token }),
                next_token: (token + 1) as u64,
                ..old(self)@
            }),
    {
        let token = self.next_token;
        self.dispatchees.push(Dispatchee { kind, token });
        self.next_token = token + 1;
        token
    }

    /// Removes a part of the node that takes packets.
    pub fn remove_dispatchee(&mut self, token: u64)
        requires
            old(self)@.inv(),
        ensures
            final(self)@.inv(),
            final(self)@ == (MeshView {
                dispatchees: without_token(old(self)@.dispatchees, token),
                ..old(self)@
            }),
    {
        let mut kept: Vec<Dispatchee> = Vec::new();
        let mut i: usize = 0;
        while i < self.dispatchees.len()
            invariant
                i <= self.dispatchees.len(),
                kept@ == without_token(self.dispatchees@.take(i as int), token),
            decreases self.dispatchees.len() - i,
        {
            proof {
                assert(self.dispatchees@.take(i + 1).drop_last() =~= self.dispatchees@.take(
                    i as int,
                ));
                assert(self.dispatchees@.take(i + 1).last() == self.dispatchees@[i as int]);
            }
            if self.dispatchees[i].token != token {
                kept.push(self.dispatchees[i]);
            }
            i += 1;
        }
        proof {
            assert(self.dispatchees@.take(self.dispatchees.len() as int) =~= self.dispatchees@);
        }
        self.dispatchees = kept;
    }

    /// Adds a link, unless there is one already that is to be kept.
    pub fn add_link(&mut self, dst: NodeId) -> (added: bool)
        requires
            old(self)@.inv(),
        ensures
            final(self)@.inv(),
            added == !old(self)@.refuses_link(dst),
            final(self)@ == if added {
                old(self)@.linked(dst)
            } else {
                old(self)@
            },
    {
        if self.links.contains(&dst) {
            if self.id > dst {
                return false;
            }
            self.remove_link(dst);
        }
        self.links.insert(dst);
        self.events.push(MeshEvent::LinkUp(dst));
        true
    }

    /// Removes a link and the routes over it.
    pub fn remove_link(&mut self, dst: NodeId)
        requires
            old(self)@.inv(),
        ensures
            final(self)@.inv(),
            final(self)@ == old(self)@.unlinked(dst),
    {
        drop_routes_via(&mut self.routes, dst);
        self.links.remove(&dst);
        self.events.push(MeshEvent::LinkDown(dst));
        assert(self@ =~= old(self)@.unlinked(dst));
    }

    /// The neighbours, each once, in no particular order.
    pub fn get_links(&self) -> (links: Vec<NodeId>)
        ensures
            links@.no_duplicates(),
            links@.to_set() == self@.links,
    {
        set_members(&self.links)
    }

    /// Forwards packets for `dst` to `next_hop`, unless `dst` is this node or there is no such link.
    pub fn set_route(&mut self, dst: NodeId, next_hop: NodeId)
        requires
            old(self)@.inv(),
        ensures
            final(self)@.inv(),
            final(self)@ == old(self)@.with_route(dst, next_hop),
            dst != old(self)@.id && old(self)@.links.contains(next_hop) ==> final(self)@.next_hop(dst)
                == Some(next_hop),
            final(self)@ == if dst == old(self)@.id || !old(self)@.links.contains(next_hop) {
                old(self)@
            } else {
                MeshView {
                    routes: old(self)@.routes.insert(dst, next_hop),
                    events: old(self)@.events.push(MeshEvent::RouteSet(dst, next_hop)),
                    ..old(self)@
                }
            },
    {
        if dst == self.id {
            return;
        }
        if !self.links.contains(&next_hop) {
            return;
        }
        self.routes.insert(dst, next_hop);
        self.events.push(MeshEvent::RouteSet(dst, next_hop));
    }

    /// Stops forwarding packets for `dst`.
    pub fn remove_route(&mut self, dst: NodeId)
        requires
            old(self)@.inv(),
        ensures
            final(self)@.inv(),
            final(self)@ == old(self)@.without_route(dst),
            final(self)@.next_hop(dst) is None,
            final(self)@ == if old(self)@.routes.contains_key(dst) {
                MeshView {
                    routes: old(self)@.routes.remove(dst),
                    events: old(self)@.events.push(
                        MeshEvent::RouteRemoved(dst, old(self)@.routes[dst]),
                    ),
                    ..old(self)@
                }
            } else {
                old(self)@
            },
    {
        match self.routes.remove(&dst) {
            Some(next_hop) => {
                self.events.push(MeshEvent::RouteRemoved(dst, next_hop));
            },
            None => {
                assert(self.routes@ =~= old(self)@.routes);
            },
        }
    }

    /// The forwarding table.
    pub fn get_routes(&self) -> (routes: HashMap<NodeId, NodeId>)
        ensures
            routes@ == self@.routes,
    {
        let keys = node_keys(&self.routes);
        let mut routes: HashMap<NodeId, NodeId> = HashMap::new();
        let mut i: usize = 0;
        while i < keys.len()
            invariant
                i <= keys.len(),
                keys@.to_set() == self.routes@.dom(),
                forall|k: NodeId| #[trigger]
                    routes@.contains_key(k) <==> keys@.take(i as int).contains(k),
                forall|k: NodeId| #[trigger]
                    routes@.contains_key(k) ==> self.routes@.contains_key(k) && routes@[k]
                        == self.routes@[k],
            decreases keys.len() - i,
        {
            let key = keys[i];
            let ghost done = keys@.take(i as int);
            let ghost next = keys@.take(i + 1);
            proof {
                assert(keys@.to_set().contains(key));
                assert forall|k: NodeId| next.contains(k) <==> done.contains(k) || k == key by {
                    if done.contains(k) {
                        let j = choose|j: int| 0 <= j < done.len() && done[j] == k;
                        assert(next[j] == k);
                    }
                    assert(next[i as int] == key);
                    if next.contains(k) && k != key {
                        let j = choose|j: int| 0 <= j < next.len() && next[j] == k;
                        assert(done[j] == k);
                    }
                }
            }
            match self.routes.get(&key) {
                Some(next_hop) => {
                    routes.insert(key, *next_hop);
                },
                None => {},
            }
            i += 1;
        }
        proof {
            assert(keys@.take(keys.len() as int) =~= keys@);
            assert forall|k: NodeId| self.routes@.contains_key(k) implies keys@.contains(k) by {
                assert(keys@.to_set().contains(k));
            }
            assert(routes@ =~= self.routes@);
        }
        routes
    }

    /// What has changed since the last call, in order.
    pub fn take_events(&mut self) -> (events: Vec<MeshEvent>)
        requires
            old(self)@.inv(),
        ensures
            final(self)@.inv(),
            events@ == old(self)@.events,
            final(self)@ == (MeshView { events: Seq::empty(), ..old(self)@ }),
    {
        let mut events: Vec<MeshEvent> = Vec::new();
        let mut i: usize = 0;
        while i < self.events.len()
            invariant
                i <= self.events.len(),
                events@ == self.events@.take(i as int),
            decreases self.events.len() - i,
        {
            assert(self.events@.take(i + 1) =~= self.events@.take(i as int).push(
                self.events@[i as int],
            ));
            events.push(self.events[i]);
            i += 1;
        }
        assert(self.events@.take(self.events.len() as int) =~= self.events@);
        self.events = Vec::new();
        events
    }
}

/// There is no failure if and only if there is none among the outcomes.
proof fn lemma_first_failure(outcomes: Seq<(NodeId, Result<(), LinkError>)>)
    ensures
        first_failure(outcomes) is Ok <==> forall|i: int|
            0 <= i < outcomes.len() ==> (#[trigger] outcomes[i]).1 is Ok,
    decreases outcomes.len(),
{
    if outcomes.len() > 0 {
        let rest = outcomes.drop_last();
        let last = outcomes.len() - 1;
        lemma_first_failure(rest);
        if first_failure(outcomes) is Ok {
            assert forall|i: int| 0 <= i < outcomes.len() implies (
            #[trigger] outcomes[i]).1 is Ok by {
                if i < last {
                    assert(rest[i] == outcomes[i]);
                }
            }
        } else if forall|i: int| 0 <= i < outcomes.len() ==> (#[trigger] outcomes[i]).1 is Ok {
            assert forall|i: int| 0 <= i < rest.len() implies (#[trigger] rest[i]).1 is Ok by {
                assert(rest[i] == outcomes[i]);
            }
            assert(outcomes[last].1 is Ok);
        }
    }
}

/// A broadcast leaves the links but those that have been found closed.
proof fn lemma_broadcast_links(
    mesh: MeshView,
    outcomes: Seq<(NodeId, Result<(), LinkError>)>,
    n: NodeId,
)
    ensures
        mesh.after_broadcast(outcomes).links.contains(n) <==> mesh.links.contains(n)
            && !found_closed(outcomes, n),
    decreases outcomes.len(),
{
    if outcomes.len() > 0 {
        let rest = outcomes.drop_last();
        let last = outcomes.len() - 1;
        lemma_broadcast_links(mesh, rest, n);
        let closed = (n, Err::<(), LinkError>(LinkError::Closed));
        if found_closed(rest, n) {
            let i = choose|i: int| 0 <= i < rest.len() && rest[i] == closed;
            assert(outcomes[i] == closed);
        } else if found_closed(outcomes, n) {
            let i = choose|i: int| 0 <= i < outcomes.len() && outcomes[i] == closed;
            if i < last {
                assert(rest[i] == closed);
            }
        } else if outcomes[last] == closed {
            assert(outcomes.contains(closed));
        }
    }
}

/// A packet that is forwarded may be forwarded less often after it, and keeps everything else: no
/// packet is forwarded for ever.
pub proof fn lemma_forwarding_uses_up_ttl(mesh: MeshView, packet: Packet, link: NodeId, sent: Packet)
    requires
        mesh.arrival(packet) == Ok::<_, CryonetError>(Delivery::Send { link, packet: sent }),
    ensures
        sent.ttl < packet.ttl,
        sent == (Packet { ttl: sent.ttl, ..packet }),
{
}

/// A packet leaves a node over a link of it only.
pub proof fn lemma_packets_leave_over_links(mesh: MeshView, packet: Packet, link: NodeId, sent: Packet)
    requires
        mesh.departure(packet) == Ok::<_, CryonetError>(Delivery::Send { link, packet: sent }),
    ensures
        mesh.links.contains(link),
        sent == packet,
{
}

/// While there is a route there is a link to leave over: packets for a destination with a route are
/// never refused.
pub proof fn lemma_routes_lead_somewhere(mesh: MeshView, packet: Packet)
    requires
        mesh.inv(),
    ensures
        mesh.departure(packet) is Ok <==> mesh.routes.contains_key(packet.dst),
{
}

/// Of two nodes that link to each other twice, exactly one refuses the second link.
pub proof fn lemma_duplicate_link_refused_once(a: MeshView, b: MeshView)
    requires
        a.id != b.id,
        a.links.contains(b.id),
        b.links.contains(a.id),
    ensures
        a.refuses_link(b.id) != b.refuses_link(a.id),
{
}

/// Once a link has been removed nothing leaves over it.
pub proof fn lemma_removed_link_unused(mesh: MeshView, link: NodeId, dst: NodeId)
    ensures
        mesh.unlinked(link).next_hop(dst) != Some(link),
{
}

/// A packet leaves over the link that the forwarding table names for its destination, unchanged, and
/// over no other, whichever nodes are linked; where the table names none, or one that is not linked,
/// the destination is unreachable.
pub proof fn lemma_packets_follow_the_table(mesh: MeshView, packet: Packet)
    ensures
        mesh.routes.contains_key(packet.dst) && mesh.links.contains(mesh.routes[packet.dst])
            ==> mesh.departure(packet) == Ok::<_, CryonetError>(
            Delivery::Send { link: mesh.routes[packet.dst], packet },
        ),
        !(mesh.routes.contains_key(packet.dst) && mesh.links.contains(mesh.routes[packet.dst]))
            ==> mesh.departure(packet) == Err::<Delivery, _>(
            CryonetError::Unreachable(packet.dst),
        ),
        mesh.departure(packet) matches Ok(Delivery::Send { link, packet: sent }) ==> link
            == mesh.routes[packet.dst] && sent == packet,
{
}

/// Once a route has been set, packets for its destination leave over its next hop, those that this node
/// sends and those that it forwards; packets for other destinations leave as before.
pub proof fn lemma_set_route_takes_effect(
    mesh: MeshView,
    dst: NodeId,
    next_hop: NodeId,
    packet: Packet,
)
    requires
        dst != mesh.id,
        mesh.links.contains(next_hop),
    ensures
        packet.dst == dst ==> mesh.with_route(dst, next_hop).departure(packet) == Ok::<
            _,
            CryonetError,
        >(Delivery::Send { link: next_hop, packet }),
        packet.dst == dst && packet.ttl > 0 ==> mesh.with_route(dst, next_hop).arrival(packet)
            == Ok::<_, CryonetError>(
            Delivery::Send {
                link: next_hop,
                packet: Packet { ttl: (packet.ttl - 1) as u8, ..packet },
            },
        ),
        packet.dst != dst ==> mesh.with_route(dst, next_hop).departure(packet) == mesh.departure(
            packet,
        ),
        mesh.with_route(dst, next_hop).links == mesh.links,
        mesh.with_route(dst, next_hop).events == mesh.events.push(
            MeshEvent::RouteSet(dst, next_hop),
        ),
{
}

/// A route to this node itself or over something that is no link is not set.
pub proof fn lemma_useless_route_not_set(mesh: MeshView, dst: NodeId, next_hop: NodeId)
    ensures
        mesh.with_route(mesh.id, next_hop) == mesh,
        !mesh.links.contains(next_hop) ==> mesh.with_route(dst, next_hop) == mesh,
{
}

/// Once a route has been removed its destination is unreachable; other destinations are reached as
/// before, and removing it again changes nothing.
pub proof fn lemma_removed_route_unreachable(mesh: MeshView, dst: NodeId, packet: Packet)
    ensures
        packet.dst == dst ==> mesh.without_route(dst).departure(packet) == Err::<Delivery, _>(
            CryonetError::Unreachable(dst),
        ),
        packet.dst != dst ==> mesh.without_route(dst).departure(packet) == mesh.departure(packet),
        mesh.without_route(dst).without_route(dst) == mesh.without_route(dst),
        mesh.without_route(dst).links == mesh.links,
        mesh.routes.contains_key(dst) ==> mesh.without_route(dst).events == mesh.events.push(
            MeshEvent::RouteRemoved(dst, mesh.routes[dst]),
        ),
        !mesh.routes.contains_key(dst) ==> mesh.without_route(dst) == mesh,
{
}

/// A packet for this node goes to the first of its parts that takes packets of its kind, unchanged, and
/// nowhere if there is none.
pub proof fn lemma_own_packets_dispatched(mesh: MeshView, packet: Packet)
    requires
        packet.dst == mesh.id,
    ensures
        match mesh.arrival(packet) {
            Ok(Delivery::Dispatch { token, packet: taken }) => taken == packet && exists|k: int|
                0 <= k < mesh.dispatchees.len() && (#[trigger] mesh.dispatchees[k]).token == token
                    && mesh.dispatchees[k].kind == packet.payload.kind_of() && forall|j: int|
                    0 <= j < k ==> (#[trigger] mesh.dispatchees[j]).kind
                        != packet.payload.kind_of(),
            Ok(Delivery::Dropped) => forall|j: int|
                0 <= j < mesh.dispatchees.len() ==> (#[trigger] mesh.dispatchees[j]).kind
                    != packet.payload.kind_of(),
            _ => false,
        },
{
    lemma_first_dispatchee(mesh.dispatchees, packet.payload.kind_of());
}

proof fn lemma_first_dispatchee(dispatchees: Seq<Dispatchee>, kind: PayloadKind)
    ensures
        match dispatchee_for(dispatchees, kind) {
            Some(token) => exists|k: int|
                0 <= k < dispatchees.len() && (#[trigger] dispatchees[k]).token == token
                    && dispatchees[k].kind == kind && forall|j: int|
                    0 <= j < k ==> (#[trigger] dispatchees[j]).kind != kind,
            None => forall|j: int|
                0 <= j < dispatchees.len() ==> (#[trigger] dispatchees[j]).kind != kind,
        },
    decreases dispatchees.len(),
{
    if dispatchees.len() > 0 && dispatchees[0].kind != kind {
        let rest = dispatchees.skip(1);
        lemma_first_dispatchee(rest, kind);
        match dispatchee_for(rest, kind) {
            Some(token) => {
                let k = choose|k: int|
                    0 <= k < rest.len() && (#[trigger] rest[k]).token == token && rest[k].kind == kind
                        && forall|j: int| 0 <= j < k ==> (#[trigger] rest[j]).kind != kind;
                assert(dispatchees[k + 1] == rest[k]);
                assert forall|j: int| 0 <= j < k + 1 implies (#[trigger] dispatchees[j]).kind
                    != kind by {
                    if j > 0 {
                        assert(rest[j - 1] == dispatchees[j]);
                    }
                }
            },
            None => {
                assert forall|j: int| 0 <= j < dispatchees.len() implies (
                #[trigger] dispatchees[j]).kind != kind by {
                    if j > 0 {
                        assert(rest[j - 1] == dispatchees[j]);
                    }
                }
            },
        }
    } else if dispatchees.len() > 0 {
        assert(dispatchees[0].kind == kind);
    }
}

/// A packet for another node is forwarded with one hop less to go, as if this node sent it, and goes
/// nowhere if it has none left.
pub proof fn lemma_foreign_packets_forwarded(mesh: MeshView, packet: Packet)
    requires
        packet.dst != mesh.id,
    ensures
        packet.ttl == 0 ==> mesh.arrival(packet) == Ok::<_, CryonetError>(Delivery::Dropped),
        packet.ttl > 0 ==> mesh.arrival(packet) == mesh.departure(
            Packet {
                src: packet.src,
                dst: packet.dst,
                ttl: (packet.ttl - 1) as u8,
                payload: packet.payload,
            },
        ),
{
}

/// What this node sends may be forwarded sixteen times.
pub proof fn lemma_packets_travel_far_enough()
    ensures
        INITIAL_TTL == 16,
{
}

/// Removing a link takes it from the links and its routes from the table, and nothing else.
pub proof fn lemma_removed_link_takes_its_routes(mesh: MeshView, link: NodeId, dst: NodeId)
    ensures
        !mesh.unlinked(link).links.contains(link),
        dst != link ==> (mesh.unlinked(link).links.contains(dst) <==> mesh.links.contains(dst)),
        mesh.unlinked(link).routes.contains_key(dst) <==> mesh.routes.contains_key(dst)
            && mesh.routes[dst] != link,
        mesh.unlinked(link).routes.contains_key(dst) ==> mesh.unlinked(link).routes[dst]
            == mesh.routes[dst],
        mesh.unlinked(link).id == mesh.id,
        mesh.unlinked(link).dispatchees == mesh.dispatchees,
        mesh.unlinked(link).next_token == mesh.next_token,
        mesh.unlinked(link).events == mesh.events.push(MeshEvent::LinkDown(link)),
{
}

/// A new link is added to the links and leaves the table as it is. One that replaces another is told as
/// the loss of that one, with its routes, and a new link.
pub proof fn lemma_added_link(mesh: MeshView, link: NodeId, dst: NodeId)
    ensures
        mesh.linked(link).links.contains(link),
        dst != link ==> (mesh.linked(link).links.contains(dst) <==> mesh.links.contains(dst)),
        !mesh.links.contains(link) ==> mesh.linked(link).routes == mesh.routes && mesh.linked(
            link,
        ).events == mesh.events.push(MeshEvent::LinkUp(link)),
        mesh.links.contains(link) ==> mesh.linked(link).events == mesh.events.push(
            MeshEvent::LinkDown(link),
        ).push(MeshEvent::LinkUp(link)),
        mesh.links.contains(link) ==> (mesh.linked(link).routes.contains_key(dst)
            <==> mesh.routes.contains_key(dst) && mesh.routes[dst] != link),
        mesh.linked(link).routes.contains_key(dst) ==> mesh.linked(link).routes[dst]
            == mesh.routes[dst],
        mesh.linked(link).id == mesh.id,
        mesh.linked(link).dispatchees == mesh.dispatchees,
        mesh.linked(link).next_token == mesh.next_token,
{
}

/// A link is refused only where there is one already, and then by the node with the larger address.
pub proof fn lemma_refused_link(mesh: MeshView, dst: NodeId)
    ensures
        !mesh.links.contains(dst) ==> !mesh.refuses_link(dst),
        mesh.links.contains(dst) && mesh.id > dst ==> mesh.refuses_link(dst),
        mesh.links.contains(dst) && mesh.id <= dst ==> !mesh.refuses_link(dst),
{
}

/// Removing a part of the node removes it and keeps all others, in order.
pub proof fn lemma_removed_dispatchee(dispatchees: Seq<Dispatchee>, token: u64)
    ensures
        forall|d: Dispatchee| #[trigger]
            without_token(dispatchees, token).contains(d) <==> dispatchees.contains(d) && d.token
                != token,
        (forall|k: int| 0 <= k < dispatchees.len() ==> (#[trigger] dispatchees[k]).token != token)
            ==> without_token(dispatchees, token) == dispatchees,
    decreases dispatchees.len(),
{
    if dispatchees.len() > 0 {
        let rest = dispatchees.drop_last();
        let last = dispatchees.last();
        let before = without_token(rest, token);
        let all = without_token(dispatchees, token);
        lemma_removed_dispatchee(rest, token);
        assert forall|d: Dispatchee| #[trigger] all.contains(d) <==> dispatchees.contains(d) && d.token
            != token by {
            if all.contains(d) {
                let k = choose|k: int| 0 <= k < all.len() && all[k] == d;
                if k < before.len() {
                    assert(before[k] == d);
                    assert(before.contains(d));
                    let j = choose|j: int| 0 <= j < rest.len() && rest[j] == d;
                    assert(dispatchees[j] == d);
                } else {
                    assert(dispatchees[dispatchees.len() - 1] == d);
                }
            }
            if dispatchees.contains(d) && d.token != token {
                let j = choose|j: int| 0 <= j < dispatchees.len() && dispatchees[j] == d;
                if j < rest.len() {
                    assert(rest[j] == d);
                    assert(rest.contains(d));
                    assert(before.contains(d));
                    let k = choose|k: int| 0 <= k < before.len() && before[k] == d;
                    assert(all[k] == d);
                } else {
                    assert(all[before.len() as int] == d);
                }
            }
        }
        if forall|k: int| 0 <= k < dispatchees.len() ==> (#[trigger] dispatchees[k]).token != token {
            assert forall|k: int| 0 <= k < rest.len() implies (#[trigger] rest[k]).token != token by {
                assert(rest[k] == dispatchees[k]);
            }
            assert(dispatchees[dispatchees.len() - 1].token != token);
            assert(all =~= dispatchees);
        }
    } else {
        assert(without_token(dispatchees, token) =~= dispatchees);
    }
}

/// Where a broadcast fails, what is told is what came of the first sending that failed.
pub proof fn lemma_first_failure_is_told(outcomes: Seq<(NodeId, Result<(), LinkError>)>, i: int)
    requires
        0 <= i < outcomes.len(),
        outcomes[i].1 is Err,
        forall|j: int| 0 <= j < i ==> (#[trigger] outcomes[j]).1 is Ok,
    ensures
        first_failure(outcomes) == outcomes[i].1,
    decreases outcomes.len(),
{
    let rest = outcomes.drop_last();
    if i < outcomes.len() - 1 {
        assert(rest[i] == outcomes[i]);
        assert forall|j: int| 0 <= j < i implies (#[trigger] rest[j]).1 is Ok by {
            assert(rest[j] == outcomes[j]);
        }
        lemma_first_failure_is_told(rest, i);
    } else {
        assert forall|j: int| 0 <= j < rest.len() implies (#[trigger] rest[j]).1 is Ok by {
            assert(rest[j] == outcomes[j]);
        }
        lemma_first_failure(rest);
    }
}

/// A broadcast takes from the table the routes over the links that it has found closed, and no others;
/// the parts of the node stay.
pub proof fn lemma_broadcast_keeps_other_routes(
    mesh: MeshView,
    outcomes: Seq<(NodeId, Result<(), LinkError>)>,
    dst: NodeId,
)
    ensures
        mesh.after_broadcast(outcomes).routes.contains_key(dst) <==> mesh.routes.contains_key(dst)
            && !found_closed(outcomes, mesh.routes[dst]),
        mesh.after_broadcast(outcomes).routes.contains_key(dst) ==> mesh.after_broadcast(
            outcomes,
        ).routes[dst] == mesh.routes[dst],
        mesh.after_broadcast(outcomes).id == mesh.id,
        mesh.after_broadcast(outcomes).dispatchees == mesh.dispatchees,
        mesh.after_broadcast(outcomes).next_token == mesh.next_token,
    decreases outcomes.len(),
{
    if outcomes.len() > 0 {
        let rest = outcomes.drop_last();
        let last = outcomes.len() - 1;
        lemma_broadcast_keeps_other_routes(mesh, rest, dst);
        let closed = (mesh.routes[dst], Err::<(), LinkError>(LinkError::Closed));
        if rest.contains(closed) {
            let i = choose|i: int| 0 <= i < rest.len() && rest[i] == closed;
            assert(outcomes[i] == closed);
        }
        if outcomes.contains(closed) {
            let i = choose|i: int| 0 <= i < outcomes.len() && outcomes[i] == closed;
            if i < last {
                assert(rest[i] == closed);
            }
        }
        if outcomes[last] == closed {
            assert(outcomes.contains(closed));
        }
    }
}

/// A payload goes to a neighbour over the link to it, whatever the routes say, and arrives there as one
/// for that node; one to a node that is no neighbour goes nowhere.
pub proof fn lemma_neighbours_reached(
    here: MeshView,
    there: MeshView,
    payload: Payload,
    routes: Map<NodeId, NodeId>,
)
    ensures
        (MeshView { routes, ..here }).to_neighbour(there.id, payload) == here.to_neighbour(
            there.id,
            payload,
        ),
        match here.to_neighbour(there.id, payload) {
            Ok(Delivery::Send { link, packet }) => {
                &&& here.links.contains(there.id)
                &&& link == there.id
                &&& packet.src == here.id
                &&& packet.dst == there.id
                &&& packet.payload == payload
                &&& packet.ttl == 16
            },
            Ok(_) => false,
            Err(e) => !here.links.contains(there.id) && e == CryonetError::NoSuchLink(there.id),
        },
{
}

} // verus!
