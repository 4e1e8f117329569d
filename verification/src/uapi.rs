//! The control interface of a node: what it can be asked, and pings between nodes.

use vstd::prelude::*;
use std::collections::HashMap;
use crate::fullmesh::fm_ice::PeerReport;
use crate::igp::model::Route;
use crate::igp::Igp;
use crate::mesh::Mesh;
use crate::packet::{elapsed, time_since, Duration, Instant, NodeId, MILLISECOND, SECOND};

verus! {

broadcast use vstd::std_specs::hash::group_hash_axioms;

/// What the control interfaces of two nodes tell each other.
#[derive(Clone, Copy, PartialEq, Eq, Structural, Debug)]
pub enum UapiPayload {
    Ping(u128),
    Pong(u128),
}

/// How far a connection has come.
#[derive(Clone, Copy, PartialEq, Eq, Structural, Debug)]
pub enum ConnState {
    New,
    Connecting,
    Connected,
    Disconnected,
    Failed,
    Closed,
}

/// A route of the routing protocol.
#[derive(Clone, Copy, PartialEq, Eq, Structural, Debug)]
pub struct IgpRoute {
    pub seq: u16,
    pub metric: u32,
    pub computed_metric: u32,
    pub dst: NodeId,
    pub from: NodeId,
    pub selected: bool,
    /// How long it is until the route times out, or, where negative, how long ago it has.
    pub timeout_remaining_ms: i64,
}

/// One of the connections to a node.
#[derive(Clone, Debug)]
pub struct Conn {
    pub selected: bool,
    pub state: ConnState,
    pub selected_candidate: Option<String>,
    pub elapsed_ms: u64,
}

/// A connection and its id.
#[derive(Clone, Debug)]
pub struct ConnEntry {
    pub id: u128,
    pub conn: Conn,
}

/// The connections to a node.
#[derive(Clone, Debug)]
pub struct PeerEntry {
    pub node_id: NodeId,
    pub conns: Vec<ConnEntry>,
}

/// The connections to all nodes, as the full mesh that makes them knows them.
#[derive(Clone, Debug)]
pub enum FullMeshPeers {
    /// Several connections to each node.
    Several(Vec<PeerEntry>),
    /// One connection to each node.
    Single(Vec<PeerReport>),
}

/// What a node can be asked, and what it answers.
#[derive(Clone, Debug)]
pub enum CryonetUapi {
    GetLinks,
    GetLinksResponse(Vec<NodeId>),
    GetRoutes,
    GetRoutesResponse(HashMap<NodeId, NodeId>),
    GetIgpRoutes,
    GetIgpRoutesResponse(Vec<IgpRoute>),
    GetFullMeshPeers,
    GetFullMeshPeersResponse(FullMeshPeers),
    Ping(NodeId),
    Pong,
}

/// What the control interface asks for. A client is known by the name of its socket.
pub enum UapiAction {
    /// Nothing.
    Ignore,
    /// End the control interface: the mesh is gone.
    Stop,
    /// Answer a client.
    Reply { client: Vec<u8>, response: CryonetUapi },
    /// Answer a client with the connections to all nodes.
    ReplyPeers { client: Vec<u8> },
    /// Send a packet to a node.
    Send { dst: NodeId, payload: UapiPayload },
}

/// A ping that has not been answered yet.
pub struct PingEntry {
    pub client: Vec<u8>,
    pub sent_at: Instant,
}

/// A random identifier has this form: version four, variant one.
pub open spec fn is_random_uuid(uuid: u128) -> bool {
    &&& uuid / 0x1000_0000_0000_0000_0000 % 16 == 4
    &&& uuid / 0x4000_0000_0000_0000 % 4 == 2
}

/// `Uuid::new_v4` of the crate `uuid`, as a number. Which identifier comes is left to chance; it has
/// the version and the variant of a random one.
#[verifier::external_body]
pub(crate) fn new_uuid() -> (uuid: u128)
    ensures
        is_random_uuid(uuid),
{
    uuid::Uuid::new_v4().as_u128()
}

/// How long it is until `timeout`, in milliseconds rounded towards zero.
pub open spec fn remaining_ms(timeout: Instant, now: Instant) -> int {
    if timeout > now {
        (timeout - now) / (MILLISECOND as int)
    } else {
        -((now - timeout) / (MILLISECOND as int))
    }
}

/// A route as the control interface tells it.
pub open spec fn report_of(route: Route, now: Instant) -> IgpRoute {
    IgpRoute {
        seq: route.metric.seq.0,
        metric: route.metric.metric,
        computed_metric: route.computed_metric,
        dst: route.dst,
        from: route.from,
        selected: route.selected,
        timeout_remaining_ms: remaining_ms(route.timeout, now) as i64,
    }
}

/// The routes as the control interface tells them.
pub fn report_routes(routes: &Vec<Route>, now: Instant) -> (reports: Vec<IgpRoute>)
    ensures
        reports@ == Seq::new(routes@.len(), |i: int| report_of(routes@[i], now)),
{
    let mut reports: Vec<IgpRoute> = Vec::new();
    let mut i: usize = 0;
    while i < routes.len()
        invariant
            i <= routes.len(),
            reports.len() == i,
            forall|j: int| 0 <= j < i ==> #[trigger] reports[j] == report_of(routes@[j], now),
        decreases routes.len() - i,
    {
        let route = routes[i];
        let timeout_remaining_ms: i64 = if route.timeout > now {
            ((route.timeout - now) / MILLISECOND) as i64
        } else {
            -(((now - route.timeout) / MILLISECOND) as i64)
        };
        reports.push(
            IgpRoute {
                seq: route.metric.seq.0,
                metric: route.metric.metric,
                computed_metric: route.computed_metric,
                dst: route.dst,
                from: route.from,
                selected: route.selected,
                timeout_remaining_ms,
            },
        );
        i += 1;
    }
    assert(reports@ =~= Seq::new(routes@.len(), |i: int| report_of(routes@[i], now)));
    reports
}

/// The client that waits for the answer to a ping.
pub open spec fn client_of(waiting: Map<u128, PingEntry>, uuid: u128) -> Option<Vec<u8>> {
    if waiting.contains_key(uuid) {
        Some(waiting[uuid].client)
    } else {
        None
    }
}

/// What follows from a packet: the pings that are still waited for, and what is done.
pub open spec fn on_packet(
    waiting: Map<u128, PingEntry>,
    packet: Option<(NodeId, UapiPayload)>,
) -> (Map<u128, PingEntry>, UapiAction) {
    match packet {
        None => (waiting, UapiAction::Stop),
        Some((src, UapiPayload::Ping(uuid))) => (
            waiting,
            UapiAction::Send { dst: src, payload: UapiPayload::Pong(uuid) },
        ),
        Some((_, UapiPayload::Pong(uuid))) => (
            waiting.remove(uuid),
            match client_of(waiting, uuid) {
                Some(client) => UapiAction::Reply { client, response: CryonetUapi::Pong },
                None => UapiAction::Ignore,
            },
        ),
    }
}

/// What follows from the wish of a client to ping a node.
pub open spec fn on_ping(
    waiting: Map<u128, PingEntry>,
    uuid: u128,
    dst: NodeId,
    client: Vec<u8>,
    now: Instant,
) -> (Map<u128, PingEntry>, UapiAction) {
    (
        waiting.insert(uuid, PingEntry { client, sent_at: now }),
        UapiAction::Send { dst, payload: UapiPayload::Ping(uuid) },
    )
}

/// The pings that have not been given up.
pub open spec fn still_waiting(waiting: Map<u128, PingEntry>, now: Instant, ping_timeout: Duration) -> Map<
    u128,
    PingEntry,
> {
    Map::new(
        |uuid: u128| waiting.contains_key(uuid) && is_waiting(waiting[uuid], now, ping_timeout),
        |uuid: u128| waiting[uuid],
    )
}

/// A ping is given up after a time.
pub open spec fn is_waiting(entry: PingEntry, now: Instant, ping_timeout: Duration) -> bool {
    time_since(now, entry.sent_at) <= ping_timeout
}

/// The control interface of one node.
pub struct Uapi {
    pub gc_interval: Duration,
    pub ping_timeout: Duration,
    /// The pings that have not been answered yet.
    pub ping: HashMap<u128, PingEntry>,
}

impl Uapi {
    /// The control interface with the usual timers.
    pub fn new() -> (uapi: Uapi)
        ensures
            uapi.gc_interval == 30 * SECOND,
            uapi.ping_timeout == 60 * SECOND,
            uapi.ping@ == Map::<u128, PingEntry>::empty(),
    {
        Uapi::new_with_parameters(30 * SECOND, 60 * SECOND)
    }

    /// The control interface. No ping is under way.
    pub fn new_with_parameters(gc_interval: Duration, ping_timeout: Duration) -> (uapi: Uapi)
        ensures
            uapi.gc_interval == gc_interval,
            uapi.ping_timeout == ping_timeout,
            uapi.ping@ == Map::<u128, PingEntry>::empty(),
    {
        Uapi { gc_interval, ping_timeout, ping: HashMap::new() }
    }

    /// Takes a packet; without one, the control interface ends. A ping is answered, and the answer to
    /// a ping goes to the client that asked for it, once.
    pub fn handle_packet(&mut self, packet: Option<(NodeId, UapiPayload)>) -> (action: UapiAction)
        ensures
            match packet {
                None => action == UapiAction::Stop,
                Some((src, UapiPayload::Ping(uuid))) => action == (UapiAction::Send {
                    dst: src,
                    payload: UapiPayload::Pong(uuid),
                }),
                Some((_, UapiPayload::Pong(uuid))) => match client_of(old(self).ping@, uuid) {
                    Some(client) => action == (UapiAction::Reply {
                        client,
                        response: CryonetUapi::Pong,
                    }),
                    None => action == UapiAction::Ignore,
                },
            },
            final(self).ping@ == match packet {
                Some((_, UapiPayload::Pong(uuid))) => old(self).ping@.remove(uuid),
                _ => old(self).ping@,
            },
            (final(self).ping@, action) == on_packet(old(self).ping@, packet),
            final(self).gc_interval == old(self).gc_interval,
            final(self).ping_timeout == old(self).ping_timeout,
    {
        match packet {
            None => UapiAction::Stop,
            Some((src, UapiPayload::Ping(uuid))) => UapiAction::Send {
                dst: src,
                payload: UapiPayload::Pong(uuid),
            },
            Some((_, UapiPayload::Pong(uuid))) => match self.ping.remove(&uuid) {
                Some(entry) => UapiAction::Reply {
                    client: entry.client,
                    response: CryonetUapi::Pong,
                },
                None => UapiAction::Ignore,
            },
        }
    }

    /// Sends a ping with the identifier `uuid` on behalf of a client.
    pub fn ping_with(&mut self, uuid: u128, dst: NodeId, client: Vec<u8>, now: Instant) -> (action:
        UapiAction)
        ensures
            action == (UapiAction::Send { dst, payload: UapiPayload::Ping(uuid) }),
            (final(self).ping@, action) == on_ping(old(self).ping@, uuid, dst, client, now),
            final(self).ping@ == old(self).ping@.insert(
                uuid,
                PingEntry { client, sent_at: now },
            ),
            final(self).gc_interval == old(self).gc_interval,
            final(self).ping_timeout == old(self).ping_timeout,
    {
        self.ping.insert(uuid, PingEntry { client, sent_at: now });
        UapiAction::Send { dst, payload: UapiPayload::Ping(uuid) }
    }

    /// Answers what a client has asked. Only a ping has to wait for its answer; what is an answer
    /// itself is ignored.
    pub fn dispatch_message(
        &mut self,
        cmd: CryonetUapi,
        client: Vec<u8>,
        mesh: &Mesh,
        igp: &Igp,
        now: Instant,
    ) -> (action: UapiAction)
        ensures
            match cmd {
                CryonetUapi::GetLinks => action matches UapiAction::Reply {
                    client: to,
                    response: CryonetUapi::GetLinksResponse(links),
                } && to == client && links@.no_duplicates() && links@.to_set() == mesh@.links,
                CryonetUapi::GetRoutes => action matches UapiAction::Reply {
                    client: to,
                    response: CryonetUapi::GetRoutesResponse(routes),
                } && to == client && routes@ == mesh@.routes,
                CryonetUapi::GetIgpRoutes => action matches UapiAction::Reply {
                    client: to,
                    response: CryonetUapi::GetIgpRoutesResponse(routes),
                } && to == client && routes@ == Seq::new(
                    igp@.routes.len(),
                    |i: int| report_of(igp@.routes[i], now),
                ),
                CryonetUapi::GetFullMeshPeers => action == (UapiAction::ReplyPeers { client }),
                CryonetUapi::Ping(dst) => action matches UapiAction::Send {
                    dst: to,
                    payload: UapiPayload::Ping(uuid),
                } && to == dst && is_random_uuid(uuid) && final(self).ping@
                    == old(self).ping@.insert(uuid, PingEntry { client, sent_at: now }),
                _ => action == UapiAction::Ignore,
            },
            !(cmd is Ping) ==> final(self).ping@ == old(self).ping@,
            final(self).gc_interval == old(self).gc_interval,
            final(self).ping_timeout == old(self).ping_timeout,
    {
        match cmd {
            CryonetUapi::GetLinks => UapiAction::Reply {
                client,
                response: CryonetUapi::GetLinksResponse(mesh.get_links()),
            },
            CryonetUapi::GetRoutes => UapiAction::Reply {
                client,
                response: CryonetUapi::GetRoutesResponse(mesh.get_routes()),
            },
            CryonetUapi::GetIgpRoutes => UapiAction::Reply {
                client,
                response: CryonetUapi::GetIgpRoutesResponse(report_routes(&igp.get_routes(), now)),
            },
            CryonetUapi::GetFullMeshPeers => UapiAction::ReplyPeers { client },
            CryonetUapi::Ping(dst) => {
                let uuid: u128 = new_uuid();
                self.ping_with(uuid, dst, client, now)
            },
            _ => UapiAction::Ignore,
        }
    }

    /// Gives up the pings that have not been answered in time.
    pub fn gc(&mut self, now: Instant)
        ensures
            final(self).ping@ == still_waiting(old(self).ping@, now, old(self).ping_timeout),
            final(self).ping@ == Map::new(
                |uuid: u128|
                    old(self).ping@.contains_key(uuid) && is_waiting(
                        old(self).ping@[uuid],
                        now,
                        old(self).ping_timeout,
                    ),
                |uuid: u128| old(self).ping@[uuid],
            ),
            final(self).gc_interval == old(self).gc_interval,
            final(self).ping_timeout == old(self).ping_timeout,
    {
        let keys = ping_keys(&self.ping);
        let ghost before = self.ping@;
        let ghost timeout = self.ping_timeout;
        let mut i: usize = 0;
        while i < keys.len()
            invariant
                i <= keys.len(),
                keys@.no_duplicates(),
                keys@.to_set() == before.dom(),
                self.ping_timeout == timeout,
                self.gc_interval == old(self).gc_interval,
                self.ping_timeout == old(self).ping_timeout,
                forall|k: u128| #[trigger]
                    self.ping@.contains_key(k) <==> before.contains_key(k) && (is_waiting(
                        before[k],
                        now,
                        timeout,
                    ) || !keys@.take(i as int).contains(k)),
                forall|k: u128| #[trigger]
                    self.ping@.contains_key(k) ==> self.ping@[k] == before[k],
            decreases keys.len() - i,
        {
            let key: u128 = keys[i];
            let ghost done = keys@.take(i as int);
            let ghost next = keys@.take(i + 1);
            proof {
                assert(next =~= done.push(key));
                assert(!done.contains(key));
                assert forall|k: u128| next.contains(k) <==> done.contains(k) || k == key by {
                    if done.contains(k) {
                        let j = choose|j: int| 0 <= j < done.len() && done[j] == k;
                        assert(next[j] == k);
                    }
                    assert(next[i as int] == key);
                }
            }
            let gone = match self.ping.get(&key) {
                Some(entry) => elapsed(now, entry.sent_at) > self.ping_timeout,
                None => false,
            };
            if gone {
                self.ping.remove(&key);
            }
            i += 1;
        }
        proof {
            assert(keys@.take(keys.len() as int) =~= keys@);
            assert forall|k: u128| before.contains_key(k) implies keys@.contains(k) by {
                assert(keys@.to_set().contains(k));
            }
            assert(self.ping@ =~= Map::new(
                |uuid: u128|
                    before.contains_key(uuid) && is_waiting(before[uuid], now, timeout),
                |uuid: u128| before[uuid],
            ));
        }
    }
}

/// The identifiers of the pings, each once, in no particular order.
fn ping_keys(m: &HashMap<u128, PingEntry>) -> (keys: Vec<u128>)
    ensures
        keys@.no_duplicates(),
        keys@.to_set() == m@.dom(),
{
    crate::tables::map_keys(m)
}

/// A ping that has been sent on behalf of a client is answered to that client, once.
pub proof fn lemma_ping_answered_once(
    waiting: Map<u128, PingEntry>,
    uuid: u128,
    client: Vec<u8>,
    now: Instant,
)
    ensures
        client_of(waiting.insert(uuid, PingEntry { client, sent_at: now }), uuid) == Some(client),
        client_of(
            waiting.insert(uuid, PingEntry { client, sent_at: now }).remove(uuid),
            uuid,
        ) is None,
{
}

/// What is left until a deadline is told in whole milliseconds, never more than there is; once it has
/// passed, how long ago that was, with a minus sign.
pub proof fn lemma_remaining_time(timeout: Instant, now: Instant)
    ensures
        timeout >= now ==> 0 <= timeout - now - remaining_ms(timeout, now) * 1_000_000 < 1_000_000,
        timeout < now ==> 0 <= now - timeout + remaining_ms(timeout, now) * 1_000_000 < 1_000_000,
        timeout >= now ==> remaining_ms(timeout, now) >= 0,
        timeout < now ==> remaining_ms(timeout, now) <= 0,
{
}

/// A route is told with its own numbers.
pub proof fn lemma_route_reported(route: Route, now: Instant)
    ensures
        report_of(route, now).seq == route.metric.seq.0,
        report_of(route, now).metric == route.metric.metric,
        report_of(route, now).computed_metric == route.computed_metric,
        report_of(route, now).dst == route.dst,
        report_of(route, now).from == route.from,
        report_of(route, now).selected == route.selected,
        report_of(route, now).timeout_remaining_ms == remaining_ms(route.timeout, now),
{
}

/// A ping is waited for until more than its timeout has passed.
pub proof fn lemma_ping_given_up(entry: PingEntry, now: Instant, ping_timeout: Duration)
    requires
        entry.sent_at <= now,
    ensures
        is_waiting(entry, now, ping_timeout) <==> now - entry.sent_at <= ping_timeout,
{
}

/// The client that is answered is the one that asked; without a ping there is none.
pub proof fn lemma_right_client(waiting: Map<u128, PingEntry>, uuid: u128)
    ensures
        waiting.contains_key(uuid) ==> client_of(waiting, uuid) == Some(waiting[uuid].client),
        !waiting.contains_key(uuid) ==> client_of(waiting, uuid) is None,
{
}

/// A ping comes back to the client that asked for it: the node that is pinged answers the one that
/// pings it, and that answer is told to the client. No client is told of it twice, and no other ping is
/// affected.
pub proof fn lemma_ping_comes_back(
    here: Map<u128, PingEntry>,
    there: Map<u128, PingEntry>,
    a: NodeId,
    b: NodeId,
    uuid: u128,
    client: Vec<u8>,
    now: Instant,
)
    ensures
        ({
            let (waiting, sent) = on_ping(here, uuid, b, client, now);
            let ping = sent->Send_payload;
            let (unmoved, back) = on_packet(there, Some((a, ping)));
            let pong = back->Send_payload;
            let (after, told) = on_packet(waiting, Some((b, pong)));
            &&& sent is Send && sent->dst == b
            &&& back is Send && back->dst == a && unmoved == there
            &&& told == (UapiAction::Reply { client, response: CryonetUapi::Pong })
            &&& on_packet(after, Some((b, pong))) == (after, UapiAction::Ignore)
            &&& forall|other: u128|
                other != uuid ==> (#[trigger] after.contains_key(other) <==> here.contains_key(other))
                    && (here.contains_key(other) ==> after[other] == here[other])
        }),
{
    let (waiting, sent) = on_ping(here, uuid, b, client, now);
    let (after, told) = on_packet(waiting, Some((b, UapiPayload::Pong(uuid))));
    assert(after.remove(uuid) =~= after);
}

/// Without a packet the control interface ends, and what is waited for stays.
pub proof fn lemma_no_packet(waiting: Map<u128, PingEntry>)
    ensures
        on_packet(waiting, None) == (waiting, UapiAction::Stop),
{
}

/// A ping is waited for from the moment it is sent until its time has passed, and is then forgotten.
pub proof fn lemma_pings_given_up(
    waiting: Map<u128, PingEntry>,
    uuid: u128,
    dst: NodeId,
    client: Vec<u8>,
    sent: Instant,
    now: Instant,
    ping_timeout: Duration,
)
    requires
        sent <= now,
    ensures
        ({
            let after = still_waiting(
                on_ping(waiting, uuid, dst, client, sent).0,
                now,
                ping_timeout,
            );
            &&& after.contains_key(uuid) <==> now - sent <= ping_timeout
            &&& after.contains_key(uuid) ==> after[uuid].client == client && after[uuid].sent_at == sent
            &&& forall|other: u128|
                other != uuid && #[trigger] after.contains_key(other) ==> waiting.contains_key(other)
                    && after[other] == waiting[other]
            &&& forall|other: u128|
                other != uuid && #[trigger] waiting.contains_key(other) && (now
                    < waiting[other].sent_at || now - waiting[other].sent_at <= ping_timeout)
                    ==> after.contains_key(other)
        }),
{
}

} // verus!
