//! Data and mathematical model of the routing protocol.

use vstd::prelude::*;
use crate::packet::{time_since, Duration, Instant, NodeId, MILLISECOND};
use crate::tables::{live, lookup, Expires};
use crate::seq::{is_feasible, next_seq, seq_older, seq_newer, SeqMetric, SeqNo, UNREACHABLE};

verus! {

/// What the nodes tell each other.
#[derive(Clone, Copy, PartialEq, Eq, Structural, Debug)]
pub enum IgpPayload {
    /// Asks a neighbour for a [`IgpPayload::HelloReply`] with the same number.
    Hello { seq: SeqNo },
    /// Answers a [`IgpPayload::Hello`].
    HelloReply { seq: SeqNo },
    /// Asks for the route to `dst`; sent when a route is about to expire.
    RouteRequest { dst: NodeId },
    /// Asks for all selected routes.
    RouteDump,
    /// Asks for a route to `dst` with a sequence number that is not older than `seq`.
    SequenceRequest { seq: SeqNo, dst: NodeId, ttl: u16 },
    /// Announces, or with an unreachable metric retracts, a route to `dst`.
    Update { metric: SeqMetric, dst: NodeId },
}

/// What is known of the link to a neighbour.
#[derive(Clone, Copy, PartialEq, Eq, Structural, Debug)]
pub struct Cost {
    /// The number of the last hello sent.
    pub seq: SeqNo,
    /// When the last hello was sent.
    pub start: Instant,
    /// The measured cost, [`UNREACHABLE`] before the first reply.
    pub cost: u32,
}

/// The best metric followed so far towards a destination.
#[derive(Clone, Copy, PartialEq, Eq, Structural, Debug)]
pub struct Source {
    pub metric: SeqMetric,
    pub expiry: Instant,
}

/// A sequence number that has been asked for and not been seen yet.
#[derive(Clone, Copy, PartialEq, Eq, Structural, Debug)]
pub struct RouteRequest {
    pub seq: SeqNo,
    pub expiry: Instant,
}

impl Expires for Source {
    open spec fn deadline(&self) -> Instant {
        self.expiry
    }

    fn expiry(&self) -> (result: Instant) {
        self.expiry
    }
}

impl Expires for RouteRequest {
    open spec fn deadline(&self) -> Instant {
        self.expiry
    }

    fn expiry(&self) -> (result: Instant) {
        self.expiry
    }
}

/// A route to `dst` that the neighbour `from` announced.
#[derive(Clone, Copy, PartialEq, Eq, Structural, Debug)]
pub struct Route {
    /// What the neighbour announced.
    pub metric: SeqMetric,
    /// The announced metric plus the cost of the link to the neighbour.
    pub computed_metric: u32,
    pub dst: NodeId,
    pub from: NodeId,
    pub timeout: Instant,
    pub selected: bool,
}

/// What the protocol asks the mesh to do.
#[derive(Clone, Copy, PartialEq, Eq, Structural, Debug)]
pub enum IgpAction {
    /// Send to one neighbour.
    SendLink { link: NodeId, payload: IgpPayload },
    /// Send to every neighbour.
    Broadcast { payload: IgpPayload },
    /// Forward packets for `dst` to `next_hop`.
    SetRoute { dst: NodeId, next_hop: NodeId },
    /// Stop forwarding packets for `dst`.
    RemoveRoute { dst: NodeId },
    /// End the protocol: the mesh is gone.
    Stop,
}

/// Timers and limits.
#[derive(Clone, Copy, PartialEq, Eq, Structural, Debug)]
pub struct IgpParameters {
    pub hello_interval: Duration,
    pub dump_interval: Duration,
    pub gc_interval: Duration,
    pub route_timeout: Duration,
    pub source_timeout: Duration,
    pub seqno_request_timeout: Duration,
    pub diameter: u16,
    pub update_threshold: u32,
}

/// What becomes of one destination when routes are selected.
#[derive(Clone, Copy, PartialEq, Eq, Structural, Debug)]
pub enum Decision {
    /// There is no route to decide on.
    Idle,
    /// The destination is unreachable and was never followed.
    Withdraw,
    /// The destination is reachable and is followed for the first time.
    Adopt,
    /// No route may be followed; a newer one has been asked for already.
    Suppress,
    /// No route may be followed; ask for one with this sequence number.
    Ask { seq: SeqNo },
    /// The best route is followed; `announce` when its metric moved far enough.
    Select { announce: bool },
}

/// The state of the protocol.
#[verifier::ext_equal]
pub struct IgpView {
    pub id: NodeId,
    pub params: IgpParameters,
    pub costs: Map<NodeId, Cost>,
    pub sources: Map<NodeId, Source>,
    pub requests: Map<NodeId, RouteRequest>,
    pub routes: Seq<Route>,
}

/// The announcement of a route: its sequence number, and the metric as seen from here.
pub open spec fn update_of(route: Route) -> IgpPayload {
    IgpPayload::Update {
        metric: SeqMetric { seq: route.metric.seq, metric: route.computed_metric },
        dst: route.dst,
    }
}

/// The retraction of a destination.
pub open spec fn retraction_of(dst: NodeId) -> IgpPayload {
    IgpPayload::Update { metric: SeqMetric { seq: SeqNo(0), metric: UNREACHABLE }, dst }
}

/// `candidate` is to be preferred to `best`: it has the newer sequence number, or the same one and
/// the lower computed metric.
pub open spec fn is_preferred(candidate: Route, best: Route) -> bool {
    seq_older(best.metric.seq, candidate.metric.seq) || (best.metric.seq == candidate.metric.seq
        && candidate.computed_metric < best.computed_metric)
}

/// The index of the best of the first `n` routes where only those to `dst` compete: walking through
/// them in order, each that is preferred to the best one so far takes its place.
pub open spec fn best_route(routes: Seq<Route>, dst: NodeId, n: int) -> Option<int>
    decreases n,
{
    if n <= 0 {
        None
    } else {
        let before = best_route(routes, dst, n - 1);
        if routes[n - 1].dst != dst {
            before
        } else {
            match before {
                None => Some(n - 1),
                Some(b) => if is_preferred(routes[n - 1], routes[b]) {
                    Some(n - 1)
                } else {
                    before
                },
            }
        }
    }
}

/// The index of the first of the first `n` routes that leads to `dst` over `from`.
pub open spec fn route_index(routes: Seq<Route>, dst: NodeId, from: NodeId, n: int) -> Option<int>
    decreases n,
{
    if n <= 0 {
        None
    } else {
        match route_index(routes, dst, from, n - 1) {
            Some(i) => Some(i),
            None => if routes[n - 1].dst == dst && routes[n - 1].from == from {
                Some(n - 1)
            } else {
                None
            },
        }
    }
}

/// The index of the first of the first `n` routes that leads to `dst` and is selected.
pub open spec fn selected_index(routes: Seq<Route>, dst: NodeId, n: int) -> Option<int>
    decreases n,
{
    if n <= 0 {
        None
    } else {
        match selected_index(routes, dst, n - 1) {
            Some(i) => Some(i),
            None => if routes[n - 1].dst == dst && routes[n - 1].selected {
                Some(n - 1)
            } else {
                None
            },
        }
    }
}

/// Whether a request for `dst` that came from `src` may be handed on along `route`. With a bound,
/// only along a route that is feasible against it.
pub open spec fn may_hand_on(
    route: Route,
    dst: NodeId,
    src: NodeId,
    bound: Option<SeqMetric>,
) -> bool {
    &&& route.dst == dst
    &&& route.from != src
    &&& bound matches Some(b) ==> is_feasible(route.metric, b)
}

/// The index of the first of the first `n` routes along which a request may be handed on and that
/// no other such route undercuts in its announced metric.
pub open spec fn hand_on_index(
    routes: Seq<Route>,
    dst: NodeId,
    src: NodeId,
    bound: Option<SeqMetric>,
    n: int,
) -> Option<int>
    decreases n,
{
    if n <= 0 {
        None
    } else {
        let before = hand_on_index(routes, dst, src, bound, n - 1);
        if !may_hand_on(routes[n - 1], dst, src, bound) {
            before
        } else {
            match before {
                None => Some(n - 1),
                Some(b) => if routes[n - 1].metric.metric < routes[b].metric.metric {
                    Some(n - 1)
                } else {
                    before
                },
            }
        }
    }
}

/// The destinations of the routes, each once, in the order in which they first occur.
pub open spec fn destinations(routes: Seq<Route>) -> Seq<NodeId>
    decreases routes.len(),
{
    if routes.len() == 0 {
        Seq::empty()
    } else {
        let before = destinations(routes.drop_last());
        if before.contains(routes.last().dst) {
            before
        } else {
            before.push(routes.last().dst)
        }
    }
}

/// `a + b`, and [`UNREACHABLE`] where that does not fit.
pub open spec fn add_metric(a: u32, b: u32) -> u32 {
    if a + b > UNREACHABLE {
        UNREACHABLE
    } else {
        (a + b) as u32
    }
}

/// How far two metrics lie apart.
pub open spec fn metric_distance(a: u32, b: u32) -> int {
    if a >= b {
        a - b
    } else {
        b - a
    }
}

/// A request for `seq` is still pending: this number or a newer one has been asked for.
pub open spec fn is_pending(request: Option<RouteRequest>, seq: SeqNo, now: Instant) -> bool {
    request matches Some(r) && !seq_newer(seq, r.seq) && now < r.expiry
}

/// What becomes of a destination whose best route is `best`, where `followed` is the metric that was
/// followed so far.
pub open spec fn decide(
    best: Route,
    followed: Option<SeqMetric>,
    request: Option<RouteRequest>,
    now: Instant,
    update_threshold: u32,
) -> Decision {
    match followed {
        None => if best.metric.metric == UNREACHABLE {
            Decision::Withdraw
        } else {
            Decision::Adopt
        },
        Some(bound) => if best.metric.metric == UNREACHABLE || !is_feasible(best.metric, bound) {
            if is_pending(request, next_seq(bound.seq), now) {
                Decision::Suppress
            } else {
                Decision::Ask { seq: next_seq(bound.seq) }
            }
        } else {
            Decision::Select {
                announce: metric_distance(best.metric.metric, bound.metric) > update_threshold,
            }
        },
    }
}

/// What is to be done about a destination.
pub open spec fn decision_actions(
    decision: Decision,
    best: Route,
    diameter: u16,
) -> Seq<IgpAction> {
    let dst = best.dst;
    match decision {
        Decision::Idle => Seq::empty(),
        Decision::Withdraw => seq![IgpAction::RemoveRoute { dst }],
        Decision::Adopt => seq![
            IgpAction::SetRoute { dst, next_hop: best.from },
            IgpAction::Broadcast { payload: update_of(best) },
        ],
        Decision::Suppress => seq![IgpAction::RemoveRoute { dst }],
        Decision::Ask { seq } => seq![
            IgpAction::RemoveRoute { dst },
            IgpAction::Broadcast {
                payload: IgpPayload::SequenceRequest { seq, dst, ttl: diameter },
            },
        ],
        Decision::Select { announce } => if announce {
            seq![
                IgpAction::SetRoute { dst, next_hop: best.from },
                IgpAction::Broadcast { payload: update_of(best) },
            ]
        } else {
            seq![IgpAction::SetRoute { dst, next_hop: best.from }]
        },
    }
}

/// The round-trip time of a hello, in milliseconds.
pub open spec fn round_trip(start: Instant, now: Instant) -> int {
    time_since(now, start) / (MILLISECOND as int)
}

/// The round-trip time of a hello plus the fixed cost of a hop.
pub open spec fn hop_cost(start: Instant, now: Instant) -> int {
    round_trip(start, now) + 100
}

/// The cost of a link after a measurement: the first one is taken as it is, a later one is averaged
/// in with a weight of 164 in 1000. Costs are kept modulo `2^32`.
pub open spec fn averaged_cost(cost: u32, measured: int) -> u32 {
    if cost == UNREACHABLE {
        (measured % 0x1_0000_0000) as u32
    } else {
        ((836 * cost + 164 * measured) / 1000 % 0x1_0000_0000) as u32
    }
}

/// A route is removed when it has timed out as unreachable.
pub open spec fn is_dead(route: Route, now: Instant) -> bool {
    route.timeout <= now && route.metric.metric == UNREACHABLE
}

/// A route that has timed out becomes unreachable, and is removed when it times out again.
pub open spec fn expired(route: Route, now: Instant, route_timeout: Duration) -> Route {
    if route.timeout <= now {
        Route {
            metric: SeqMetric { seq: route.metric.seq, metric: UNREACHABLE },
            computed_metric: UNREACHABLE,
            timeout: (now + route_timeout) as Instant,
            selected: false,
            ..route
        }
    } else {
        route
    }
}

/// The routes that remain when time has passed.
pub open spec fn surviving(
    routes: Seq<Route>,
    now: Instant,
    route_timeout: Duration,
) -> Seq<Route>
    decreases routes.len(),
{
    if routes.len() == 0 {
        Seq::empty()
    } else {
        let before = surviving(routes.drop_last(), now, route_timeout);
        if is_dead(routes.last(), now) {
            before
        } else {
            before.push(expired(routes.last(), now, route_timeout))
        }
    }
}

/// For each route that has just timed out, its neighbour is asked for it again.
pub open spec fn expiry_actions(routes: Seq<Route>, now: Instant) -> Seq<IgpAction>
    decreases routes.len(),
{
    if routes.len() == 0 {
        Seq::empty()
    } else {
        let before = expiry_actions(routes.drop_last(), now);
        let route = routes.last();
        if route.timeout <= now && route.metric.metric != UNREACHABLE {
            before.push(
                IgpAction::SendLink {
                    link: route.from,
                    payload: IgpPayload::RouteRequest { dst: route.dst },
                },
            )
        } else {
            before
        }
    }
}

/// The announcements of all selected routes, to one neighbour or to all.
pub open spec fn dump_actions(routes: Seq<Route>, neigh: Option<NodeId>) -> Seq<IgpAction>
    decreases routes.len(),
{
    if routes.len() == 0 {
        Seq::empty()
    } else {
        let before = dump_actions(routes.drop_last(), neigh);
        if routes.last().selected {
            before.push(
                match neigh {
                    Some(link) => IgpAction::SendLink { link, payload: update_of(routes.last()) },
                    None => IgpAction::Broadcast { payload: update_of(routes.last()) },
                },
            )
        } else {
            before
        }
    }
}

/// The forwarding entries of all selected routes.
pub open spec fn export_actions(routes: Seq<Route>) -> Seq<IgpAction>
    decreases routes.len(),
{
    if routes.len() == 0 {
        Seq::empty()
    } else {
        let before = export_actions(routes.drop_last());
        let route = routes.last();
        if route.selected {
            before.push(IgpAction::SetRoute { dst: route.dst, next_hop: route.from })
        } else {
            before
        }
    }
}

/// The state of a link after a hello has been sent over it.
pub open spec fn cost_after_hello(cost: Option<Cost>, now: Instant) -> Cost {
    match cost {
        Some(c) => Cost { seq: next_seq(c.seq), start: now, cost: c.cost },
        None => Cost { seq: SeqNo(0), start: now, cost: UNREACHABLE },
    }
}

/// The state of the links after a hello over each of `links`, in this order.
pub open spec fn costs_after_hello(
    costs: Map<NodeId, Cost>,
    links: Seq<NodeId>,
    now: Instant,
) -> Map<NodeId, Cost>
    decreases links.len(),
{
    if links.len() == 0 {
        costs
    } else {
        let before = costs_after_hello(costs, links.drop_last(), now);
        before.insert(links.last(), cost_after_hello(lookup(before, links.last()), now))
    }
}

/// The hellos sent over each of `links`, in this order.
pub open spec fn hello_actions(
    costs: Map<NodeId, Cost>,
    links: Seq<NodeId>,
    now: Instant,
) -> Seq<IgpAction>
    decreases links.len(),
{
    if links.len() == 0 {
        Seq::empty()
    } else {
        let seq = costs_after_hello(costs, links, now)[links.last()].seq;
        hello_actions(costs, links.drop_last(), now).push(
            IgpAction::SendLink { link: links.last(), payload: IgpPayload::Hello { seq } },
        )
    }
}

impl IgpView {
    /// The deadlines that are set at `now` can be expressed.
    pub open spec fn clock_fits(self, now: Instant) -> bool {
        &&& now + self.params.route_timeout <= u64::MAX
        &&& now + self.params.source_timeout <= u64::MAX
        &&& now + self.params.seqno_request_timeout <= u64::MAX
    }

    /// The index of the best route to `dst`.
    pub open spec fn best(self, dst: NodeId) -> Option<int> {
        best_route(self.routes, dst, self.routes.len() as int)
    }

    /// The metric followed so far towards `dst`.
    pub open spec fn followed(self, dst: NodeId) -> Option<SeqMetric> {
        if self.sources.contains_key(dst) {
            Some(self.sources[dst].metric)
        } else {
            None
        }
    }

    /// What becomes of `dst`.
    pub open spec fn decision(self, dst: NodeId, now: Instant) -> Decision {
        match self.best(dst) {
            None => Decision::Idle,
            Some(b) => decide(
                self.routes[b],
                self.followed(dst),
                lookup(self.requests, dst),
                now,
                self.params.update_threshold,
            ),
        }
    }

    /// The sources once the destinations `done` have been decided.
    pub open spec fn sources_after(self, done: Seq<NodeId>, now: Instant) -> Map<NodeId, Source> {
        Map::new(
            |d: NodeId|
                self.sources.contains_key(d) || (done.contains(d) && self.decision(d, now) is Adopt),
            |d: NodeId|
                if done.contains(d) && (self.decision(d, now) is Adopt || self.decision(
                    d,
                    now,
                ) is Select) {
                    Source {
                        metric: self.routes[self.best(d)->0].metric,
                        expiry: (now + self.params.source_timeout) as Instant,
                    }
                } else {
                    self.sources[d]
                },
        )
    }

    /// The pending requests once the destinations `done` have been decided.
    pub open spec fn requests_after(self, done: Seq<NodeId>, now: Instant) -> Map<
        NodeId,
        RouteRequest,
    > {
        Map::new(
            |d: NodeId|
                self.requests.contains_key(d) || (done.contains(d) && self.decision(d, now) is Ask),
            |d: NodeId|
                if done.contains(d) && self.decision(d, now) is Ask {
                    RouteRequest {
                        seq: self.decision(d, now)->seq,
                        expiry: (now + self.params.seqno_request_timeout) as Instant,
                    }
                } else {
                    self.requests[d]
                },
        )
    }

    /// Route `i` is selected once the destinations `done` have been decided.
    pub open spec fn chosen(self, done: Seq<NodeId>, now: Instant, i: int) -> bool {
        &&& done.contains(self.routes[i].dst)
        &&& self.best(self.routes[i].dst) == Some(i)
        &&& self.decision(self.routes[i].dst, now) is Select
    }

    /// What is done about the destinations `done`, one after the other.
    pub open spec fn actions_for(self, done: Seq<NodeId>, now: Instant) -> Seq<IgpAction>
        decreases done.len(),
    {
        if done.len() == 0 {
            Seq::empty()
        } else {
            let dst = done.last();
            self.actions_for(done.drop_last(), now) + match self.best(dst) {
                None => Seq::empty(),
                Some(b) => decision_actions(
                    self.decision(dst, now),
                    self.routes[b],
                    self.params.diameter,
                ),
            }
        }
    }

    /// The state after the routes have been selected anew.
    pub open spec fn settled(self, now: Instant) -> IgpView {
        let all = destinations(self.routes);
        IgpView {
            sources: self.sources_after(all, now),
            requests: self.requests_after(all, now),
            routes: Seq::new(
                self.routes.len(),
                |i: int| Route { selected: self.chosen(all, now, i), ..self.routes[i] },
            ),
            ..self
        }
    }

    /// What is done when the routes are selected anew.
    pub open spec fn settle_actions(self, now: Instant) -> Seq<IgpAction> {
        self.actions_for(destinations(self.routes), now)
    }

    /// The state after time has passed, before the routes are selected anew.
    pub open spec fn aged(self, now: Instant) -> IgpView {
        IgpView {
            sources: live(self.sources, now),
            requests: live(self.requests, now),
            routes: surviving(self.routes, now, self.params.route_timeout),
            ..self
        }
    }

    /// The routes with the route to this node itself added or renewed.
    pub open spec fn routes_with_self(self, now: Instant) -> Seq<Route> {
        let timeout = (now + self.params.route_timeout) as Instant;
        match route_index(self.routes, self.id, self.id, self.routes.len() as int) {
            Some(i) => self.routes.update(i, Route { timeout, ..self.routes[i] }),
            None => self.routes.push(
                Route {
                    metric: SeqMetric { seq: SeqNo(0), metric: 0 },
                    computed_metric: 0,
                    dst: self.id,
                    from: self.id,
                    timeout,
                    selected: true,
                },
            ),
        }
    }

    /// The state with this node itself as a destination added or renewed.
    pub open spec fn with_self(self, now: Instant) -> IgpView {
        IgpView {
            routes: self.routes_with_self(now),
            sources: self.sources.insert(
                self.id,
                Source {
                    metric: match lookup(self.sources, self.id) {
                        Some(s) => s.metric,
                        None => SeqMetric { seq: SeqNo(0), metric: 0 },
                    },
                    expiry: (now + self.params.source_timeout) as Instant,
                },
            ),
            ..self
        }
    }

    /// The state with the cost of the link to `node` applied to the routes over it.
    pub open spec fn with_link_cost(self, node: NodeId, cost: u32) -> IgpView {
        IgpView {
            routes: Seq::new(
                self.routes.len(),
                |i: int|
                    if self.routes[i].from == node {
                        Route {
                            computed_metric: add_metric(self.routes[i].metric.metric, cost),
                            ..self.routes[i]
                        }
                    } else {
                        self.routes[i]
                    },
            ),
            ..self
        }
    }

    /// There is a route over `node`.
    pub open spec fn uses_link(self, node: NodeId) -> bool {
        exists|i: int| 0 <= i < self.routes.len() && (#[trigger] self.routes[i]).from == node
    }

    /// Reaction to a changed link cost.
    pub open spec fn on_cost(self, node: NodeId, cost: u32, now: Instant) -> (
        IgpView,
        Seq<IgpAction>,
    ) {
        if self.uses_link(node) {
            let changed = self.with_link_cost(node, cost);
            (changed.settled(now), changed.settle_actions(now))
        } else {
            (self, Seq::empty())
        }
    }

    /// Reaction to the hello timer.
    pub open spec fn on_hello(self, links: Seq<NodeId>, now: Instant) -> (
        IgpView,
        Seq<IgpAction>,
    ) {
        (
            IgpView { costs: costs_after_hello(self.costs, links, now), ..self },
            hello_actions(self.costs, links, now),
        )
    }

    /// Reaction to the dump timer, and to the request of a neighbour for a dump.
    pub open spec fn on_dump(self, neigh: Option<NodeId>, now: Instant) -> (
        IgpView,
        Seq<IgpAction>,
    ) {
        let renewed = self.with_self(now);
        let after = renewed.settled(now);
        (after, renewed.settle_actions(now) + dump_actions(after.routes, neigh))
    }

    /// Reaction to the collection timer.
    pub open spec fn on_gc(self, now: Instant) -> (IgpView, Seq<IgpAction>) {
        let aged = self.aged(now);
        (aged.settled(now), expiry_actions(self.routes, now) + aged.settle_actions(now))
    }

    /// Reaction to the reply of a neighbour to a hello. A reply to anything but the last hello
    /// counts for nothing.
    pub open spec fn on_hello_reply(self, src: NodeId, seq: SeqNo, now: Instant) -> (
        IgpView,
        Seq<IgpAction>,
    ) {
        if !self.costs.contains_key(src) || self.costs[src].seq != seq {
            (self, Seq::empty())
        } else {
            let old_cost = self.costs[src];
            let cost = averaged_cost(old_cost.cost, hop_cost(old_cost.start, now));
            let measured = IgpView {
                costs: self.costs.insert(src, Cost { cost, ..old_cost }),
                ..self
            };
            let ask = if old_cost.cost == UNREACHABLE {
                seq![IgpAction::SendLink { link: src, payload: IgpPayload::RouteDump }]
            } else {
                Seq::empty()
            };
            if cost != old_cost.cost {
                let (after, actions) = measured.on_cost(src, cost, now);
                (after, ask + actions)
            } else {
                (measured, ask)
            }
        }
    }

    /// Reaction to a request for the route to `dst`.
    pub open spec fn on_route_request(self, dst: NodeId) -> (IgpView, Seq<IgpAction>) {
        (
            self,
            seq![
                IgpAction::Broadcast {
                    payload: match selected_index(self.routes, dst, self.routes.len() as int) {
                        Some(i) => update_of(self.routes[i]),
                        None => retraction_of(dst),
                    },
                },
            ],
        )
    }

    /// The neighbour to which a request for a newer sequence number is handed on.
    pub open spec fn request_next_hop(self, src: NodeId, dst: NodeId) -> Option<NodeId> {
        let n = self.routes.len() as int;
        match hand_on_index(self.routes, dst, src, Some(self.sources[dst].metric), n) {
            Some(i) => Some(self.routes[i].from),
            None => match hand_on_index(self.routes, dst, src, None, n) {
                Some(i) => Some(self.routes[i].from),
                None => None,
            },
        }
    }

    /// Reaction to a request for a newer sequence number.
    pub open spec fn on_sequence_request(
        self,
        src: NodeId,
        seq: SeqNo,
        dst: NodeId,
        ttl: u16,
        now: Instant,
    ) -> (IgpView, Seq<IgpAction>) {
        match selected_index(self.routes, dst, self.routes.len() as int) {
            None => (self, Seq::empty()),
            Some(i) => {
                let route = self.routes[i];
                if route.metric.metric == UNREACHABLE {
                    (self, Seq::empty())
                } else if !seq_newer(seq, route.metric.seq) {
                    (self, seq![IgpAction::Broadcast { payload: update_of(route) }])
                } else if dst == self.id {
                    let renewed = Route {
                        metric: SeqMetric {
                            seq: next_seq(route.metric.seq),
                            metric: route.metric.metric,
                        },
                        ..route
                    };
                    (
                        IgpView { routes: self.routes.update(i, renewed), ..self },
                        seq![IgpAction::Broadcast { payload: update_of(renewed) }],
                    )
                } else if ttl == 0 || !self.sources.contains_key(dst) || is_pending(
                    lookup(self.requests, dst),
                    seq,
                    now,
                ) {
                    (self, Seq::empty())
                } else {
                    (
                        IgpView {
                            requests: self.requests.insert(
                                dst,
                                RouteRequest {
                                    seq,
                                    expiry: (now + self.params.seqno_request_timeout) as Instant,
                                },
                            ),
                            ..self
                        },
                        match self.request_next_hop(src, dst) {
                            None => Seq::empty(),
                            Some(link) => seq![
                                IgpAction::SendLink {
                                    link,
                                    payload: IgpPayload::SequenceRequest {
                                        seq,
                                        dst,
                                        ttl: (ttl - 1) as u16,
                                    },
                                },
                            ],
                        },
                    )
                }
            },
        }
    }

    /// The metric of an announcement as seen from here.
    pub open spec fn metric_via(self, src: NodeId, metric: u32) -> u32 {
        if metric == UNREACHABLE {
            UNREACHABLE
        } else {
            match lookup(self.costs, src) {
                None => 0xffff_fffeu32,
                Some(cost) => add_metric(metric, cost.cost),
            }
        }
    }

    /// The routes after an announcement, or nothing where it is to be ignored.
    pub open spec fn routes_after_update(
        self,
        src: NodeId,
        metric: SeqMetric,
        dst: NodeId,
        now: Instant,
    ) -> Option<Seq<Route>> {
        let computed_metric = self.metric_via(src, metric.metric);
        let timeout = (now + self.params.route_timeout) as Instant;
        let source = lookup(self.sources, dst);
        match route_index(self.routes, dst, src, self.routes.len() as int) {
            None => if metric.metric == UNREACHABLE || (source matches Some(s) && !is_feasible(
                metric,
                s.metric,
            )) {
                None
            } else {
                Some(
                    self.routes.push(
                        Route { metric, computed_metric, dst, from: src, timeout, selected: false },
                    ),
                )
            },
            Some(i) => {
                let route = self.routes[i];
                match source {
                    None => None,
                    Some(s) => if route.selected && !is_feasible(metric, s.metric) {
                        None
                    } else {
                        let new_metric = if metric.metric == UNREACHABLE {
                            SeqMetric { seq: route.metric.seq, metric: UNREACHABLE }
                        } else {
                            metric
                        };
                        Some(
                            self.routes.update(
                                i,
                                Route {
                                    metric: new_metric,
                                    computed_metric,
                                    timeout: if metric.metric == UNREACHABLE {
                                        route.timeout
                                    } else {
                                        timeout
                                    },
                                    selected: route.selected && is_feasible(new_metric, s.metric),
                                    ..route
                                },
                            ),
                        )
                    },
                }
            },
        }
    }

    /// Reaction to an announcement.
    pub open spec fn on_update(
        self,
        src: NodeId,
        metric: SeqMetric,
        dst: NodeId,
        now: Instant,
    ) -> (IgpView, Seq<IgpAction>) {
        if dst == self.id {
            (self, Seq::empty())
        } else {
            match self.routes_after_update(src, metric, dst, now) {
                None => (self, Seq::empty()),
                Some(routes) => {
                    let answered = self.requests.contains_key(dst) && !seq_older(
                        metric.seq,
                        self.requests[dst].seq,
                    );
                    let i = route_index(routes, dst, src, routes.len() as int)->0;
                    let updated = IgpView {
                        routes,
                        requests: if answered {
                            self.requests.remove(dst)
                        } else {
                            self.requests
                        },
                        ..self
                    };
                    let triggered = if answered {
                        seq![IgpAction::Broadcast { payload: update_of(routes[i]) }]
                    } else {
                        Seq::empty()
                    };
                    (updated.settled(now), triggered + updated.settle_actions(now))
                },
            }
        }
    }

    /// Reaction to a packet from `src`.
    pub open spec fn on_packet(self, src: NodeId, payload: IgpPayload, now: Instant) -> (
        IgpView,
        Seq<IgpAction>,
    ) {
        match payload {
            IgpPayload::Hello { seq } => (
                self,
                seq![IgpAction::SendLink { link: src, payload: IgpPayload::HelloReply { seq } }],
            ),
            IgpPayload::HelloReply { seq } => self.on_hello_reply(src, seq, now),
            IgpPayload::RouteRequest { dst } => self.on_route_request(dst),
            IgpPayload::RouteDump => self.on_dump(Some(src), now),
            IgpPayload::SequenceRequest { seq, dst, ttl } => self.on_sequence_request(
                src,
                seq,
                dst,
                ttl,
                now,
            ),
            IgpPayload::Update { metric, dst } => self.on_update(src, metric, dst, now),
        }
    }

    /// Reaction to the loss of the link to `node`.
    pub open spec fn on_link_down(self, node: NodeId, now: Instant) -> (IgpView, Seq<IgpAction>) {
        let lost = IgpView {
            costs: if self.costs.contains_key(node) {
                self.costs.insert(node, Cost { cost: UNREACHABLE, ..self.costs[node] })
            } else {
                self.costs
            },
            ..self
        };
        lost.on_cost(node, UNREACHABLE, now)
    }

    /// There is at most one route to a destination over a neighbour, at most one of the routes to a
    /// destination is selected, a selected route leads to a destination that is reachable and has
    /// been followed, and this node is no destination over a neighbour.
    pub open spec fn inv(self) -> bool {
        &&& forall|i: int, j: int|
            0 <= i < j < self.routes.len() ==> (#[trigger] self.routes[i]).dst != (
            #[trigger] self.routes[j]).dst || self.routes[i].from != self.routes[j].from
        &&& forall|i: int, j: int|
            0 <= i < j < self.routes.len() && (#[trigger] self.routes[i]).selected && (
            #[trigger] self.routes[j]).selected ==> self.routes[i].dst != self.routes[j].dst
        &&& forall|i: int|
            0 <= i < self.routes.len() && (#[trigger] self.routes[i]).selected
                ==> self.routes[i].metric.metric != UNREACHABLE && self.sources.contains_key(
                self.routes[i].dst,
            )
        &&& forall|i: int|
            0 <= i < self.routes.len() && (#[trigger] self.routes[i]).dst == self.id
                ==> self.routes[i].from == self.id
    }
}

} // verus!
