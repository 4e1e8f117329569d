//! The lean form of the routing protocol: followed metrics never expire, routes are announced
//! without being asked for, and a destination without a route is not retracted.
//!
//! A route that had been asked for is announced before the routes are selected anew, and they are
//! selected only if that announcement went out. So a reaction may name an announcement, and what came
//! of sending it is to be reported with [`IGPState::announced`].

use vstd::prelude::*;
use std::collections::HashMap;
use crate::mesh::LinkError;
use crate::packet::{elapsed, Duration, Instant, NodeId, MILLISECOND};
use crate::seq::{is_feasible, next_seq, seq_newer, seq_older, SeqMetric, SeqNo, UNREACHABLE};
use crate::tables::{drop_expired, live, lookup};
use super::{
    average_cost, find_best, find_hand_on, find_route, find_selected, generate_update, judge,
    list_destinations, pending, sum_metric, IgpEvent,
};
use super::laws::lemma_route_index;
use super::model::{
    add_metric, averaged_cost, best_route, costs_after_hello, decide, destinations, expiry_actions,
    export_actions, hand_on_index, hello_actions, is_pending, round_trip, route_index,
    selected_index, surviving, update_of, Cost, Decision, IgpAction, IgpPayload, Route,
    RouteRequest,
};

verus! {

broadcast use vstd::std_specs::hash::group_hash_axioms;

/// The state of the lean protocol.
#[verifier::ext_equal]
pub struct StateView {
    pub id: NodeId,
    pub costs: Map<NodeId, Cost>,
    pub sources: Map<NodeId, SeqMetric>,
    pub requests: Map<NodeId, RouteRequest>,
    pub routes: Seq<Route>,
    pub route_timeout: Duration,
    pub seqno_request_timeout: Duration,
    pub diameter: u16,
    pub update_threshold: u32,
}

/// The announcement of a route with the metric that its neighbour announced.
pub open spec fn relay_of(route: Route) -> IgpPayload {
    IgpPayload::Update { metric: route.metric, dst: route.dst }
}

/// What is to be done about a destination.
pub open spec fn lean_actions(decision: Decision, best: Route, diameter: u16) -> Seq<IgpAction> {
    let dst = best.dst;
    match decision {
        Decision::Idle => Seq::empty(),
        Decision::Withdraw => seq![IgpAction::RemoveRoute { dst }],
        Decision::Adopt => seq![IgpAction::SetRoute { dst, next_hop: best.from }],
        Decision::Suppress => seq![IgpAction::RemoveRoute { dst }],
        Decision::Ask { seq } => seq![
            IgpAction::RemoveRoute { dst },
            IgpAction::Broadcast {
                payload: IgpPayload::SequenceRequest { seq, dst, ttl: diameter },
            },
        ],
        Decision::Select { announce } => if announce {
            seq![
                IgpAction::SetRoute { dst, next_hop: best.from },
                IgpAction::Broadcast { payload: relay_of(best) },
            ]
        } else {
            seq![IgpAction::SetRoute { dst, next_hop: best.from }]
        },
    }
}

/// The announcements of all routes.
pub open spec fn relay_actions(routes: Seq<Route>) -> Seq<IgpAction>
    decreases routes.len(),
{
    if routes.len() == 0 {
        Seq::empty()
    } else {
        relay_actions(routes.drop_last()).push(
            IgpAction::Broadcast { payload: relay_of(routes.last()) },
        )
    }
}

impl StateView {
    /// The deadlines that are set at `now` can be expressed.
    pub open spec fn clock_fits(self, now: Instant) -> bool {
        &&& now + self.route_timeout <= u64::MAX
        &&& now + self.seqno_request_timeout <= u64::MAX
    }

    /// The index of the best route to `dst`.
    pub open spec fn best(self, dst: NodeId) -> Option<int> {
        best_route(self.routes, dst, self.routes.len() as int)
    }

    /// What becomes of `dst`.
    pub open spec fn decision(self, dst: NodeId, now: Instant) -> Decision {
        match self.best(dst) {
            None => Decision::Idle,
            Some(b) => decide(
                self.routes[b],
                lookup(self.sources, dst),
                lookup(self.requests, dst),
                now,
                self.update_threshold,
            ),
        }
    }

    /// The first `n` destinations, up to the first for which a request is pending already: that one
    /// ends the selection.
    pub open spec fn handled(self, now: Instant, n: int) -> Seq<NodeId>
        decreases n,
    {
        if n <= 0 {
            Seq::empty()
        } else {
            let before = self.handled(now, n - 1);
            if before.len() > 0 && self.decision(before.last(), now) is Suppress {
                before
            } else {
                before.push(destinations(self.routes)[n - 1])
            }
        }
    }

    /// The followed metrics once the destinations `done` have been decided.
    pub open spec fn sources_after(self, done: Seq<NodeId>, now: Instant) -> Map<
        NodeId,
        SeqMetric,
    > {
        Map::new(
            |d: NodeId|
                self.sources.contains_key(d) || (done.contains(d) && self.decision(d, now) is Adopt),
            |d: NodeId|
                if done.contains(d) && (self.decision(d, now) is Adopt || self.decision(
                    d,
                    now,
                ) is Select) {
                    self.routes[self.best(d)->0].metric
                } else {
                    self.sources[d]
                },
        )
    }

    /// The pending requests once the destinations `done` have been decided.
    pub open spec fn requests_after(self, done: Seq<NodeId>, now: Instant) -> Map<
        NodeId,
        RouteRequest,
    > {
        Map::new(
            |d: NodeId|
                self.requests.contains_key(d) || (done.contains(d) && self.decision(d, now) is Ask),
            |d: NodeId|
                if done.contains(d) && self.decision(d, now) is Ask {
                    RouteRequest {
                        seq: self.decision(d, now)->seq,
                        expiry: (now + self.seqno_request_timeout) as Instant,
                    }
                } else {
                    self.requests[d]
                },
        )
    }

    /// Route `i` has become selected once the destinations `done` have been decided.
    pub open spec fn chosen(self, done: Seq<NodeId>, now: Instant, i: int) -> bool {
        &&& done.contains(self.routes[i].dst)
        &&& self.best(self.routes[i].dst) == Some(i)
        &&& self.decision(self.routes[i].dst, now) is Select
    }

    /// Route `i` is selected once the destinations `done` have been decided: a route that was selected
    /// stays so.
    pub open spec fn marked(self, done: Seq<NodeId>, now: Instant, i: int) -> bool {
        self.routes[i].selected || self.chosen(done, now, i)
    }

    /// The routes once the destinations `done` have been decided.
    pub open spec fn routes_after(self, done: Seq<NodeId>, now: Instant) -> Seq<Route> {
        Seq::new(
            self.routes.len(),
            |i: int|
                Route { selected: self.marked(done, now, i), ..self.routes[i] },
        )
    }

    /// What is done about the destinations `done`, one after the other.
    pub open spec fn actions_for(self, done: Seq<NodeId>, now: Instant) -> Seq<IgpAction>
        decreases done.len(),
    {
        if done.len() == 0 {
            Seq::empty()
        } else {
            let dst = done.last();
            self.actions_for(done.drop_last(), now) + match self.best(dst) {
                None => Seq::empty(),
                Some(b) => lean_actions(self.decision(dst, now), self.routes[b], self.diameter),
            }
        }
    }

    /// The state once the destinations `done` have been decided.
    pub open spec fn after(self, done: Seq<NodeId>, now: Instant) -> StateView {
        StateView {
            sources: self.sources_after(done, now),
            requests: self.requests_after(done, now),
            routes: self.routes_after(done, now),
            ..self
        }
    }

    /// The destinations that a selection decides.
    pub open spec fn decided(self, now: Instant) -> Seq<NodeId> {
        self.handled(now, destinations(self.routes).len() as int)
    }

    /// Reaction to anything that calls for a selection of routes.
    pub open spec fn on_select(self, now: Instant) -> (StateView, Seq<IgpAction>) {
        (self.after(self.decided(now), now), self.actions_for(self.decided(now), now))
    }

    /// The state with the cost of the link to `node` applied to the routes over it.
    pub open spec fn with_link_cost(self, node: NodeId, cost: u32) -> StateView {
        StateView {
            routes: Seq::new(
                self.routes.len(),
                |i: int|
                    if self.routes[i].from == node {
                        Route {
                            computed_metric: add_metric(self.routes[i].metric.metric, cost),
                            ..self.routes[i]
                        }
                    } else {
                        self.routes[i]
                    },
            ),
            ..self
        }
    }

    /// Reaction to the reply of a neighbour to a hello.
    pub open spec fn on_hello_reply(self, src: NodeId, seq: SeqNo, now: Instant) -> (
        StateView,
        Seq<IgpAction>,
    ) {
        if !self.costs.contains_key(src) || self.costs[src].seq != seq {
            (self, Seq::empty())
        } else {
            let old_cost = self.costs[src];
            let cost = averaged_cost(old_cost.cost, round_trip(old_cost.start, now));
            let measured = StateView {
                costs: self.costs.insert(src, Cost { cost, ..old_cost }),
                ..self
            };
            if cost != old_cost.cost && (exists|i: int|
                0 <= i < self.routes.len() && (#[trigger] self.routes[i]).from == src) {
                measured.with_link_cost(src, cost).on_select(now)
            } else {
                (measured, Seq::empty())
            }
        }
    }

    /// Reaction to a request for the route to `dst`: without one there is no answer.
    pub open spec fn on_route_request(self, dst: NodeId) -> (StateView, Seq<IgpAction>) {
        (
            self,
            match selected_index(self.routes, dst, self.routes.len() as int) {
                Some(i) => seq![IgpAction::Broadcast { payload: update_of(self.routes[i]) }],
                None => Seq::empty(),
            },
        )
    }

    /// The neighbour to which a request for a newer sequence number is handed on.
    pub open spec fn request_next_hop(self, src: NodeId, dst: NodeId) -> Option<NodeId> {
        let n = self.routes.len() as int;
        match hand_on_index(self.routes, dst, src, Some(self.sources[dst]), n) {
            Some(i) => Some(self.routes[i].from),
            None => match hand_on_index(self.routes, dst, src, None, n) {
                Some(i) => Some(self.routes[i].from),
                None => None,
            },
        }
    }

    /// Reaction to a request for a newer sequence number.
    pub open spec fn on_sequence_request(
        self,
        src: NodeId,
        seq: SeqNo,
        dst: NodeId,
        ttl: u16,
        now: Instant,
    ) -> (StateView, Seq<IgpAction>) {
        match selected_index(self.routes, dst, self.routes.len() as int) {
            None => (self, Seq::empty()),
            Some(i) => {
                let route = self.routes[i];
                if route.metric.metric == UNREACHABLE {
                    (self, Seq::empty())
                } else if !seq_newer(seq, route.metric.seq) {
                    (self, seq![IgpAction::Broadcast { payload: update_of(route) }])
                } else if dst == self.id {
                    let renewed = Route {
                        metric: SeqMetric {
                            seq: next_seq(route.metric.seq),
                            metric: route.metric.metric,
                        },
                        ..route
                    };
                    (
                        StateView { routes: self.routes.update(i, renewed), ..self },
                        seq![IgpAction::Broadcast { payload: update_of(renewed) }],
                    )
                } else if ttl == 0 || !self.sources.contains_key(dst) || is_pending(
                    lookup(self.requests, dst),
                    seq,
                    now,
                ) {
                    (self, Seq::empty())
                } else {
                    (
                        StateView {
                            requests: self.requests.insert(
                                dst,
                                RouteRequest {
                                    seq,
                                    expiry: (now + self.seqno_request_timeout) as Instant,
                                },
                            ),
                            ..self
                        },
                        match self.request_next_hop(src, dst) {
                            None => Seq::empty(),
                            Some(link) => seq![
                                IgpAction::SendLink {
                                    link,
                                    payload: IgpPayload::SequenceRequest {
                                        seq,
                                        dst,
                                        ttl: (ttl - 1) as u16,
                                    },
                                },
                            ],
                        },
                    )
                }
            },
        }
    }

    /// The metric of an announcement as seen from here.
    pub open spec fn metric_via(self, src: NodeId, metric: u32) -> u32 {
        if metric == UNREACHABLE {
            UNREACHABLE
        } else {
            match lookup(self.costs, src) {
                None => 0xffff_fffeu32,
                Some(cost) => add_metric(metric, cost.cost),
            }
        }
    }

    /// The routes after an announcement, or nothing where it is to be ignored.
    pub open spec fn routes_after_update(
        self,
        src: NodeId,
        metric: SeqMetric,
        dst: NodeId,
        now: Instant,
    ) -> Option<Seq<Route>> {
        let computed_metric = self.metric_via(src, metric.metric);
        let timeout = (now + self.route_timeout) as Instant;
        let source = lookup(self.sources, dst);
        match route_index(self.routes, dst, src, self.routes.len() as int) {
            None => if metric.metric == UNREACHABLE || (source matches Some(s) && !is_feasible(
                metric,
                s,
            )) {
                None
            } else {
                Some(
                    self.routes.push(
                        Route { metric, computed_metric, dst, from: src, timeout, selected: false },
                    ),
                )
            },
            Some(i) => {
                let route = self.routes[i];
                match source {
                    None => None,
                    Some(s) => if route.selected && !is_feasible(metric, s) {
                        None
                    } else {
                        Some(
                            self.routes.update(
                                i,
                                Route {
                                    metric,
                                    computed_metric,
                                    timeout,
                                    selected: route.selected && is_feasible(metric, s),
                                    ..route
                                },
                            ),
                        )
                    },
                }
            },
        }
    }

    /// Reaction to an announcement, with the announcement that follows from it. Where a newer sequence
    /// number had been asked for, the route is announced at once, and nothing else is done before it
    /// has gone out; otherwise the routes are selected anew.
    pub open spec fn on_update(
        self,
        src: NodeId,
        metric: SeqMetric,
        dst: NodeId,
        now: Instant,
    ) -> (StateView, Seq<IgpAction>, Option<IgpPayload>) {
        match self.routes_after_update(src, metric, dst, now) {
            None => (self, Seq::empty(), None),
            Some(routes) => {
                let asked = self.requests.contains_key(dst);
                let i = route_index(routes, dst, src, routes.len() as int)->0;
                let updated = StateView {
                    routes,
                    requests: if asked && !seq_older(metric.seq, self.requests[dst].seq) {
                        self.requests.remove(dst)
                    } else {
                        self.requests
                    },
                    ..self
                };
                if asked {
                    (updated, Seq::empty(), Some(update_of(routes[i])))
                } else {
                    let (after, actions) = updated.on_select(now);
                    (after, actions, None)
                }
            },
        }
    }

    /// Reaction to what came of sending an announcement.
    pub open spec fn on_announced(self, outcome: Result<(), LinkError>, now: Instant) -> (
        StateView,
        Seq<IgpAction>,
    ) {
        match outcome {
            Ok(_) => self.on_select(now),
            Err(_) => (self, Seq::empty()),
        }
    }

    /// Reaction to a packet from `src`, with the announcement that follows from it. There are no dumps
    /// to be asked for.
    pub open spec fn on_packet(self, src: NodeId, payload: IgpPayload, now: Instant) -> (
        StateView,
        Seq<IgpAction>,
        Option<IgpPayload>,
    ) {
        match payload {
            IgpPayload::Hello { seq } => (
                self,
                seq![IgpAction::SendLink { link: src, payload: IgpPayload::HelloReply { seq } }],
                None,
            ),
            IgpPayload::HelloReply { seq } => alone(self.on_hello_reply(src, seq, now)),
            IgpPayload::RouteRequest { dst } => alone(self.on_route_request(dst)),
            IgpPayload::RouteDump => (self, Seq::empty(), None),
            IgpPayload::SequenceRequest { seq, dst, ttl } => alone(
                self.on_sequence_request(src, seq, dst, ttl, now),
            ),
            IgpPayload::Update { metric, dst } => self.on_update(src, metric, dst, now),
        }
    }

    /// The state after time has passed, before the routes are selected anew.
    pub open spec fn aged(self, now: Instant) -> StateView {
        StateView {
            requests: live(self.requests, now),
            routes: surviving(self.routes, now, self.route_timeout),
            ..self
        }
    }

    /// Reaction to the collection timer.
    pub open spec fn on_gc(self, now: Instant) -> (StateView, Seq<IgpAction>) {
        let (after, actions) = self.aged(now).on_select(now);
        (after, expiry_actions(self.routes, now) + actions)
    }

    /// Reaction to an event, with the announcement that follows from it. The loss of a link shows only
    /// when its routes time out.
    pub open spec fn on_event(self, event: IgpEvent, now: Instant) -> (
        StateView,
        Seq<IgpAction>,
        Option<IgpPayload>,
    ) {
        match event {
            IgpEvent::HelloTick { links } => (
                StateView { costs: costs_after_hello(self.costs, links@, now), ..self },
                hello_actions(self.costs, links@, now),
                None,
            ),
            IgpEvent::DumpTick => (self, relay_actions(self.routes), None),
            IgpEvent::GcTick => alone(self.on_gc(now)),
            IgpEvent::Packet { packet } => match packet {
                Some((src, payload)) => self.on_packet(src, payload, now),
                None => (self, seq![IgpAction::Stop], None),
            },
            IgpEvent::LinkUp { link } => (self, export_actions(self.routes), None),
            IgpEvent::LinkDown { link } => (self, Seq::empty(), None),
            IgpEvent::Other => (self, Seq::empty(), None),
            IgpEvent::Closed => (self, seq![IgpAction::Stop], None),
        }
    }
}

/// A reaction from which no announcement follows.
pub open spec fn alone(reaction: (StateView, Seq<IgpAction>)) -> (
    StateView,
    Seq<IgpAction>,
    Option<IgpPayload>,
) {
    (reaction.0, reaction.1, None)
}

/// The lean protocol of one node.
pub struct IGPState {
    pub id: NodeId,
    pub costs: HashMap<NodeId, Cost>,
    pub sources: HashMap<NodeId, SeqMetric>,
    pub requests: HashMap<NodeId, RouteRequest>,
    pub routes: Vec<Route>,
    pub route_timeout: Duration,
    pub seqno_request_timeout: Duration,
    pub diameter: u16,
    pub update_threshold: u32,
}

impl View for IGPState {
    type V = StateView;

    open spec fn view(&self) -> StateView {
        StateView {
            id: self.id,
            costs: self.costs@,
            sources: self.sources@,
            requests: self.requests@,
            routes: self.routes@,
            route_timeout: self.route_timeout,
            seqno_request_timeout: self.seqno_request_timeout,
            diameter: self.diameter,
            update_threshold: self.update_threshold,
        }
    }
}

impl IGPState {
    /// The lean protocol of node `id`. It knows nothing yet.
    pub fn new(
        id: NodeId,
        route_timeout: Duration,
        seqno_request_timeout: Duration,
        diameter: u16,
        update_threshold: u32,
    ) -> (state: IGPState)
        ensures
            state@ == (StateView {
                id,
                costs: Map::empty(),
                sources: Map::empty(),
                requests: Map::empty(),
                routes: Seq::empty(),
                route_timeout,
                seqno_request_timeout,
                diameter,
                update_threshold,
            }),
    {
        IGPState {
            id,
            costs: HashMap::new(),
            sources: HashMap::new(),
            requests: HashMap::new(),
            routes: Vec::new(),
            route_timeout,
            seqno_request_timeout,
            diameter,
            update_threshold,
        }
    }

    /// Selects the routes anew.
    pub fn select(&mut self, now: Instant, actions: &mut Vec<IgpAction>)
        requires
            old(self)@.clock_fits(now),
        ensures
            final(self)@ == old(self)@.on_select(now).0,
            final(actions)@ == old(actions)@ + old(self)@.on_select(now).1,
    {
        let ghost before = self@;
        let ghost sent = actions@;
        let all = list_destinations(&self.routes);
        let mut chosen: Vec<bool> = Vec::new();
        while chosen.len() < self.routes.len()
            invariant
                chosen.len() <= self.routes.len(),
                forall|i: int| 0 <= i < chosen.len() ==> chosen[i] == before.routes[i].selected,
                self.routes@ == before.routes,
                *self == *old(self),
            decreases self.routes.len() - chosen.len(),
        {
            let i: usize = chosen.len();
            chosen.push(self.routes[i].selected);
        }
        let mut k: usize = 0;
        let mut ended = false;
        let ghost mut done: Seq<NodeId> = Seq::empty();
        proof {
            assert(self.sources@ =~= before.sources_after(done, now));
            assert(self.requests@ =~= before.requests_after(done, now));
            assert(actions@ =~= sent + before.actions_for(done, now));
        }
        while k < all.len()
            invariant
                k <= all.len(),
                all@ == destinations(before.routes),
                all@.no_duplicates(),
                before == old(self)@,
                before.clock_fits(now),
                done == before.handled(now, k as int),
                ended <==> done.len() > 0 && before.decision(done.last(), now) is Suppress,
                forall|d: NodeId| #[trigger] done.contains(d) ==> all@.take(k as int).contains(d),
                self@ == (StateView { sources: self.sources@, requests: self.requests@, ..before }),
                self.sources@ == before.sources_after(done, now),
                self.requests@ == before.requests_after(done, now),
                chosen.len() == before.routes.len(),
                forall|i: int|
                    0 <= i < chosen.len() ==> chosen[i] == #[trigger] before.marked(done, now, i),
                actions@ == sent + before.actions_for(done, now),
            decreases all.len() - k,
        {
            let dst = all[k];
            proof {
                assert forall|d: NodeId| all@.take(k as int).contains(d) implies all@.take(
                    k + 1,
                ).contains(d) by {
                    let j = choose|j: int|
                        0 <= j < all@.take(k as int).len() && all@.take(k as int)[j] == d;
                    assert(all@.take(k + 1)[j] == d);
                }
                assert(all@.take(k + 1)[k as int] == dst);
            }
            if !ended {
                let ghost next = done.push(dst);
                let ghost marked = chosen@;
                proof {
                    assert(next.drop_last() =~= done);
                    assert(next.last() == dst);
                    assert(!all@.take(k as int).contains(dst));
                    assert(!done.contains(dst));
                    assert forall|d: NodeId|
                        next.contains(d) <==> (done.contains(d) || d == dst) by {
                        if done.contains(d) {
                            let j = choose|j: int| 0 <= j < done.len() && done[j] == d;
                            assert(next[j] == d);
                        }
                        if d == dst {
                            assert(next[done.len() as int] == d);
                        }
                    }
                    assert(lookup(self.sources@, dst) == lookup(before.sources, dst));
                    assert(lookup(self.requests@, dst) == lookup(before.requests, dst));
                }
                match find_best(&self.routes, dst) {
                    None => {},
                    Some(b) => {
                        let best = self.routes[b];
                        let followed: Option<SeqMetric> = match self.sources.get(&dst) {
                            Some(metric) => Some(*metric),
                            None => None,
                        };
                        let decision = judge(
                            &best,
                            followed,
                            self.requests.get(&dst),
                            now,
                            self.update_threshold,
                        );
                        assert(decision == before.decision(dst, now));
                        let ghost held = actions@;
                        match decision {
                            Decision::Idle => {},
                            Decision::Withdraw => {
                                actions.push(IgpAction::RemoveRoute { dst });
                            },
                            Decision::Adopt => {
                                self.sources.insert(dst, best.metric);
                                actions.push(IgpAction::SetRoute { dst, next_hop: best.from });
                            },
                            Decision::Suppress => {
                                actions.push(IgpAction::RemoveRoute { dst });
                                ended = true;
                            },
                            Decision::Ask { seq } => {
                                actions.push(IgpAction::RemoveRoute { dst });
                                self.requests.insert(
                                    dst,
                                    RouteRequest {
                                        seq,
                                        expiry: now + self.seqno_request_timeout,
                                    },
                                );
                                actions.push(
                                    IgpAction::Broadcast {
                                        payload: IgpPayload::SequenceRequest {
                                            seq,
                                            dst,
                                            ttl: self.diameter,
                                        },
                                    },
                                );
                            },
                            Decision::Select { announce } => {
                                self.sources.insert(dst, best.metric);
                                chosen.set(b, true);
                                actions.push(IgpAction::SetRoute { dst, next_hop: best.from });
                                if announce {
                                    actions.push(
                                        IgpAction::Broadcast {
                                            payload: IgpPayload::Update {
                                                metric: best.metric,
                                                dst,
                                            },
                                        },
                                    );
                                }
                            },
                        }
                        assert(actions@ =~= held + lean_actions(decision, best, before.diameter));
                    },
                }
                proof {
                    assert forall|i: int| 0 <= i < chosen.len() implies chosen[i]
                        == #[trigger] before.marked(next, now, i) by {
                        assert(marked[i] == before.marked(done, now, i));
                    }
                    assert(self.sources@ =~= before.sources_after(next, now));
                    assert(self.requests@ =~= before.requests_after(next, now));
                    assert(actions@ =~= sent + before.actions_for(next, now));
                    done = next;
                }
            }
            k += 1;
        }
        let mut i: usize = 0;
        while i < self.routes.len()
            invariant
                i <= self.routes.len(),
                self@ == (StateView {
                    sources: before.sources_after(done, now),
                    requests: before.requests_after(done, now),
                    routes: self.routes@,
                    ..before
                }),
                self.routes.len() == before.routes.len(),
                chosen.len() == before.routes.len(),
                forall|j: int|
                    0 <= j < chosen.len() ==> chosen[j] == #[trigger] before.marked(done, now, j),
                forall|j: int|
                    0 <= j < i ==> #[trigger] self.routes[j] == (Route {
                        selected: before.marked(done, now, j),
                        ..before.routes[j]
                    }),
                forall|j: int| i <= j < self.routes.len() ==> self.routes[j] == before.routes[j],
            decreases self.routes.len() - i,
        {
            let mut route = self.routes[i];
            route.selected = chosen[i];
            self.routes.set(i, route);
            i += 1;
        }
        assert(self.routes@ =~= before.routes_after(done, now));
    }

    /// Takes the reply of a neighbour to a hello.
    fn handle_hello_reply(&mut self, src: NodeId, seq: SeqNo, now: Instant) -> (actions: Vec<
        IgpAction,
    >)
        requires
            old(self)@.clock_fits(now),
        ensures
            (final(self)@, actions@) == old(self)@.on_hello_reply(src, seq, now),
    {
        let ghost before = self@;
        let mut actions: Vec<IgpAction> = Vec::new();
        let mut cost = match self.costs.get(&src) {
            Some(cost) => *cost,
            None => {
                return actions;
            },
        };
        if cost.seq != seq {
            return actions;
        }
        let rtt: u64 = elapsed(now, cost.start) / MILLISECOND;
        let origin = cost.cost;
        cost.cost = average_cost(cost.cost, rtt);
        self.costs.insert(src, cost);
        let ghost measured = self@;
        if cost.cost != origin {
            let ghost changed_view = measured.with_link_cost(src, cost.cost);
            let mut changed = false;
            let mut i: usize = 0;
            while i < self.routes.len()
                invariant
                    i <= self.routes.len(),
                    changed_view == measured.with_link_cost(src, cost.cost),
                    self.routes.len() == measured.routes.len(),
                    self@ == (StateView { routes: self.routes@, ..measured }),
                    forall|j: int| 0 <= j < i ==> self.routes[j] == changed_view.routes[j],
                    forall|j: int|
                        i <= j < self.routes.len() ==> self.routes[j] == measured.routes[j],
                    changed <==> exists|j: int|
                        0 <= j < i && (#[trigger] measured.routes[j]).from == src,
                decreases self.routes.len() - i,
            {
                let mut route = self.routes[i];
                if route.from == src {
                    route.computed_metric = sum_metric(route.metric.metric, cost.cost);
                    self.routes.set(i, route);
                    changed = true;
                    assert(measured.routes[i as int].from == src);
                }
                i += 1;
            }
            assert(before.routes == measured.routes);
            if changed {
                assert(self.routes@ =~= changed_view.routes);
                self.select(now, &mut actions);
            } else {
                assert forall|j: int| 0 <= j < self.routes.len() implies #[trigger] self.routes[j]
                    == measured.routes[j] by {
                    assert(measured.routes[j].from != src);
                    assert(changed_view.routes[j] == measured.routes[j]);
                }
                assert(self.routes@ =~= measured.routes);
            }
        }
        actions
    }

    /// Answers a request for a newer sequence number, or hands it on.
    fn handle_sequence_request(
        &mut self,
        src: NodeId,
        seq: SeqNo,
        dst: NodeId,
        ttl: u16,
        now: Instant,
    ) -> (actions: Vec<IgpAction>)
        requires
            old(self)@.clock_fits(now),
        ensures
            (final(self)@, actions@) == old(self)@.on_sequence_request(src, seq, dst, ttl, now),
    {
        let mut actions: Vec<IgpAction> = Vec::new();
        let i = match find_selected(&self.routes, dst) {
            Some(i) => i,
            None => {
                return actions;
            },
        };
        let mut route = self.routes[i];
        if route.metric.metric == UNREACHABLE {
            return actions;
        }
        if seq <= route.metric.seq {
            actions.push(IgpAction::Broadcast { payload: generate_update(&route) });
            return actions;
        }
        if dst == self.id {
            route.metric.seq = route.metric.seq + SeqNo(1);
            self.routes.set(i, route);
            actions.push(IgpAction::Broadcast { payload: generate_update(&route) });
            return actions;
        }
        if ttl == 0 {
            return actions;
        }
        let source = match self.sources.get(&dst) {
            Some(source) => *source,
            None => {
                return actions;
            },
        };
        if pending(self.requests.get(&dst), seq, now) {
            return actions;
        }
        self.requests.insert(
            dst,
            RouteRequest { seq, expiry: now + self.seqno_request_timeout },
        );
        let payload = IgpPayload::SequenceRequest { seq, dst, ttl: ttl - 1 };
        match find_hand_on(&self.routes, dst, src, Some(source)) {
            Some(j) => {
                actions.push(IgpAction::SendLink { link: self.routes[j].from, payload });
            },
            None => {
                match find_hand_on(&self.routes, dst, src, None) {
                    Some(j) => {
                        actions.push(IgpAction::SendLink { link: self.routes[j].from, payload });
                    },
                    None => {},
                }
            },
        }
        actions
    }

    /// Takes an announcement.
    fn handle_update(&mut self, src: NodeId, metric: SeqMetric, dst: NodeId, now: Instant) -> (
        result: (Vec<IgpAction>, Option<IgpPayload>))
        requires
            old(self)@.clock_fits(now),
        ensures
            (final(self)@, result.0@, result.1) == old(self)@.on_update(src, metric, dst, now),
    {
        let ghost before = self@;
        let mut actions: Vec<IgpAction> = Vec::new();
        let computed_metric = if metric.metric == UNREACHABLE {
            UNREACHABLE
        } else {
            match self.costs.get(&src) {
                None => UNREACHABLE - 1,
                Some(cost) => sum_metric(metric.metric, cost.cost),
            }
        };
        assert(computed_metric == before.metric_via(src, metric.metric));
        let source: Option<SeqMetric> = match self.sources.get(&dst) {
            Some(source) => Some(*source),
            None => None,
        };
        let timeout = now + self.route_timeout;
        match find_route(&self.routes, dst, src) {
            None => {
                if metric.metric == UNREACHABLE {
                    return (actions, None);
                }
                match source {
                    Some(source) => {
                        if !metric.feasible(&source) {
                            return (actions, None);
                        }
                    },
                    None => {},
                }
                self.routes.push(
                    Route { metric, computed_metric, dst, from: src, timeout, selected: false },
                );
            },
            Some(i) => {
                let mut route = self.routes[i];
                let source = match source {
                    Some(source) => source,
                    None => {
                        return (actions, None);
                    },
                };
                if route.selected && !metric.feasible(&source) {
                    return (actions, None);
                }
                route.metric = metric;
                route.computed_metric = computed_metric;
                route.timeout = timeout;
                if !route.metric.feasible(&source) {
                    route.selected = false;
                }
                self.routes.set(i, route);
            },
        }
        assert(Some(self.routes@) == before.routes_after_update(src, metric, dst, now));
        let wanted: Option<SeqNo> = match self.requests.get(&dst) {
            Some(request) => Some(request.seq),
            None => None,
        };
        match wanted {
            Some(seq) => {
                if metric.seq >= seq {
                    self.requests.remove(&dst);
                }
                match find_route(&self.routes, dst, src) {
                    Some(i) => {
                        let announcement = generate_update(&self.routes[i]);
                        return (actions, Some(announcement));
                    },
                    None => {
                        proof {
                            lemma_announced_route_present(before, src, metric, dst, now);
                        }
                    },
                }
            },
            None => {},
        }
        self.select(now, &mut actions);
        (actions, None)
    }

    /// Takes what came of sending an announcement. Where it did not go out, the routes stay as they
    /// are.
    pub fn announced(&mut self, outcome: Result<(), LinkError>, now: Instant) -> (result: Result<
        Vec<IgpAction>,
        LinkError,
    >)
        requires
            old(self)@.clock_fits(now),
        ensures
            match outcome {
                Ok(_) => result matches Ok(actions) && (final(self)@, actions@) == old(
                    self,
                )@.on_announced(outcome, now),
                Err(e) => result == Err::<Vec<IgpAction>, LinkError>(e) && final(self)@ == old(
                    self,
                )@.on_announced(outcome, now).0,
            },
    {
        match outcome {
            Ok(_) => {
                let mut actions: Vec<IgpAction> = Vec::new();
                self.select(now, &mut actions);
                Ok(actions)
            },
            Err(e) => Err(e),
        }
    }

    /// Takes a packet from `src`. Gives what is to be done and, where a route is to be announced first,
    /// the announcement.
    pub fn handle_packet(&mut self, src: NodeId, payload: &IgpPayload, now: Instant) -> (result: (
        Vec<IgpAction>,
        Option<IgpPayload>,
    ))
        requires
            old(self)@.clock_fits(now),
        ensures
            (final(self)@, result.0@, result.1) == old(self)@.on_packet(src, *payload, now),
    {
        let mut actions: Vec<IgpAction> = Vec::new();
        match *payload {
            IgpPayload::Hello { seq } => {
                actions.push(
                    IgpAction::SendLink { link: src, payload: IgpPayload::HelloReply { seq } },
                );
                (actions, None)
            },
            IgpPayload::HelloReply { seq } => (self.handle_hello_reply(src, seq, now), None),
            IgpPayload::RouteRequest { dst } => {
                match find_selected(&self.routes, dst) {
                    Some(i) => {
                        actions.push(
                            IgpAction::Broadcast { payload: generate_update(&self.routes[i]) },
                        );
                    },
                    None => {},
                }
                (actions, None)
            },
            IgpPayload::RouteDump => (actions, None),
            IgpPayload::SequenceRequest { seq, dst, ttl } => (
                self.handle_sequence_request(src, seq, dst, ttl, now),
                None,
            ),
            IgpPayload::Update { metric, dst } => self.handle_update(src, metric, dst, now),
        }
    }

    /// Sends a hello over each link.
    pub fn send_hello(&mut self, links: &Vec<NodeId>, now: Instant) -> (actions: Vec<IgpAction>)
        ensures
            final(self)@ == (StateView {
                costs: costs_after_hello(old(self)@.costs, links@, now),
                ..old(self)@
            }),
            actions@ == hello_actions(old(self)@.costs, links@, now),
    {
        let ghost before = self@;
        let mut actions: Vec<IgpAction> = Vec::new();
        let mut i: usize = 0;
        while i < links.len()
            invariant
                i <= links.len(),
                before == old(self)@,
                self@ == (StateView {
                    costs: costs_after_hello(before.costs, links@.take(i as int), now),
                    ..before
                }),
                actions@ == hello_actions(before.costs, links@.take(i as int), now),
            decreases links.len() - i,
        {
            let link = links[i];
            proof {
                assert(links@.take(i + 1).drop_last() =~= links@.take(i as int));
                assert(links@.take(i + 1).last() == link);
            }
            let cost = match self.costs.get(&link) {
                Some(cost) => Cost { seq: cost.seq + SeqNo(1), start: now, cost: cost.cost },
                None => Cost { seq: SeqNo(0), start: now, cost: UNREACHABLE },
            };
            self.costs.insert(link, cost);
            actions.push(IgpAction::SendLink { link, payload: IgpPayload::Hello { seq: cost.seq } });
            i += 1;
        }
        proof {
            assert(links@.take(links.len() as int) =~= links@);
        }
        actions
    }

    /// The forwarding entries of all selected routes.
    pub fn export(&self) -> (actions: Vec<IgpAction>)
        ensures
            actions@ == export_actions(self@.routes),
    {
        let mut actions: Vec<IgpAction> = Vec::new();
        let mut i: usize = 0;
        while i < self.routes.len()
            invariant
                i <= self.routes.len(),
                actions@ == export_actions(self.routes@.take(i as int)),
            decreases self.routes.len() - i,
        {
            proof {
                assert(self.routes@.take(i + 1).drop_last() =~= self.routes@.take(i as int));
                assert(self.routes@.take(i + 1).last() == self.routes@[i as int]);
            }
            let route = self.routes[i];
            if route.selected {
                actions.push(IgpAction::SetRoute { dst: route.dst, next_hop: route.from });
            }
            i += 1;
        }
        proof {
            assert(self.routes@.take(self.routes.len() as int) =~= self.routes@);
        }
        actions
    }

    /// Announces all routes, with the metrics that the neighbours announced.
    pub fn dump(&self) -> (actions: Vec<IgpAction>)
        ensures
            actions@ == relay_actions(self@.routes),
    {
        let mut actions: Vec<IgpAction> = Vec::new();
        let mut i: usize = 0;
        while i < self.routes.len()
            invariant
                i <= self.routes.len(),
                actions@ == relay_actions(self.routes@.take(i as int)),
            decreases self.routes.len() - i,
        {
            proof {
                assert(self.routes@.take(i + 1).drop_last() =~= self.routes@.take(i as int));
                assert(self.routes@.take(i + 1).last() == self.routes@[i as int]);
            }
            let route = self.routes[i];
            actions.push(
                IgpAction::Broadcast {
                    payload: IgpPayload::Update { metric: route.metric, dst: route.dst },
                },
            );
            i += 1;
        }
        proof {
            assert(self.routes@.take(self.routes.len() as int) =~= self.routes@);
        }
        actions
    }

    /// Forgets what has expired. A route that has expired is asked for once more before it goes.
    pub fn gc(&mut self, now: Instant) -> (actions: Vec<IgpAction>)
        requires
            old(self)@.clock_fits(now),
        ensures
            (final(self)@, actions@) == old(self)@.on_gc(now),
    {
        let ghost before = self@;
        drop_expired(&mut self.requests, now);
        let mut routes: Vec<Route> = Vec::new();
        let mut actions: Vec<IgpAction> = Vec::new();
        let mut i: usize = 0;
        while i < self.routes.len()
            invariant
                i <= self.routes.len(),
                self.routes@ == before.routes,
                self.route_timeout == before.route_timeout,
                before.clock_fits(now),
                routes@ == surviving(before.routes.take(i as int), now, before.route_timeout),
                actions@ == expiry_actions(before.routes.take(i as int), now),
            decreases self.routes.len() - i,
        {
            proof {
                assert(before.routes.take(i + 1).drop_last() =~= before.routes.take(i as int));
                assert(before.routes.take(i + 1).last() == before.routes[i as int]);
            }
            let mut route = self.routes[i];
            if route.timeout > now {
                routes.push(route);
            } else if route.metric.metric != UNREACHABLE {
                route.metric.metric = UNREACHABLE;
                route.computed_metric = UNREACHABLE;
                route.timeout = now + self.route_timeout;
                route.selected = false;
                routes.push(route);
                actions.push(
                    IgpAction::SendLink {
                        link: route.from,
                        payload: IgpPayload::RouteRequest { dst: route.dst },
                    },
                );
            }
            i += 1;
        }
        proof {
            assert(before.routes.take(self.routes.len() as int) =~= before.routes);
        }
        self.routes = routes;
        assert(self@ =~= before.aged(now));
        self.select(now, &mut actions);
        actions
    }

    /// Reacts to an event. Gives what is to be done and, where a route is to be announced first, the
    /// announcement.
    pub fn start(&mut self, event: IgpEvent, now: Instant) -> (result: (
        Vec<IgpAction>,
        Option<IgpPayload>,
    ))
        requires
            old(self)@.clock_fits(now),
        ensures
            (final(self)@, result.0@, result.1) == old(self)@.on_event(event, now),
    {
        match event {
            IgpEvent::HelloTick { links } => (self.send_hello(&links, now), None),
            IgpEvent::DumpTick => (self.dump(), None),
            IgpEvent::GcTick => (self.gc(now), None),
            IgpEvent::Packet { packet: Some((src, payload)) } => self.handle_packet(
                src,
                &payload,
                now,
            ),
            IgpEvent::LinkUp { link: _ } => (self.export(), None),
            IgpEvent::LinkDown { link: _ } => (Vec::new(), None),
            IgpEvent::Other => (Vec::new(), None),
            IgpEvent::Packet { packet: None } | IgpEvent::Closed => {
                let mut actions: Vec<IgpAction> = Vec::new();
                actions.push(IgpAction::Stop);
                (actions, None)
            },
        }
    }
}

/// The route that an announcement concerns is present once it has been taken.
proof fn lemma_announced_route_present(
    state: StateView,
    src: NodeId,
    metric: SeqMetric,
    dst: NodeId,
    now: Instant,
)
    ensures
        state.routes_after_update(src, metric, dst, now) matches Some(routes) ==> route_index(
            routes,
            dst,
            src,
            routes.len() as int,
        ) is Some,
{
    let n = state.routes.len() as int;
    lemma_route_index(state.routes, dst, src, n);
    match state.routes_after_update(src, metric, dst, now) {
        Some(routes) => {
            lemma_route_index(routes, dst, src, routes.len() as int);
            match route_index(state.routes, dst, src, n) {
                Some(i) => {
                    assert(routes[i].dst == dst && routes[i].from == src);
                },
                None => {
                    assert(routes[n].dst == dst && routes[n].from == src);
                },
            }
        },
        None => {},
    }
}

/// An announcement that did not go out leaves the routes as they are: none is selected anew.
pub proof fn lemma_failed_announcement_ends_reaction(state: StateView, e: LinkError, now: Instant)
    ensures
        state.on_announced(Err(e), now) == (state, Seq::<IgpAction>::empty()),
{
}

/// Nothing is done beside an announcement before it has gone out.
pub proof fn lemma_announcement_comes_first(state: StateView, event: IgpEvent, now: Instant)
    ensures
        state.on_event(event, now).2 is Some ==> state.on_event(event, now).1.len() == 0,
{
}

/// Where a request is pending already the selection ends: the destinations after it are left for
/// the next one.
pub proof fn lemma_pending_request_ends_selection(state: StateView, now: Instant, i: int)
    requires
        0 <= i < state.decided(now).len() - 1,
    ensures
        !(state.decision(state.decided(now)[i], now) is Suppress),
{
    lemma_handled_stops(state, now, destinations(state.routes).len() as int, i);
}

proof fn lemma_handled_stops(state: StateView, now: Instant, n: int, i: int)
    requires
        0 <= i < state.handled(now, n).len() - 1,
    ensures
        !(state.decision(state.handled(now, n)[i], now) is Suppress),
    decreases n,
{
    if n > 0 {
        let before = state.handled(now, n - 1);
        if before.len() > 0 && state.decision(before.last(), now) is Suppress {
            lemma_handled_stops(state, now, n - 1, i);
        } else if i < before.len() - 1 {
            lemma_handled_stops(state, now, n - 1, i);
        }
    }
}

/// The metric followed towards a destination is only ever replaced by a feasible one.
pub proof fn lemma_followed_only_improves(state: StateView, now: Instant, dst: NodeId)
    requires
        state.sources.contains_key(dst),
    ensures
        state.on_select(now).0.sources.contains_key(dst),
        state.on_select(now).0.sources[dst] == state.sources[dst] || is_feasible(
            state.on_select(now).0.sources[dst],
            state.sources[dst],
        ),
{
}

} // verus!
