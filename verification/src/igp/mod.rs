//! The routing protocol of the mesh: a distance-vector protocol with feasibility conditions, in the
//! manner of RFC 8966.
//!
//! A node measures the cost of its links with hellos, announces to its neighbours the routes that
//! it has selected, and follows only routes that are feasible against the best metric that it has
//! followed so far; where none is, it asks for one with a newer sequence number.
//!
//! What is asked of the mesh is handed over without waiting for what comes of it: a packet that a link
//! does not take is for the mesh to deal with. Once the mesh is gone the protocol ends.

use vstd::prelude::*;
use vstd::string::*;
use std::collections::HashMap;
use crate::packet::{elapsed, Instant, NodeId, MILLISECOND, SECOND};
use crate::seq::{SeqMetric, SeqNo, UNREACHABLE};
use crate::tables::{drop_expired, lookup};
use crate::text::{decimal, hexadecimal, push_decimal, push_hexadecimal, push_truth, truth};
use self::model::{
    add_metric, averaged_cost, best_route, costs_after_hello, decide, decision_actions, destinations,
    dump_actions, expiry_actions, export_actions, hand_on_index, hello_actions, is_pending,
    may_hand_on, retraction_of, route_index, selected_index, surviving, update_of, Cost, Decision,
    IgpAction, IgpParameters, IgpPayload, IgpView, Route, RouteRequest, Source,
};

pub mod laws;
pub mod model;
pub mod selection;
pub mod state;
pub mod state_laws;

verus! {

broadcast use vstd::std_specs::hash::group_hash_axioms;

/// The routing protocol of one node.
pub struct Igp {
    id: NodeId,
    params: IgpParameters,
    costs: HashMap<NodeId, Cost>,
    sources: HashMap<NodeId, Source>,
    requests: HashMap<NodeId, RouteRequest>,
    routes: Vec<Route>,
}

/// What the protocol waits for.
pub enum IgpEvent {
    /// The hello timer has fired; `links` are the present neighbours.
    HelloTick { links: Vec<NodeId> },
    /// The dump timer has fired.
    DumpTick,
    /// The collection timer has fired.
    GcTick,
    /// A packet has arrived, or no more will.
    Packet { packet: Option<(NodeId, IgpPayload)> },
    /// The link to a neighbour has come up.
    LinkUp { link: NodeId },
    /// The link to a neighbour has gone down.
    LinkDown { link: NodeId },
    /// Some other event of the mesh, or one that was missed.
    Other,
    /// The mesh has gone.
    Closed,
}

/// The announcement of a route.
pub fn generate_update(route: &Route) -> (payload: IgpPayload)
    ensures
        payload == update_of(*route),
{
    IgpPayload::Update {
        metric: SeqMetric { seq: route.metric.seq, metric: route.computed_metric },
        dst: route.dst,
    }
}

/// The retraction of a destination.
pub fn generate_retraction(dst: NodeId) -> (payload: IgpPayload)
    ensures
        payload == retraction_of(dst),
{
    IgpPayload::Update { metric: SeqMetric { seq: SeqNo(0), metric: UNREACHABLE }, dst }
}

/// Whether a request for `seq` is still pending.
fn pending(request: Option<&RouteRequest>, seq: SeqNo, now: Instant) -> (result: bool)
    ensures
        result == is_pending(
            match request {
                Some(r) => Some(*r),
                None => None,
            },
            seq,
            now,
        ),
{
    match request {
        Some(r) => seq <= r.seq && now < r.expiry,
        None => false,
    }
}

/// The index of the best of the routes to `dst`.
pub fn find_best(routes: &Vec<Route>, dst: NodeId) -> (result: Option<usize>)
    ensures
        match result {
            Some(i) => i < routes.len() && routes[i as int].dst == dst && best_route(
                routes@,
                dst,
                routes.len() as int,
            ) == Some(i as int),
            None => best_route(routes@, dst, routes.len() as int) is None,
        },
{
    let mut best: Option<usize> = None;
    let mut i: usize = 0;
    while i < routes.len()
        invariant
            i <= routes.len(),
            match best {
                Some(b) => b < i && routes[b as int].dst == dst && best_route(
                    routes@,
                    dst,
                    i as int,
                ) == Some(b as int),
                None => best_route(routes@, dst, i as int) is None,
            },
        decreases routes.len() - i,
    {
        let route = routes[i];
        if route.dst == dst {
            match best {
                None => {
                    best = Some(i);
                },
                Some(b) => {
                    let held = routes[b];
                    if held.metric.seq < route.metric.seq || (held.metric.seq == route.metric.seq
                        && route.computed_metric < held.computed_metric) {
                        best = Some(i);
                    }
                },
            }
        }
        i += 1;
    }
    best
}

/// The index of the route to `dst` over `from`.
pub fn find_route(routes: &Vec<Route>, dst: NodeId, from: NodeId) -> (result: Option<usize>)
    ensures
        match result {
            Some(i) => i < routes.len() && routes[i as int].dst == dst && routes[i as int].from
                == from && route_index(routes@, dst, from, routes.len() as int) == Some(i as int),
            None => route_index(routes@, dst, from, routes.len() as int) is None,
        },
{
    let mut found: Option<usize> = None;
    let mut i: usize = 0;
    while i < routes.len()
        invariant
            i <= routes.len(),
            match found {
                Some(b) => b < i && routes[b as int].dst == dst && routes[b as int].from == from
                    && route_index(routes@, dst, from, i as int) == Some(b as int),
                None => route_index(routes@, dst, from, i as int) is None,
            },
        decreases routes.len() - i,
    {
        if found.is_none() && routes[i].dst == dst && routes[i].from == from {
            found = Some(i);
        }
        i += 1;
    }
    found
}

/// The index of the selected route to `dst`.
pub fn find_selected(routes: &Vec<Route>, dst: NodeId) -> (result: Option<usize>)
    ensures
        match result {
            Some(i) => i < routes.len() && routes[i as int].dst == dst && routes[i as int].selected
                && selected_index(routes@, dst, routes.len() as int) == Some(i as int),
            None => selected_index(routes@, dst, routes.len() as int) is None,
        },
{
    let mut found: Option<usize> = None;
    let mut i: usize = 0;
    while i < routes.len()
        invariant
            i <= routes.len(),
            match found {
                Some(b) => b < i && routes[b as int].dst == dst && routes[b as int].selected
                    && selected_index(routes@, dst, i as int) == Some(b as int),
                None => selected_index(routes@, dst, i as int) is None,
            },
        decreases routes.len() - i,
    {
        if found.is_none() && routes[i].dst == dst && routes[i].selected {
            found = Some(i);
        }
        i += 1;
    }
    found
}

/// The index of the route along which a request for `dst` that came from `src` is handed on.
pub fn find_hand_on(
    routes: &Vec<Route>,
    dst: NodeId,
    src: NodeId,
    bound: Option<SeqMetric>,
) -> (result: Option<usize>)
    ensures
        match result {
            Some(i) => i < routes.len() && may_hand_on(routes[i as int], dst, src, bound)
                && hand_on_index(routes@, dst, src, bound, routes.len() as int) == Some(i as int),
            None => hand_on_index(routes@, dst, src, bound, routes.len() as int) is None,
        },
{
    let mut found: Option<usize> = None;
    let mut i: usize = 0;
    while i < routes.len()
        invariant
            i <= routes.len(),
            match found {
                Some(b) => b < i && may_hand_on(routes[b as int], dst, src, bound)
                    && hand_on_index(routes@, dst, src, bound, i as int) == Some(b as int),
                None => hand_on_index(routes@, dst, src, bound, i as int) is None,
            },
        decreases routes.len() - i,
    {
        let route = routes[i];
        let allowed = match bound {
            Some(b) => route.metric.feasible(&b),
            None => true,
        };
        if route.dst == dst && route.from != src && allowed {
            match found {
                None => {
                    found = Some(i);
                },
                Some(b) => {
                    if route.metric.metric < routes[b].metric.metric {
                        found = Some(i);
                    }
                },
            }
        }
        i += 1;
    }
    found
}

/// The destinations of the routes, each once, in the order in which they first occur.
pub fn list_destinations(routes: &Vec<Route>) -> (result: Vec<NodeId>)
    ensures
        result@ == destinations(routes@),
        result@.no_duplicates(),
{
    let mut all: Vec<NodeId> = Vec::new();
    let mut i: usize = 0;
    while i < routes.len()
        invariant
            i <= routes.len(),
            all@ == destinations(routes@.take(i as int)),
            all@.no_duplicates(),
        decreases routes.len() - i,
    {
        let dst = routes[i].dst;
        let mut known = false;
        let mut j: usize = 0;
        while j < all.len()
            invariant
                j <= all.len(),
                known <==> all@.take(j as int).contains(dst),
            decreases all.len() - j,
        {
            proof {
                assert(all@.take(j + 1) =~= all@.take(j as int).push(all@[j as int]));
                if known {
                    let k = choose|k: int|
                        0 <= k < all@.take(j as int).len() && all@.take(j as int)[k] == dst;
                    assert(all@.take(j + 1)[k] == dst);
                }
                if all@[j as int] == dst {
                    assert(all@.take(j + 1)[j as int] == dst);
                }
            }
            if all[j] == dst {
                known = true;
            }
            j += 1;
        }
        proof {
            assert(all@.take(all.len() as int) =~= all@);
            assert(routes@.take(i + 1).drop_last() =~= routes@.take(i as int));
            assert(routes@.take(i + 1).last() == routes@[i as int]);
        }
        if !known {
            all.push(dst);
        }
        i += 1;
    }
    proof {
        assert(routes@.take(routes.len() as int) =~= routes@);
    }
    all
}

/// The sum of two metrics, saturating at [`UNREACHABLE`].
pub fn sum_metric(a: u32, b: u32) -> (result: u32)
    ensures
        result == add_metric(a, b),
{
    if a > UNREACHABLE - b {
        UNREACHABLE
    } else {
        a + b
    }
}

/// The cost of a link after a measurement in milliseconds.
pub fn average_cost(cost: u32, measured: u64) -> (result: u32)
    ensures
        result == averaged_cost(cost, measured as int),
{
    if cost == UNREACHABLE {
        (measured % 0x1_0000_0000) as u32
    } else {
        ((836 * cost as u128 + 164 * measured as u128) / 1000 % 0x1_0000_0000) as u32
    }
}

/// What becomes of a destination whose best route is `best`.
pub fn judge(
    best: &Route,
    followed: Option<SeqMetric>,
    request: Option<&RouteRequest>,
    now: Instant,
    update_threshold: u32,
) -> (decision: Decision)
    ensures
        decision == decide(
            *best,
            followed,
            match request {
                Some(r) => Some(*r),
                None => None,
            },
            now,
            update_threshold,
        ),
        !(decision is Idle),
{
    match followed {
        None => if best.metric.metric == UNREACHABLE {
            Decision::Withdraw
        } else {
            Decision::Adopt
        },
        Some(bound) => if best.metric.metric == UNREACHABLE || !best.metric.feasible(&bound) {
            let seq = bound.seq + SeqNo(1);
            if pending(request, seq, now) {
                Decision::Suppress
            } else {
                Decision::Ask { seq }
            }
        } else {
            let a = best.metric.metric;
            let b = bound.metric;
            let distance = if a >= b {
                a - b
            } else {
                b - a
            };
            Decision::Select { announce: distance > update_threshold }
        },
    }
}

impl View for Igp {
    type V = IgpView;

    closed spec fn view(&self) -> IgpView {
        IgpView {
            id: self.id,
            params: self.params,
            costs: self.costs@,
            sources: self.sources@,
            requests: self.requests@,
            routes: self.routes@,
        }
    }
}

impl Igp {
    /// The protocol of node `id` with the usual timers and limits.
    pub fn new(id: NodeId) -> (igp: Igp)
        ensures
            igp@.inv(),
            igp@.id == id,
            igp@.params == (IgpParameters {
                hello_interval: (4 * SECOND) as u64,
                dump_interval: (16 * SECOND) as u64,
                gc_interval: (60 * SECOND) as u64,
                route_timeout: (56 * SECOND) as u64,
                source_timeout: (180 * SECOND) as u64,
                seqno_request_timeout: (8 * SECOND) as u64,
                diameter: 64,
                update_threshold: 1000,
            }),
            igp@.costs == Map::<NodeId, Cost>::empty(),
            igp@.sources == Map::<NodeId, Source>::empty(),
            igp@.requests == Map::<NodeId, RouteRequest>::empty(),
            igp@.routes == Seq::<Route>::empty(),
    {
        Igp::new_with_parameters(
            IgpParameters {
                hello_interval: 4 * SECOND,
                dump_interval: 16 * SECOND,
                gc_interval: 60 * SECOND,
                route_timeout: 56 * SECOND,
                source_timeout: 180 * SECOND,
                seqno_request_timeout: 8 * SECOND,
                diameter: 64,
                update_threshold: 1000,
            },
            id,
        )
    }

    /// The protocol of node `id` with the given timers and limits. It knows nothing yet.
    pub fn new_with_parameters(params: IgpParameters, id: NodeId) -> (igp: Igp)
        ensures
            igp@.inv(),
            igp@ == (IgpView {
                id,
                params,
                costs: Map::empty(),
                sources: Map::empty(),
                requests: Map::empty(),
                routes: Seq::empty(),
            }),
    {
        Igp {
            id,
            params,
            costs: HashMap::new(),
            sources: HashMap::new(),
            requests: HashMap::new(),
            routes: Vec::new(),
        }
    }

    /// The timers and limits.
    pub fn parameters(&self) -> (params: IgpParameters)
        ensures
            params == self@.params,
    {
        self.params
    }

    /// Selects the routes anew.
    fn select_route(&mut self, now: Instant, actions: &mut Vec<IgpAction>)
        requires
            old(self)@.clock_fits(now),
        ensures
            final(self)@ == old(self)@.settled(now),
            final(actions)@ == old(actions)@ + old(self)@.settle_actions(now),
    {
        let ghost before = self@;
        let ghost sent = actions@;
        let all = list_destinations(&self.routes);
        let mut chosen: Vec<bool> = Vec::new();
        while chosen.len() < self.routes.len()
            invariant
                chosen.len() <= self.routes.len(),
                forall|i: int| 0 <= i < chosen.len() ==> !chosen[i],
                *self == *old(self),
            decreases self.routes.len() - chosen.len(),
        {
            chosen.push(false);
        }
        let mut k: usize = 0;
        proof {
            assert(self.sources@ =~= before.sources_after(all@.take(0), now));
            assert(self.requests@ =~= before.requests_after(all@.take(0), now));
            assert(actions@ =~= sent + before.actions_for(all@.take(0), now));
        }
        while k < all.len()
            invariant
                k <= all.len(),
                all@.no_duplicates(),
                before == old(self)@,
                before.clock_fits(now),
                self.id == before.id,
                self.params == before.params,
                self.costs@ == before.costs,
                self.routes@ == before.routes,
                self.sources@ == before.sources_after(all@.take(k as int), now),
                self.requests@ == before.requests_after(all@.take(k as int), now),
                chosen.len() == before.routes.len(),
                forall|i: int|
                    0 <= i < chosen.len() ==> chosen[i] == #[trigger] before.chosen(
                        all@.take(k as int),
                        now,
                        i,
                    ),
                actions@ == sent + before.actions_for(all@.take(k as int), now),
            decreases all.len() - k,
        {
            let dst = all[k];
            let ghost done = all@.take(k as int);
            let ghost next = all@.take(k + 1);
            let ghost marked = chosen@;
            proof {
                assert(next =~= done.push(dst));
                assert(next.drop_last() =~= done);
                assert(next.last() == dst);
                assert(!done.contains(dst));
                assert forall|d: NodeId| next.contains(d) <==> (done.contains(d) || d == dst) by {
                    if done.contains(d) {
                        let j = choose|j: int| 0 <= j < done.len() && done[j] == d;
                        assert(next[j] == d);
                    }
                    if d == dst {
                        assert(next[k as int] == d);
                    }
                }
                assert(lookup(self.sources@, dst) == lookup(before.sources, dst));
                assert(lookup(self.requests@, dst) == lookup(before.requests, dst));
            }
            match find_best(&self.routes, dst) {
                None => {},
                Some(b) => {
                    let best = self.routes[b];
                    let followed: Option<SeqMetric> = match self.sources.get(&dst) {
                        Some(source) => Some(source.metric),
                        None => None,
                    };
                    let decision = judge(
                        &best,
                        followed,
                        self.requests.get(&dst),
                        now,
                        self.params.update_threshold,
                    );
                    assert(decision == before.decision(dst, now));
                    let ghost held = actions@;
                    match decision {
                        Decision::Idle => {},
                        Decision::Withdraw => {
                            actions.push(IgpAction::RemoveRoute { dst });
                        },
                        Decision::Adopt => {
                            self.sources.insert(
                                dst,
                                Source {
                                    metric: best.metric,
                                    expiry: now + self.params.source_timeout,
                                },
                            );
                            actions.push(IgpAction::SetRoute { dst, next_hop: best.from });
                            actions.push(IgpAction::Broadcast { payload: generate_update(&best) });
                        },
                        Decision::Suppress => {
                            actions.push(IgpAction::RemoveRoute { dst });
                        },
                        Decision::Ask { seq } => {
                            actions.push(IgpAction::RemoveRoute { dst });
                            self.requests.insert(
                                dst,
                                RouteRequest {
                                    seq,
                                    expiry: now + self.params.seqno_request_timeout,
                                },
                            );
                            actions.push(
                                IgpAction::Broadcast {
                                    payload: IgpPayload::SequenceRequest {
                                        seq,
                                        dst,
                                        ttl: self.params.diameter,
                                    },
                                },
                            );
                        },
                        Decision::Select { announce } => {
                            self.sources.insert(
                                dst,
                                Source {
                                    metric: best.metric,
                                    expiry: now + self.params.source_timeout,
                                },
                            );
                            chosen.set(b, true);
                            actions.push(IgpAction::SetRoute { dst, next_hop: best.from });
                            if announce {
                                actions.push(
                                    IgpAction::Broadcast { payload: generate_update(&best) },
                                );
                            }
                        },
                    }
                    assert(actions@ =~= held + decision_actions(
                        decision,
                        best,
                        before.params.diameter,
                    ));
                },
            }
            proof {
                assert forall|i: int| 0 <= i < chosen.len() implies chosen[i]
                    == #[trigger] before.chosen(next, now, i) by {
                    assert(marked[i] == before.chosen(done, now, i));
                }
                assert(self.sources@ =~= before.sources_after(next, now));
                assert(self.requests@ =~= before.requests_after(next, now));
                assert(actions@ =~= sent + before.actions_for(next, now));
            }
            k += 1;
        }
        proof {
            assert(all@.take(all.len() as int) =~= all@);
        }
        let mut i: usize = 0;
        while i < self.routes.len()
            invariant
                i <= self.routes.len(),
                before == old(self)@,
                self.id == before.id,
                self.params == before.params,
                self.costs@ == before.costs,
                self.sources@ == before.sources_after(all@, now),
                self.requests@ == before.requests_after(all@, now),
                self.routes.len() == before.routes.len(),
                chosen.len() == before.routes.len(),
                forall|j: int|
                    0 <= j < chosen.len() ==> chosen[j] == #[trigger] before.chosen(all@, now, j),
                forall|j: int|
                    0 <= j < i ==> #[trigger] self.routes[j] == (Route {
                        selected: before.chosen(all@, now, j),
                        ..before.routes[j]
                    }),
                forall|j: int| i <= j < self.routes.len() ==> self.routes[j] == before.routes[j],
            decreases self.routes.len() - i,
        {
            let mut route = self.routes[i];
            route.selected = chosen[i];
            self.routes.set(i, route);
            i += 1;
        }
        assert(self.routes@ =~= before.settled(now).routes);
    }

    /// Sends a hello over each link.
    pub fn hello(&mut self, links: &Vec<NodeId>, now: Instant) -> (actions: Vec<IgpAction>)
        requires
            old(self)@.inv(),
        ensures
            (final(self)@, actions@) == old(self)@.on_hello(links@, now),
            final(self)@.inv(),
    {
        let ghost before = self@;
        let mut actions: Vec<IgpAction> = Vec::new();
        let mut i: usize = 0;
        while i < links.len()
            invariant
                i <= links.len(),
                before == old(self)@,
                self@ == (IgpView {
                    costs: costs_after_hello(before.costs, links@.take(i as int), now),
                    ..before
                }),
                actions@ == hello_actions(before.costs, links@.take(i as int), now),
            decreases links.len() - i,
        {
            let link = links[i];
            proof {
                assert(links@.take(i + 1).drop_last() =~= links@.take(i as int));
                assert(links@.take(i + 1).last() == link);
            }
            let cost = match self.costs.get(&link) {
                Some(cost) => Cost { seq: cost.seq + SeqNo(1), start: now, cost: cost.cost },
                None => Cost { seq: SeqNo(0), start: now, cost: UNREACHABLE },
            };
            self.costs.insert(link, cost);
            actions.push(IgpAction::SendLink { link, payload: IgpPayload::Hello { seq: cost.seq } });
            i += 1;
        }
        proof {
            assert(links@.take(links.len() as int) =~= links@);
        }
        actions
    }

    /// Announces all selected routes, to one neighbour or to all. This node itself is a destination
    /// from now on.
    pub fn dump(&mut self, neigh: Option<NodeId>, now: Instant) -> (actions: Vec<IgpAction>)
        requires
            old(self)@.inv(),
            old(self)@.clock_fits(now),
        ensures
            (final(self)@, actions@) == old(self)@.on_dump(neigh, now),
            final(self)@.inv(),
    {
        let ghost before = self@;
        let timeout = now + self.params.route_timeout;
        match find_route(&self.routes, self.id, self.id) {
            Some(i) => {
                let mut route = self.routes[i];
                route.timeout = timeout;
                self.routes.set(i, route);
            },
            None => {
                self.routes.push(
                    Route {
                        metric: SeqMetric { seq: SeqNo(0), metric: 0 },
                        computed_metric: 0,
                        dst: self.id,
                        from: self.id,
                        timeout,
                        selected: true,
                    },
                );
            },
        }
        let metric = match self.sources.get(&self.id) {
            Some(source) => source.metric,
            None => SeqMetric { seq: SeqNo(0), metric: 0 },
        };
        self.sources.insert(
            self.id,
            Source { metric, expiry: now + self.params.source_timeout },
        );
        assert(self@ =~= before.with_self(now));
        let mut actions: Vec<IgpAction> = Vec::new();
        self.select_route(now, &mut actions);
        let ghost settled = self@;
        let ghost sent = actions@;
        let mut i: usize = 0;
        while i < self.routes.len()
            invariant
                i <= self.routes.len(),
                self@ == settled,
                actions@ == sent + dump_actions(settled.routes.take(i as int), neigh),
            decreases self.routes.len() - i,
        {
            proof {
                assert(settled.routes.take(i + 1).drop_last() =~= settled.routes.take(i as int));
                assert(settled.routes.take(i + 1).last() == settled.routes[i as int]);
            }
            let route = self.routes[i];
            if route.selected {
                let payload = generate_update(&route);
                match neigh {
                    Some(link) => {
                        actions.push(IgpAction::SendLink { link, payload });
                    },
                    None => {
                        actions.push(IgpAction::Broadcast { payload });
                    },
                }
            }
            i += 1;
        }
        proof {
            assert(settled.routes.take(self.routes.len() as int) =~= settled.routes);
            laws::lemma_dump_keeps_inv(before, now);
        }
        actions
    }

    /// Forgets what has expired. A route that has expired is asked for once more before it goes.
    pub fn gc(&mut self, now: Instant) -> (actions: Vec<IgpAction>)
        requires
            old(self)@.inv(),
            old(self)@.clock_fits(now),
        ensures
            (final(self)@, actions@) == old(self)@.on_gc(now),
            final(self)@.inv(),
    {
        let ghost before = self@;
        drop_expired(&mut self.sources, now);
        drop_expired(&mut self.requests, now);
        let mut routes: Vec<Route> = Vec::new();
        let mut actions: Vec<IgpAction> = Vec::new();
        let mut i: usize = 0;
        while i < self.routes.len()
            invariant
                i <= self.routes.len(),
                self.routes@ == before.routes,
                self.params == before.params,
                before.clock_fits(now),
                routes@ == surviving(
                    before.routes.take(i as int),
                    now,
                    before.params.route_timeout,
                ),
                actions@ == expiry_actions(before.routes.take(i as int), now),
            decreases self.routes.len() - i,
        {
            proof {
                assert(before.routes.take(i + 1).drop_last() =~= before.routes.take(i as int));
                assert(before.routes.take(i + 1).last() == before.routes[i as int]);
            }
            let mut route = self.routes[i];
            if route.timeout > now {
                routes.push(route);
            } else if route.metric.metric != UNREACHABLE {
                route.metric.metric = UNREACHABLE;
                route.computed_metric = UNREACHABLE;
                route.timeout = now + self.params.route_timeout;
                route.selected = false;
                routes.push(route);
                actions.push(
                    IgpAction::SendLink {
                        link: route.from,
                        payload: IgpPayload::RouteRequest { dst: route.dst },
                    },
                );
            }
            i += 1;
        }
        proof {
            assert(before.routes.take(self.routes.len() as int) =~= before.routes);
        }
        self.routes = routes;
        assert(self@ =~= before.aged(now));
        self.select_route(now, &mut actions);
        proof {
            laws::lemma_gc_keeps_inv(before, now);
        }
        actions
    }

    /// Applies a changed link cost to the routes over that link.
    fn update_route_costs(
        &mut self,
        node: NodeId,
        cost: u32,
        now: Instant,
        actions: &mut Vec<IgpAction>,
    )
        requires
            old(self)@.clock_fits(now),
        ensures
            final(self)@ == old(self)@.on_cost(node, cost, now).0,
            final(actions)@ == old(actions)@ + old(self)@.on_cost(node, cost, now).1,
    {
        let ghost before = self@;
        let ghost changed_view = before.with_link_cost(node, cost);
        let mut changed = false;
        let mut i: usize = 0;
        while i < self.routes.len()
            invariant
                i <= self.routes.len(),
                changed_view == before.with_link_cost(node, cost),
                self.routes.len() == before.routes.len(),
                self@ == (IgpView { routes: self.routes@, ..before }),
                forall|j: int| 0 <= j < i ==> self.routes[j] == changed_view.routes[j],
                forall|j: int| i <= j < self.routes.len() ==> self.routes[j] == before.routes[j],
                changed <==> exists|j: int| 0 <= j < i && (#[trigger] before.routes[j]).from == node,
            decreases self.routes.len() - i,
        {
            let mut route = self.routes[i];
            if route.from == node {
                route.computed_metric = sum_metric(route.metric.metric, cost);
                self.routes.set(i, route);
                changed = true;
                assert(before.routes[i as int].from == node);
            }
            i += 1;
        }
        if changed {
            assert(self.routes@ =~= changed_view.routes);
            self.select_route(now, actions);
        } else {
            assert forall|j: int| 0 <= j < self.routes.len() implies #[trigger] self.routes[j]
                == before.routes[j] by {
                assert(before.routes[j].from != node);
                assert(changed_view.routes[j] == before.routes[j]);
            }
            assert(self.routes@ =~= before.routes);
            assert(actions@ =~= old(actions)@ + Seq::<IgpAction>::empty());
        }
    }

    /// Takes the reply of a neighbour to a hello.
    fn handle_hello_reply(&mut self, src: NodeId, seq: SeqNo, now: Instant) -> (actions: Vec<
        IgpAction,
    >)
        requires
            old(self)@.clock_fits(now),
        ensures
            (final(self)@, actions@) == old(self)@.on_hello_reply(src, seq, now),
    {
        let mut actions: Vec<IgpAction> = Vec::new();
        let mut cost = match self.costs.get(&src) {
            Some(cost) => *cost,
            None => {
                return actions;
            },
        };
        if cost.seq != seq {
            return actions;
        }
        let rtt: u64 = elapsed(now, cost.start) / MILLISECOND + 100;
        let origin = cost.cost;
        if cost.cost == UNREACHABLE {
            actions.push(IgpAction::SendLink { link: src, payload: IgpPayload::RouteDump });
        }
        cost.cost = average_cost(cost.cost, rtt);
        self.costs.insert(src, cost);
        if cost.cost != origin {
            self.update_route_costs(src, cost.cost, now, &mut actions);
        }
        actions
    }

    /// Answers a request for the route to `dst`.
    fn handle_route_request(&mut self, dst: NodeId) -> (actions: Vec<IgpAction>)
        ensures
            (final(self)@, actions@) == old(self)@.on_route_request(dst),
    {
        let payload = match find_selected(&self.routes, dst) {
            Some(i) => generate_update(&self.routes[i]),
            None => generate_retraction(dst),
        };
        let mut actions: Vec<IgpAction> = Vec::new();
        actions.push(IgpAction::Broadcast { payload });
        actions
    }

    /// Answers a request for a newer sequence number, or hands it on.
    fn handle_sequence_request(
        &mut self,
        src: NodeId,
        seq: SeqNo,
        dst: NodeId,
        ttl: u16,
        now: Instant,
    ) -> (actions: Vec<IgpAction>)
        requires
            old(self)@.clock_fits(now),
        ensures
            (final(self)@, actions@) == old(self)@.on_sequence_request(src, seq, dst, ttl, now),
    {
        let mut actions: Vec<IgpAction> = Vec::new();
        let i = match find_selected(&self.routes, dst) {
            Some(i) => i,
            None => {
                return actions;
            },
        };
        let mut route = self.routes[i];
        if route.metric.metric == UNREACHABLE {
            return actions;
        }
        if seq <= route.metric.seq {
            actions.push(IgpAction::Broadcast { payload: generate_update(&route) });
            return actions;
        }
        if dst == self.id {
            route.metric.seq = route.metric.seq + SeqNo(1);
            self.routes.set(i, route);
            actions.push(IgpAction::Broadcast { payload: generate_update(&route) });
            return actions;
        }
        if ttl == 0 {
            return actions;
        }
        let source = match self.sources.get(&dst) {
            Some(source) => *source,
            None => {
                return actions;
            },
        };
        if pending(self.requests.get(&dst), seq, now) {
            return actions;
        }
        self.requests.insert(
            dst,
            RouteRequest { seq, expiry: now + self.params.seqno_request_timeout },
        );
        let payload = IgpPayload::SequenceRequest { seq, dst, ttl: ttl - 1 };
        match find_hand_on(&self.routes, dst, src, Some(source.metric)) {
            Some(j) => {
                actions.push(IgpAction::SendLink { link: self.routes[j].from, payload });
            },
            None => {
                match find_hand_on(&self.routes, dst, src, None) {
                    Some(j) => {
                        actions.push(IgpAction::SendLink { link: self.routes[j].from, payload });
                    },
                    None => {},
                }
            },
        }
        actions
    }

    /// Takes an announcement.
    fn handle_update(&mut self, src: NodeId, metric: SeqMetric, dst: NodeId, now: Instant) -> (
        actions: Vec<IgpAction>)
        requires
            old(self)@.clock_fits(now),
        ensures
            (final(self)@, actions@) == old(self)@.on_update(src, metric, dst, now),
    {
        let ghost before = self@;
        let mut actions: Vec<IgpAction> = Vec::new();
        if dst == self.id {
            return actions;
        }
        let computed_metric = if metric.metric == UNREACHABLE {
            UNREACHABLE
        } else {
            match self.costs.get(&src) {
                None => UNREACHABLE - 1,
                Some(cost) => sum_metric(metric.metric, cost.cost),
            }
        };
        assert(computed_metric == before.metric_via(src, metric.metric));
        let source: Option<Source> = match self.sources.get(&dst) {
            Some(source) => Some(*source),
            None => None,
        };
        match find_route(&self.routes, dst, src) {
            None => {
                if metric.metric == UNREACHABLE {
                    return actions;
                }
                match source {
                    Some(source) => {
                        if !metric.feasible(&source.metric) {
                            return actions;
                        }
                    },
                    None => {},
                }
                self.routes.push(
                    Route {
                        metric,
                        computed_metric,
                        dst,
                        from: src,
                        timeout: now + self.params.route_timeout,
                        selected: false,
                    },
                );
            },
            Some(i) => {
                let mut route = self.routes[i];
                let source = match source {
                    Some(source) => source,
                    None => {
                        return actions;
                    },
                };
                if route.selected && !metric.feasible(&source.metric) {
                    return actions;
                }
                if metric.metric == UNREACHABLE {
                    route.metric.metric = UNREACHABLE;
                } else {
                    route.metric = metric;
                    route.timeout = now + self.params.route_timeout;
                }
                route.computed_metric = computed_metric;
                if !route.metric.feasible(&source.metric) {
                    route.selected = false;
                }
                self.routes.set(i, route);
            },
        }
        assert(Some(self.routes@) == before.routes_after_update(src, metric, dst, now));
        let answered = match self.requests.get(&dst) {
            Some(request) => metric.seq >= request.seq,
            None => false,
        };
        if answered {
            self.requests.remove(&dst);
            match find_route(&self.routes, dst, src) {
                Some(i) => {
                    actions.push(
                        IgpAction::Broadcast { payload: generate_update(&self.routes[i]) },
                    );
                },
                None => {
                    proof {
                        laws::lemma_updated_route_present(before, src, metric, dst, now);
                    }
                },
            }
        }
        self.select_route(now, &mut actions);
        actions
    }

    /// Takes a packet from `src`; without one, the protocol ends.
    pub fn handle_packet(&mut self, packet: Option<(NodeId, IgpPayload)>, now: Instant) -> (
        actions: Vec<IgpAction>)
        requires
            old(self)@.inv(),
            old(self)@.clock_fits(now),
        ensures
            match packet {
                Some((src, payload)) => (final(self)@, actions@) == old(self)@.on_packet(
                    src,
                    payload,
                    now,
                ),
                None => *final(self) == *old(self) && actions@ == seq![IgpAction::Stop],
            },
            final(self)@.inv(),
    {
        let ghost before = self@;
        let (src, payload) = match packet {
            Some(packet) => packet,
            None => {
                let mut actions: Vec<IgpAction> = Vec::new();
                actions.push(IgpAction::Stop);
                return actions;
            },
        };
        let actions = match payload {
            IgpPayload::Hello { seq } => {
                let mut actions: Vec<IgpAction> = Vec::new();
                actions.push(
                    IgpAction::SendLink { link: src, payload: IgpPayload::HelloReply { seq } },
                );
                actions
            },
            IgpPayload::HelloReply { seq } => self.handle_hello_reply(src, seq, now),
            IgpPayload::RouteRequest { dst } => self.handle_route_request(dst),
            IgpPayload::RouteDump => self.dump(Some(src), now),
            IgpPayload::SequenceRequest { seq, dst, ttl } => self.handle_sequence_request(
                src,
                seq,
                dst,
                ttl,
                now,
            ),
            IgpPayload::Update { metric, dst } => self.handle_update(src, metric, dst, now),
        };
        proof {
            laws::lemma_packet_keeps_inv(before, src, payload, now);
        }
        actions
    }

    /// The forwarding entries of all selected routes.
    pub fn export(&self) -> (actions: Vec<IgpAction>)
        ensures
            actions@ == export_actions(self@.routes),
    {
        let mut actions: Vec<IgpAction> = Vec::new();
        let mut i: usize = 0;
        while i < self.routes.len()
            invariant
                i <= self.routes.len(),
                actions@ == export_actions(self.routes@.take(i as int)),
            decreases self.routes.len() - i,
        {
            proof {
                assert(self.routes@.take(i + 1).drop_last() =~= self.routes@.take(i as int));
                assert(self.routes@.take(i + 1).last() == self.routes@[i as int]);
            }
            let route = self.routes[i];
            if route.selected {
                actions.push(IgpAction::SetRoute { dst: route.dst, next_hop: route.from });
            }
            i += 1;
        }
        proof {
            assert(self.routes@.take(self.routes.len() as int) =~= self.routes@);
        }
        actions
    }

    /// Takes the loss of the link to `node`.
    fn link_down(&mut self, node: NodeId, now: Instant) -> (actions: Vec<IgpAction>)
        requires
            old(self)@.clock_fits(now),
        ensures
            (final(self)@, actions@) == old(self)@.on_link_down(node, now),
    {
        let known: Option<Cost> = match self.costs.get(&node) {
            Some(cost) => Some(*cost),
            None => None,
        };
        match known {
            Some(mut cost) => {
                cost.cost = UNREACHABLE;
                self.costs.insert(node, cost);
            },
            None => {},
        }
        let mut actions: Vec<IgpAction> = Vec::new();
        self.update_route_costs(node, UNREACHABLE, now, &mut actions);
        actions
    }

    /// Reacts to an event.
    pub fn select(&mut self, event: IgpEvent, now: Instant) -> (actions: Vec<IgpAction>)
        requires
            old(self)@.inv(),
            old(self)@.clock_fits(now),
        ensures
            (final(self)@, actions@) == on_event(old(self)@, event, now),
            final(self)@.inv(),
    {
        let ghost before = self@;
        match event {
            IgpEvent::HelloTick { links } => self.hello(&links, now),
            IgpEvent::DumpTick => self.dump(None, now),
            IgpEvent::GcTick => self.gc(now),
            IgpEvent::Packet { packet } => self.handle_packet(packet, now),
            IgpEvent::LinkUp { link: _ } => self.export(),
            IgpEvent::LinkDown { link } => {
                let actions = self.link_down(link, now);
                proof {
                    laws::lemma_link_down_keeps_inv(before, link, now);
                }
                actions
            },
            IgpEvent::Other => Vec::new(),
            IgpEvent::Closed => {
                let mut actions: Vec<IgpAction> = Vec::new();
                actions.push(IgpAction::Stop);
                actions
            },
        }
    }

    /// All known routes.
    pub fn get_routes(&self) -> (routes: Vec<Route>)
        ensures
            routes@ == self@.routes,
    {
        let mut routes: Vec<Route> = Vec::new();
        let mut i: usize = 0;
        while i < self.routes.len()
            invariant
                i <= self.routes.len(),
                routes@ == self.routes@.take(i as int),
            decreases self.routes.len() - i,
        {
            assert(self.routes@.take(i + 1) =~= self.routes@.take(i as int).push(
                self.routes@[i as int],
            ));
            routes.push(self.routes[i]);
            i += 1;
        }
        assert(self.routes@.take(self.routes.len() as int) =~= self.routes@);
        routes
    }
}

impl Route {
    /// The route as text.
    pub open spec fn text(self) -> Seq<char> {
        "to "@ + hexadecimal(self.dst as int) + " via "@ + hexadecimal(self.from as int)
            + ", advertised metric "@ + decimal(self.metric.metric as int) + ", seq "@ + decimal(
            self.metric.seq.0 as int,
        ) + ", metric "@ + decimal(self.computed_metric as int) + ", selected: "@ + truth(
            self.selected,
        )
    }

    /// The route as text.
    pub fn describe(&self) -> (text: String)
        ensures
            text@ == self.text(),
    {
        let mut text = "to ".to_owned();
        push_hexadecimal(&mut text, self.dst as u64);
        text.append(" via ");
        push_hexadecimal(&mut text, self.from as u64);
        text.append(", advertised metric ");
        push_decimal(&mut text, self.metric.metric as u64);
        text.append(", seq ");
        push_decimal(&mut text, self.metric.seq.0 as u64);
        text.append(", metric ");
        push_decimal(&mut text, self.computed_metric as u64);
        text.append(", selected: ");
        push_truth(&mut text, self.selected);
        text
    }
}

/// Reaction to an event.
pub open spec fn on_event(state: IgpView, event: IgpEvent, now: Instant) -> (
    IgpView,
    Seq<IgpAction>,
) {
    match event {
        IgpEvent::HelloTick { links } => state.on_hello(links@, now),
        IgpEvent::DumpTick => state.on_dump(None, now),
        IgpEvent::GcTick => state.on_gc(now),
        IgpEvent::Packet { packet } => match packet {
            Some((src, payload)) => state.on_packet(src, payload, now),
            None => (state, seq![IgpAction::Stop]),
        },
        IgpEvent::LinkUp { link } => (state, export_actions(state.routes)),
        IgpEvent::LinkDown { link } => state.on_link_down(link, now),
        IgpEvent::Other => (state, Seq::empty()),
        IgpEvent::Closed => (state, seq![IgpAction::Stop]),
    }
}

} // verus!
